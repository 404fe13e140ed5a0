use crate::dash::{id_set_contents, id_set_insert, id_set_new, id_set_values};
use dashmap::DashSet;
use crate::message::TargetItem;
use vstd::prelude::*;

verus! {

/// Number of whisper slots a client has: wire targets 1 to 30 use slots 0 to 29.
pub const TARGET_SLOTS: usize = 29;

/// One whisper slot of a client: the sessions and channels it speaks to.
#[derive(Debug)]
pub struct VoiceTarget {
    pub sessions: DashSet<u32>,
    pub channels: DashSet<u32>,
}

impl VoiceTarget {
    pub open spec fn session_set(&self) -> Set<u32> {
        id_set_contents(self.sessions)
    }

    pub open spec fn channel_set(&self) -> Set<u32> {
        id_set_contents(self.channels)
    }

    pub fn new() -> (r: VoiceTarget)
        ensures
            r.session_set() == Set::<u32>::empty(),
            r.channel_set() == Set::<u32>::empty(),
    {
        VoiceTarget { sessions: id_set_new(), channels: id_set_new() }
    }

    /// The sessions of this slot, each once.
    pub fn session_ids(&self) -> (r: Vec<u32>)
        ensures
            r@.no_duplicates(),
            forall|x: u32| #[trigger] r@.contains(x) <==> self.session_set().contains(x),
    {
        id_set_values(&self.sessions)
    }

    /// The channels of this slot, each once.
    pub fn channel_ids(&self) -> (r: Vec<u32>)
        ensures
            r@.no_duplicates(),
            forall|x: u32| #[trigger] r@.contains(x) <==> self.channel_set().contains(x),
    {
        id_set_values(&self.channels)
    }
}

/// Sessions named by any item of a voice-target request.
pub open spec fn requested_sessions(items: Seq<TargetItem>) -> Set<u32> {
    Set::new(|s: u32| exists|k: int| 0 <= k < items.len() && (#[trigger] items[k]).session@.contains(s))
}

/// Channels named by the items of a voice-target request that carry one.
pub open spec fn requested_channels(items: Seq<TargetItem>) -> Set<u32> {
    Set::new(|c: u32| exists|k: int| 0 <= k < items.len() && (#[trigger] items[k]).channel_id == Some(c))
}

impl VoiceTarget {
    /// The slot that a request's items describe: the union of their sessions
    /// and the channels of those items that name one.
    pub fn from_items(items: &Vec<TargetItem>) -> (r: VoiceTarget)
        ensures
            r.session_set() == requested_sessions(items@),
            r.channel_set() == requested_channels(items@),
    {
        let mut r = VoiceTarget::new();
        let mut i: usize = 0;
        while i < items.len()
            invariant
                i <= items@.len(),
                forall|x: u32| #[trigger] r.session_set().contains(x) <==> exists|k: int|
                    0 <= k < i && (#[trigger] items@[k]).session@.contains(x),
                forall|x: u32| #[trigger] r.channel_set().contains(x) <==> exists|k: int|
                    0 <= k < i && (#[trigger] items@[k]).channel_id == Some(x),
            decreases items@.len() - i,
        {
            let item = &items[i];
            let mut m: usize = 0;
            while m < item.session.len()
                invariant
                    i < items@.len(),
                    item == &items@[i as int],
                    m <= item.session@.len(),
                    forall|x: u32| #[trigger] r.session_set().contains(x) <==> (exists|k: int|
                        0 <= k < i && (#[trigger] items@[k]).session@.contains(x))
                        || item.session@.subrange(0, m as int).contains(x),
                    forall|x: u32| #[trigger] r.channel_set().contains(x) <==> exists|k: int|
                        0 <= k < i && (#[trigger] items@[k]).channel_id == Some(x),
                decreases item.session@.len() - m,
            {
                let ghost before_s = r.session_set();
                let ghost before_c = r.channel_set();
                id_set_insert(&mut r.sessions, item.session[m]);
                assert(r.channel_set() == before_c);
                assert(r.session_set() == before_s.insert(item.session@[m as int]));
                proof {
                    let pre = item.session@.subrange(0, m as int);
                    let next = item.session@.subrange(0, m + 1);
                    assert(next =~= pre.push(item.session@[m as int]));
                    assert forall|x: u32| next.contains(x) <==> (pre.contains(x) || x == item.session@[m as int]) by {
                        if next.contains(x) {
                            let k = choose|k: int| 0 <= k < next.len() && next[k] == x;
                            if k < pre.len() {
                                assert(pre[k] == x);
                            }
                        }
                        if pre.contains(x) {
                            let k = choose|k: int| 0 <= k < pre.len() && pre[k] == x;
                            assert(next[k] == x);
                        }
                        if x == item.session@[m as int] {
                            assert(next[m as int] == x);
                        }
                    }
                }
                m = m + 1;
            }
            proof {
                assert(item.session@.subrange(0, item.session@.len() as int) =~= item.session@);
                assert forall|x: u32| #[trigger] r.session_set().contains(x) <==> exists|k: int|
                    0 <= k < i + 1 && (#[trigger] items@[k]).session@.contains(x) by {
                    if item.session@.contains(x) {
                        assert(items@[i as int].session@.contains(x));
                    }
                    if exists|k: int| 0 <= k < i + 1 && (#[trigger] items@[k]).session@.contains(x) {
                        let k = choose|k: int| 0 <= k < i + 1 && (#[trigger] items@[k]).session@.contains(x);
                        if k < i {
                            assert(exists|k: int| 0 <= k < i && (#[trigger] items@[k]).session@.contains(x));
                        }
                    }
                }
            }
            let ghost sessions_now = r.session_set();
            let ghost channels_before = r.channel_set();
            if let Some(c) = item.channel_id {
                id_set_insert(&mut r.channels, c);
                assert(r.channel_set() == channels_before.insert(c));
            }
            assert(r.session_set() == sessions_now);
            proof {
                assert forall|x: u32| #[trigger] r.channel_set().contains(x) <==> exists|k: int|
                    0 <= k < i + 1 && (#[trigger] items@[k]).channel_id == Some(x) by {
                    if item.channel_id == Some(x) {
                        assert(items@[i as int].channel_id == Some(x));
                    }
                    if exists|k: int| 0 <= k < i + 1 && (#[trigger] items@[k]).channel_id == Some(x) {
                        let k = choose|k: int| 0 <= k < i + 1 && (#[trigger] items@[k]).channel_id == Some(x);
                        if k < i {
                            assert(exists|k: int| 0 <= k < i && (#[trigger] items@[k]).channel_id == Some(x));
                        }
                    }
                }
            }
            i = i + 1;
        }
        assert(r.session_set() =~= requested_sessions(items@));
        assert(r.channel_set() =~= requested_channels(items@));
        r
    }
}

} // verus!
