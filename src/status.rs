use crate::janitor::{elapsed, elapsed_ms};
use crate::state::ServerState;
use crate::target::VoiceTarget;
use vstd::prelude::*;

verus! {

/// Admin view of a client's deaf flag.
#[derive(Debug)]
pub struct Deaf {
    pub deaf: bool,
    pub user: String,
}

/// Admin view of a client's mute flag.
#[derive(Debug)]
pub struct Mute {
    pub mute: bool,
    pub user: String,
}

/// Admin view of one whisper slot.
#[derive(Debug)]
pub struct MumbleTarget {
    pub sessions: Vec<u32>,
    pub channels: Vec<u32>,
}

/// Admin view of one connected client.
#[derive(Debug)]
pub struct MumbleClient {
    pub name: String,
    pub session_id: u32,
    pub channel: Option<String>,
    pub mute: bool,
    pub good: u32,
    pub late: u32,
    pub lost: u32,
    pub resync: u32,
    pub last_good_duration: u64,
    pub targets: Vec<MumbleTarget>,
}

pub fn copy_ids(v: &Vec<u32>) -> (r: Vec<u32>)
    ensures
        r@ == v@,
{
    let mut r: Vec<u32> = Vec::new();
    let mut k: usize = 0;
    while k < v.len()
        invariant
            k <= v@.len(),
            r@ == v@.subrange(0, k as int),
        decreases v@.len() - k,
    {
        r.push(v[k]);
        assert(v@.subrange(0, k + 1) =~= v@.subrange(0, k as int).push(v@[k as int]));
        k = k + 1;
    }
    assert(v@.subrange(0, v@.len() as int) =~= v@);
    r
}

impl MumbleTarget {
    pub fn from_target(t: &VoiceTarget) -> (r: MumbleTarget)
        ensures
            r.sessions@.no_duplicates(),
            r.channels@.no_duplicates(),
            forall|x: u32| #[trigger] r.sessions@.contains(x) <==> t.session_set().contains(x),
            forall|x: u32| #[trigger] r.channels@.contains(x) <==> t.channel_set().contains(x),
    {
        MumbleTarget { sessions: t.session_ids(), channels: t.channel_ids() }
    }
}

impl ServerState {
    /// Client `i` is the first whose name is `name`.
    pub open spec fn first_client_named(&self, i: int, name: Seq<char>) -> bool {
        &&& 0 <= i < self.clients@.len()
        &&& self.clients@[i].name@ == name
        &&& forall|k: int| 0 <= k < i ==> (#[trigger] self.clients@[k]).name@ != name
    }

    /// The session of the first client named `name`.
    pub fn get_client_by_name(&self, name: &str) -> (r: Option<u32>)
        ensures
            r is Some ==> exists|i: int| #[trigger] self.first_client_named(i, name@) && self.clients@[i].session_id == r->0,
            r is None ==> forall|i: int| 0 <= i < self.clients@.len() ==> (#[trigger] self.clients@[i]).name@ != name@,
    {
        let key = name.to_owned();
        let mut i: usize = 0;
        while i < self.clients.len()
            invariant
                i <= self.clients@.len(),
                key@ == name@,
                forall|k: int| 0 <= k < i ==> (#[trigger] self.clients@[k]).name@ != name@,
            decreases self.clients@.len() - i,
        {
            if self.clients[i].name == key {
                assert(self.first_client_named(i as int, name@));
                return Some(self.clients[i].session_id);
            }
            i = i + 1;
        }
        None
    }

    /// The admin view of client `s` at time `now`.
    pub fn client_status(&self, s: u32, now: u64) -> (r: Option<MumbleClient>)
        requires
            self.wf(),
        ensures
            r is None <==> !self.has_session(s),
            forall|i: int| #[trigger] self.client_at(i, s) ==> {
                let c = self.clients@[i];
                let m = r->0;
                &&& m.name@ == c.name@
                &&& m.session_id == s
                &&& m.mute == c.mute
                &&& m.good == c.crypt_state.good && m.late == c.crypt_state.late
                &&& m.lost == c.crypt_state.lost && m.resync == c.crypt_state.resync
                &&& m.last_good_duration == elapsed(now, c.crypt_state.last_good)
                &&& (m.channel is Some <==> self.has_channel(c.channel_id))
                &&& forall|j: int| #[trigger] self.channel_at(j, c.channel_id) ==> m.channel->0@ == self.channels@[j].name@
                &&& m.targets@.len() == c.targets@.len()
                &&& forall|k: int, x: u32| 0 <= k < c.targets@.len() ==> (#[trigger] m.targets@[k].sessions@.contains(x)
                    <==> c.targets@[k].session_set().contains(x))
                &&& forall|k: int, x: u32| 0 <= k < c.targets@.len() ==> (#[trigger] m.targets@[k].channels@.contains(x)
                    <==> c.targets@[k].channel_set().contains(x))
            },
    {
        proof {
            crate::state::lemma_unique_indices(*self);
        }
        let i = match self.find_client(s) {
            None => {
                return None;
            },
            Some(i) => i,
        };
        let c = &self.clients[i];
        let channel = match self.find_channel(c.channel_id) {
            None => None,
            Some(j) => Some(self.channels[j].name.clone()),
        };
        let mut targets: Vec<MumbleTarget> = Vec::new();
        let mut k: usize = 0;
        while k < c.targets.len()
            invariant
                k <= c.targets@.len(),
                targets@.len() == k,
                forall|n: int, x: u32| 0 <= n < k ==> (#[trigger] targets@[n].sessions@.contains(x)
                    <==> c.targets@[n].session_set().contains(x)),
                forall|n: int, x: u32| 0 <= n < k ==> (#[trigger] targets@[n].channels@.contains(x)
                    <==> c.targets@[n].channel_set().contains(x)),
            decreases c.targets@.len() - k,
        {
            targets.push(MumbleTarget::from_target(&c.targets[k]));
            k = k + 1;
        }
        let cs = &c.crypt_state;
        Some(MumbleClient {
            name: c.name.clone(),
            session_id: s,
            channel,
            mute: c.mute,
            good: cs.good,
            late: cs.late,
            lost: cs.lost,
            resync: cs.resync,
            last_good_duration: elapsed_ms(now, cs.last_good),
            targets,
        })
    }
}

} // verus!
