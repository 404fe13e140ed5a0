use crate::client::Client;
use crate::idset::insert_value;
use crate::message::{ClientMessage, Delivery};
use crate::state::{lemma_unique_indices, ServerState};
use crate::target::TARGET_SLOTS;
use crate::voice::{VoicePacket, TARGET_CHANNEL, TARGET_LOOPBACK};
use std::sync::Arc;
use vstd::prelude::*;

verus! {

impl ServerState {
    /// Residents and listeners of the channel with id `c`.
    pub open spec fn channel_audience(&self, c: u32) -> Set<u32> {
        Set::new(|r: u32| exists|j: int| #[trigger] self.channel_at(j, c)
            && (self.channels@[j].clients@.contains(r) || self.channels@[j].listeners@.contains(r)))
    }

    /// Who a frame with `target` from `sender` is meant for, before the
    /// sender itself and deaf clients are left out.
    pub open spec fn audience(&self, sender: Client, target: u8) -> Set<u32> {
        if target == TARGET_CHANNEL {
            self.channel_audience(sender.channel_id)
        } else if 1 <= target && target as int <= TARGET_SLOTS {
            let slot = sender.targets@[target - 1];
            Set::new(|r: u32| (slot.session_set().contains(r) && self.has_session(r))
                || exists|c: u32| #[trigger] slot.channel_set().contains(c) && self.channel_audience(c).contains(r))
        } else {
            Set::empty()
        }
    }

    /// Whether the connected client `r` is deafened.
    pub open spec fn is_deaf_session(&self, r: u32) -> bool {
        exists|i: int| #[trigger] self.client_at(i, r) && self.clients@[i].deaf
    }

    /// Adds the residents and listeners of channel `j` to `acc`.
    fn collect_channel(&self, j: usize, acc: &mut Vec<u32>)
        requires
            self.wf(),
            j < self.channels@.len(),
            old(acc)@.no_duplicates(),
        ensures
            final(acc)@.no_duplicates(),
            forall|r: u32| #[trigger] final(acc)@.contains(r) <==> (old(acc)@.contains(r)
                || self.channels@[j as int].clients@.contains(r) || self.channels@[j as int].listeners@.contains(r)),
    {
        let ch = &self.channels[j];
        let mut k: usize = 0;
        while k < ch.clients.len()
            invariant
                ch == &self.channels@[j as int],
                k <= ch.clients@.len(),
                acc@.no_duplicates(),
                forall|r: u32| #[trigger] acc@.contains(r) <==> (old(acc)@.contains(r)
                    || ch.clients@.subrange(0, k as int).contains(r)),
            decreases ch.clients@.len() - k,
        {
            insert_value(acc, ch.clients[k]);
            proof {
                lemma_prefix_step(ch.clients@, k as int);
            }
            k = k + 1;
        }
        assert(ch.clients@.subrange(0, ch.clients@.len() as int) =~= ch.clients@);
        let ghost mid = acc@;
        let mut k: usize = 0;
        while k < ch.listeners.len()
            invariant
                ch == &self.channels@[j as int],
                k <= ch.listeners@.len(),
                acc@.no_duplicates(),
                forall|r: u32| #[trigger] acc@.contains(r) <==> (mid.contains(r)
                    || ch.listeners@.subrange(0, k as int).contains(r)),
            decreases ch.listeners@.len() - k,
        {
            insert_value(acc, ch.listeners[k]);
            proof {
                lemma_prefix_step(ch.listeners@, k as int);
            }
            k = k + 1;
        }
        assert(ch.listeners@.subrange(0, ch.listeners@.len() as int) =~= ch.listeners@);
    }
}

/// Where a voice frame goes.
#[derive(Debug)]
pub enum VoiceRoute {
    /// Straight back to its sender, bypassing every queue.
    Loopback(VoicePacket),
    /// Onto these recipients' queues.
    Fanout(Vec<Delivery>),
}

/// `d` hands `packet` to its recipient's queue.
pub open spec fn carries_voice(d: Delivery, packet: VoicePacket) -> bool {
    d.message is SendVoicePacket && *(d.message->SendVoicePacket_0) == packet
}

/// Some delivery of `ds` goes to `r`.
pub open spec fn delivered_to(ds: Seq<Delivery>, r: u32) -> bool {
    exists|q: int| 0 <= q < ds.len() && (#[trigger] ds[q]).to == r
}

/// No two deliveries of `ds` go to the same client.
pub open spec fn one_per_recipient(ds: Seq<Delivery>) -> bool {
    forall|q1: int, q2: int| 0 <= q1 < q2 < ds.len() ==> (#[trigger] ds[q1]).to != (#[trigger] ds[q2]).to
}

impl ServerState {
    /// Whether client `r` receives a frame with `target` from `sender`:
    /// it is in the audience, is not deafened, and is not the sender.
    pub open spec fn hears(&self, sender: Client, target: u8, r: u32) -> bool {
        &&& self.audience(sender, target).contains(r)
        &&& !self.is_deaf_session(r)
        &&& r != sender.session_id
    }

    /// Routes a voice frame from `sender`.
    ///
    /// Nothing is sent when the sender is unknown or muted, or for a ping.
    /// Target 31 is loopback: the frame goes straight back to the sender
    /// and no queue receives anything. Otherwise every client that `hears`
    /// the frame gets exactly one delivery of it on its queue.
    pub fn route_voice_packet(&self, sender: u32, packet: VoicePacket) -> (r: VoiceRoute)
        requires
            self.wf(),
        ensures
            r is Fanout ==> forall|q: int| 0 <= q < r->Fanout_0@.len() ==> carries_voice(#[trigger] r->Fanout_0@[q], packet),
            !self.has_session(sender) ==> r is Fanout && r->Fanout_0@.len() == 0,
            forall|i: int| #[trigger] self.client_at(i, sender) ==> {
                let c = self.clients@[i];
                if c.mute || !(packet is Audio) {
                    r is Fanout && r->Fanout_0@.len() == 0
                } else if packet->Audio_target == TARGET_LOOPBACK {
                    r == VoiceRoute::Loopback(packet)
                } else {
                    &&& r is Fanout
                    &&& one_per_recipient(r->Fanout_0@)
                    &&& forall|x: u32| delivered_to(r->Fanout_0@, x) <==> self.hears(c, packet->Audio_target, x)
                }
            },
    {
        let mut out: Vec<Delivery> = Vec::new();
        let i = match self.find_client(sender) {
            None => {
                return VoiceRoute::Fanout(out);
            },
            Some(i) => i,
        };
        proof {
            lemma_unique_indices(*self);
        }
        let c = &self.clients[i];
        if c.mute {
            return VoiceRoute::Fanout(out);
        }
        let target = match &packet {
            VoicePacket::Ping { .. } => {
                return VoiceRoute::Fanout(out);
            },
            VoicePacket::Audio { target, .. } => *target,
        };
        if target == TARGET_LOOPBACK {
            return VoiceRoute::Loopback(packet);
        }
        let shared = Arc::new(packet);
        let mut acc: Vec<u32> = Vec::new();
        if target == TARGET_CHANNEL {
            match self.find_channel(c.channel_id) {
                Some(j) => {
                    self.collect_channel(j, &mut acc);
                },
                None => {},
            }
            proof {
                assert forall|x: u32| acc@.contains(x) <==> self.audience(*c, target).contains(x) by {
                    assert(self.has_channel(c.channel_id));
                }
            }
        } else if target >= 1 && (target as usize) <= TARGET_SLOTS {
            let slot = &c.targets[(target - 1) as usize];
            let sessions = slot.session_ids();
            let mut k: usize = 0;
            while k < sessions.len()
                invariant
                    self.wf(),
                    slot == &c.targets@[target - 1],
                    k <= sessions@.len(),
                    acc@.no_duplicates(),
                    forall|x: u32| #[trigger] acc@.contains(x) <==> (sessions@.subrange(0, k as int).contains(x)
                        && self.has_session(x)),
                decreases sessions@.len() - k,
            {
                let x = sessions[k];
                proof {
                    lemma_prefix_step(sessions@, k as int);
                }
                if self.find_client(x).is_some() {
                    insert_value(&mut acc, x);
                }
                k = k + 1;
            }
            assert(sessions@.subrange(0, sessions@.len() as int) =~= sessions@);
            let ghost by_session = acc@;
            let channels = slot.channel_ids();
            let mut k: usize = 0;
            while k < channels.len()
                invariant
                    self.wf(),
                    slot == &c.targets@[target - 1],
                    k <= channels@.len(),
                    acc@.no_duplicates(),
                    forall|x: u32| #[trigger] acc@.contains(x) <==> (by_session.contains(x)
                        || exists|ch: u32| #[trigger] channels@.subrange(0, k as int).contains(ch)
                            && self.channel_audience(ch).contains(x)),
                decreases channels@.len() - k,
            {
                let ch = channels[k];
                proof {
                    lemma_prefix_step(channels@, k as int);
                }
                let ghost before = acc@;
                match self.find_channel(ch) {
                    Some(j) => {
                        self.collect_channel(j, &mut acc);
                    },
                    None => {},
                }
                proof {
                    let next = channels@.subrange(0, k + 1);
                    let pre = channels@.subrange(0, k as int);
                    assert forall|x: u32| #[trigger] acc@.contains(x) <==> (by_session.contains(x)
                        || exists|d: u32| #[trigger] next.contains(d) && self.channel_audience(d).contains(x)) by {
                        if acc@.contains(x) && !before.contains(x) {
                            assert(next.contains(ch));
                            assert(self.channel_audience(ch).contains(x));
                        }
                        if before.contains(x) && !by_session.contains(x) {
                            let d = choose|d: u32| #[trigger] pre.contains(d) && self.channel_audience(d).contains(x);
                            assert(next.contains(d));
                        }
                        if exists|d: u32| #[trigger] next.contains(d) && self.channel_audience(d).contains(x) {
                            let d = choose|d: u32| #[trigger] next.contains(d) && self.channel_audience(d).contains(x);
                            if d != ch {
                                assert(pre.contains(d));
                                assert(before.contains(x));
                            } else {
                                let j2 = choose|j2: int| #[trigger] self.channel_at(j2, d)
                                    && (self.channels@[j2].clients@.contains(x) || self.channels@[j2].listeners@.contains(x));
                                assert(self.has_channel(ch));
                            }
                        }
                    }
                }
                k = k + 1;
            }
            proof {
                assert(channels@.subrange(0, channels@.len() as int) =~= channels@);
                assert forall|x: u32| acc@.contains(x) <==> self.audience(*c, target).contains(x) by {
                    if acc@.contains(x) && !by_session.contains(x) {
                        let d = choose|d: u32| #[trigger] channels@.contains(d) && self.channel_audience(d).contains(x);
                        assert(slot.channel_set().contains(d));
                    }
                    if self.audience(*c, target).contains(x) && !(slot.session_set().contains(x) && self.has_session(x)) {
                        let d = choose|d: u32| #[trigger] slot.channel_set().contains(d) && self.channel_audience(d).contains(x);
                        assert(channels@.contains(d));
                    }
                }
            }
        }
        proof {
            assert forall|x: u32| acc@.contains(x) implies self.has_session(x) by {
                if target == TARGET_CHANNEL || target as int > TARGET_SLOTS {
                    let j = choose|j: int| #[trigger] self.channel_at(j, c.channel_id)
                        && (self.channels@[j].clients@.contains(x) || self.channels@[j].listeners@.contains(x));
                    if self.channels@[j].clients@.contains(x) {
                        let i2 = choose|i2: int| self.client_at(i2, x) && (#[trigger] self.clients@[i2]).channel_id
                            == self.channels@[j].id;
                        assert(self.client_at(i2, x));
                    } else {
                        assert(self.channels@[j].id < self.channel_count);
                    }
                } else if !by_session_holds(*self, *c, target, x) {
                    let slot = c.targets@[target - 1];
                    let d = choose|d: u32| #[trigger] slot.channel_set().contains(d) && self.channel_audience(d).contains(x);
                    let j = choose|j: int| #[trigger] self.channel_at(j, d)
                        && (self.channels@[j].clients@.contains(x) || self.channels@[j].listeners@.contains(x));
                    if self.channels@[j].clients@.contains(x) {
                        let i2 = choose|i2: int| self.client_at(i2, x) && (#[trigger] self.clients@[i2]).channel_id
                            == self.channels@[j].id;
                        assert(self.client_at(i2, x));
                    } else {
                        assert(self.channels@[j].id < self.channel_count);
                    }
                }
            }
        }
        let mut m: usize = 0;
        while m < acc.len()
            invariant
                self.wf(),
                self.client_at(i as int, sender),
                *c == self.clients@[i as int],
                m <= acc@.len(),
                acc@.no_duplicates(),
                forall|x: u32| acc@.contains(x) ==> self.has_session(x),
                forall|x: u32| acc@.contains(x) <==> self.audience(*c, target).contains(x),
                *shared == packet,
                forall|q: int| 0 <= q < out@.len() ==> carries_voice(#[trigger] out@[q], packet),
                forall|q: int| 0 <= q < out@.len() ==> exists|n: int| 0 <= n < m && acc@[n] == (#[trigger] out@[q]).to,
                forall|q: int| 0 <= q < out@.len() ==> self.hears(*c, target, (#[trigger] out@[q]).to),
                forall|n: int| 0 <= n < m && self.hears(*c, target, #[trigger] acc@[n]) ==> delivered_to(out@, acc@[n]),
                one_per_recipient(out@),
            decreases acc@.len() - m,
        {
            let x = acc[m];
            assert(acc@.contains(x));
            let ghost before = out@;
            match self.find_client(x) {
                Some(ix) => {
                    let deaf = self.clients[ix].deaf;
                    proof {
                        assert(deaf == self.is_deaf_session(x));
                    }
                    if !deaf && x != sender {
                        out.push(Delivery { to: x, message: ClientMessage::SendVoicePacket(Arc::clone(&shared)) });
                        proof {
                            assert forall|q: int| 0 <= q < before.len() implies (#[trigger] out@[q]).to != x by {
                                let n = choose|n: int| 0 <= n < m && acc@[n] == before[q].to;
                                assert(acc@[n] != acc@[m as int]);
                            }
                            assert(delivered_to(out@, x)) by {
                                assert(out@[before.len() as int].to == x);
                            }
                        }
                    }
                },
                None => {},
            }
            proof {
                assert forall|q: int| 0 <= q < out@.len() implies exists|n: int| 0 <= n < m + 1 && acc@[n]
                    == (#[trigger] out@[q]).to by {
                    if q < before.len() {
                        assert(out@[q] == before[q]);
                        let n = choose|n: int| 0 <= n < m && acc@[n] == before[q].to;
                    } else {
                        assert(acc@[m as int] == out@[q].to);
                    }
                }
                assert forall|n: int| 0 <= n < m + 1 && self.hears(*c, target, #[trigger] acc@[n]) implies delivered_to(out@, acc@[n]) by {
                    if n < m {
                        let q = choose|q: int| 0 <= q < before.len() && (#[trigger] before[q]).to == acc@[n];
                        assert(out@[q] == before[q]);
                    }
                }
            }
            m = m + 1;
        }
        proof {
            assert forall|x: u32| delivered_to(out@, x) <==> self.hears(*c, target, x) by {
                if self.hears(*c, target, x) {
                    assert(acc@.contains(x));
                    let n = choose|n: int| 0 <= n < acc@.len() && acc@[n] == x;
                }
            }
        }
        VoiceRoute::Fanout(out)
    }
}

/// `x` is among the connected sessions that slot `target - 1` of `c` names.
pub open spec fn by_session_holds(st: ServerState, c: Client, target: u8, x: u32) -> bool {
    c.targets@[target - 1].session_set().contains(x) && st.has_session(x)
}

/// Membership in a prefix grows by one element per step.
pub proof fn lemma_prefix_step(s: Seq<u32>, k: int)
    requires
        0 <= k < s.len(),
    ensures
        forall|x: u32| #[trigger] s.subrange(0, k + 1).contains(x) <==> (s.subrange(0, k).contains(x) || x == s[k]),
{
    let pre = s.subrange(0, k);
    let next = s.subrange(0, k + 1);
    assert forall|x: u32| next.contains(x) <==> (pre.contains(x) || x == s[k]) by {
        if next.contains(x) {
            let q = choose|q: int| 0 <= q < next.len() && next[q] == x;
            if q < pre.len() {
                assert(pre[q] == x);
            }
        }
        if pre.contains(x) {
            let q = choose|q: int| 0 <= q < pre.len() && pre[q] == x;
            assert(next[q] == x);
        }
        if x == s[k] {
            assert(next[k] == x);
        }
    }
}

} // verus!
