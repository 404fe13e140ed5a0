use crate::client::Client;
use crate::membership::announces_user;
use crate::message::{sends_control, ClientMessage, ControlMessage, Delivery, ServerConfig, ServerSync};
use crate::state::ServerState;
use crate::udp::MAX_BANDWIDTH;
use std::sync::Arc;
use vstd::prelude::*;

verus! {

/// Longest text message clients may send.
pub const MESSAGE_LENGTH: u32 = 512;

/// `d` announces channel `ch` to client `s`.
pub open spec fn channel_to(d: Delivery, s: u32, ch: crate::channel::Channel) -> bool {
    &&& d.to == s
    &&& d.message is SendMessage
    &&& *(d.message->SendMessage_0) is ChannelState
    &&& ch.state_of((*(d.message->SendMessage_0))->ChannelState_0)
}

/// `d` announces client `c` to client `s`.
pub open spec fn user_to(d: Delivery, s: u32, c: Client) -> bool {
    d.to == s && announces_user(d, c)
}

/// `d` is the ServerSync for `s` with this welcome text.
pub open spec fn sync_to(d: Delivery, s: u32, welcome: Seq<char>) -> bool {
    &&& d.to == s
    &&& d.message is SendMessage
    &&& *(d.message->SendMessage_0) is ServerSync
    &&& {
        let m = (*(d.message->SendMessage_0))->ServerSync_0;
        m.session == s && m.max_bandwidth == MAX_BANDWIDTH && m.welcome_text@ == welcome
    }
}

impl ServerState {
    /// What a client that finished its handshake as `s` is sent, in order:
    /// every channel, every connected client, its own state, the ServerSync
    /// and the ServerConfig; then every other client is told of it.
    pub fn welcome(&self, s: u32, welcome_text: &str) -> (r: Vec<Delivery>)
        requires
            self.wf(),
        ensures
            !self.has_session(s) ==> r@.len() == 0,
            forall|i: int| #[trigger] self.client_at(i, s) ==> {
                let nch = self.channels@.len() as int;
                let ncl = self.clients@.len() as int;
                &&& r@.len() == nch + ncl + 3 + (ncl - 1)
                &&& forall|j: int| 0 <= j < nch ==> channel_to(#[trigger] r@[j], s, self.channels@[j])
                &&& forall|k: int| 0 <= k < ncl ==> user_to(#[trigger] r@[nch + k], s, self.clients@[k])
                &&& user_to(r@[nch + ncl], s, self.clients@[i])
                &&& sync_to(r@[nch + ncl + 1], s, welcome_text@)
                &&& r@[nch + ncl + 2].to == s
                &&& sends_control(r@[nch + ncl + 2], ControlMessage::ServerConfig(ServerConfig {
                    allow_html: true,
                    message_length: MESSAGE_LENGTH,
                    image_message_length: 0,
                }))
                &&& forall|k: int| 0 <= k < ncl - 1 ==> {
                    let other = if k < i { k } else { k + 1 };
                    &&& (#[trigger] r@[nch + ncl + 3 + k]).to == self.clients@[other].session_id
                    &&& announces_user(r@[nch + ncl + 3 + k], self.clients@[i])
                }
            },
    {
        let mut out: Vec<Delivery> = Vec::new();
        let i = match self.find_client(s) {
            None => {
                return out;
            },
            Some(i) => i,
        };
        let mut j: usize = 0;
        while j < self.channels.len()
            invariant
                j <= self.channels@.len(),
                out@.len() == j,
                forall|n: int| 0 <= n < j ==> channel_to(#[trigger] out@[n], s, self.channels@[n]),
            decreases self.channels@.len() - j,
        {
            let st = self.channels[j].get_channel_state();
            out.push(Delivery { to: s, message: ClientMessage::SendMessage(Arc::new(ControlMessage::ChannelState(st))) });
            j = j + 1;
        }
        let nch = self.channels.len();
        let mut k: usize = 0;
        while k < self.clients.len()
            invariant
                nch == self.channels@.len(),
                k <= self.clients@.len(),
                out@.len() == nch + k,
                forall|n: int| 0 <= n < nch ==> channel_to(#[trigger] out@[n], s, self.channels@[n]),
                forall|n: int| 0 <= n < k ==> user_to(#[trigger] out@[nch + n], s, self.clients@[n]),
            decreases self.clients@.len() - k,
        {
            let st = self.clients[k].get_user_state();
            out.push(Delivery { to: s, message: ClientMessage::SendMessage(Arc::new(ControlMessage::UserState(st))) });
            proof {
                assert forall|n: int| 0 <= n < k + 1 implies user_to(#[trigger] out@[nch + n], s, self.clients@[n]) by {
                    if n == k {
                        assert(out@[nch + n] == out@[out@.len() - 1]);
                    }
                }
            }
            k = k + 1;
        }
        let own = self.clients[i].get_user_state();
        out.push(Delivery { to: s, message: ClientMessage::SendMessage(Arc::new(ControlMessage::UserState(own))) });
        let sync = ServerSync { session: s, max_bandwidth: MAX_BANDWIDTH, welcome_text: welcome_text.to_owned() };
        out.push(Delivery { to: s, message: ClientMessage::SendMessage(Arc::new(ControlMessage::ServerSync(sync))) });
        let config = ServerConfig { allow_html: true, message_length: MESSAGE_LENGTH, image_message_length: 0 };
        out.push(Delivery { to: s, message: ClientMessage::SendMessage(Arc::new(ControlMessage::ServerConfig(config))) });
        let ncl = self.clients.len();
        let announced = Arc::new(ControlMessage::UserState(self.clients[i].get_user_state()));
        let ghost base = out@.len();
        let mut k: usize = 0;
        while k < self.clients.len()
            invariant
                self.client_at(i as int, s),
                nch == self.channels@.len(),
                ncl == self.clients@.len(),
                base == nch + ncl + 3,
                k <= ncl,
                out@.len() == base + if k <= i { k as int } else { k - 1 },
                *announced is UserState && self.clients@[i as int].user_state_of((*announced)->UserState_0),
                forall|n: int| 0 <= n < nch ==> channel_to(#[trigger] out@[n], s, self.channels@[n]),
                forall|n: int| 0 <= n < ncl ==> user_to(#[trigger] out@[nch + n], s, self.clients@[n]),
                user_to(out@[nch + ncl], s, self.clients@[i as int]),
                sync_to(out@[nch + ncl + 1], s, welcome_text@),
                out@[nch + ncl + 2].to == s,
                sends_control(out@[nch + ncl + 2], ControlMessage::ServerConfig(ServerConfig {
                    allow_html: true,
                    message_length: MESSAGE_LENGTH,
                    image_message_length: 0,
                })),
                forall|n: int| 0 <= n < out@.len() - base ==> {
                    let other = if n < i { n } else { n + 1 };
                    &&& (#[trigger] out@[base + n]).to == self.clients@[other].session_id
                    &&& announces_user(out@[base + n], self.clients@[i as int])
                },
            decreases ncl - k,
        {
            if k != i {
                let ghost before = out@;
                out.push(Delivery { to: self.clients[k].session_id, message: ClientMessage::SendMessage(Arc::clone(&announced)) });
                proof {
                    assert forall|n: int| 0 <= n < out@.len() - base implies {
                        let other = if n < i { n } else { n + 1 };
                        &&& (#[trigger] out@[base + n]).to == self.clients@[other].session_id
                        &&& announces_user(out@[base + n], self.clients@[i as int])
                    } by {
                        if base + n < before.len() {
                            assert(out@[base + n] == before[base + n]);
                        }
                    }
                }
            }
            k = k + 1;
        }
        out
    }
}

} // verus!
