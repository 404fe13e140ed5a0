use crate::crypt::CryptState;
use crate::message::UserState;
use crate::target::{VoiceTarget, TARGET_SLOTS};
use vstd::prelude::*;

verus! {

/// A UDP peer: an IPv6 address (IPv4 peers in their mapped form) and a port.
#[derive(Debug, Clone, Copy, PartialEq, Eq, Structural, Hash)]
pub struct Endpoint {
    pub ip: u128,
    pub port: u16,
}

/// One connected user.
#[derive(Debug)]
pub struct Client {
    pub name: String,
    pub session_id: u32,
    pub channel_id: u32,
    pub mute: bool,
    pub deaf: bool,
    pub codecs: Vec<i32>,
    pub udp_socket_addr: Option<Endpoint>,
    pub targets: Vec<VoiceTarget>,
    /// Time of the last control-plane ping, in milliseconds.
    pub last_ping: u64,
    pub crypt_state: CryptState,
}

impl Client {
    pub open spec fn wf(&self) -> bool {
        &&& self.crypt_state.wf()
        &&& self.targets@.len() == TARGET_SLOTS
    }

    /// Slot of a wire target id: ids 1 to 29 have one.
    pub open spec fn slot_of(id: u8) -> Option<int> {
        if 1 <= id && id as int <= TARGET_SLOTS {
            Some(id - 1)
        } else {
            None
        }
    }

    /// The announcement of this client that others receive.
    pub open spec fn user_state_of(&self, st: UserState) -> bool {
        &&& st.session == Some(self.session_id)
        &&& st.user_id == Some(self.session_id)
        &&& st.channel_id == Some(self.channel_id)
        &&& st.name is Some && st.name->0@ == self.name@
        &&& st.mute is None && st.deaf is None
        &&& st.listening_channel_add@.len() == 0
        &&& st.listening_channel_remove@.len() == 0
    }

    pub fn new(name: String, session_id: u32, channel_id: u32, codecs: Vec<i32>, crypt_state: CryptState, now: u64) -> (r: Client)
        requires
            crypt_state.wf(),
        ensures
            r.crypt_state == crypt_state,
            r.wf(),
            r.name@ == name@,
            r.session_id == session_id,
            r.channel_id == channel_id,
            !r.mute,
            !r.deaf,
            r.codecs@ == codecs@,
            r.udp_socket_addr is None,
            r.last_ping == now,
            forall|k: int| 0 <= k < TARGET_SLOTS ==> (#[trigger] r.targets@[k]).session_set() == Set::<u32>::empty()
                && r.targets@[k].channel_set() == Set::<u32>::empty(),
    {
        let mut targets: Vec<VoiceTarget> = Vec::new();
        let mut i: usize = 0;
        while i < TARGET_SLOTS
            invariant
                i <= TARGET_SLOTS,
                targets@.len() == i,
                forall|k: int| 0 <= k < i ==> (#[trigger] targets@[k]).session_set() == Set::<u32>::empty()
                    && targets@[k].channel_set() == Set::<u32>::empty(),
            decreases TARGET_SLOTS - i,
        {
            targets.push(VoiceTarget::new());
            i = i + 1;
        }
        Client {
            name,
            session_id,
            channel_id,
            mute: false,
            deaf: false,
            codecs,
            udp_socket_addr: None,
            targets,
            last_ping: now,
            crypt_state,
        }
    }

    /// The whisper slot of wire target `id`, for ids 1 to 29.
    pub fn get_target(&self, id: u8) -> (r: Option<&VoiceTarget>)
        requires
            self.wf(),
        ensures
            Self::slot_of(id) is None ==> r is None,
            Self::slot_of(id) is Some ==> r == Some(&self.targets@[Self::slot_of(id)->0]),
    {
        if id >= 1 && (id as usize) <= TARGET_SLOTS {
            Some(&self.targets[(id - 1) as usize])
        } else {
            None
        }
    }

    pub fn get_name(&self) -> (r: &String)
        ensures
            r@ == self.name@,
    {
        &self.name
    }

    pub fn is_muted(&self) -> (r: bool)
        ensures
            r == self.mute,
    {
        self.mute
    }

    pub fn is_deaf(&self) -> (r: bool)
        ensures
            r == self.deaf,
    {
        self.deaf
    }

    pub fn set_mute(&mut self, mute: bool)
        ensures
            *final(self) == (Client { mute, ..*old(self) }),
    {
        self.mute = mute;
    }

    pub fn set_deaf(&mut self, deaf: bool)
        ensures
            *final(self) == (Client { deaf, ..*old(self) }),
    {
        self.deaf = deaf;
    }

    /// Takes the mute and deaf flags that `state` carries.
    pub fn update(&mut self, state: &UserState)
        ensures
            *final(self) == (Client {
                mute: if state.mute is Some { state.mute->0 } else { old(self).mute },
                deaf: if state.deaf is Some { state.deaf->0 } else { old(self).deaf },
                ..*old(self)
            }),
    {
        if let Some(m) = state.mute {
            self.set_mute(m);
        }
        if let Some(d) = state.deaf {
            self.set_deaf(d);
        }
    }

    /// Moves the client to `channel_id`; returns the channel it left, or
    /// `None` when it was there already.
    pub fn join_channel(&mut self, channel_id: u32) -> (r: Option<u32>)
        ensures
            *final(self) == (Client { channel_id, ..*old(self) }),
            r == if channel_id == old(self).channel_id { None } else { Some(old(self).channel_id) },
    {
        let current_channel = self.channel_id;
        if channel_id == current_channel {
            return None;
        }
        self.channel_id = channel_id;
        Some(current_channel)
    }

    pub fn get_user_state(&self) -> (r: UserState)
        ensures
            self.user_state_of(r),
    {
        UserState {
            session: Some(self.session_id),
            user_id: Some(self.session_id),
            name: Some(self.name.clone()),
            channel_id: Some(self.channel_id),
            mute: None,
            deaf: None,
            listening_channel_add: Vec::new(),
            listening_channel_remove: Vec::new(),
        }
    }

    /// Forgets the bound UDP peer and returns it.
    pub fn remove_udp_socket(&mut self) -> (r: Option<Endpoint>)
        ensures
            r == old(self).udp_socket_addr,
            *final(self) == (Client { udp_socket_addr: None, ..*old(self) }),
    {
        let r = self.udp_socket_addr;
        self.udp_socket_addr = None;
        r
    }
}

} // verus!
