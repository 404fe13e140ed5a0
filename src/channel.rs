use crate::message::ChannelState;
use vstd::prelude::*;

verus! {

/// Id of the permanent root channel.
pub const ROOT_CHANNEL: u32 = 0;

/// A named group of clients. Residents hear each other; listeners hear the
/// channel without being in it. Both are sets of session ids.
#[derive(Debug)]
pub struct Channel {
    pub id: u32,
    pub parent_id: Option<u32>,
    pub name: String,
    pub description: String,
    pub temporary: bool,
    pub listeners: Vec<u32>,
    pub clients: Vec<u32>,
}

impl Channel {
    pub open spec fn wf(&self) -> bool {
        self.listeners@.no_duplicates() && self.clients@.no_duplicates()
    }

    /// The announcement of this channel that clients receive.
    pub open spec fn state_of(&self, st: ChannelState) -> bool {
        &&& st.channel_id == Some(self.id)
        &&& st.parent == self.parent_id
        &&& st.name is Some && st.name->0@ == self.name@
        &&& st.description is Some && st.description->0@ == self.description@
        &&& st.temporary == Some(self.temporary)
        &&& st.position == Some(self.id as i32)
    }

    pub fn new(id: u32, parent_id: Option<u32>, name: String, description: String, temporary: bool) -> (r: Channel)
        ensures
            r.wf(),
            r.id == id,
            r.parent_id == parent_id,
            r.name@ == name@,
            r.description@ == description@,
            r.temporary == temporary,
            r.listeners@.len() == 0,
            r.clients@.len() == 0,
    {
        Channel {
            id,
            parent_id,
            name,
            description,
            temporary,
            listeners: Vec::new(),
            clients: Vec::new(),
        }
    }

    pub fn get_channel_state(&self) -> (r: ChannelState)
        ensures
            self.state_of(r),
    {
        ChannelState {
            channel_id: Some(self.id),
            parent: self.parent_id,
            name: Some(self.name.clone()),
            description: Some(self.description.clone()),
            temporary: Some(self.temporary),
            position: Some(self.id as i32),
        }
    }

    pub fn get_listeners(&self) -> (r: &Vec<u32>)
        ensures
            r@ == self.listeners@,
    {
        &self.listeners
    }

    pub fn get_clients(&self) -> (r: &Vec<u32>)
        ensures
            r@ == self.clients@,
    {
        &self.clients
    }
}

} // verus!
