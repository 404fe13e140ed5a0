use crate::client::Client;
use crate::crypt::{next_nonce, sealed_datagram, CryptState};
use crate::state::{lemma_unique_indices, ServerState};
use vstd::prelude::*;

verus! {

/// In a well-formed registry the probe set and the by-endpoint map agree
/// with every client's recorded UDP peer: a client is in the probe set
/// exactly when it has no peer, and the by-endpoint map holds exactly one
/// entry per bound client, keyed by that client's peer.
pub proof fn law_udp_maps_consistent(st: ServerState)
    requires
        st.wf(),
    ensures
        forall|i: int| 0 <= i < st.clients@.len() ==> ((#[trigger] st.clients@[i]).udp_socket_addr is None
            <==> st.clients_without_udp@.contains(st.clients@[i].session_id)),
        forall|i: int| 0 <= i < st.clients@.len() && (#[trigger] st.clients@[i]).udp_socket_addr is Some
            ==> st.session_at_peer(st.clients@[i].udp_socket_addr->0, st.clients@[i].session_id),
        forall|i: int, q: int| 0 <= i < st.clients@.len() && 0 <= q < st.clients_by_socket@.len()
            && (#[trigger] st.clients_by_socket@[q]).session_id == (#[trigger] st.clients@[i]).session_id
            ==> st.clients@[i].udp_socket_addr == Some(st.clients_by_socket@[q].addr),
{
    lemma_unique_indices(st);
    assert forall|i: int| 0 <= i < st.clients@.len() implies ((#[trigger] st.clients@[i]).udp_socket_addr is None
        <==> st.clients_without_udp@.contains(st.clients@[i].session_id)) by {
        let s = st.clients@[i].session_id;
        if st.clients_without_udp@.contains(s) {
            let k = choose|k: int| st.client_at(k, s) && st.clients@[k].udp_socket_addr is None;
            assert(k == i);
        }
        if st.clients@[i].udp_socket_addr is None {
            assert(st.client_at(i, s));
        }
    }
    assert forall|i: int, q: int| 0 <= i < st.clients@.len() && 0 <= q < st.clients_by_socket@.len()
        && (#[trigger] st.clients_by_socket@[q]).session_id == (#[trigger] st.clients@[i]).session_id
        implies st.clients@[i].udp_socket_addr == Some(st.clients_by_socket@[q].addr) by {
        let k = choose|k: int| st.client_at(k, (#[trigger] st.clients_by_socket@[q]).session_id)
            && st.clients@[k].udp_socket_addr == Some(st.clients_by_socket@[q].addr);
        assert(st.client_at(i, st.clients_by_socket@[q].session_id));
        assert(k == i);
    }
}

/// After `set_mute(x)` the flag reads `x`, and after `set_deaf(x)` likewise;
/// neither touches the other flag.
pub proof fn law_flags_read_back(c: Client, x: bool)
    ensures
        (Client { mute: x, ..c }).mute == x,
        (Client { mute: x, ..c }).deaf == c.deaf,
        (Client { deaf: x, ..c }).deaf == x,
        (Client { deaf: x, ..c }).mute == c.mute,
{
}

/// A client moved into channel `c` reads `c` as its channel, is a resident
/// of `c`, and is no longer a resident of the channel it left.
pub proof fn law_move_leaves_old_channel(pre: ServerState, post: ServerState, i: int, c: u32)
    requires
        pre.wf(),
        post.wf(),
        0 <= i < pre.clients@.len(),
        post.clients@ == pre.clients@.update(i, Client { channel_id: c, ..pre.clients@[i] }),
    ensures
        post.clients@[i].channel_id == c,
        forall|j: int| 0 <= j < post.channels@.len() && (#[trigger] post.channels@[j]).id == c
            ==> post.channels@[j].clients@.contains(pre.clients@[i].session_id),
        forall|j: int| 0 <= j < post.channels@.len() && (#[trigger] post.channels@[j]).id != c
            ==> !post.channels@[j].clients@.contains(pre.clients@[i].session_id),
{
    lemma_unique_indices(post);
    let s = pre.clients@[i].session_id;
    assert(post.clients@[i].session_id == s);
    assert forall|j: int| 0 <= j < post.channels@.len() && (#[trigger] post.channels@[j]).id != c
        implies !post.channels@[j].clients@.contains(s) by {
        if post.channels@[j].clients@.contains(s) {
            let k = choose|k: int| post.client_at(k, s) && post.clients@[k].channel_id == post.channels@[j].id;
            assert(post.client_at(i, s));
            assert(k == i);
        }
    }
}

/// Two crypt states with one key, the receiver's decrypt nonce equal to the
/// sender's encrypt nonce: the datagram the sender's `encrypt` emits for a
/// frame is the one the receiver's `decrypt` opens to that frame.
pub proof fn law_synchronized_round_trip(sender: CryptState, receiver: CryptState, plain: Seq<u8>)
    requires
        sender.raw_key@ == receiver.raw_key@,
        sender.encrypt_iv@ == receiver.decrypt_iv@,
    ensures
        sealed_datagram(sender.raw_key@, next_nonce(sender.encrypt_iv@), plain) == sealed_datagram(
            receiver.raw_key@,
            next_nonce(receiver.decrypt_iv@),
            plain,
        ),
{
}

} // verus!
