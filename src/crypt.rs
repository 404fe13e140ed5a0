use crate::ocb::{ocb_decrypt, ocb_encrypt, ocb_open, ocb_seal, BLOCK};
use crate::udp::DecryptError;
use vstd::prelude::*;

verus! {

/// Bytes before the ciphertext in a datagram: the nonce's first byte and
/// three bytes of tag.
pub const HEADER: usize = 4;

/// Entries of the replay history, one per value of a nonce's first byte.
pub const HISTORY: usize = 256;

/// How far behind the newest nonce a packet may still be accepted.
pub const WINDOW: i32 = 30;

/// Relies on rand::random: sixteen bytes from the thread-local generator.
#[verifier::external_body]
fn random_block() -> (r: Vec<u8>)
    ensures
        r@.len() == BLOCK,
{
    rand::random::<[u8; 16]>().to_vec()
}

/// The nonce after adding one at byte `i`, carrying into higher bytes.
pub open spec fn carry_from(iv: Seq<u8>, i: nat) -> Seq<u8>
    decreases BLOCK - i,
{
    if i >= BLOCK {
        iv
    } else if iv[i as int] == 255 {
        carry_from(iv.update(i as int, 0), i + 1)
    } else {
        iv.update(i as int, (iv[i as int] + 1) as u8)
    }
}

/// The nonce after subtracting one at byte `i`, borrowing from higher bytes.
pub open spec fn borrow_from(iv: Seq<u8>, i: nat) -> Seq<u8>
    decreases BLOCK - i,
{
    if i >= BLOCK {
        iv
    } else if iv[i as int] == 0 {
        borrow_from(iv.update(i as int, 255), i + 1)
    } else {
        iv.update(i as int, (iv[i as int] - 1) as u8)
    }
}

/// The nonce that follows `iv`: one more, read little-endian.
pub open spec fn next_nonce(iv: Seq<u8>) -> Seq<u8> {
    carry_from(iv, 0)
}

/// Distance from `head` forward to `b`, taken in -128..=128.
pub open spec fn wrapped_diff(b: u8, head: u8) -> int {
    let d = b as int - head as int;
    if d > 128 {
        d - 256
    } else if d < -128 {
        d + 256
    } else {
        d
    }
}

/// `b` is the first byte of the nonce right after `iv`.
pub open spec fn in_order(iv: Seq<u8>, b: u8) -> bool {
    (iv[0] as int + 1) % 256 == b as int
}

/// `b` is behind `iv` but inside the window.
pub open spec fn late_in_window(iv: Seq<u8>, b: u8) -> bool {
    !in_order(iv, b) && -(WINDOW as int) < wrapped_diff(b, iv[0]) < 0
}

/// The nonce a datagram whose first byte is `b` was sealed with, as far as
/// the receiver whose newest nonce is `iv` can tell; `None` for a packet
/// too far behind (or with the newest nonce's own first byte).
pub open spec fn window_nonce(iv: Seq<u8>, b: u8) -> Option<Seq<u8>> {
    let head = iv[0];
    let d = wrapped_diff(b, head);
    if in_order(iv, b) {
        Some(next_nonce(iv))
    } else if b < head && -(WINDOW as int) < d < 0 {
        Some(iv.update(0, b))
    } else if b > head && -(WINDOW as int) < d < 0 {
        Some(borrow_from(iv.update(0, b), 1))
    } else if b > head && d > 0 {
        Some(iv.update(0, b))
    } else if b < head && d > 0 {
        Some(carry_from(iv.update(0, b), 1))
    } else {
        None
    }
}

/// Packets skipped by a forward jump to `b`.
pub open spec fn skipped(iv: Seq<u8>, b: u8) -> nat {
    if in_order(iv, b) || late_in_window(iv, b) {
        0
    } else if b > iv[0] {
        (b - iv[0] - 1) as nat
    } else {
        (256 - iv[0] + b - 1) as nat
    }
}

/// The datagram that carries `plain` sealed with `key` and `nonce`.
pub open spec fn sealed_datagram(key: Seq<u8>, nonce: Seq<u8>, plain: Seq<u8>) -> Seq<u8> {
    let (c, tag) = ocb_seal(key, nonce, plain);
    seq![nonce[0], tag[0], tag[1], tag[2]] + c
}

pub open spec fn sat_add(a: u32, b: nat) -> u32 {
    if a + b > u32::MAX {
        u32::MAX
    } else {
        (a + b) as u32
    }
}

pub open spec fn sat_sub1(a: u32) -> u32 {
    if a == 0 {
        0
    } else {
        (a - 1) as u32
    }
}

/// The nonce that the state `cs` would open datagram `src` with; `None`
/// for one too short, carrying the newest nonce, or too far behind.
pub open spec fn datagram_nonce(cs: CryptState, src: Seq<u8>) -> Option<Seq<u8>> {
    if src.len() < HEADER || src[0] == cs.decrypt_iv@[0] {
        None
    } else {
        window_nonce(cs.decrypt_iv@, src[0])
    }
}

/// Nonce `n` of datagram `src` was accepted by `cs` before.
pub open spec fn seen_before(cs: CryptState, src: Seq<u8>, n: Seq<u8>) -> bool {
    !in_order(cs.decrypt_iv@, src[0]) && cs.decrypt_history@[n[0] as int] == n[1]
}

/// The plaintext and tag of datagram `src` opened by `cs` with nonce `n`.
pub open spec fn opening(cs: CryptState, src: Seq<u8>, n: Seq<u8>) -> (Seq<u8>, Seq<u8>) {
    ocb_open(cs.raw_key@, n, src.subrange(HEADER as int, src.len() as int))
}

/// `cs` accepts datagram `src`: its nonce is in the window and new, and
/// its tag matches.
pub open spec fn opens(cs: CryptState, src: Seq<u8>) -> bool {
    match datagram_nonce(cs, src) {
        None => false,
        Some(n) => !seen_before(cs, src, n) && opening(cs, src, n).1.subrange(0, 3) == src.subrange(1, 4),
    }
}

/// The plaintext of a datagram that `cs` accepts.
pub open spec fn opened(cs: CryptState, src: Seq<u8>) -> Seq<u8> {
    opening(cs, src, datagram_nonce(cs, src)->0).0
}

/// Why `cs` refuses datagram `src`.
pub open spec fn decrypt_error(cs: CryptState, src: Seq<u8>) -> DecryptError {
    if src.len() < HEADER {
        DecryptError::Eof
    } else if src[0] == cs.decrypt_iv@[0] {
        DecryptError::Repeat
    } else {
        match window_nonce(cs.decrypt_iv@, src[0]) {
            None => DecryptError::Late,
            Some(n) => if seen_before(cs, src, n) {
                DecryptError::Repeat
            } else {
                DecryptError::Mac
            },
        }
    }
}

/// The state after `cs` refuses datagram `src`: only a late packet counts.
pub open spec fn after_refusal(cs: CryptState, src: Seq<u8>) -> CryptState {
    if decrypt_error(cs, src) is Late {
        CryptState { late: sat_add(cs.late, 1), ..cs }
    } else {
        cs
    }
}

/// What a peer needs to talk to this state: the key, the nonce it should
/// encrypt with next (our decrypt nonce) and the one we encrypt with.
#[derive(Debug)]
pub struct CryptSetup {
    pub key: Vec<u8>,
    pub client_nonce: Vec<u8>,
    pub server_nonce: Vec<u8>,
}

/// Per-client authenticated encryption state of the voice plane.
#[derive(Debug)]
pub struct CryptState {
    pub raw_key: Vec<u8>,
    pub encrypt_iv: Vec<u8>,
    pub decrypt_iv: Vec<u8>,
    /// For each first nonce byte, the second byte of the last nonce accepted with it.
    pub decrypt_history: Vec<u8>,
    pub good: u32,
    pub late: u32,
    pub lost: u32,
    pub resync: u32,
    /// Time of the last successful decrypt, in milliseconds.
    pub last_good: u64,
}

fn carry_exec(iv: &mut Vec<u8>, from: usize)
    requires
        old(iv)@.len() == BLOCK,
        from <= BLOCK,
    ensures
        final(iv)@ == carry_from(old(iv)@, from as nat),
        final(iv)@.len() == BLOCK,
{
    let ghost target = carry_from(iv@, from as nat);
    let mut i = from;
    while i < BLOCK
        invariant
            iv@.len() == BLOCK,
            i <= BLOCK,
            carry_from(iv@, i as nat) == target,
            target == carry_from(old(iv)@, from as nat),
        decreases BLOCK - i,
    {
        if iv[i] == 255 {
            iv.set(i, 0);
            i = i + 1;
        } else {
            let ghost prev = iv@;
            let v = iv[i] + 1;
            iv.set(i, v);
            assert(carry_from(prev, i as nat) == prev.update(i as int, v));
            return;
        }
    }
}

fn borrow_exec(iv: &mut Vec<u8>, from: usize)
    requires
        old(iv)@.len() == BLOCK,
        from <= BLOCK,
    ensures
        final(iv)@ == borrow_from(old(iv)@, from as nat),
        final(iv)@.len() == BLOCK,
{
    let ghost target = borrow_from(iv@, from as nat);
    let mut i = from;
    while i < BLOCK
        invariant
            iv@.len() == BLOCK,
            i <= BLOCK,
            borrow_from(iv@, i as nat) == target,
            target == borrow_from(old(iv)@, from as nat),
        decreases BLOCK - i,
    {
        if iv[i] == 0 {
            iv.set(i, 255);
            i = i + 1;
        } else {
            let ghost prev = iv@;
            let v = iv[i] - 1;
            iv.set(i, v);
            assert(borrow_from(prev, i as nat) == prev.update(i as int, v));
            return;
        }
    }
}

fn copy_bytes(v: &Vec<u8>) -> (r: Vec<u8>)
    ensures
        r@ == v@,
{
    let mut r: Vec<u8> = Vec::new();
    let mut k: usize = 0;
    while k < v.len()
        invariant
            k <= v@.len(),
            r@ == v@.subrange(0, k as int),
        decreases v@.len() - k,
    {
        r.push(v[k]);
        assert(v@.subrange(0, k + 1) =~= v@.subrange(0, k as int).push(v@[k as int]));
        k = k + 1;
    }
    assert(v@.subrange(0, v@.len() as int) =~= v@);
    r
}

fn zero_history() -> (r: Vec<u8>)
    ensures
        r@.len() == HISTORY,
        forall|k: int| 0 <= k < HISTORY ==> r@[k] == 0,
{
    let mut r: Vec<u8> = Vec::new();
    let mut k: usize = 0;
    while k < HISTORY
        invariant
            k <= HISTORY,
            r@.len() == k,
            forall|q: int| 0 <= q < k ==> r@[q] == 0,
        decreases HISTORY - k,
    {
        r.push(0);
        k = k + 1;
    }
    r
}

fn sat_inc(a: u32, b: u32) -> (r: u32)
    ensures
        r == sat_add(a, b as nat),
{
    if a > u32::MAX - b {
        u32::MAX
    } else {
        a + b
    }
}

fn bytes_from(s: &[u8], start: usize) -> (r: Vec<u8>)
    requires
        start <= s@.len(),
    ensures
        r@ == s@.subrange(start as int, s@.len() as int),
{
    let mut r: Vec<u8> = Vec::new();
    let mut i: usize = start;
    while i < s.len()
        invariant
            start <= i <= s@.len(),
            r@ == s@.subrange(start as int, i as int),
        decreases s@.len() - i,
    {
        r.push(s[i]);
        assert(s@.subrange(start as int, i + 1) =~= s@.subrange(start as int, i as int).push(s@[i as int]));
        i = i + 1;
    }
    r
}

/// Carrying or borrowing from byte `i` on keeps the length and the lower bytes.
proof fn lemma_carry_shape(iv: Seq<u8>, i: nat)
    requires
        iv.len() == BLOCK,
    ensures
        carry_from(iv, i).len() == BLOCK,
        borrow_from(iv, i).len() == BLOCK,
        forall|k: int| 0 <= k < i && k < BLOCK ==> carry_from(iv, i)[k] == iv[k] && borrow_from(iv, i)[k] == iv[k],
    decreases BLOCK - i,
{
    if i < BLOCK {
        let up = iv.update(i as int, 0);
        let down = iv.update(i as int, 255);
        lemma_carry_shape(up, i + 1);
        lemma_carry_shape(down, i + 1);
        assert forall|k: int| 0 <= k < i && k < BLOCK implies carry_from(iv, i)[k] == iv[k] && borrow_from(iv, i)[k] == iv[k] by {
            if iv[i as int] == 255 {
                assert(carry_from(iv, i) == carry_from(up, i + 1));
                assert(carry_from(up, i + 1)[k] == up[k]);
            } else {
                assert(carry_from(iv, i) == iv.update(i as int, (iv[i as int] + 1) as u8));
            }
            if iv[i as int] == 0 {
                assert(borrow_from(iv, i) == borrow_from(down, i + 1));
                assert(borrow_from(down, i + 1)[k] == down[k]);
            } else {
                assert(borrow_from(iv, i) == iv.update(i as int, (iv[i as int] - 1) as u8));
            }
        }
    }
}

/// The nonce after `iv` starts with the byte after `iv`'s first.
pub proof fn lemma_next_nonce(iv: Seq<u8>)
    requires
        iv.len() == BLOCK,
    ensures
        next_nonce(iv).len() == BLOCK,
        next_nonce(iv)[0] as int == (iv[0] as int + 1) % 256,
        in_order(iv, next_nonce(iv)[0]),
{
    let up = iv.update(0, 0);
    lemma_carry_shape(up, 1);
    lemma_carry_shape(iv, 0);
    if iv[0] == 255 {
        assert(next_nonce(iv) == carry_from(up, 1));
        assert(carry_from(up, 1)[0] == up[0]);
    } else {
        assert(next_nonce(iv) == iv.update(0, (iv[0] + 1) as u8));
    }
}

impl CryptState {
    pub open spec fn wf(&self) -> bool {
        &&& self.raw_key@.len() == BLOCK
        &&& self.encrypt_iv@.len() == BLOCK
        &&& self.decrypt_iv@.len() == BLOCK
        &&& self.decrypt_history@.len() == HISTORY
    }

    /// A state with the given key and nonces, an empty history and zero counters.
    pub fn from_parts(key: Vec<u8>, encrypt_iv: Vec<u8>, decrypt_iv: Vec<u8>, now: u64) -> (r: CryptState)
        requires
            key@.len() == BLOCK,
            encrypt_iv@.len() == BLOCK,
            decrypt_iv@.len() == BLOCK,
        ensures
            r.wf(),
            r.raw_key@ == key@,
            r.encrypt_iv@ == encrypt_iv@,
            r.decrypt_iv@ == decrypt_iv@,
            forall|k: int| 0 <= k < HISTORY ==> r.decrypt_history@[k] == 0,
            r.good == 0 && r.late == 0 && r.lost == 0 && r.resync == 0,
            r.last_good == now,
    {
        CryptState {
            raw_key: key,
            encrypt_iv,
            decrypt_iv,
            decrypt_history: zero_history(),
            good: 0,
            late: 0,
            lost: 0,
            resync: 0,
            last_good: now,
        }
    }

    /// A state with a fresh random key and random nonces.
    pub fn new(now: u64) -> (r: CryptState)
        ensures
            r.wf(),
            r.good == 0 && r.late == 0 && r.lost == 0 && r.resync == 0,
            r.last_good == now,
    {
        CryptState::from_parts(random_block(), random_block(), random_block(), now)
    }

    /// Re-keys: a fresh random key and nonces, an empty history; the
    /// counters stay and the stale timer restarts.
    pub fn reset(&mut self, now: u64)
        requires
            old(self).wf(),
        ensures
            final(self).wf(),
            forall|k: int| 0 <= k < HISTORY ==> final(self).decrypt_history@[k] == 0,
            final(self).good == old(self).good && final(self).late == old(self).late,
            final(self).lost == old(self).lost && final(self).resync == old(self).resync,
            final(self).last_good == now,
    {
        self.raw_key = random_block();
        self.encrypt_iv = random_block();
        self.decrypt_iv = random_block();
        self.decrypt_history = zero_history();
        self.last_good = now;
    }

    /// The key and nonces to send to the peer.
    pub fn get_crypt_setup(&self) -> (r: CryptSetup)
        ensures
            r.key@ == self.raw_key@,
            r.client_nonce@ == self.decrypt_iv@,
            r.server_nonce@ == self.encrypt_iv@,
    {
        CryptSetup {
            key: copy_bytes(&self.raw_key),
            client_nonce: copy_bytes(&self.decrypt_iv),
            server_nonce: copy_bytes(&self.encrypt_iv),
        }
    }

    /// Takes the peer's declared nonce; one of another length is ignored.
    pub fn set_decrypt_nonce(&mut self, nonce: &[u8])
        requires
            old(self).wf(),
        ensures
            final(self).wf(),
            nonce@.len() != BLOCK ==> *final(self) == *old(self),
            nonce@.len() == BLOCK ==> final(self).decrypt_iv@ == nonce@ && final(self).resync == sat_add(old(self).resync, 1)
                && *final(self) == (CryptState { decrypt_iv: final(self).decrypt_iv, resync: final(self).resync, ..*old(self) }),
    {
        if nonce.len() != BLOCK {
            return;
        }
        let mut iv: Vec<u8> = Vec::new();
        let mut k: usize = 0;
        while k < BLOCK
            invariant
                k <= BLOCK,
                nonce@.len() == BLOCK,
                iv@ == nonce@.subrange(0, k as int),
            decreases BLOCK - k,
        {
            iv.push(nonce[k]);
            assert(nonce@.subrange(0, k + 1) =~= nonce@.subrange(0, k as int).push(nonce@[k as int]));
            k = k + 1;
        }
        assert(nonce@.subrange(0, BLOCK as int) =~= nonce@);
        self.decrypt_iv = iv;
        self.resync = if self.resync == u32::MAX { u32::MAX } else { self.resync + 1 };
    }

    /// Seals `plain` with the next encrypt nonce; the datagram carries the
    /// nonce's first byte and three bytes of tag before the ciphertext.
    pub fn encrypt(&mut self, plain: &[u8]) -> (r: Vec<u8>)
        requires
            old(self).wf(),
        ensures
            final(self).wf(),
            final(self).encrypt_iv@ == next_nonce(old(self).encrypt_iv@),
            *final(self) == (CryptState { encrypt_iv: final(self).encrypt_iv, ..*old(self) }),
            r@ == sealed_datagram(old(self).raw_key@, final(self).encrypt_iv@, plain@),
    {
        carry_exec(&mut self.encrypt_iv, 0);
        let (mut c, tag) = ocb_encrypt(&self.raw_key, &self.encrypt_iv, plain);
        let ghost cv = c@;
        proof {
            crate::ocb::lemma_tag_len(self.raw_key@, self.encrypt_iv@, plain@);
        }
        let mut out: Vec<u8> = Vec::new();
        out.push(self.encrypt_iv[0]);
        out.push(tag[0]);
        out.push(tag[1]);
        out.push(tag[2]);
        out.append(&mut c);
        assert(out@ =~= sealed_datagram(self.raw_key@, self.encrypt_iv@, plain@));
        out
    }

    /// Opens a datagram. A datagram shorter than its header is `Eof`; one
    /// whose nonce is the newest accepted, or was accepted before, is
    /// `Repeat`; one whose nonce is too far behind is `Late` (and counted);
    /// one whose tag does not match is `Mac`. Only `Late` changes the state among the failures. On success
    /// the nonce is recorded, the head moves forward unless the packet was
    /// late, and the counters are updated.
    pub fn decrypt(&mut self, src: &[u8], now: u64) -> (r: Result<Vec<u8>, DecryptError>)
        requires
            old(self).wf(),
        ensures
            final(self).wf(),
            src@.len() < HEADER ==> r == Err::<Vec<u8>, DecryptError>(DecryptError::Eof) && *final(self) == *old(self),
            src@.len() >= HEADER ==> {
                let iv = old(self).decrypt_iv@;
                let b = src@[0];
                if b == iv[0] {
                    r == Err::<Vec<u8>, DecryptError>(DecryptError::Repeat) && *final(self) == *old(self)
                } else {
                match window_nonce(iv, b) {
                    None => r == Err::<Vec<u8>, DecryptError>(DecryptError::Late) && *final(self) == (CryptState {
                        late: sat_add(old(self).late, 1),
                        ..*old(self)
                    }),
                    Some(n) => {
                        let opened = ocb_open(old(self).raw_key@, n, src@.subrange(HEADER as int, src@.len() as int));
                        if !in_order(iv, b) && old(self).decrypt_history@[n[0] as int] == n[1] {
                            r == Err::<Vec<u8>, DecryptError>(DecryptError::Repeat) && *final(self) == *old(self)
                        } else if opened.1.subrange(0, 3) != src@.subrange(1, 4) {
                            r == Err::<Vec<u8>, DecryptError>(DecryptError::Mac) && *final(self) == *old(self)
                        } else {
                            &&& r is Ok && r->Ok_0@ == opened.0
                            &&& final(self).raw_key == old(self).raw_key
                            &&& final(self).encrypt_iv == old(self).encrypt_iv
                            &&& final(self).resync == old(self).resync
                            &&& final(self).decrypt_iv@ == if late_in_window(iv, b) { iv } else { n }
                            &&& final(self).decrypt_history@ == old(self).decrypt_history@.update(n[0] as int, n[1])
                            &&& final(self).good == sat_add(old(self).good, 1)
                            &&& final(self).late == if late_in_window(iv, b) { sat_add(old(self).late, 1) } else { old(self).late }
                            &&& final(self).lost == if late_in_window(iv, b) { sat_sub1(old(self).lost) } else {
                                sat_add(old(self).lost, skipped(iv, b))
                            }
                            &&& final(self).last_good == now
                        }
                    },
                }
                }
            },
            forall|p: Seq<u8>| #[trigger] sealed_datagram(old(self).raw_key@, next_nonce(old(self).decrypt_iv@), p) == src@
                ==> r is Ok && r->Ok_0@ == p,
            r is Ok <==> opens(*old(self), src@),
            r is Ok ==> r->Ok_0@ == opened(*old(self), src@) && final(self).raw_key == old(self).raw_key
                && final(self).encrypt_iv == old(self).encrypt_iv && final(self).good == sat_add(old(self).good, 1),
            r is Err ==> r->Err_0 == decrypt_error(*old(self), src@) && *final(self) == after_refusal(*old(self), src@),
    {
        if src.len() < HEADER {
            return Err(DecryptError::Eof);
        }
        let ghost iv0 = self.decrypt_iv@;
        let b = src[0];
        let head = self.decrypt_iv[0];
        if b == head {
            proof {
                assert forall|p: Seq<u8>| #[trigger] sealed_datagram(old(self).raw_key@, next_nonce(iv0), p) != src@ by {
                    lemma_next_nonce(iv0);
                    if sealed_datagram(old(self).raw_key@, next_nonce(iv0), p) == src@ {
                        assert(src@[0] == next_nonce(iv0)[0]);
                    }
                }
            }
            return Err(DecryptError::Repeat);
        }
        let mut iv = copy_bytes(&self.decrypt_iv);
        let mut late_accept = false;
        let mut gap: u32 = 0;
        let ordered = ((head as u16 + 1) % 256) as u8 == b;
        proof {
            assert(ordered == in_order(iv0, b));
            lemma_carry_shape(iv0.update(0, b), 1);
        }
        if ordered {
            if b > head {
                iv.set(0, b);
                assert(iv@ == next_nonce(iv0));
            } else {
                iv.set(0, b);
                carry_exec(&mut iv, 1);
                assert(iv@ == next_nonce(iv0));
            }
        } else {
            let d0: i32 = b as i32 - head as i32;
            let d: i32 = if d0 > 128 { d0 - 256 } else if d0 < -128 { d0 + 256 } else { d0 };
            assert(d == wrapped_diff(b, head));
            if b < head && d > -WINDOW && d < 0 {
                late_accept = true;
                iv.set(0, b);
            } else if b > head && d > -WINDOW && d < 0 {
                late_accept = true;
                iv.set(0, b);
                borrow_exec(&mut iv, 1);
            } else if b > head && d > 0 {
                gap = (b - head - 1) as u32;
                iv.set(0, b);
            } else if b < head && d > 0 {
                gap = (256 - head as u32 + b as u32 - 1) as u32;
                iv.set(0, b);
                carry_exec(&mut iv, 1);
            } else {
                self.late = sat_inc(self.late, 1);
                proof {
                    assert forall|p: Seq<u8>| #[trigger] sealed_datagram(old(self).raw_key@, next_nonce(iv0), p) != src@ by {
                        lemma_next_nonce(iv0);
                        if sealed_datagram(old(self).raw_key@, next_nonce(iv0), p) == src@ {
                            assert(src@[0] == next_nonce(iv0)[0]);
                        }
                    }
                }
                return Err(DecryptError::Late);
            }
            assert(Some(iv@) == window_nonce(iv0, b));
            if self.decrypt_history[iv[0] as usize] == iv[1] {
                proof {
                    assert forall|p: Seq<u8>| #[trigger] sealed_datagram(old(self).raw_key@, next_nonce(iv0), p) != src@ by {
                        lemma_next_nonce(iv0);
                        if sealed_datagram(old(self).raw_key@, next_nonce(iv0), p) == src@ {
                            assert(src@[0] == next_nonce(iv0)[0]);
                        }
                    }
                }
                return Err(DecryptError::Repeat);
            }
        }
        assert(Some(iv@) == window_nonce(iv0, b));
        let body = bytes_from(src, HEADER);
        let (plain, tag) = ocb_decrypt(&self.raw_key, &iv, &body);
        proof {
            crate::ocb::lemma_tag_len(self.raw_key@, iv@, body@);
        }
        if tag[0] != src[1] || tag[1] != src[2] || tag[2] != src[3] {
            proof {
                assert(tag@.subrange(0, 3) != src@.subrange(1, 4)) by {
                    if tag@.subrange(0, 3) == src@.subrange(1, 4) {
                        assert(tag@.subrange(0, 3)[0] == tag@[0]);
                        assert(tag@.subrange(0, 3)[1] == tag@[1]);
                        assert(tag@.subrange(0, 3)[2] == tag@[2]);
                    }
                }
                assert forall|p: Seq<u8>| #[trigger] sealed_datagram(old(self).raw_key@, next_nonce(iv0), p) != src@ by {
                    lemma_next_nonce(iv0);
                    if sealed_datagram(old(self).raw_key@, next_nonce(iv0), p) == src@ {
                        let sealed = ocb_seal(old(self).raw_key@, next_nonce(iv0), p);
                        assert(src@[0] == next_nonce(iv0)[0]);
                        assert(body@ =~= sealed.0);
                        assert(src@[1] == sealed.1[0] && src@[2] == sealed.1[1] && src@[3] == sealed.1[2]);
                    }
                }
            }
            return Err(DecryptError::Mac);
        }
        proof {
            assert(tag@.subrange(0, 3) =~= src@.subrange(1, 4));
        }
        let slot = iv[0] as usize;
        let second = iv[1];
        self.decrypt_history.set(slot, second);
        if !late_accept {
            self.decrypt_iv = iv;
        }
        self.good = sat_inc(self.good, 1);
        if late_accept {
            self.late = sat_inc(self.late, 1);
            self.lost = if self.lost == 0 { 0 } else { self.lost - 1 };
        } else {
            self.lost = sat_inc(self.lost, gap);
        }
        self.last_good = now;
        proof {
            assert(late_accept == late_in_window(iv0, b));
            assert(gap as nat == skipped(iv0, b));
            assert forall|p: Seq<u8>| #[trigger] sealed_datagram(old(self).raw_key@, next_nonce(iv0), p) == src@
                implies plain@ == p by {
                lemma_next_nonce(iv0);
                let sealed = ocb_seal(old(self).raw_key@, next_nonce(iv0), p);
                assert(src@[0] == next_nonce(iv0)[0]);
                assert(body@ =~= sealed.0);
            }
        }
        Ok(plain)
    }

}

} // verus!
