use aes::cipher::generic_array::GenericArray;
use aes::cipher::{BlockDecrypt, BlockEncrypt, KeyInit};
use vstd::prelude::*;

verus! {

/// Size of a cipher block, and of keys and nonces, in bytes.
pub const BLOCK: usize = 16;

/// AES-128 of one 16-byte block under a 16-byte key.
pub uninterp spec fn aes128_encrypt(key: Seq<u8>, block: Seq<u8>) -> Seq<u8>;

/// Inverse AES-128 of one 16-byte block under a 16-byte key.
pub uninterp spec fn aes128_decrypt(key: Seq<u8>, block: Seq<u8>) -> Seq<u8>;

/// Relies on aes::Aes128 (KeyInit::new, BlockEncrypt::encrypt_block): the
/// AES-128 encryption of one block, which is again one block.
#[verifier::external_body]
fn aes_encrypt_block(key: &[u8], block: &[u8]) -> (r: Vec<u8>)
    requires
        key@.len() == BLOCK,
        block@.len() == BLOCK,
    ensures
        r@ == aes128_encrypt(key@, block@),
        r@.len() == BLOCK,
{
    let cipher = aes::Aes128::new(GenericArray::from_slice(key));
    let mut b = GenericArray::clone_from_slice(block);
    cipher.encrypt_block(&mut b);
    b.to_vec()
}

/// Relies on aes::Aes128 (KeyInit::new, BlockDecrypt::decrypt_block): the
/// AES-128 decryption of one block, which undoes its encryption.
#[verifier::external_body]
fn aes_decrypt_block(key: &[u8], block: &[u8]) -> (r: Vec<u8>)
    requires
        key@.len() == BLOCK,
        block@.len() == BLOCK,
    ensures
        r@ == aes128_decrypt(key@, block@),
        r@.len() == BLOCK,
        forall|p: Seq<u8>| #![trigger aes128_encrypt(key@, p)] p.len() == BLOCK && Seq::new(BLOCK as nat, |i: int| aes128_encrypt(key@, p)[i])
            == block@ ==> r@ == p,
{
    let cipher = aes::Aes128::new(GenericArray::from_slice(key));
    let mut b = GenericArray::clone_from_slice(block);
    cipher.decrypt_block(&mut b);
    b.to_vec()
}

/// AES-128 of `block`, as a 16-byte block.
pub open spec fn aes_block(key: Seq<u8>, block: Seq<u8>) -> Seq<u8> {
    Seq::new(BLOCK as nat, |i: int| aes128_encrypt(key, block)[i])
}

/// Inverse AES-128 of `block`, as a 16-byte block.
pub open spec fn aes_inv_block(key: Seq<u8>, block: Seq<u8>) -> Seq<u8> {
    Seq::new(BLOCK as nat, |i: int| aes128_decrypt(key, block)[i])
}

/// AES-128 encryption of one block, as a 16-byte block.
fn aes_enc(key: &[u8], block: &[u8]) -> (r: Vec<u8>)
    requires
        key@.len() == BLOCK,
        block@.len() == BLOCK,
    ensures
        r@ == aes_block(key@, block@),
{
    let r = aes_encrypt_block(key, block);
    assert(r@ =~= aes_block(key@, block@));
    r
}

/// AES-128 decryption of one block, which undoes `aes_enc`.
fn aes_dec(key: &[u8], block: &[u8]) -> (r: Vec<u8>)
    requires
        key@.len() == BLOCK,
        block@.len() == BLOCK,
    ensures
        r@ == aes_inv_block(key@, block@),
        forall|p: Seq<u8>| p.len() == BLOCK && #[trigger] aes_block(key@, p) == block@ ==> r@ == p,
{
    let r = aes_decrypt_block(key, block);
    assert(r@ =~= aes_inv_block(key@, block@));
    assert forall|p: Seq<u8>| p.len() == BLOCK && #[trigger] aes_block(key@, p) == block@ implies r@ == p by {
        assert(Seq::new(BLOCK as nat, |i: int| aes128_encrypt(key@, p)[i]) == block@);
    }
    r
}

/// Byte-wise exclusive or of two blocks.
pub open spec fn xor_block(a: Seq<u8>, b: Seq<u8>) -> Seq<u8> {
    Seq::new(BLOCK as nat, |i: int| a[i] ^ b[i])
}

/// Doubling in GF(2^128), the block read as a big-endian number.
pub open spec fn times2(b: Seq<u8>) -> Seq<u8> {
    Seq::new(
        BLOCK as nat,
        |i: int|
            if i < 15 {
                ((b[i] << 1u8) | (b[i + 1] >> 7u8)) as u8
            } else {
                ((b[15] << 1u8) ^ (if b[0] >= 128 { 0x87u8 } else { 0u8 })) as u8
            },
    )
}

/// Tripling in GF(2^128).
pub open spec fn times3(b: Seq<u8>) -> Seq<u8> {
    xor_block(times2(b), b)
}

/// The all-zero block.
pub open spec fn zero_block() -> Seq<u8> {
    Seq::new(BLOCK as nat, |i: int| 0u8)
}

/// The block that encodes the bit length of a final chunk of `rem` bytes.
pub open spec fn length_block(rem: nat) -> Seq<u8> {
    Seq::new(BLOCK as nat, |i: int| if i == 15 { (rem * 8) as u8 } else { 0u8 })
}

/// Number of whole blocks processed before the final chunk.
pub open spec fn whole_blocks(len: nat) -> nat {
    if len == 0 {
        0
    } else {
        ((len - 1) as int / 16) as nat
    }
}

/// Block `i` of `s`.
pub open spec fn chunk(s: Seq<u8>, i: int) -> Seq<u8> {
    s.subrange(16 * i, 16 * i + 16)
}

/// The offset used for block `i - 1`; offset 0 encrypts the nonce.
pub open spec fn delta_at(key: Seq<u8>, nonce: Seq<u8>, i: nat) -> Seq<u8>
    decreases i,
{
    if i == 0 {
        aes_block(key, nonce)
    } else {
        times2(delta_at(key, nonce, (i - 1) as nat))
    }
}

/// Exclusive or of the first `i` blocks of `p`.
pub open spec fn checksum(p: Seq<u8>, i: nat) -> Seq<u8>
    decreases i,
{
    if i == 0 {
        zero_block()
    } else {
        xor_block(checksum(p, (i - 1) as nat), chunk(p, i - 1))
    }
}

/// Ciphertext of the first `i` whole blocks of `p`.
pub open spec fn seal_blocks(key: Seq<u8>, nonce: Seq<u8>, p: Seq<u8>, i: nat) -> Seq<u8>
    decreases i,
{
    if i == 0 {
        Seq::empty()
    } else {
        let d = delta_at(key, nonce, i);
        seal_blocks(key, nonce, p, (i - 1) as nat) + xor_block(d, aes_block(key, xor_block(d, chunk(p, i - 1))))
    }
}

/// Plaintext of the first `i` whole blocks of `c`.
pub open spec fn open_blocks(key: Seq<u8>, nonce: Seq<u8>, c: Seq<u8>, i: nat) -> Seq<u8>
    decreases i,
{
    if i == 0 {
        Seq::empty()
    } else {
        let d = delta_at(key, nonce, i);
        open_blocks(key, nonce, c, (i - 1) as nat) + xor_block(d, aes_inv_block(key, xor_block(d, chunk(c, i - 1))))
    }
}

/// The pad that covers the final chunk of a message of `len` bytes.
pub open spec fn final_pad(key: Seq<u8>, nonce: Seq<u8>, len: nat) -> Seq<u8> {
    let n = whole_blocks(len);
    aes_block(key, xor_block(length_block((len - 16 * n) as nat), delta_at(key, nonce, n + 1)))
}

/// Tag over a message whose whole blocks are `p`'s first blocks and whose
/// final chunk, padded, is `last`.
pub open spec fn tag_of(key: Seq<u8>, nonce: Seq<u8>, p: Seq<u8>, len: nat, last: Seq<u8>) -> Seq<u8> {
    let n = whole_blocks(len);
    aes_block(key, xor_block(times3(delta_at(key, nonce, n + 1)), xor_block(checksum(p, n), last)))
}

/// OCB2 encryption of `p`: the ciphertext, as long as `p`, and the tag.
pub open spec fn ocb_seal(key: Seq<u8>, nonce: Seq<u8>, p: Seq<u8>) -> (Seq<u8>, Seq<u8>) {
    let len = p.len();
    let n = whole_blocks(len);
    let rem = (len - 16 * n) as nat;
    let pad = final_pad(key, nonce, len);
    let tail = p.subrange(16 * n as int, len as int);
    let last = tail + pad.subrange(rem as int, 16);
    (
        seal_blocks(key, nonce, p, n) + Seq::new(rem, |i: int| tail[i] ^ pad[i]),
        tag_of(key, nonce, p, len, last),
    )
}

/// OCB2 decryption of `c`: the plaintext, as long as `c`, and the tag it
/// should carry.
pub open spec fn ocb_open(key: Seq<u8>, nonce: Seq<u8>, c: Seq<u8>) -> (Seq<u8>, Seq<u8>) {
    let len = c.len();
    let n = whole_blocks(len);
    let rem = (len - 16 * n) as nat;
    let pad = final_pad(key, nonce, len);
    let tail = c.subrange(16 * n as int, len as int);
    let p_tail = Seq::new(rem, |i: int| tail[i] ^ pad[i]);
    let whole = open_blocks(key, nonce, c, n);
    (whole + p_tail, tag_of(key, nonce, whole, len, p_tail + pad.subrange(rem as int, 16)))
}

proof fn lemma_whole_blocks(len: nat)
    ensures
        16 * whole_blocks(len) <= len,
        len > 0 ==> len - 16 * whole_blocks(len) >= 1,
        len - 16 * whole_blocks(len) <= 16,
{
}

fn xor_exec(a: &Vec<u8>, b: &Vec<u8>) -> (r: Vec<u8>)
    requires
        a@.len() == BLOCK,
        b@.len() == BLOCK,
    ensures
        r@ == xor_block(a@, b@),
{
    let mut r: Vec<u8> = Vec::new();
    let mut i: usize = 0;
    while i < BLOCK
        invariant
            i <= BLOCK,
            a@.len() == BLOCK,
            b@.len() == BLOCK,
            r@.len() == i,
            forall|k: int| 0 <= k < i ==> r@[k] == a@[k] ^ b@[k],
        decreases BLOCK - i,
    {
        r.push(a[i] ^ b[i]);
        i = i + 1;
    }
    assert(r@ =~= xor_block(a@, b@));
    r
}

fn times2_exec(b: &Vec<u8>) -> (r: Vec<u8>)
    requires
        b@.len() == BLOCK,
    ensures
        r@ == times2(b@),
{
    let mut r: Vec<u8> = Vec::new();
    let mut i: usize = 0;
    while i < 15
        invariant
            i <= 15,
            b@.len() == BLOCK,
            r@.len() == i,
            forall|k: int| 0 <= k < i ==> r@[k] == ((b@[k] << 1u8) | (b@[k + 1] >> 7u8)) as u8,
        decreases 15 - i,
    {
        r.push((b[i] << 1u8) | (b[i + 1] >> 7u8));
        i = i + 1;
    }
    let carry: u8 = if b[0] >= 128 { 0x87 } else { 0 };
    r.push((b[15] << 1u8) ^ carry);
    assert(r@ =~= times2(b@));
    r
}

fn copy_range(s: &[u8], start: usize, end: usize) -> (r: Vec<u8>)
    requires
        start <= end <= s@.len(),
    ensures
        r@ == s@.subrange(start as int, end as int),
{
    let mut r: Vec<u8> = Vec::new();
    let mut i: usize = start;
    while i < end
        invariant
            start <= i <= end,
            end <= s@.len(),
            r@ == s@.subrange(start as int, i as int),
        decreases end - i,
    {
        r.push(s[i]);
        assert(s@.subrange(start as int, i + 1) =~= s@.subrange(start as int, i as int).push(s@[i as int]));
        i = i + 1;
    }
    r
}

fn zero_exec() -> (r: Vec<u8>)
    ensures
        r@ == zero_block(),
{
    let mut r: Vec<u8> = Vec::new();
    let mut i: usize = 0;
    while i < BLOCK
        invariant
            i <= BLOCK,
            r@.len() == i,
            forall|k: int| 0 <= k < i ==> r@[k] == 0u8,
        decreases BLOCK - i,
    {
        r.push(0u8);
        i = i + 1;
    }
    assert(r@ =~= zero_block());
    r
}

fn length_block_exec(rem: usize) -> (r: Vec<u8>)
    requires
        rem <= BLOCK,
    ensures
        r@ == length_block(rem as nat),
{
    let mut r = zero_exec();
    r.set(15, (rem * 8) as u8);
    assert(r@ =~= length_block(rem as nat));
    r
}

proof fn lemma_xor_cancel(a: u8, b: u8)
    ensures
        (a ^ (a ^ b)) == b,
        ((b ^ a) ^ a) == b,
{
    assert((a ^ (a ^ b)) == b) by (bit_vector);
    assert(((b ^ a) ^ a) == b) by (bit_vector);
}

/// The sealed whole blocks are 16 bytes each, block `i` sealed with offset `i + 1`.
proof fn lemma_seal_blocks(key: Seq<u8>, nonce: Seq<u8>, p: Seq<u8>, n: nat)
    ensures
        seal_blocks(key, nonce, p, n).len() == 16 * n,
        forall|i: int| 0 <= i < n ==> #[trigger] chunk(seal_blocks(key, nonce, p, n), i) == xor_block(
            delta_at(key, nonce, (i + 1) as nat),
            aes_block(key, xor_block(delta_at(key, nonce, (i + 1) as nat), chunk(p, i))),
        ),
    decreases n,
{
    if n > 0 {
        let m = (n - 1) as nat;
        lemma_seal_blocks(key, nonce, p, m);
        let prev = seal_blocks(key, nonce, p, m);
        let cur = seal_blocks(key, nonce, p, n);
        assert forall|i: int| 0 <= i < n implies #[trigger] chunk(cur, i) == xor_block(
            delta_at(key, nonce, (i + 1) as nat),
            aes_block(key, xor_block(delta_at(key, nonce, (i + 1) as nat), chunk(p, i))),
        ) by {
            if i < m {
                assert(chunk(cur, i) =~= chunk(prev, i));
            } else {
                assert(chunk(cur, i) =~= xor_block(delta_at(key, nonce, n), aes_block(key, xor_block(delta_at(key, nonce, n), chunk(p, m as int)))));
            }
        }
    }
}

/// The opened whole blocks are 16 bytes each, block `i` opened with offset `i + 1`.
proof fn lemma_open_blocks(key: Seq<u8>, nonce: Seq<u8>, c: Seq<u8>, n: nat)
    ensures
        open_blocks(key, nonce, c, n).len() == 16 * n,
        forall|i: int| 0 <= i < n ==> #[trigger] chunk(open_blocks(key, nonce, c, n), i) == xor_block(
            delta_at(key, nonce, (i + 1) as nat),
            aes_inv_block(key, xor_block(delta_at(key, nonce, (i + 1) as nat), chunk(c, i))),
        ),
    decreases n,
{
    if n > 0 {
        let m = (n - 1) as nat;
        lemma_open_blocks(key, nonce, c, m);
        let prev = open_blocks(key, nonce, c, m);
        let cur = open_blocks(key, nonce, c, n);
        assert forall|i: int| 0 <= i < n implies #[trigger] chunk(cur, i) == xor_block(
            delta_at(key, nonce, (i + 1) as nat),
            aes_inv_block(key, xor_block(delta_at(key, nonce, (i + 1) as nat), chunk(c, i))),
        ) by {
            if i < m {
                assert(chunk(cur, i) =~= chunk(prev, i));
            } else {
                assert(chunk(cur, i) =~= xor_block(delta_at(key, nonce, n), aes_inv_block(key, xor_block(delta_at(key, nonce, n), chunk(c, m as int)))));
            }
        }
    }
}

/// A tag is one block.
pub proof fn lemma_tag_len(key: Seq<u8>, nonce: Seq<u8>, p: Seq<u8>)
    ensures
        ocb_seal(key, nonce, p).1.len() == BLOCK,
        ocb_open(key, nonce, p).1.len() == BLOCK,
{
}

/// Sealing keeps the length.
proof fn lemma_seal_len(key: Seq<u8>, nonce: Seq<u8>, p: Seq<u8>)
    ensures
        ocb_seal(key, nonce, p).0.len() == p.len(),
{
    lemma_whole_blocks(p.len());
    lemma_seal_blocks(key, nonce, p, whole_blocks(p.len()));
}

/// The checksum of the first `n` blocks depends on those blocks only.
proof fn lemma_checksum_prefix(a: Seq<u8>, b: Seq<u8>, n: nat)
    requires
        forall|i: int| 0 <= i < n ==> #[trigger] chunk(a, i) == chunk(b, i),
    ensures
        checksum(a, n) == checksum(b, n),
    decreases n,
{
    if n > 0 {
        lemma_checksum_prefix(a, b, (n - 1) as nat);
        assert(chunk(a, n - 1) == chunk(b, n - 1));
    }
}

/// OCB2 encryption of `plain` under `key` with `nonce`.
pub fn ocb_encrypt(key: &Vec<u8>, nonce: &Vec<u8>, plain: &[u8]) -> (r: (Vec<u8>, Vec<u8>))
    requires
        key@.len() == BLOCK,
        nonce@.len() == BLOCK,
    ensures
        (r.0@, r.1@) == ocb_seal(key@, nonce@, plain@),
{
    let len = plain.len();
    let n: usize = if len == 0 { 0 } else { (len - 1) / 16 };
    proof {
        lemma_whole_blocks(len as nat);
        assert(n == whole_blocks(len as nat));
    }
    let mut delta = aes_enc(key, nonce);
    let mut sum = zero_exec();
    let mut out: Vec<u8> = Vec::new();
    let mut i: usize = 0;
    while i < n
        invariant
            key@.len() == BLOCK,
            n == whole_blocks(len as nat),
            len == plain@.len(),
            16 * n <= len,
            i <= n,
            delta@ == delta_at(key@, nonce@, i as nat),
            sum@ == checksum(plain@, i as nat),
            out@ == seal_blocks(key@, nonce@, plain@, i as nat),
        decreases n - i,
    {
        delta = times2_exec(&delta);
        let blk = copy_range(plain, 16 * i, 16 * i + 16);
        let x = xor_exec(&delta, &blk);
        let e = aes_enc(key, &x);
        let mut c = xor_exec(&delta, &e);
        out.append(&mut c);
        sum = xor_exec(&sum, &blk);
        i = i + 1;
    }
    proof {
        lemma_seal_blocks(key@, nonce@, plain@, n as nat);
    }
    delta = times2_exec(&delta);
    let rem = len - 16 * n;
    let lb = length_block_exec(rem);
    let padin = xor_exec(&lb, &delta);
    let pad = aes_enc(key, &padin);
    let mut last: Vec<u8> = Vec::new();
    let mut k: usize = 0;
    while k < BLOCK
        invariant
            k <= BLOCK,
            rem == len - 16 * n,
            rem <= BLOCK,
            16 * n + rem == len,
            len == plain@.len(),
            pad@.len() == BLOCK,
            last@.len() == k,
            out@.len() == 16 * n + if k < rem { k as int } else { rem as int },
            forall|q: int| 0 <= q < k ==> #[trigger] last@[q] == if q < rem { plain@[16 * n + q] } else { pad@[q] },
            forall|q: int| 0 <= q < k && q < rem ==> #[trigger] out@[16 * n + q] == plain@[16 * n + q] ^ pad@[q],
            forall|q: int| 0 <= q < 16 * n ==> #[trigger] out@[q] == seal_blocks(key@, nonce@, plain@, n as nat)[q],
        decreases BLOCK - k,
    {
        if k < rem {
            let b = plain[16 * n + k];
            last.push(b);
            out.push(b ^ pad[k]);
        } else {
            last.push(pad[k]);
        }
        k = k + 1;
    }
    sum = xor_exec(&sum, &last);
    let d2 = times2_exec(&delta);
    let d3 = xor_exec(&d2, &delta);
    let tagin = xor_exec(&d3, &sum);
    let tag = aes_enc(key, &tagin);
    proof {
        let tail = plain@.subrange(16 * n as int, len as int);
        assert(last@ =~= tail + pad@.subrange(rem as int, 16));
        let sealed = ocb_seal(key@, nonce@, plain@);
        let whole = seal_blocks(key@, nonce@, plain@, n as nat);
        assert(sealed.0.len() == out@.len());
        assert forall|q: int| 0 <= q < out@.len() implies out@[q] == sealed.0[q] by {
            if q >= 16 * n {
                assert(out@[16 * n + (q - 16 * n)] == plain@[16 * n + (q - 16 * n)] ^ pad@[q - 16 * n]);
            }
        }
        assert(out@ =~= sealed.0);
    }
    (out, tag)
}

/// OCB2 decryption of `enc` under `key` with `nonce`: the plaintext and the
/// tag it should carry. What `ocb_encrypt` produced comes back unchanged,
/// with the tag it was sealed with.
pub fn ocb_decrypt(key: &Vec<u8>, nonce: &Vec<u8>, enc: &[u8]) -> (r: (Vec<u8>, Vec<u8>))
    requires
        key@.len() == BLOCK,
        nonce@.len() == BLOCK,
    ensures
        (r.0@, r.1@) == ocb_open(key@, nonce@, enc@),
        forall|p: Seq<u8>| #[trigger] ocb_seal(key@, nonce@, p).0 == enc@ ==> r.0@ == p && r.1@ == ocb_seal(
            key@,
            nonce@,
            p,
        ).1,
{
    let len = enc.len();
    let n: usize = if len == 0 { 0 } else { (len - 1) / 16 };
    proof {
        lemma_whole_blocks(len as nat);
        assert(n == whole_blocks(len as nat));
        assert forall|p: Seq<u8>| #[trigger] ocb_seal(key@, nonce@, p).0 == enc@ implies p.len() == len
            && enc@.subrange(0, 16 * n as int) == seal_blocks(key@, nonce@, p, n as nat) by {
            lemma_seal_len(key@, nonce@, p);
            lemma_seal_blocks(key@, nonce@, p, n as nat);
            assert(enc@.subrange(0, 16 * n as int) =~= seal_blocks(key@, nonce@, p, n as nat));
        }
    }
    let mut delta = aes_enc(key, nonce);
    let mut sum = zero_exec();
    let mut out: Vec<u8> = Vec::new();
    let mut i: usize = 0;
    while i < n
        invariant
            key@.len() == BLOCK,
            n == whole_blocks(len as nat),
            len == enc@.len(),
            16 * n <= len,
            i <= n,
            delta@ == delta_at(key@, nonce@, i as nat),
            sum@ == checksum(out@, i as nat),
            out@ == open_blocks(key@, nonce@, enc@, i as nat),
            forall|p: Seq<u8>| #[trigger] ocb_seal(key@, nonce@, p).0 == enc@ ==> p.len() == len
                && enc@.subrange(0, 16 * n as int) == seal_blocks(key@, nonce@, p, n as nat),
            forall|p: Seq<u8>| #[trigger] ocb_seal(key@, nonce@, p).0 == enc@ ==> out@ == p.subrange(0, 16 * i as int),
        decreases n - i,
    {
        let ghost before = out@;
        delta = times2_exec(&delta);
        let blk = copy_range(enc, 16 * i, 16 * i + 16);
        let x = xor_exec(&delta, &blk);
        let e = aes_dec(key, &x);
        let mut c = xor_exec(&delta, &e);
        sum = xor_exec(&sum, &c);
        let ghost cb = c@;
        out.append(&mut c);
        proof {
            lemma_open_blocks(key@, nonce@, enc@, (i + 1) as nat);
            assert(blk@ == chunk(enc@, i as int));
            assert(out@ =~= open_blocks(key@, nonce@, enc@, (i + 1) as nat));
            assert(chunk(out@, i as int) =~= cb);
            assert forall|j: int| 0 <= j < i implies #[trigger] chunk(out@, j) == chunk(before, j) by {
                assert(chunk(out@, j) =~= chunk(before, j));
            }
            lemma_checksum_prefix(out@, before, i as nat);
            assert forall|p: Seq<u8>| #[trigger] ocb_seal(key@, nonce@, p).0 == enc@ implies out@ == p.subrange(0, 16 * (i + 1)) by {
                lemma_seal_blocks(key@, nonce@, p, n as nat);
                let d = delta_at(key@, nonce@, (i + 1) as nat);
                let pb = chunk(p, i as int);
                let sb = seal_blocks(key@, nonce@, p, n as nat);
                assert(chunk(enc@, i as int) =~= chunk(sb, i as int));
                assert(chunk(sb, i as int) == xor_block(d, aes_block(key@, xor_block(d, pb))));
                assert forall|q: int| 0 <= q < BLOCK implies #[trigger] x@[q] == aes_block(key@, xor_block(d, pb))[q] by {
                    lemma_xor_cancel(d[q], aes_block(key@, xor_block(d, pb))[q]);
                }
                assert(x@ =~= aes_block(key@, xor_block(d, pb)));
                assert(e@ == xor_block(d, pb));
                assert forall|q: int| 0 <= q < BLOCK implies #[trigger] cb[q] == pb[q] by {
                    lemma_xor_cancel(d[q], pb[q]);
                }
                assert(out@ =~= p.subrange(0, 16 * (i + 1)));
            }
        }
        i = i + 1;
    }
    delta = times2_exec(&delta);
    let rem = len - 16 * n;
    let lb = length_block_exec(rem);
    let padin = xor_exec(&lb, &delta);
    let pad = aes_enc(key, &padin);
    proof {
        lemma_open_blocks(key@, nonce@, enc@, n as nat);
    }
    let ghost whole = out@;
    let mut last: Vec<u8> = Vec::new();
    let mut k: usize = 0;
    while k < BLOCK
        invariant
            k <= BLOCK,
            rem == len - 16 * n,
            rem <= BLOCK,
            16 * n + rem == len,
            len == enc@.len(),
            pad@.len() == BLOCK,
            whole.len() == 16 * n,
            last@.len() == k,
            out@.len() == 16 * n + if k < rem { k as int } else { rem as int },
            forall|q: int| 0 <= q < k ==> #[trigger] last@[q] == if q < rem { enc@[16 * n + q] ^ pad@[q] } else { pad@[q] },
            forall|q: int| 0 <= q < k && q < rem ==> #[trigger] out@[16 * n + q] == enc@[16 * n + q] ^ pad@[q],
            forall|q: int| 0 <= q < 16 * n ==> #[trigger] out@[q] == whole[q],
        decreases BLOCK - k,
    {
        if k < rem {
            let b = enc[16 * n + k] ^ pad[k];
            last.push(b);
            out.push(b);
        } else {
            last.push(pad[k]);
        }
        k = k + 1;
    }
    sum = xor_exec(&sum, &last);
    let d2 = times2_exec(&delta);
    let d3 = xor_exec(&d2, &delta);
    let tagin = xor_exec(&d3, &sum);
    let tag = aes_enc(key, &tagin);
    proof {
        let tail = enc@.subrange(16 * n as int, len as int);
        let p_tail = Seq::new(rem as nat, |q: int| tail[q] ^ pad@[q]);
        assert(last@ =~= p_tail + pad@.subrange(rem as int, 16));
        assert(out@.len() == (whole + p_tail).len());
        assert forall|q: int| 0 <= q < out@.len() implies out@[q] == (whole + p_tail)[q] by {
            if q >= 16 * n {
                let q2 = q - 16 * n;
                assert(out@[16 * n + q2] == enc@[16 * n + q2] ^ pad@[q2]);
                assert(tail[q2] == enc@[16 * n + q2]);
            }
        }
        assert(out@ =~= whole + p_tail);
        assert forall|j: int| 0 <= j < n implies #[trigger] chunk(out@, j) == chunk(whole, j) by {
            assert(chunk(out@, j) =~= chunk(whole, j));
        }
        lemma_checksum_prefix(out@, whole, n as nat);
        assert forall|p: Seq<u8>| #[trigger] ocb_seal(key@, nonce@, p).0 == enc@ implies out@ == p && tag@ == ocb_seal(
            key@,
            nonce@,
            p,
        ).1 by {
            assert(whole == p.subrange(0, 16 * n as int));
            let ptail = p.subrange(16 * n as int, len as int);
            let sealed = ocb_seal(key@, nonce@, p);
            assert forall|q: int| 0 <= q < rem implies #[trigger] p_tail[q] == ptail[q] by {
                assert(enc@[16 * n + q] == sealed.0[16 * n + q]);
                lemma_seal_blocks(key@, nonce@, p, n as nat);
                assert(sealed.0[16 * n + q] == ptail[q] ^ pad@[q]);
                lemma_xor_cancel(pad@[q], ptail[q]);
            }
            assert(p_tail =~= ptail);
            assert(out@ =~= p);
            assert forall|j: int| 0 <= j < n implies #[trigger] chunk(whole, j) == chunk(p, j) by {
                assert(chunk(whole, j) =~= chunk(p, j));
            }
            lemma_checksum_prefix(whole, p, n as nat);
        }
    }
    (out, tag)
}

} // verus!
