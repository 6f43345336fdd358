//! Ascon-AEAD128: authenticated encryption with associated data, a duplex
//! sponge over two rate words.
use vstd::prelude::*;

use crate::round::{do_n_rounds, lemma_rounds_len, permute};
use crate::utils::{
    lemma_blocks_fit, lemma_load_bytes, lemma_load_injective, lemma_load_store,
    lemma_load_store_full, lemma_store_load, load_spec, load_word, low_mask, pad_spec, pad_u64,
    push_word, store_spec, ALL_ONES,
};

verus! {

/// The initialization vector: algorithm identity, round numbers and rate.
pub const IV: u64 = 0x00001000808c0001;

/// Domain separation constant, XORed into `state[4]` after the associated data.
pub const DSEP: u64 = 0x80u64 << 56;

/// Number of bytes absorbed per permutation call.
pub const RATE: usize = 16;

// ----- The model -----
/// Word `w` (0 or 1) of block `j` of `data`.
pub open spec fn block_word(data: Seq<u8>, j: int, w: int) -> u64 {
    load_spec(data.subrange(16 * j + 8 * w, 16 * j + 8 * w + 8))
}

/// Number of full blocks of `data`.
pub open spec fn n_blocks(data: Seq<u8>) -> nat {
    data.len() / 16
}

/// What follows the full blocks of `data` (0 to 15 bytes).
pub open spec fn tail_of(data: Seq<u8>) -> Seq<u8> {
    data.subrange(16 * n_blocks(data) as int, data.len() as int)
}

/// XORs two words into the rate.
pub open spec fn xor_rate(s: Seq<u64>, w0: u64, w1: u64) -> Seq<u64> {
    s.update(0, s[0] ^ w0).update(1, s[1] ^ w1)
}

/// Replaces the rate by two words.
pub open spec fn set_rate(s: Seq<u64>, w0: u64, w1: u64) -> Seq<u64> {
    s.update(0, w0).update(1, w1)
}

/// The sixteen bytes of the rate, little-endian.
pub open spec fn rate_bytes(s: Seq<u64>) -> Seq<u8> {
    store_spec(s[0]) + store_spec(s[1])
}

/// The state after absorbing the first `k` full blocks of `data`, each block
/// XORed into the rate and followed by eight rounds.
pub open spec fn absorb_blocks(s: Seq<u64>, data: Seq<u8>, k: nat) -> Seq<u64>
    decreases k,
{
    if k == 0 {
        s
    } else {
        let j = k - 1;
        permute(
            xor_rate(absorb_blocks(s, data, j as nat), block_word(data, j, 0), block_word(data, j, 1)),
            8,
        )
    }
}

/// XORs a trailing partial block `t` (under 16 bytes) and its padding into
/// the rate.
pub open spec fn absorb_tail(s: Seq<u64>, t: Seq<u8>) -> Seq<u64> {
    if t.len() >= 8 {
        s.update(0, s[0] ^ load_spec(t.take(8))).update(
            1,
            s[1] ^ pad_spec(load_spec(t.skip(8)), (t.len() - 8) as u64),
        )
    } else {
        s.update(0, s[0] ^ pad_spec(load_spec(t), t.len() as u64))
    }
}

/// Absorption of the associated data, skipped when it is empty, then domain
/// separation.
pub open spec fn absorb_ad(s: Seq<u64>, ad: Seq<u8>) -> Seq<u64> {
    let a = if ad.len() == 0 {
        s
    } else {
        permute(absorb_tail(absorb_blocks(s, ad, n_blocks(ad)), tail_of(ad)), 8)
    };
    a.update(4, a[4] ^ DSEP)
}

/// Word `w` (0 or 1) of a 16-byte key or nonce.
pub open spec fn key_word(k: Seq<u8>, w: int) -> u64 {
    load_spec(k.subrange(8 * w, 8 * w + 8))
}

/// The state after initialization with key words `k0, k1` and nonce words
/// `n0, n1`.
pub open spec fn init_words(k0: u64, k1: u64, n0: u64, n1: u64) -> Seq<u64> {
    let s = permute(seq![IV, k0, k1, n0, n1], 12);
    s.update(3, s[3] ^ k0).update(4, s[4] ^ k1)
}

/// The state after finalization with key words `k0, k1`.
pub open spec fn finalize_words(s: Seq<u64>, k0: u64, k1: u64) -> Seq<u64> {
    let a = permute(s.update(2, s[2] ^ k0).update(3, s[3] ^ k1), 12);
    a.update(3, a[3] ^ k0).update(4, a[4] ^ k1)
}

/// The tag: `state[3]` then `state[4]`, little-endian.
pub open spec fn tag_of(s: Seq<u64>) -> Seq<u8> {
    store_spec(s[3]) + store_spec(s[4])
}

/// The ciphertext of the first `k` full blocks of `p`: the rate after each
/// block was XORed in.
pub open spec fn cipher_blocks(s: Seq<u64>, p: Seq<u8>, k: nat) -> Seq<u8>
    decreases k,
{
    if k == 0 {
        seq![]
    } else {
        let j = k - 1;
        cipher_blocks(s, p, j as nat) + rate_bytes(
            xor_rate(absorb_blocks(s, p, j as nat), block_word(p, j, 0), block_word(p, j, 1)),
        )
    }
}

/// The state after the plaintext phase of encryption.
pub open spec fn encrypt_state(s: Seq<u64>, p: Seq<u8>) -> Seq<u64> {
    absorb_tail(absorb_blocks(s, p, n_blocks(p)), tail_of(p))
}

/// The ciphertext: the full blocks, then as many bytes of the padded rate as
/// the tail has.
pub open spec fn encrypt_bytes(s: Seq<u64>, p: Seq<u8>) -> Seq<u8> {
    cipher_blocks(s, p, n_blocks(p)) + rate_bytes(encrypt_state(s, p)).take(
        tail_of(p).len() as int,
    )
}

/// The state after the first `k` full ciphertext blocks of `c`: the rate is
/// replaced by each block, followed by eight rounds.
pub open spec fn decrypt_blocks(s: Seq<u64>, c: Seq<u8>, k: nat) -> Seq<u64>
    decreases k,
{
    if k == 0 {
        s
    } else {
        let j = k - 1;
        permute(
            set_rate(decrypt_blocks(s, c, j as nat), block_word(c, j, 0), block_word(c, j, 1)),
            8,
        )
    }
}

/// The plaintext of the first `k` full ciphertext blocks of `c`: the rate
/// XORed with each block.
pub open spec fn plain_blocks(s: Seq<u64>, c: Seq<u8>, k: nat) -> Seq<u8>
    decreases k,
{
    if k == 0 {
        seq![]
    } else {
        let j = k - 1;
        let t = decrypt_blocks(s, c, j as nat);
        plain_blocks(s, c, j as nat) + store_spec(t[0] ^ block_word(c, j, 0)) + store_spec(
            t[1] ^ block_word(c, j, 1),
        )
    }
}

/// `w` padded after `t.len()` bytes (under 8), whose low `t.len()` bytes are
/// then overwritten with `t`.
pub open spec fn overwrite_low(w: u64, t: Seq<u8>) -> u64 {
    (pad_spec(w, t.len() as u64) & !low_mask(t.len() as u64)) | load_spec(t)
}

/// The rate after a trailing partial ciphertext block `t` (under 16 bytes):
/// it holds what encryption left there.
pub open spec fn decrypt_tail_state(s: Seq<u64>, t: Seq<u8>) -> Seq<u64> {
    if t.len() >= 8 {
        s.update(0, load_spec(t.take(8))).update(1, overwrite_low(s[1], t.skip(8)))
    } else {
        s.update(0, overwrite_low(s[0], t))
    }
}

/// The plaintext of a trailing partial ciphertext block `t`.
pub open spec fn decrypt_tail_bytes(s: Seq<u64>, t: Seq<u8>) -> Seq<u8> {
    if t.len() >= 8 {
        store_spec(s[0] ^ load_spec(t.take(8))) + store_spec(s[1] ^ load_spec(t.skip(8))).take(
            t.len() - 8,
        )
    } else {
        store_spec(s[0] ^ load_spec(t)).take(t.len() as int)
    }
}

/// The state after the ciphertext phase of decryption.
pub open spec fn decrypt_state(s: Seq<u64>, c: Seq<u8>) -> Seq<u64> {
    decrypt_tail_state(decrypt_blocks(s, c, n_blocks(c)), tail_of(c))
}

/// The recovered plaintext.
pub open spec fn decrypt_bytes(s: Seq<u64>, c: Seq<u8>) -> Seq<u8> {
    plain_blocks(s, c, n_blocks(c)) + decrypt_tail_bytes(
        decrypt_blocks(s, c, n_blocks(c)),
        tail_of(c),
    )
}

/// The state once the associated data is absorbed.
pub open spec fn after_ad(key: Seq<u8>, nonce: Seq<u8>, ad: Seq<u8>) -> Seq<u64> {
    absorb_ad(
        init_words(key_word(key, 0), key_word(key, 1), key_word(nonce, 0), key_word(nonce, 1)),
        ad,
    )
}

/// Encryption of `plain`: the ciphertext and the tag.
pub open spec fn encrypt_spec(key: Seq<u8>, nonce: Seq<u8>, ad: Seq<u8>, plain: Seq<u8>) -> (
    Seq<u8>,
    Seq<u8>,
) {
    let s = after_ad(key, nonce, ad);
    (
        encrypt_bytes(s, plain),
        tag_of(finalize_words(encrypt_state(s, plain), key_word(key, 0), key_word(key, 1))),
    )
}

/// The tag that decryption of `cipher` recomputes.
pub open spec fn decrypt_tag(key: Seq<u8>, nonce: Seq<u8>, ad: Seq<u8>, cipher: Seq<u8>) -> Seq<
    u8,
> {
    let s = after_ad(key, nonce, ad);
    tag_of(finalize_words(decrypt_state(s, cipher), key_word(key, 0), key_word(key, 1)))
}

/// Decryption of `cipher`: the plaintext when the recomputed tag is `tag`,
/// else nothing.
pub open spec fn decrypt_spec(
    key: Seq<u8>,
    nonce: Seq<u8>,
    ad: Seq<u8>,
    cipher: Seq<u8>,
    tag: Seq<u8>,
) -> Option<Seq<u8>> {
    if decrypt_tag(key, nonce, ad, cipher) == tag {
        Some(decrypt_bytes(after_ad(key, nonce, ad), cipher))
    } else {
        None
    }
}

proof fn lemma_overwrite(s: u64, t: u64, r: u64)
    by (bit_vector)
    requires
        r < 8,
        t & !low_mask(r) == 0,
    ensures
        ((pad_spec(s, r) ^ t) & (ALL_ONES << (8 * r) as u64)) ^ t == (pad_spec(s, r) & !low_mask(
            r,
        )) | t,
        (pad_spec(s, r) ^ t) & low_mask(r) == (s ^ t) & low_mask(r),
        r == 0 ==> (pad_spec(s, r) & !low_mask(r)) | t == pad_spec(s, r),
{
}

proof fn lemma_after_ad_len(key: Seq<u8>, nonce: Seq<u8>, ad: Seq<u8>)
    ensures
        after_ad(key, nonce, ad).len() == 5,
{
    let i = init_words(key_word(key, 0), key_word(key, 1), key_word(nonce, 0), key_word(nonce, 1));
    lemma_rounds_len(
        seq![IV, key_word(key, 0), key_word(key, 1), key_word(nonce, 0), key_word(nonce, 1)],
        12,
        12,
    );
    if ad.len() != 0 {
        lemma_absorb_blocks_len(i, ad, n_blocks(ad));
        lemma_rounds_len(absorb_tail(absorb_blocks(i, ad, n_blocks(ad)), tail_of(ad)), 8, 8);
    }
}

/// Encryption preserves length: the ciphertext is exactly as long as the
/// plaintext (empty for an empty plaintext), and the tag has 16 bytes.
pub proof fn lemma_length_preserved(key: Seq<u8>, nonce: Seq<u8>, ad: Seq<u8>, plain: Seq<u8>)
    ensures
        encrypt_spec(key, nonce, ad, plain).0.len() == plain.len(),
        encrypt_spec(key, nonce, ad, plain).1.len() == 16,
{
    lemma_after_ad_len(key, nonce, ad);
    lemma_encrypt_len(after_ad(key, nonce, ad), plain);
}

/// The recovered plaintext is as long as the ciphertext.
pub proof fn lemma_decrypt_len(s: Seq<u64>, c: Seq<u8>)
    ensures
        decrypt_bytes(s, c).len() == c.len(),
{
    lemma_plain_blocks_len(s, c, n_blocks(c));
    lemma_blocks_fit(c.len() as int, 16, 0);
}

proof fn lemma_plain_blocks_len(s: Seq<u64>, c: Seq<u8>, k: nat)
    ensures
        plain_blocks(s, c, k).len() == 16 * k,
    decreases k,
{
    if k > 0 {
        lemma_plain_blocks_len(s, c, (k - 1) as nat);
    }
}

proof fn lemma_encrypt_len(s: Seq<u64>, p: Seq<u8>)
    requires
        s.len() == 5,
    ensures
        encrypt_bytes(s, p).len() == p.len(),
{
    lemma_cipher_blocks_len(s, p, n_blocks(p));
    lemma_blocks_fit(p.len() as int, 16, 0);
}

proof fn lemma_cipher_blocks_len(s: Seq<u64>, p: Seq<u8>, k: nat)
    ensures
        cipher_blocks(s, p, k).len() == 16 * k,
    decreases k,
{
    if k > 0 {
        lemma_cipher_blocks_len(s, p, (k - 1) as nat);
    }
}

proof fn lemma_or_xor_zero(d: u8, x: u8, y: u8)
    by (bit_vector)
    ensures
        ((d | (x ^ y)) == 0) == (d == 0 && x == y),
{
}

/// Compares two tags, looking at every byte whatever the earlier ones were.
fn tags_equal(a: &[u8; 16], b: &[u8; 16]) -> (r: bool)
    ensures
        r == (a@ == b@),
{
    let mut diff: u8 = 0;
    let mut i: usize = 0;
    while i < 16
        invariant
            i <= 16,
            (diff == 0) == (forall|j: int| 0 <= j < i ==> a@[j] == b@[j]),
        decreases 16 - i,
    {
        proof {
            lemma_or_xor_zero(diff, a@[i as int], b@[i as int]);
        }
        diff = diff | (a[i] ^ b[i]);
        i = i + 1;
    }
    if diff == 0 {
        assert(a@ =~= b@);
    }
    diff == 0
}

proof fn lemma_xor_cancel(x: u64, y: u64)
    by (bit_vector)
    ensures
        x ^ (x ^ y) == y,
{
}

proof fn lemma_tail_bits(a: u64, p: u64, r: u64)
    by (bit_vector)
    requires
        r < 8,
        p & !low_mask(r) == 0,
    ensures
        (pad_spec(a, r) & !low_mask(r)) | ((a ^ pad_spec(p, r)) & low_mask(r)) == a ^ pad_spec(
            p,
            r,
        ),
        (a ^ ((a ^ pad_spec(p, r)) & low_mask(r))) & low_mask(r) == p,
{
}

/// Decrypting the emitted bytes of a trailing partial word `t` restores
/// both the word that encryption left and `t`.
proof fn lemma_word_tail(a: u64, t: Seq<u8>)
    requires
        t.len() < 8,
    ensures
        ({
            let e = a ^ pad_spec(load_spec(t), t.len() as u64);
            let ct = store_spec(e).take(t.len() as int);
            &&& overwrite_low(a, ct) == e
            &&& store_spec(a ^ load_spec(ct)).take(t.len() as int) == t
        }),
{
    let r = t.len() as int;
    let pw = load_spec(t);
    let e = a ^ pad_spec(pw, r as u64);
    let ct = store_spec(e).take(r);
    lemma_load_bytes(t);
    lemma_load_store(e, r);
    lemma_tail_bits(a, pw, r as u64);
    let back = a ^ load_spec(ct);
    lemma_load_store(back, r);
    lemma_load_injective(store_spec(back).take(r), t);
}

proof fn lemma_absorb_blocks_len(s: Seq<u64>, data: Seq<u8>, k: nat)
    requires
        s.len() == 5,
    ensures
        absorb_blocks(s, data, k).len() == 5,
    decreases k,
{
    if k > 0 {
        let j = (k - 1) as nat;
        lemma_absorb_blocks_len(s, data, j);
        lemma_rounds_len(
            xor_rate(absorb_blocks(s, data, j), block_word(data, j as int, 0), block_word(data, j as int, 1)),
            8,
            8,
        );
    }
}

/// Block `j` of the ciphertext of `k` full blocks is the rate after
/// block `j` was XORed in.
proof fn lemma_cipher_block(s: Seq<u64>, p: Seq<u8>, k: nat, j: int)
    requires
        0 <= j < k,
    ensures
        cipher_blocks(s, p, k).subrange(16 * j, 16 * j + 16) == rate_bytes(
            xor_rate(absorb_blocks(s, p, j as nat), block_word(p, j, 0), block_word(p, j, 1)),
        ),
    decreases k,
{
    lemma_cipher_blocks_len(s, p, k);
    lemma_cipher_blocks_len(s, p, (k - 1) as nat);
    if j < k - 1 {
        lemma_cipher_block(s, p, (k - 1) as nat, j);
        assert(cipher_blocks(s, p, k).subrange(16 * j, 16 * j + 16) =~= cipher_blocks(
            s,
            p,
            (k - 1) as nat,
        ).subrange(16 * j, 16 * j + 16));
    } else {
        assert(cipher_blocks(s, p, k).subrange(16 * j, 16 * j + 16) =~= rate_bytes(
            xor_rate(absorb_blocks(s, p, j as nat), block_word(p, j, 0), block_word(p, j, 1)),
        ));
    }
}

/// Over the full blocks, decryption of the ciphertext follows the states of
/// encryption and recovers the plaintext.
proof fn lemma_blocks_round_trip(s: Seq<u64>, p: Seq<u8>, c: Seq<u8>, j: nat)
    requires
        s.len() == 5,
        j <= n_blocks(p),
        c.len() == p.len(),
        c.subrange(0, 16 * n_blocks(p) as int) == cipher_blocks(s, p, n_blocks(p)),
    ensures
        decrypt_blocks(s, c, j) == absorb_blocks(s, p, j),
        plain_blocks(s, c, j) == p.take(16 * j as int),
    decreases j,
{
    lemma_blocks_fit(p.len() as int, 16, 0);
    if j > 0 {
        let i = j - 1;
        lemma_blocks_round_trip(s, p, c, i as nat);
        lemma_blocks_fit(p.len() as int, 16, i);
        let a = absorb_blocks(s, p, i as nat);
        lemma_absorb_blocks_len(s, p, i as nat);
        let x = xor_rate(a, block_word(p, i, 0), block_word(p, i, 1));
        lemma_cipher_block(s, p, n_blocks(p), i);
        let cb = c.subrange(16 * i, 16 * i + 16);
        assert(cb =~= cipher_blocks(s, p, n_blocks(p)).subrange(16 * i, 16 * i + 16));
        assert(c.subrange(16 * i, 16 * i + 8) =~= store_spec(x[0]));
        assert(c.subrange(16 * i + 8, 16 * i + 16) =~= cb.subrange(8, 16));
        assert(rate_bytes(x).subrange(8, 16) =~= store_spec(x[1]));
        assert(c.subrange(16 * i + 8, 16 * i + 16) =~= store_spec(x[1]));
        lemma_load_store_full(x[0]);
        lemma_load_store_full(x[1]);
        assert(set_rate(a, block_word(c, i, 0), block_word(c, i, 1)) =~= x);
        lemma_store_load(p.subrange(16 * i, 16 * i + 8));
        lemma_store_load(p.subrange(16 * i + 8, 16 * i + 16));
        lemma_xor_cancel(a[0], block_word(p, i, 0));
        lemma_xor_cancel(a[1], block_word(p, i, 1));
        assert(p.take(16 * j as int) =~= p.take(16 * i) + p.subrange(16 * i, 16 * i + 8) + p.subrange(
            16 * i + 8,
            16 * i + 16,
        ));
    }
}

/// Decryption inverts encryption: decrypting the ciphertext and tag that
/// encryption produced, under the same key, nonce and associated data,
/// succeeds and gives back the plaintext.
pub proof fn lemma_round_trip(key: Seq<u8>, nonce: Seq<u8>, ad: Seq<u8>, plain: Seq<u8>)
    ensures
        decrypt_spec(
            key,
            nonce,
            ad,
            encrypt_spec(key, nonce, ad, plain).0,
            encrypt_spec(key, nonce, ad, plain).1,
        ) == Some(plain),
        decrypt_tag(key, nonce, ad, encrypt_spec(key, nonce, ad, plain).0) == encrypt_spec(
            key,
            nonce,
            ad,
            plain,
        ).1,
{
    let s = after_ad(key, nonce, ad);
    lemma_after_ad_len(key, nonce, ad);
    let c = encrypt_bytes(s, plain);
    let k = n_blocks(plain);
    lemma_encrypt_len(s, plain);
    lemma_cipher_blocks_len(s, plain, k);
    lemma_blocks_fit(plain.len() as int, 16, 0);
    assert(c.subrange(0, 16 * k as int) =~= cipher_blocks(s, plain, k));
    lemma_blocks_round_trip(s, plain, c, k);
    let a = absorb_blocks(s, plain, k);
    lemma_absorb_blocks_len(s, plain, k);
    let tp = tail_of(plain);
    let e = absorb_tail(a, tp);
    let tc = tail_of(c);
    assert(tc =~= rate_bytes(e).take(tp.len() as int));
    if tp.len() >= 8 {
        let t1 = tp.skip(8);
        lemma_word_tail(a[1], t1);
        assert(tc.take(8) =~= store_spec(e[0]));
        assert(tc.skip(8) =~= store_spec(e[1]).take(t1.len() as int));
        lemma_load_store_full(e[0]);
        lemma_store_load(tp.take(8));
        lemma_xor_cancel(a[0], load_spec(tp.take(8)));
        assert(decrypt_tail_state(a, tc) =~= e);
        assert(decrypt_tail_bytes(a, tc) =~= tp.take(8) + t1);
        assert(tp =~= tp.take(8) + t1);
    } else {
        lemma_word_tail(a[0], tp);
        assert(tc =~= store_spec(e[0]).take(tp.len() as int));
        assert(decrypt_tail_state(a, tc) =~= e);
    }
    assert(plain =~= plain.take(16 * k as int) + tp);
}

/// A tag other than the one encryption produced is rejected: decrypting
/// the ciphertext with it gives nothing.
pub proof fn lemma_wrong_tag_rejected(
    key: Seq<u8>,
    nonce: Seq<u8>,
    ad: Seq<u8>,
    plain: Seq<u8>,
    tag: Seq<u8>,
)
    requires
        tag != encrypt_spec(key, nonce, ad, plain).1,
    ensures
        decrypt_spec(key, nonce, ad, encrypt_spec(key, nonce, ad, plain).0, tag).is_none(),
{
    lemma_round_trip(key, nonce, ad, plain);
}

// ----- The implementation -----
/// One Ascon-AEAD128 operation: the key, the nonce and the 320-bit state.
#[derive(Debug)]
pub struct AEAD128 {
    /// 128-bit key, as two little-endian words.
    key: [u64; 2],
    /// 128-bit nonce, as two little-endian words.
    nonce: [u64; 2],
    /// 320-bit internal state.
    state: [u64; 5],
}

impl AEAD128 {
    /// The five state words.
    pub closed spec fn words(&self) -> Seq<u64> {
        self.state@
    }

    fn new(key: [u8; 16], nonce: [u8; 16]) -> (r: Self)
        ensures
            r.key@ == seq![key_word(key@, 0), key_word(key@, 1)],
            r.nonce@ == seq![key_word(nonce@, 0), key_word(nonce@, 1)],
            r.state@ == seq![0u64, 0, 0, 0, 0],
    {
        let k = key.as_slice();
        let n = nonce.as_slice();
        let key = [load_word(k, 0, 8), load_word(k, 8, 8)];
        let nonce = [load_word(n, 0, 8), load_word(n, 8, 8)];
        let r = Self { key, nonce, state: [0;5] };
        assert(r.key@ =~= seq![key_word(k@, 0), key_word(k@, 1)]);
        assert(r.nonce@ =~= seq![key_word(n@, 0), key_word(n@, 1)]);
        assert(r.state@ =~= seq![0u64, 0, 0, 0, 0]);
        r
    }

    fn initialize(&mut self)
        ensures
            final(self).key == old(self).key,
            final(self).nonce == old(self).nonce,
            final(self).state@ == init_words(
                old(self).key@[0],
                old(self).key@[1],
                old(self).nonce@[0],
                old(self).nonce@[1],
            ),
    {
        self.state = [IV, self.key[0], self.key[1], self.nonce[0], self.nonce[1]];
        assert(self.state@ =~= seq![IV, self.key@[0], self.key@[1], self.nonce@[0], self.nonce@[1]]);
        do_n_rounds(&mut self.state, 12);
        self.xor_key();
        assert(self.state@ =~= init_words(
            self.key@[0],
            self.key@[1],
            self.nonce@[0],
            self.nonce@[1],
        ));
    }

    fn finalize(&mut self)
        ensures
            final(self).key == old(self).key,
            final(self).nonce == old(self).nonce,
            final(self).state@ == finalize_words(old(self).state@, old(self).key@[0], old(self).key@[1]),
    {
        self.state[2] ^= self.key[0];
        self.state[3] ^= self.key[1];
        assert(self.state@ =~= old(self).state@.update(2, old(self).state@[2] ^ self.key@[0]).update(
            3,
            old(self).state@[3] ^ self.key@[1],
        ));
        do_n_rounds(&mut self.state, 12);
        self.xor_key();
        assert(self.state@ =~= finalize_words(old(self).state@, self.key@[0], self.key@[1]));
    }

    /// Ascon-AEAD128 encryption of `plain` with associated data `ad`.
    ///
    /// Returns the ciphertext, as long as `plain`, and the 16-byte tag.
    pub fn encrypt(key: [u8; 16], nonce: [u8; 16], ad: &[u8], plain: &[u8]) -> (r: (
        Vec<u8>,
        [u8; 16],
    ))
        ensures
            r.0@ == encrypt_spec(key@, nonce@, ad@, plain@).0,
            r.1@ == encrypt_spec(key@, nonce@, ad@, plain@).1,
            r.0@.len() == plain@.len(),
    {
        let mut aead128 = Self::new(key, nonce);
        aead128.initialize();
        aead128.process_adata(ad);
        let cipher = aead128.process_plain(plain);
        aead128.finalize();
        proof {
            lemma_length_preserved(key@, nonce@, ad@, plain@);
        }
        (cipher, aead128.get_tag())
    }

    /// Ascon-AEAD128 decryption of `cipher` with associated data `ad`.
    ///
    /// Returns the plaintext when the recomputed tag equals `tag`, and
    /// `None` otherwise, releasing no plaintext.
    pub fn decrypt(key: [u8; 16], nonce: [u8; 16], ad: &[u8], cipher: &[u8], tag: [u8; 16]) -> (r:
        Option<Vec<u8>>)
        ensures
            r.is_some() == (decrypt_tag(key@, nonce@, ad@, cipher@) == tag@),
            r.is_some() ==> decrypt_spec(key@, nonce@, ad@, cipher@, tag@) == Some(r.unwrap()@),
            r.is_none() ==> decrypt_spec(key@, nonce@, ad@, cipher@, tag@).is_none(),
            r.is_some() ==> r.unwrap()@.len() == cipher@.len(),
    {
        let mut aead128 = Self::new(key, nonce);
        aead128.initialize();
        aead128.process_adata(ad);
        let plain = aead128.process_cipher(cipher);
        aead128.finalize();
        proof {
            lemma_decrypt_len(after_ad(key@, nonce@, ad@), cipher@);
        }
        let ptag = aead128.get_tag();
        if tags_equal(&ptag, &tag) {
            Some(plain)
        } else {
            None
        }
    }

    /// Absorbs the associated data (nothing when it is empty), then applies
    /// domain separation.
    fn process_adata(&mut self, ad: &[u8])
        ensures
            final(self).key == old(self).key,
            final(self).nonce == old(self).nonce,
            final(self).state@ == absorb_ad(old(self).state@, ad@),
    {
        let len = ad.len();
        if len != 0 {
            let nblocks = len / RATE;
            proof {
                lemma_blocks_fit(len as int, 16, 0);
            }
            let mut i: usize = 0;
            while i < nblocks
                invariant
                    len == ad@.len(),
                    nblocks == n_blocks(ad@),
                    i <= nblocks,
                    self.key == old(self).key,
                    self.nonce == old(self).nonce,
                    self.state@ == absorb_blocks(old(self).state@, ad@, i as nat),
                decreases nblocks - i,
            {
                proof {
                    lemma_blocks_fit(len as int, 16, i as int);
                }
                let w0 = load_word(ad, RATE * i, 8);
                let w1 = load_word(ad, RATE * i + 8, 8);
                self.state[0] ^= w0;
                self.state[1] ^= w1;
                assert(self.state@ =~= xor_rate(
                    absorb_blocks(old(self).state@, ad@, i as nat),
                    block_word(ad@, i as int, 0),
                    block_word(ad@, i as int, 1),
                ));
                do_n_rounds(&mut self.state, 8);
                i = i + 1;
            }
            // The trailing partial block, padded.
            let start = RATE * nblocks;
            let mut pos = start;
            let mut rem = ad.len() - start;
            let mut idx: usize = 0;
            if rem >= 8 {
                let w = load_word(ad, start, 8);
                self.state[0] ^= w;
                pos = start + 8;
                rem = rem - 8;
                idx = 1;
            }
            let last = load_word(ad, pos, rem);
            self.state[idx] ^= pad_u64(last, rem);
            proof {
                let t = tail_of(ad@);
                if t.len() >= 8 {
                    assert(t.take(8) =~= ad@.subrange(start as int, start + 8));
                    assert(t.skip(8) =~= ad@.subrange(start + 8, ad@.len() as int));
                } else {
                    assert(t =~= ad@.subrange(start as int, ad@.len() as int));
                }
                assert(self.state@ =~= absorb_tail(
                    absorb_blocks(old(self).state@, ad@, n_blocks(ad@)),
                    t,
                ));
            }
            do_n_rounds(&mut self.state, 8);
        }
        self.state[4] ^= DSEP;
        assert(self.state@ =~= absorb_ad(old(self).state@, ad@));
    }

    /// Encrypts the plaintext in duplex mode: each block is XORed into the
    /// rate, which is then emitted as ciphertext.
    fn process_plain(&mut self, plain: &[u8]) -> (out: Vec<u8>)
        ensures
            final(self).key == old(self).key,
            final(self).nonce == old(self).nonce,
            final(self).state@ == encrypt_state(old(self).state@, plain@),
            out@ == encrypt_bytes(old(self).state@, plain@),
    {
        let len = plain.len();
        let mut out: Vec<u8> = Vec::new();
        let nblocks = len / RATE;
        proof {
            lemma_blocks_fit(len as int, 16, 0);
        }
        let mut i: usize = 0;
        while i < nblocks
            invariant
                len == plain@.len(),
                nblocks == n_blocks(plain@),
                i <= nblocks,
                self.key == old(self).key,
                self.nonce == old(self).nonce,
                self.state@ == absorb_blocks(old(self).state@, plain@, i as nat),
                out@ == cipher_blocks(old(self).state@, plain@, i as nat),
            decreases nblocks - i,
        {
            proof {
                lemma_blocks_fit(len as int, 16, i as int);
            }
            let w0 = load_word(plain, RATE * i, 8);
            let w1 = load_word(plain, RATE * i + 8, 8);
            self.state[0] ^= w0;
            self.state[1] ^= w1;
            let ghost absorbed = self.state@;
            assert(absorbed =~= xor_rate(
                absorb_blocks(old(self).state@, plain@, i as nat),
                block_word(plain@, i as int, 0),
                block_word(plain@, i as int, 1),
            ));
            push_word(&mut out, self.state[0], 8);
            push_word(&mut out, self.state[1], 8);
            assert(store_spec(absorbed[0]).take(8) =~= store_spec(absorbed[0]));
            assert(store_spec(absorbed[1]).take(8) =~= store_spec(absorbed[1]));
            assert(out@ =~= cipher_blocks(old(self).state@, plain@, (i + 1) as nat));
            do_n_rounds(&mut self.state, 8);
            i = i + 1;
        }
        // The trailing partial block, padded; only its real bytes are emitted.
        let ghost blocks_out = out@;
        let start = RATE * nblocks;
        let mut pos = start;
        let mut rem = len - start;
        let mut idx: usize = 0;
        if rem >= 8 {
            let w = load_word(plain, start, 8);
            self.state[0] ^= w;
            push_word(&mut out, self.state[0], 8);
            pos = start + 8;
            rem = rem - 8;
            idx = 1;
        }
        let last = load_word(plain, pos, rem);
        self.state[idx] ^= pad_u64(last, rem);
        push_word(&mut out, self.state[idx], rem);
        proof {
            let t = tail_of(plain@);
            let st = self.state@;
            if t.len() >= 8 {
                assert(t.take(8) =~= plain@.subrange(start as int, start + 8));
                assert(t.skip(8) =~= plain@.subrange(start + 8, plain@.len() as int));
                assert(store_spec(st[0]).take(8) =~= store_spec(st[0]));
            } else {
                assert(t =~= plain@.subrange(start as int, plain@.len() as int));
            }
            assert(st =~= encrypt_state(old(self).state@, plain@));
            assert(out@ =~= blocks_out + rate_bytes(st).take(t.len() as int));
        }
        out
    }

    /// Decrypts the ciphertext in duplex mode: each plaintext block is the
    /// rate XORed with the ciphertext block, which then replaces the rate.
    fn process_cipher(&mut self, cipher: &[u8]) -> (out: Vec<u8>)
        ensures
            final(self).key == old(self).key,
            final(self).nonce == old(self).nonce,
            final(self).state@ == decrypt_state(old(self).state@, cipher@),
            out@ == decrypt_bytes(old(self).state@, cipher@),
    {
        let len = cipher.len();
        let mut out: Vec<u8> = Vec::new();
        let nblocks = len / RATE;
        proof {
            lemma_blocks_fit(len as int, 16, 0);
        }
        let mut i: usize = 0;
        while i < nblocks
            invariant
                len == cipher@.len(),
                nblocks == n_blocks(cipher@),
                i <= nblocks,
                self.key == old(self).key,
                self.nonce == old(self).nonce,
                self.state@ == decrypt_blocks(old(self).state@, cipher@, i as nat),
                out@ == plain_blocks(old(self).state@, cipher@, i as nat),
            decreases nblocks - i,
        {
            proof {
                lemma_blocks_fit(len as int, 16, i as int);
            }
            let ghost before = self.state@;
            let c0 = load_word(cipher, RATE * i, 8);
            push_word(&mut out, self.state[0] ^ c0, 8);
            self.state[0] = c0;
            let c1 = load_word(cipher, RATE * i + 8, 8);
            push_word(&mut out, self.state[1] ^ c1, 8);
            self.state[1] = c1;
            assert(self.state@ =~= set_rate(before, c0, c1));
            assert(store_spec(before[0] ^ c0).take(8) =~= store_spec(before[0] ^ c0));
            assert(store_spec(before[1] ^ c1).take(8) =~= store_spec(before[1] ^ c1));
            assert(out@ =~= plain_blocks(old(self).state@, cipher@, (i + 1) as nat));
            do_n_rounds(&mut self.state, 8);
            i = i + 1;
        }
        // The trailing partial block: the rate word is padded, then its low
        // bytes are overwritten with the ciphertext bytes.
        let ghost blocks_state = self.state@;
        let ghost blocks_out = out@;
        let start = RATE * nblocks;
        let mut pos = start;
        let mut rem = len - start;
        let mut idx: usize = 0;
        if rem >= 8 {
            let c0 = load_word(cipher, start, 8);
            push_word(&mut out, self.state[0] ^ c0, 8);
            self.state[0] = c0;
            pos = start + 8;
            rem = rem - 8;
            idx = 1;
        }
        let ghost word = self.state@[idx as int];
        let ghost head_out = out@;
        self.state[idx] = pad_u64(self.state[idx], rem);
        let t = load_word(cipher, pos, rem);
        if rem != 0 {
            let x = self.state[idx] ^ t;
            push_word(&mut out, x, rem);
            self.state[idx] = (x & (ALL_ONES << (8 * rem as u64))) ^ t;
        }
        proof {
            let tt = cipher@.subrange(pos as int, len as int);
            lemma_load_bytes(tt);
            lemma_overwrite(word, t, rem as u64);
            assert(self.state@[idx as int] == overwrite_low(word, tt));
            lemma_load_store(word ^ t, rem as int);
            lemma_load_store(pad_spec(word, rem as u64) ^ t, rem as int);
            lemma_load_injective(
                store_spec(word ^ t).take(rem as int),
                store_spec(pad_spec(word, rem as u64) ^ t).take(rem as int),
            );
            assert(out@ =~= head_out + store_spec(word ^ t).take(rem as int));
            let tl = tail_of(cipher@);
            if tl.len() >= 8 {
                assert(tl.take(8) =~= cipher@.subrange(start as int, start + 8));
                assert(tl.skip(8) =~= tt);
                assert(store_spec(blocks_state[0] ^ load_spec(tl.take(8))).take(8) =~= store_spec(
                    blocks_state[0] ^ load_spec(tl.take(8)),
                ));
            } else {
                assert(tl =~= tt);
            }
            assert(self.state@ =~= decrypt_tail_state(blocks_state, tl));
            assert(out@ =~= blocks_out + decrypt_tail_bytes(blocks_state, tl));
        }
        out
    }

    /// The tag: `state[3]` then `state[4]`, little-endian.
    pub fn get_tag(&mut self) -> (tag: [u8; 16])
        ensures
            *final(self) == *old(self),
            tag@ == tag_of(old(self).words()),
    {
        let mut out: Vec<u8> = Vec::new();
        push_word(&mut out, self.state[3], 8);
        push_word(&mut out, self.state[4], 8);
        let mut tag = [0u8; 16];
        let mut i: usize = 0;
        while i < 16
            invariant
                i <= 16,
                out@.len() == 16,
                forall|j: int| 0 <= j < i ==> tag@[j] == out@[j],
            decreases 16 - i,
        {
            tag[i] = out[i];
            i = i + 1;
        }
        assert(out@ =~= tag_of(self.state@));
        assert(tag@ =~= out@);
        tag
    }

    /// XORs the key into the last two state words.
    fn xor_key(&mut self)
        ensures
            final(self).key == old(self).key,
            final(self).nonce == old(self).nonce,
            final(self).state@ == old(self).state@.update(3, old(self).state@[3] ^ old(self).key@[0]).update(
                4,
                old(self).state@[4] ^ old(self).key@[1],
            ),
    {
        self.state[3] ^= self.key[0];
        self.state[4] ^= self.key[1];
        assert(self.state@ =~= old(self).state@.update(3, old(self).state@[3] ^ old(self).key@[0]).update(
            4,
            old(self).state@[4] ^ old(self).key@[1],
        ));
    }
}

} // verus!
