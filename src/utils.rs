//! Little-endian packing of bytes into 64-bit words, and the padding rule.
use vstd::prelude::*;

verus! {

/// All 64 bits set.
pub const ALL_ONES: u64 = 0xffff_ffff_ffff_ffff;

/// The low `n` bytes of a word (all of it once `n` reaches 8).
pub open spec fn low_mask(n: u64) -> u64 {
    if n >= 8 {
        ALL_ONES
    } else {
        !(ALL_ONES << (8 * n) as u64)
    }
}

/// Byte `i` (counted from the least significant) of `w`.
pub open spec fn byte_at(w: u64, i: u64) -> u8 {
    ((w >> (8 * i) as u64) & 0xff) as u8
}

/// The eight bytes of `w`, least significant first.
pub open spec fn store_spec(w: u64) -> Seq<u8> {
    Seq::new(8, |i: int| byte_at(w, i as u64))
}

/// The word whose low bytes are `b` (at most eight, least significant first)
/// and whose other bytes are zero.
pub open spec fn load_spec(b: Seq<u8>) -> u64
    decreases b.len(),
{
    if b.len() == 0 {
        0
    } else {
        load_spec(b.drop_last()) | ((b.last() as u64) << (8 * (b.len() - 1)) as u64)
    }
}

/// The padding rule: a single marker bit right after the `size` real bytes.
pub open spec fn pad_spec(value: u64, size: u64) -> u64 {
    value ^ (1u64 << (8 * size) as u64)
}

/// Sets the padding bit of a trailing partial word holding `size` real bytes.
pub fn pad_u64(value: u64, size: usize) -> (r: u64)
    requires
        size <= 7,
    ensures
        r == pad_spec(value, size as u64),
{
    value ^ (1u64 << (8 * size as u64))
}


/// Block `i` of size `r` lies within `len` bytes when `i` is below the
/// number of full blocks; the full blocks leave under `r` bytes over.
pub proof fn lemma_blocks_fit(len: int, r: int, i: int)
    requires
        0 <= len,
        0 < r,
        0 <= i,
    ensures
        i < len / r ==> r * i + r <= len,
        r * (len / r) <= len < r * (len / r) + r,
{
    assert(i < len / r ==> r * i + r <= len) by (nonlinear_arith)
        requires
            0 <= len,
            0 < r,
            0 <= i,
    ;
    assert(r * (len / r) <= len < r * (len / r) + r) by (nonlinear_arith)
        requires
            0 <= len,
            0 < r,
    ;
}

/// Reads `len` bytes of `b` from `start` as the low bytes of a word.
pub fn load_word(b: &[u8], start: usize, len: usize) -> (r: u64)
    requires
        len <= 8,
        start + len <= b@.len(),
    ensures
        r == load_spec(b@.subrange(start as int, start + len)),
{
    let blen = b.len();
    let mut w: u64 = 0;
    let mut i: usize = 0;
    while i < len
        invariant
            blen == b@.len(),
            i <= len,
            len <= 8,
            start + len <= b@.len(),
            w == load_spec(b@.subrange(start as int, start + i)),
        decreases len - i,
    {
        let c = b[start + i];
        proof {
            let next = b@.subrange(start as int, start + i + 1);
            assert(next.drop_last() =~= b@.subrange(start as int, start + i));
        }
        w = w | ((c as u64) << (8 * i as u64));
        i = i + 1;
    }
    w
}

/// Appends the low `n` bytes of `w` to `out`, least significant first.
pub fn push_word(out: &mut Vec<u8>, w: u64, n: usize)
    requires
        n <= 8,
    ensures
        final(out)@ == old(out)@ + store_spec(w).take(n as int),
{
    let mut i: usize = 0;
    while i < n
        invariant
            i <= n,
            n <= 8,
            out@ == old(out)@ + store_spec(w).take(i as int),
        decreases n - i,
    {
        out.push(((w >> (8 * i as u64)) & 0xff) as u8);
        assert(out@ =~= old(out)@ + store_spec(w).take(i + 1));
        i = i + 1;
    }
}

proof fn lemma_byte_step(x: u64, c: u8, k: u64, i: u64)
    by (bit_vector)
    requires
        k < 8,
        x & !low_mask(k) == 0,
    ensures
        (x | ((c as u64) << (8 * k) as u64)) & !low_mask((k + 1) as u64) == 0,
        byte_at(x | ((c as u64) << (8 * k) as u64), k) == c,
        i < k ==> byte_at(x | ((c as u64) << (8 * k) as u64), i) == byte_at(x, i),
{
}

proof fn lemma_mask_step(w: u64, k: u64)
    by (bit_vector)
    requires
        k < 8,
    ensures
        (w & low_mask(k)) | ((byte_at(w, k) as u64) << (8 * k) as u64) == w & low_mask(
            (k + 1) as u64,
        ),
{
}

proof fn lemma_all_ones(w: u64)
    ensures
        w & low_mask(8) == w,
{
    assert(w & 0xffff_ffff_ffff_ffffu64 == w) by (bit_vector);
}

/// The bytes of a loaded word are the bytes it was loaded from, and its
/// other bytes are zero.
pub proof fn lemma_load_bytes(b: Seq<u8>)
    requires
        b.len() <= 8,
    ensures
        load_spec(b) & !low_mask(b.len() as u64) == 0,
        forall|i: int| 0 <= i < b.len() ==> #[trigger] byte_at(load_spec(b), i as u64) == b[i],
    decreases b.len(),
{
    if b.len() == 0 {
        assert(0u64 & !low_mask(0) == 0) by (bit_vector);
    } else {
        let k = (b.len() - 1) as u64;
        let x = load_spec(b.drop_last());
        lemma_load_bytes(b.drop_last());
        assert forall|i: int| 0 <= i < b.len() implies #[trigger] byte_at(load_spec(b), i as u64)
            == b[i] by {
            lemma_byte_step(x, b.last(), k, i as u64);
        }
        lemma_byte_step(x, b.last(), k, 0);
    }
}

/// Loading the low `n` bytes of a word gives that word masked to them.
pub proof fn lemma_load_store(w: u64, n: int)
    requires
        0 <= n <= 8,
    ensures
        load_spec(store_spec(w).take(n)) == w & low_mask(n as u64),
    decreases n,
{
    if n == 0 {
        assert(w & low_mask(0) == 0) by (bit_vector);
    } else {
        lemma_load_store(w, n - 1);
        assert(store_spec(w).take(n).drop_last() =~= store_spec(w).take(n - 1));
        lemma_mask_step(w, (n - 1) as u64);
    }
}

/// Two byte strings of equal length (at most eight) that load to the same
/// word are equal.
pub proof fn lemma_load_injective(a: Seq<u8>, b: Seq<u8>)
    requires
        a.len() == b.len(),
        a.len() <= 8,
        load_spec(a) == load_spec(b),
    ensures
        a == b,
{
    lemma_load_bytes(a);
    lemma_load_bytes(b);
    assert forall|i: int| 0 <= i < a.len() implies a[i] == b[i] by {
        assert(byte_at(load_spec(a), i as u64) == a[i]);
        assert(byte_at(load_spec(b), i as u64) == b[i]);
    }
    assert(a =~= b);
}

/// Storing a loaded word of eight bytes gives those bytes back.
pub proof fn lemma_store_load(b: Seq<u8>)
    requires
        b.len() == 8,
    ensures
        store_spec(load_spec(b)) == b,
{
    lemma_load_store(load_spec(b), 8);
    lemma_all_ones(load_spec(b));
    assert(store_spec(load_spec(b)).take(8) =~= store_spec(load_spec(b)));
    lemma_load_injective(store_spec(load_spec(b)), b);
}

/// Loading all eight stored bytes of a word gives the word back.
pub proof fn lemma_load_store_full(w: u64)
    ensures
        load_spec(store_spec(w)) == w,
{
    lemma_load_store(w, 8);
    assert(store_spec(w).take(8) =~= store_spec(w));
    lemma_all_ones(w);
}

} // verus!
