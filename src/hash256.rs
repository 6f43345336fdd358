//! Ascon-Hash256: a sponge over one rate word, with a 32-byte digest.
use vstd::prelude::*;

use crate::round::{do_n_rounds, permute};
use crate::utils::{lemma_blocks_fit, load_spec, load_word, pad_spec, pad_u64, push_word, store_spec};

verus! {

/// The initialization vector: algorithm identity, round numbers and rate.
pub const IV: u64 = 0x0000080100cc0002;

/// The state after initialization.
pub open spec fn hash_init() -> Seq<u64> {
    permute(seq![IV, 0, 0, 0, 0], 12)
}

/// The state after absorbing the first `k` 8-byte chunks of `data`, each
/// XORed into `state[0]` and followed by twelve rounds.
pub open spec fn hash_blocks(s: Seq<u64>, data: Seq<u8>, k: nat) -> Seq<u64>
    decreases k,
{
    if k == 0 {
        s
    } else {
        let t = hash_blocks(s, data, (k - 1) as nat);
        permute(t.update(0, t[0] ^ load_spec(data.subrange(8 * (k - 1), 8 * k as int))), 12)
    }
}

/// The state after absorbing all of `data`: the full chunks, then the padded
/// remainder, with no rounds after it.
pub open spec fn hash_absorb(s: Seq<u64>, data: Seq<u8>) -> Seq<u64> {
    let k = data.len() / 8;
    let t = hash_blocks(s, data, k);
    let rest = data.subrange(8 * k as int, data.len() as int);
    t.update(0, t[0] ^ pad_spec(load_spec(rest), rest.len() as u64))
}

/// The state after `j` squeezes, each of twelve rounds.
pub open spec fn squeeze_state(s: Seq<u64>, j: nat) -> Seq<u64>
    decreases j,
{
    if j == 0 {
        s
    } else {
        permute(squeeze_state(s, (j - 1) as nat), 12)
    }
}

/// The output of `j` squeezes: `state[0]` after each, little-endian.
pub open spec fn squeeze_bytes(s: Seq<u64>, j: nat) -> Seq<u8>
    decreases j,
{
    if j == 0 {
        seq![]
    } else {
        squeeze_bytes(s, (j - 1) as nat) + store_spec(squeeze_state(s, j)[0])
    }
}

/// The Ascon-Hash256 digest of `data`.
pub open spec fn hash_spec(data: Seq<u8>) -> Seq<u8> {
    squeeze_bytes(hash_absorb(hash_init(), data), 4)
}

/// One Ascon-Hash256 operation: the 320-bit state.
#[derive(Debug, Default)]
pub struct Hash256 {
    /// 320-bit internal state.
    state: [u64; 5],
}

impl Hash256 {
    /// The Ascon-Hash256 digest of `data`.
    pub fn hash(data: &[u8]) -> (r: [u8; 32])
        ensures
            r@ == hash_spec(data@),
    {
        let mut hash256 = Hash256::initialize();
        hash256.process_data(data);
        hash256.squeeze()
    }

    fn initialize() -> (r: Self)
        ensures
            r.state@ == hash_init(),
    {
        let mut out = Hash256 { state: [IV, 0, 0, 0, 0] };
        assert(out.state@ =~= seq![IV, 0, 0, 0, 0]);
        do_n_rounds(&mut out.state, 12);
        out
    }

    fn process_data(&mut self, data: &[u8])
        ensures
            final(self).state@ == hash_absorb(old(self).state@, data@),
    {
        let len = data.len();
        let nblocks = len / 8;
        proof {
            lemma_blocks_fit(len as int, 8, 0);
        }
        let mut i: usize = 0;
        while i < nblocks
            invariant
                len == data@.len(),
                nblocks == data@.len() / 8,
                i <= nblocks,
                self.state@ == hash_blocks(old(self).state@, data@, i as nat),
            decreases nblocks - i,
        {
            proof {
                lemma_blocks_fit(len as int, 8, i as int);
            }
            let c = load_word(data, 8 * i, 8);
            self.state[0] ^= c;
            let ghost t = hash_blocks(old(self).state@, data@, i as nat);
            assert(self.state@ =~= t.update(
                0,
                t[0] ^ load_spec(data@.subrange(8 * i, 8 * (i + 1))),
            ));
            do_n_rounds(&mut self.state, 12);
            i = i + 1;
        }
        // The trailing partial chunk, padded.
        let start = 8 * nblocks;
        let rem = len - start;
        let last = load_word(data, start, rem);
        self.state[0] ^= pad_u64(last, rem);
        assert(self.state@ =~= hash_absorb(old(self).state@, data@));
    }

    /// Four squeezes of twelve rounds each, emitting `state[0]` after each.
    fn squeeze(&mut self) -> (r: [u8; 32])
        ensures
            r@ == squeeze_bytes(old(self).state@, 4),
            final(self).state@ == squeeze_state(old(self).state@, 4),
    {
        let mut bytes: Vec<u8> = Vec::new();
        let mut i: usize = 0;
        while i < 4
            invariant
                i <= 4,
                self.state@ == squeeze_state(old(self).state@, i as nat),
                bytes@ == squeeze_bytes(old(self).state@, i as nat),
                bytes@.len() == 8 * i,
            decreases 4 - i,
        {
            do_n_rounds(&mut self.state, 12);
            push_word(&mut bytes, self.state[0], 8);
            assert(store_spec(self.state@[0]).take(8) =~= store_spec(self.state@[0]));
            i = i + 1;
        }
        let mut out = [0u8; 32];
        let mut j: usize = 0;
        while j < 32
            invariant
                j <= 32,
                bytes@.len() == 32,
                forall|m: int| 0 <= m < j ==> out@[m] == bytes@[m],
            decreases 32 - j,
        {
            out[j] = bytes[j];
            j = j + 1;
        }
        assert(out@ =~= bytes@);
        out
    }
}

} // verus!
