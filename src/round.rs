//! The Ascon permutation on a state of five 64-bit words.
use vstd::prelude::*;

verus! {

/// The twelve round constants, in the order of a full twelve-round
/// application. A shorter application uses their last entries.
pub open spec fn round_constants() -> Seq<u64> {
    seq![0xf0, 0xe1, 0xd2, 0xc3, 0xb4, 0xa5, 0x96, 0x87, 0x78, 0x69, 0x5a, 0x4b]
}

/// Rotation of `x` to the right by `n` bits, `0 < n < 64`.
pub open spec fn rotr_spec(x: u64, n: u64) -> u64 {
    (x >> n) | (x << (64 - n) as u64)
}

/// The linear diffusion of one word.
pub open spec fn diffuse(t: u64, a: u64, b: u64) -> u64 {
    t ^ rotr_spec(t, a) ^ rotr_spec(t, b)
}

#[verifier::opaque]
/// One round with constant `rc`: constant addition, the bit-sliced S-box,
/// then linear diffusion.
pub open spec fn round_spec(s: Seq<u64>, rc: u64) -> Seq<u64> {
    let x0 = s[0] ^ s[4];
    let x1 = s[1];
    let x2 = s[2] ^ rc ^ s[1];
    let x3 = s[3];
    let x4 = s[4] ^ s[3];
    let t0 = x0 ^ (!x1 & x2);
    let t1 = x1 ^ (!x2 & x3);
    let t2 = x2 ^ (!x3 & x4);
    let t3 = x3 ^ (!x4 & x0);
    let t4 = x4 ^ (!x0 & x1);
    seq![
        diffuse(t0 ^ t4, 19, 28),
        diffuse(t1 ^ t0, 61, 39),
        diffuse(!t2, 1, 6),
        diffuse(t3 ^ t2, 10, 17),
        diffuse(t4, 7, 41),
    ]
}

/// The first `k` of the `n` rounds of an `n`-round application.
pub open spec fn rounds_spec(s: Seq<u64>, n: nat, k: nat) -> Seq<u64>
    decreases k,
{
    if k == 0 {
        s
    } else {
        round_spec(rounds_spec(s, n, (k - 1) as nat), round_constants()[12 - n + k - 1])
    }
}

/// `n` rounds of the permutation, with the last `n` round constants.
pub open spec fn permute(s: Seq<u64>, n: nat) -> Seq<u64> {
    rounds_spec(s, n, n)
}

/// A round keeps the state at five words.
pub proof fn lemma_round_len(s: Seq<u64>, rc: u64)
    ensures
        round_spec(s, rc).len() == 5,
{
    reveal(round_spec);
}

/// The permutation keeps the state at five words.
pub proof fn lemma_rounds_len(s: Seq<u64>, n: nat, k: nat)
    requires
        s.len() == 5,
    ensures
        rounds_spec(s, n, k).len() == 5,
    decreases k,
{
    if k > 0 {
        lemma_rounds_len(s, n, (k - 1) as nat);
        lemma_round_len(rounds_spec(s, n, (k - 1) as nat), round_constants()[12 - n + k - 1]);
    }
}

fn round_constant(i: usize) -> (r: u64)
    requires
        i < 12,
    ensures
        r == round_constants()[i as int],
{
    let constants: [u64; 12] = [
        0xf0,
        0xe1,
        0xd2,
        0xc3,
        0xb4,
        0xa5,
        0x96,
        0x87,
        0x78,
        0x69,
        0x5a,
        0x4b,
    ];
    assert(constants@ =~= round_constants());
    constants[i]
}

fn rotr(x: u64, n: u64) -> (r: u64)
    requires
        0 < n < 64,
    ensures
        r == rotr_spec(x, n),
{
    (x >> n) | (x << (64 - n))
}

/// Applies `n` rounds of the permutation to `state`.
pub fn do_n_rounds(state: &mut [u64; 5], n: usize)
    requires
        n <= 12,
    ensures
        final(state)@ == permute(old(state)@, n as nat),
{
    let mut i: usize = 0;
    while i < n
        invariant
            n <= 12,
            i <= n,
            state@ == rounds_spec(old(state)@, n as nat, i as nat),
        decreases n - i,
    {
        let rc = round_constant(12 - n + i);
        round(state, rc);
        i = i + 1;
    }
}

/// One round of the permutation with round constant `round_constant`.
fn round(state: &mut [u64; 5], round_constant: u64)
    ensures
        final(state)@ == round_spec(old(state)@, round_constant),
{
    // Constant addition
    state[2] ^= round_constant;

    // Substitution layer
    state[0] ^= state[4];
    state[2] ^= state[1];
    state[4] ^= state[3];

    let mut t0 = state[0] ^ (!state[1] & state[2]);
    let mut t1 = state[1] ^ (!state[2] & state[3]);
    let mut t2 = state[2] ^ (!state[3] & state[4]);
    let mut t3 = state[3] ^ (!state[4] & state[0]);
    let t4 = state[4] ^ (!state[0] & state[1]);

    t1 ^= t0;
    t0 ^= t4;
    t3 ^= t2;
    t2 = !t2;

    // Linear diffusion layer
    state[0] = t0 ^ rotr(t0, 19) ^ rotr(t0, 28);
    state[1] = t1 ^ rotr(t1, 61) ^ rotr(t1, 39);
    state[2] = t2 ^ rotr(t2, 1) ^ rotr(t2, 6);
    state[3] = t3 ^ rotr(t3, 10) ^ rotr(t3, 17);
    state[4] = t4 ^ rotr(t4, 7) ^ rotr(t4, 41);

    reveal(round_spec);
    assert(state@ =~= round_spec(old(state)@, round_constant));
}

/// The lowercase hexadecimal digit of `d < 16`.
pub open spec fn hex_char(d: nat) -> char {
    seq!['0', '1', '2', '3', '4', '5', '6', '7', '8', '9', 'a', 'b', 'c', 'd', 'e', 'f'][d as int]
}

/// `n` in lowercase hexadecimal, without leading zeros.
pub open spec fn hex_digits(n: nat) -> Seq<char>
    decreases n,
{
    if n < 16 {
        seq![hex_char(n)]
    } else {
        hex_digits(n / 16) + seq![hex_char(n % 16)]
    }
}

/// The display of a state: each word in lowercase hexadecimal, labelled.
pub open spec fn state_text(s: Seq<u64>) -> Seq<char> {
    seq!['x', '0', '=', '0', 'x'] + hex_digits(s[0] as nat) + seq![' ', 'x', '1', '=', '0', 'x']
        + hex_digits(s[1] as nat) + seq![' ', 'x', '2', '=', '0', 'x'] + hex_digits(s[2] as nat)
        + seq![' ', 'x', '3', '=', '0', 'x'] + hex_digits(s[3] as nat) + seq![
        ' ',
        'x',
        '4',
        '=',
        '0',
        'x',
    ] + hex_digits(s[4] as nat)
}

fn push_hex(out: &mut String, x: u64)
    ensures
        final(out)@ == old(out)@ + hex_digits(x as nat),
    decreases x,
{
    if x >= 16 {
        push_hex(out, x / 16);
    }
    let digits = "0123456789abcdef";
    let d = (x % 16) as usize;
    proof {
        reveal_strlit("0123456789abcdef");
    }
    let c = digits.substring_char(d, d + 1);
    assert(c@ =~= seq![hex_char(d as nat)]);
    out.append(c);
    assert(out@ =~= old(out)@ + hex_digits(x as nat));
}

/// Displays the five state words.
pub fn state_to_str(state: &[u64; 5]) -> (r: String)
    ensures
        r@ == state_text(state@),
{
    let mut out = String::new();
    proof {
        reveal_strlit("x0=0x");
        reveal_strlit(" x1=0x");
        reveal_strlit(" x2=0x");
        reveal_strlit(" x3=0x");
        reveal_strlit(" x4=0x");
    }
    out.append("x0=0x");
    push_hex(&mut out, state[0]);
    out.append(" x1=0x");
    push_hex(&mut out, state[1]);
    out.append(" x2=0x");
    push_hex(&mut out, state[2]);
    out.append(" x3=0x");
    push_hex(&mut out, state[3]);
    out.append(" x4=0x");
    push_hex(&mut out, state[4]);
    assert(out@ =~= state_text(state@));
    out
}

} // verus!
