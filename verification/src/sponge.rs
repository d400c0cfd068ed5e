//! The SHAKE128 sponge: padding, absorbing and squeezing around Keccak-f[1600].

use vstd::prelude::*;
use crate::keccak::{grid_is, keccak_f, lemma_grid_lanes, lemma_lanes_grid, zero_lanes, State};

verus! {

/// Rate in bytes.
pub const R: usize = 168;

/// Rate in 64-bit lanes.
pub const R2: usize = 21;

/// Length of the padded message for an input of `n` bytes: the least
/// multiple of the rate above `n`.
pub open spec fn padded_len(n: int) -> int {
    (n / 168 + 1) * 168
}

/// The padded message: the input, the domain byte `0x1F`, zero bytes up to a
/// multiple of the rate, and `0x80` XORed into the last byte.
pub open spec fn pad_spec(input: Seq<u8>) -> Seq<u8> {
    let n = input.len() as int;
    let m = padded_len(n);
    Seq::new(
        m as nat,
        |i: int|
            if i < n {
                input[i]
            } else if i == n && i == m - 1 {
                0x9Fu8
            } else if i == n {
                0x1Fu8
            } else if i == m - 1 {
                0x80u8
            } else {
                0u8
            },
    )
}

/// The 64-bit word whose little-endian bytes are `b[at] .. b[at + 7]`.
pub open spec fn le_word(b: Seq<u8>, at: int) -> u64 {
    (b[at] as u64) | ((b[at + 1] as u64) << 8) | ((b[at + 2] as u64) << 16) | ((b[at + 3] as u64)
        << 24) | ((b[at + 4] as u64) << 32) | ((b[at + 5] as u64) << 40) | ((b[at + 6] as u64)
        << 48) | ((b[at + 7] as u64) << 56)
}

/// Byte `j` of the little-endian serialization of `w`.
pub open spec fn le_byte(w: u64, j: int) -> u8 {
    ((w >> ((8 * j) as u64)) & 0xff) as u8
}

/// The eight bytes of `w`, least significant first.
pub open spec fn le_bytes_spec(w: u64) -> Seq<u8> {
    Seq::new(8, |j: int| le_byte(w, j))
}

/// The message as little-endian words, eight bytes each.
pub open spec fn words_of(bytes: Seq<u8>) -> Seq<u64> {
    Seq::new((bytes.len() / 8) as nat, |k: int| le_word(bytes, 8 * k))
}

/// The state after XORing block `blk` of the words `p` into its first 21 lanes.
pub open spec fn absorb_block(a: Seq<u64>, p: Seq<u64>, blk: int) -> Seq<u64> {
    Seq::new(
        25,
        |i: int|
            if i < 21 {
                a[i] ^ p[21 * blk + i]
            } else {
                a[i]
            },
    )
}

/// The state after absorbing the first `n` blocks of `p` into a zero state.
pub open spec fn absorb(p: Seq<u64>, n: nat) -> Seq<u64>
    decreases n,
{
    if n == 0 {
        zero_lanes()
    } else {
        keccak_f(absorb_block(absorb(p, (n - 1) as nat), p, n - 1))
    }
}

/// The state `a` after `n` further permutations.
pub open spec fn permuted(a: Seq<u64>, n: nat) -> Seq<u64>
    decreases n,
{
    if n == 0 {
        a
    } else {
        keccak_f(permuted(a, (n - 1) as nat))
    }
}

/// Word `k` of the squeezed stream: lane `k % 21` of the state after `k / 21`
/// further permutations.
pub open spec fn stream_word(a: Seq<u64>, k: int) -> u64 {
    permuted(a, (k / 21) as nat)[k % 21]
}

/// Byte `k` of the squeezed stream.
pub open spec fn stream_byte(a: Seq<u64>, k: int) -> u8 {
    le_byte(stream_word(a, k / 8), k % 8)
}

/// The state of the sponge once the whole padded input is absorbed.
pub open spec fn absorbed(input: Seq<u8>) -> Seq<u64> {
    let padded = pad_spec(input);
    absorb(words_of(padded), (padded.len() / 168) as nat)
}

/// SHAKE128 of `input`, `len` bytes long.
pub open spec fn shake128_spec(input: Seq<u8>, len: nat) -> Seq<u8> {
    Seq::new(len, |k: int| stream_byte(absorbed(input), k))
}

/// Pads the message in place.
pub fn pad(input: &mut Vec<u8>)
    ensures
        final(input)@ == pad_spec(old(input)@),
        final(input).len() % 168 == 0,
        final(input).len() == padded_len(old(input).len() as int),
{
    let ghost n = input.len() as int;
    let ghost m = padded_len(n);
    input.push(0x1F);
    while input.len() % 168 != 0
        invariant
            n < input.len() <= m,
            n == old(input).len(),
            m == padded_len(n),
            input@.subrange(0, n) == old(input)@,
            input@[n] == 0x1Fu8,
            forall|i: int| n < i < input.len() ==> input@[i] == 0u8,
        decreases m - input.len(),
    {
        input.push(0);
    }
    let len = input.len();
    assert(len == m);
    let last = input[len - 1];
    assert(0x1Fu8 ^ 0x80u8 == 0x9Fu8) by (bit_vector);
    assert(0u8 ^ 0x80u8 == 0x80u8) by (bit_vector);
    input.set(len - 1, last ^ 0x80);
    assert(input@ =~= pad_spec(old(input)@));
}

/// Reads the little-endian word that starts at byte `at`.
pub fn load_le(bytes: &Vec<u8>, at: usize) -> (w: u64)
    requires
        at + 8 <= bytes.len(),
    ensures
        w == le_word(bytes@, at as int),
{
    (bytes[at] as u64) | ((bytes[at + 1] as u64) << 8) | ((bytes[at + 2] as u64) << 16) | ((
    bytes[at + 3] as u64) << 24) | ((bytes[at + 4] as u64) << 32) | ((bytes[at + 5] as u64) << 40)
        | ((bytes[at + 6] as u64) << 48) | ((bytes[at + 7] as u64) << 56)
}

/// Byte `j` of `w`, least significant first.
pub fn byte_of(w: u64, j: usize) -> (b: u8)
    requires
        j < 8,
    ensures
        b == le_byte(w, j as int),
{
    let s: u64 = (8 * j) as u64;
    let v: u64 = (w >> s) & 0xff;
    assert(v < 256) by (bit_vector)
        requires
            v == (w >> s) & 0xff,
    ;
    v as u8
}

/// The little-endian serialization of `w`.
pub fn le_bytes(w: u64) -> (v: Vec<u8>)
    ensures
        v@ == le_bytes_spec(w),
{
    let mut v: Vec<u8> = Vec::with_capacity(8);
    for j in 0..8usize
        invariant
            v.len() == j,
            forall|k: int| 0 <= k < j ==> v@[k] == le_byte(w, k),
    {
        v.push(byte_of(w, j));
    }
    assert(v@ =~= le_bytes_spec(w));
    v
}

/// Packs the message into little-endian words.
pub fn to_words(bytes: &Vec<u8>) -> (p: Vec<u64>)
    ensures
        p@ == words_of(bytes@),
{
    let n = bytes.len() / 8;
    let mut p: Vec<u64> = Vec::with_capacity(n);
    for i in 0..n
        invariant
            n == bytes.len() / 8,
            p.len() == i,
            forall|k: int| 0 <= k < i ==> p@[k] == le_word(bytes@, 8 * k),
    {
        p.push(load_le(bytes, 8 * i));
    }
    assert(p@ =~= words_of(bytes@));
    p
}

/// XORs block `blk` of the words `p` into the first 21 lanes of the state.
pub fn absorb_words(s: &mut State, p: &Vec<u64>, blk: usize)
    requires
        21 * (blk + 1) <= p.len(),
    ensures
        final(s)@ == absorb_block(old(s)@, p@, blk as int),
{
    let ghost a0 = s@;
    proof {
        lemma_lanes_grid(s.state);
    }
    for x in 0..5usize
        invariant
            21 * (blk + 1) <= p.len(),
            forall|i: int, j: int|
                0 <= i < 5 && 0 <= j < 5 ==> #[trigger] s.state[i][j] == (if i < x && i + 5 * j
                    < 21 {
                    a0[i + 5 * j] ^ p@[21 * blk + i + 5 * j]
                } else {
                    a0[i + 5 * j]
                }),
    {
        for y in 0..5usize
            invariant
                x < 5,
                21 * (blk + 1) <= p.len(),
                forall|i: int, j: int|
                    0 <= i < 5 && 0 <= j < 5 ==> #[trigger] s.state[i][j] == (if (i < x || (i == x
                        && j < y)) && i + 5 * j < 21 {
                        a0[i + 5 * j] ^ p@[21 * blk + i + 5 * j]
                    } else {
                        a0[i + 5 * j]
                    }),
        {
            if x + 5 * y < R2 {
                let v = s.state[x][y] ^ p[blk * R2 + x + 5 * y];
                s.state[x][y] = v;
            }
        }
    }
    proof {
        let a1 = absorb_block(a0, p@, blk as int);
        assert forall|i: int, j: int| 0 <= i < 5 && 0 <= j < 5 implies #[trigger] s.state[i][j]
            == a1[i + 5 * j] by {}
        lemma_grid_lanes(s.state, a1);
    }
}

/// Appends the first 21 lanes of the state to `z`, in stream order.
pub fn squeeze_words(s: &State, z: &mut Vec<u64>)
    ensures
        final(z)@ == old(z)@ + s@.subrange(0, 21),
{
    let ghost a = s@;
    let ghost z0 = z@;
    proof {
        lemma_lanes_grid(s.state);
    }
    for y in 0..5usize
        invariant
            grid_is(s.state, a),
            a.len() == 25,
            z@ == z0 + a.subrange(0, if 5 * y < 21 { 5 * y as int } else { 21 }),
    {
        for x in 0..5usize
            invariant
                y < 5,
                grid_is(s.state, a),
                a.len() == 25,
                z@ == z0 + a.subrange(0, if 5 * y + x < 21 { 5 * y + x as int } else { 21 }),
        {
            if x + 5 * y < R2 {
                z.push(s.state[x][y]);
                assert(z@ =~= z0 + a.subrange(0, 5 * y + x + 1));
            }
        }
    }
}

/// SHAKE128 of `input`, `output_len` bytes long. The caller's bytes are left
/// as they were: the padded message is a buffer of this call alone.
pub fn shake128(input: &mut Vec<u8>, output_len: u64) -> (output: Vec<u8>)
    ensures
        final(input)@ == old(input)@,
        output@ == shake128_spec(old(input)@, output_len as nat),
        output.len() == output_len,
{
    let mut padded: Vec<u8> = input.clone();
    assert(padded@ =~= input@);
    pad(&mut padded);
    let p = to_words(&padded);
    let n = padded.len() / R;

    let mut s = State::new();

    // Absorbing phase
    for i in 0..n
        invariant
            p.len() == 21 * n,
            s@ == absorb(p@, i as nat),
    {
        absorb_words(&mut s, &p, i);
        s.kecccakf();
    }
    let ghost a = s@;
    assert(a == absorbed(old(input)@));

    // Squeezing phase
    let need: u64 = output_len / 8 + (if output_len % 8 != 0 { 1u64 } else { 0u64 });
    let mut z: Vec<u64> = Vec::new();
    while (z.len() as u64) < need
        invariant
            z.len() % 21 == 0,
            s@ == permuted(a, (z.len() / 21) as nat),
            forall|k: int| 0 <= k < z.len() ==> z@[k] == stream_word(a, k),
        decreases need + 21 - z.len(),
    {
        let ghost z0 = z@;
        squeeze_words(&s, &mut z);
        s.kecccakf();
        assert forall|k: int| 0 <= k < z.len() implies z@[k] == stream_word(a, k) by {
            if k >= z0.len() {
                assert(k / 21 == z0.len() / 21 && k % 21 == k - z0.len());
            }
        }
        assert(z.len() / 21 == z0.len() / 21 + 1);
    }
    let mut output: Vec<u8> = Vec::new();
    let full: u64 = output_len / 8;
    let mut i: u64 = 0;
    while i < full
        invariant
            i <= full,
            full <= z.len(),
            output.len() == 8 * i,
            forall|k: int| 0 <= k < z.len() ==> z@[k] == stream_word(a, k),
            forall|k: int| 0 <= k < output.len() ==> output@[k] == stream_byte(a, k),
        decreases full - i,
    {
        let w = z[i as usize];
        for j in 0..8usize
            invariant
                i < full,
                w == stream_word(a, i as int),
                output.len() == 8 * i + j,
                forall|k: int| 0 <= k < output.len() ==> output@[k] == stream_byte(a, k),
        {
            output.push(byte_of(w, j));
        }
        i = i + 1;
    }
    let rest: usize = (output_len % 8) as usize;
    if rest != 0 {
        let w = z[full as usize];
        for j in 0..rest
            invariant
                rest < 8,
                w == stream_word(a, full as int),
                output.len() == 8 * full + j,
                forall|k: int| 0 <= k < output.len() ==> output@[k] == stream_byte(a, k),
        {
            output.push(byte_of(w, j));
        }
    }
    assert(output@ =~= shake128_spec(old(input)@, output_len as nat));
    output
}

/// Determinism: inputs that agree byte for byte hash to the same output.
pub proof fn lemma_shake128_deterministic(a: Seq<u8>, b: Seq<u8>, len: nat)
    requires
        a.len() == b.len(),
        forall|i: int| 0 <= i < a.len() ==> a[i] == b[i],
    ensures
        shake128_spec(a, len) == shake128_spec(b, len),
{
    assert(a =~= b);
}

/// Length exactness: the output has exactly the requested length.
pub proof fn lemma_shake128_len(input: Seq<u8>, len: nat)
    ensures
        shake128_spec(input, len).len() == len,
{
}

/// Prefix property: a shorter output is the start of every longer one.
pub proof fn lemma_shake128_prefix(input: Seq<u8>, l1: nat, l2: nat)
    requires
        l1 <= l2,
    ensures
        shake128_spec(input, l1) == shake128_spec(input, l2).subrange(0, l1 as int),
        shake128_spec(input, l1).is_prefix_of(shake128_spec(input, l2)),
{
    assert(shake128_spec(input, l1) =~= shake128_spec(input, l2).subrange(0, l1 as int));
}

/// The padded message keeps the input as its start, is longer than it by at
/// most one block, fills whole blocks, and ends in a byte with the top bit set.
pub proof fn lemma_pad_shape(input: Seq<u8>)
    ensures
        pad_spec(input).len() % 168 == 0,
        input.len() < pad_spec(input).len() <= input.len() + 168,
        pad_spec(input).subrange(0, input.len() as int) == input,
        pad_spec(input).last() & 0x80 == 0x80,
{
    let p = pad_spec(input);
    assert(p.subrange(0, input.len() as int) =~= input);
    assert(0x9Fu8 & 0x80 == 0x80) by (bit_vector);
    assert(0x80u8 & 0x80 == 0x80) by (bit_vector);
}

/// Packing the bytes of a word gives the word back.
pub proof fn lemma_word_of_bytes(w: u64)
    ensures
        le_word(le_bytes_spec(w), 0) == w,
{
    let b = le_bytes_spec(w);
    assert(b[0] == ((w >> 0u64) & 0xff) as u8);
    assert(b[1] == ((w >> 8u64) & 0xff) as u8);
    assert(b[2] == ((w >> 16u64) & 0xff) as u8);
    assert(b[3] == ((w >> 24u64) & 0xff) as u8);
    assert(b[4] == ((w >> 32u64) & 0xff) as u8);
    assert(b[5] == ((w >> 40u64) & 0xff) as u8);
    assert(b[6] == ((w >> 48u64) & 0xff) as u8);
    assert(b[7] == ((w >> 56u64) & 0xff) as u8);
    assert((((w >> 0u64) & 0xff) as u8 as u64) | ((((w >> 8u64) & 0xff) as u8 as u64) << 8) | ((((w
        >> 16u64) & 0xff) as u8 as u64) << 16) | ((((w >> 24u64) & 0xff) as u8 as u64) << 24) | ((((w
        >> 32u64) & 0xff) as u8 as u64) << 32) | ((((w >> 40u64) & 0xff) as u8 as u64) << 40) | ((((w
        >> 48u64) & 0xff) as u8 as u64) << 48) | ((((w >> 56u64) & 0xff) as u8 as u64) << 56) == w)
        by (bit_vector);
}

/// Unpacking a packed word gives its eight bytes back.
pub proof fn lemma_bytes_of_word(b: Seq<u8>, at: int)
    requires
        0 <= at,
        at + 8 <= b.len(),
    ensures
        le_bytes_spec(le_word(b, at)) == b.subrange(at, at + 8),
{
    let (b0, b1, b2, b3) = (b[at], b[at + 1], b[at + 2], b[at + 3]);
    let (b4, b5, b6, b7) = (b[at + 4], b[at + 5], b[at + 6], b[at + 7]);
    let w = le_word(b, at);
    assert(w == (b0 as u64) | ((b1 as u64) << 8) | ((b2 as u64) << 16) | ((b3 as u64) << 24) | ((
    b4 as u64) << 32) | ((b5 as u64) << 40) | ((b6 as u64) << 48) | ((b7 as u64) << 56));
    assert(((w >> 0u64) & 0xff) as u8 == b0 && ((w >> 8u64) & 0xff) as u8 == b1 && ((w >> 16u64)
        & 0xff) as u8 == b2 && ((w >> 24u64) & 0xff) as u8 == b3 && ((w >> 32u64) & 0xff) as u8
        == b4 && ((w >> 40u64) & 0xff) as u8 == b5 && ((w >> 48u64) & 0xff) as u8 == b6 && ((w
        >> 56u64) & 0xff) as u8 == b7) by (bit_vector)
        requires
            w == (b0 as u64) | ((b1 as u64) << 8) | ((b2 as u64) << 16) | ((b3 as u64) << 24) | ((
            b4 as u64) << 32) | ((b5 as u64) << 40) | ((b6 as u64) << 48) | ((b7 as u64) << 56),
    ;
    let r = le_bytes_spec(w);
    assert forall|j: int| 0 <= j < 8 implies r[j] == b[at + j] by {
        if j == 0 {
        } else if j == 1 {
        } else if j == 2 {
        } else if j == 3 {
        } else if j == 4 {
        } else if j == 5 {
        } else if j == 6 {
        } else {
        }
    }
    assert(r =~= b.subrange(at, at + 8));
}

} // verus!
