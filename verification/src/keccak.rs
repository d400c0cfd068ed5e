//! The Keccak-f[1600] permutation on a 5x5 grid of 64-bit lanes.

use vstd::prelude::*;

verus! {

/// Number of rounds of Keccak-f[1600].
pub const NR: usize = 24;

/// Round constants, one per round, mixed into lane (0, 0) by iota.
pub const RC: [u64; 24] = [
    0x0000000000000001,
    0x0000000000008082,
    0x800000000000808a,
    0x8000000080008000,
    0x000000000000808b,
    0x0000000080000001,
    0x8000000080008081,
    0x8000000000008009,
    0x000000000000008a,
    0x0000000000000088,
    0x0000000080008009,
    0x000000008000000a,
    0x000000008000808b,
    0x800000000000008b,
    0x8000000000008089,
    0x8000000000008003,
    0x8000000000008002,
    0x8000000000000080,
    0x000000000000800a,
    0x800000008000000a,
    0x8000000080008081,
    0x8000000000008080,
    0x0000000080000001,
    0x8000000080008008,
];

/// Rotation offsets of rho, indexed `ROT[x][y]`.
pub const ROT: [[u8; 5]; 5] = [
    [0, 36, 3, 41, 18],
    [1, 44, 10, 45, 2],
    [62, 6, 43, 15, 61],
    [28, 55, 25, 21, 56],
    [27, 20, 39, 8, 14],
];

/// The 1600-bit state: lane `(x, y)` is `state[x][y]`.
pub struct State {
    pub state: [[u64; 5]; 5],
}

/// The lanes of a grid as one sequence: lane `(x, y)` stands at `x + 5 * y`.
pub open spec fn lanes(g: [[u64; 5]; 5]) -> Seq<u64> {
    Seq::new(25, |i: int| g[i % 5][i / 5])
}

/// The all-zero state.
pub open spec fn zero_lanes() -> Seq<u64> {
    Seq::new(25, |i: int| 0u64)
}

/// `w` rotated left by `n` bits, for `n` below 64.
pub open spec fn rotl(w: u64, n: u64) -> u64 {
    if n == 0 {
        w
    } else {
        (w << n) | (w >> ((64 - n) as u64))
    }
}

/// XOR of the five lanes of column `x`.
pub open spec fn column_parity(a: Seq<u64>, x: int) -> u64 {
    a[x] ^ a[x + 5] ^ a[x + 10] ^ a[x + 15] ^ a[x + 20]
}

/// What theta XORs into every lane of column `x`.
pub open spec fn theta_d(a: Seq<u64>, x: int) -> u64 {
    column_parity(a, (x + 4) % 5) ^ rotl(column_parity(a, (x + 1) % 5), 1)
}

/// Lane `(x, y)` after theta.
pub open spec fn theta_lane(a: Seq<u64>, x: int, y: int) -> u64 {
    a[x + 5 * y] ^ theta_d(a, x)
}

/// The state after theta.
pub open spec fn theta(a: Seq<u64>) -> Seq<u64> {
    Seq::new(25, |i: int| theta_lane(a, i % 5, i / 5))
}

/// Lane `(x, y)` rotated by its offset, as rho leaves it.
pub open spec fn rho_lane(a: Seq<u64>, x: int, y: int) -> u64 {
    rotl(a[x + 5 * y], ROT[x][y] as u64)
}

/// Row to which pi moves lane `(x, y)`; its new column is `y`.
pub open spec fn pi_row(x: int, y: int) -> int {
    (2 * x + 3 * y) % 5
}

/// Lane `(x, y)` after rho and pi: the rotated lane that pi moves there,
/// which comes from `((x + 3 * y) % 5, x)`.
pub open spec fn rho_pi_lane(a: Seq<u64>, x: int, y: int) -> u64 {
    rho_lane(a, (x + 3 * y) % 5, x)
}

/// The state after rho and pi.
pub open spec fn rho_pi(a: Seq<u64>) -> Seq<u64> {
    Seq::new(25, |i: int| rho_pi_lane(a, i % 5, i / 5))
}

/// Lane `(x, y)` after chi: its own value, XORed with the lane two places on
/// in its row wherever the lane one place on has a zero bit.
pub open spec fn chi_lane(b: Seq<u64>, x: int, y: int) -> u64 {
    b[x + 5 * y] ^ (!b[(x + 1) % 5 + 5 * y] & b[(x + 2) % 5 + 5 * y])
}

/// The state after chi.
pub open spec fn chi(b: Seq<u64>) -> Seq<u64> {
    Seq::new(25, |i: int| chi_lane(b, i % 5, i / 5))
}

/// The state after iota of round `round`.
pub open spec fn iota(a: Seq<u64>, round: int) -> Seq<u64> {
    a.update(0, a[0] ^ RC[round])
}

/// One round: theta, rho and pi, chi, iota.
pub open spec fn round_spec(a: Seq<u64>, round: int) -> Seq<u64> {
    iota(chi(rho_pi(theta(a))), round)
}

/// Rounds `0` to `n - 1`, in that order.
pub open spec fn rounds(a: Seq<u64>, n: nat) -> Seq<u64>
    decreases n,
{
    if n == 0 {
        a
    } else {
        round_spec(rounds(a, (n - 1) as nat), n - 1)
    }
}

/// The whole permutation Keccak-f[1600].
pub open spec fn keccak_f(a: Seq<u64>) -> Seq<u64> {
    rounds(a, 24)
}

/// Every lane of `g` is the lane of `a` at the same place.
pub open spec fn grid_is(g: [[u64; 5]; 5], a: Seq<u64>) -> bool {
    forall|x: int, y: int| 0 <= x < 5 && 0 <= y < 5 ==> #[trigger] g[x][y] == a[x + 5 * y]
}

/// A grid that agrees with `a` lane by lane has `a` as its lanes.
pub proof fn lemma_grid_lanes(g: [[u64; 5]; 5], a: Seq<u64>)
    requires
        a.len() == 25,
        grid_is(g, a),
    ensures
        lanes(g) == a,
{
    assert forall|i: int| 0 <= i < 25 implies lanes(g)[i] == a[i] by {
        let x = i % 5;
        let y = i / 5;
        assert(g[x][y] == a[x + 5 * y]);
    }
    assert(lanes(g) =~= a);
}

/// A grid agrees lane by lane with its own lanes.
pub proof fn lemma_lanes_grid(g: [[u64; 5]; 5])
    ensures
        grid_is(g, lanes(g)),
        lanes(g).len() == 25,
{
}

/// `w` rotated left by `n` bits.
pub fn rotate_left(w: u64, n: u8) -> (r: u64)
    requires
        n < 64,
    ensures
        r == rotl(w, n as u64),
{
    let k: u64 = n as u64;
    if k == 0 {
        w
    } else {
        (w << k) | (w >> (64 - k))
    }
}

impl State {
    /// The 25 lanes as a sequence, lane `(x, y)` at `x + 5 * y`.
    pub open spec fn view(&self) -> Seq<u64> {
        lanes(self.state)
    }

    /// A fresh state, all lanes zero.
    pub fn new() -> (s: State)
        ensures
            s@ == zero_lanes(),
    {
        let s = State { state: [[0u64; 5]; 5] };
        assert(s@ =~= zero_lanes());
        s
    }

    /// Theta: XORs into each lane the parities of the two neighbouring columns.
    pub fn theta(&mut self)
        ensures
            final(self)@ == theta(old(self)@),
    {
        let ghost a0 = self@;
        proof {
            lemma_lanes_grid(self.state);
        }
        let mut c = [0u64; 5];
        let mut d = [0u64; 5];
        for x in 0..5usize
            invariant
                self.state == old(self).state,
                grid_is(self.state, a0),
                forall|i: int| 0 <= i < x ==> #[trigger] c[i] == column_parity(a0, i),
        {
            let v = self.state[x][0] ^ self.state[x][1] ^ self.state[x][2] ^ self.state[x][3]
                ^ self.state[x][4];
            c[x] = v;
        }
        for x in 0..5usize
            invariant
                self.state == old(self).state,
                forall|i: int| 0 <= i < 5 ==> #[trigger] c[i] == column_parity(a0, i),
                forall|i: int| 0 <= i < x ==> #[trigger] d[i] == theta_d(a0, i),
        {
            let v = c[(x + 4) % 5] ^ rotate_left(c[(x + 1) % 5], 1);
            d[x] = v;
        }
        for x in 0..5usize
            invariant
                grid_is(old(self).state, a0),
                forall|i: int| 0 <= i < 5 ==> #[trigger] d[i] == theta_d(a0, i),
                forall|i: int, j: int|
                    0 <= i < 5 && 0 <= j < 5 ==> #[trigger] self.state[i][j] == (if i < x {
                        theta_lane(a0, i, j)
                    } else {
                        a0[i + 5 * j]
                    }),
        {
            for y in 0..5usize
                invariant
                    x < 5,
                    forall|i: int| 0 <= i < 5 ==> #[trigger] d[i] == theta_d(a0, i),
                    forall|i: int, j: int|
                        0 <= i < 5 && 0 <= j < 5 ==> #[trigger] self.state[i][j] == (if i < x || (i
                            == x && j < y) {
                            theta_lane(a0, i, j)
                        } else {
                            a0[i + 5 * j]
                        }),
            {
                let v = self.state[x][y] ^ d[x];
                self.state[x][y] = v;
            }
        }
        proof {
            let a1 = theta(a0);
            assert forall|i: int, j: int| 0 <= i < 5 && 0 <= j < 5 implies #[trigger] self.state[i][j]
                == a1[i + 5 * j] by {
                assert((i + 5 * j) % 5 == i && (i + 5 * j) / 5 == j);
            }
            lemma_grid_lanes(self.state, a1);
        }
    }

    /// Rho and pi: rotates each lane by its offset and moves lane `(x, y)` to
    /// `(y, (2x + 3y) % 5)` of a fresh grid.
    pub fn rho_pi(&self) -> (b: [[u64; 5]; 5])
        ensures
            lanes(b) == rho_pi(self@),
    {
        let ghost a1 = self@;
        proof {
            lemma_lanes_grid(self.state);
        }
        let mut b = [[0u64; 5]; 5];
        for x in 0..5usize
            invariant
                grid_is(self.state, a1),
                forall|i: int, j: int|
                    0 <= i < x && 0 <= j < 5 ==> b[j][pi_row(i, j)] == #[trigger] rho_lane(a1, i, j),
        {
            for y in 0..5usize
                invariant
                    x < 5,
                    grid_is(self.state, a1),
                    forall|i: int, j: int|
                        0 <= i < 5 && 0 <= j < 5 && (i < x || (i == x && j < y))
                            ==> b[j][pi_row(i, j)] == #[trigger] rho_lane(a1, i, j),
            {
                let v = rotate_left(self.state[x][y], ROT[x][y]);
                let ghost b0 = b;
                b[y][(2 * x + 3 * y) % 5] = v;
                proof {
                    assert forall|i: int, j: int|
                        0 <= i < 5 && 0 <= j < 5 && (i < x || (i == x && j < y + 1))
                        implies b[j][pi_row(i, j)] == #[trigger] rho_lane(a1, i, j) by {
                        if i == x && j == y {
                        } else {
                            assert(b0[j][pi_row(i, j)] == rho_lane(a1, i, j));
                            assert(j != y || pi_row(i, j) != pi_row(x as int, y as int));
                        }
                    }
                }
            }
        }
        proof {
            let a2 = rho_pi(a1);
            assert forall|i: int, j: int| 0 <= i < 5 && 0 <= j < 5 implies #[trigger] b[i][j]
                == a2[i + 5 * j] by {
                assert((i + 5 * j) % 5 == i && (i + 5 * j) / 5 == j);
                let sx = (i + 3 * j) % 5;
                assert(pi_row(sx, i) == j);
                assert(b[i][pi_row(sx, i)] == rho_lane(a1, sx, i));
            }
            lemma_grid_lanes(b, a2);
        }
        b
    }

    /// Chi: overwrites the state with the nonlinear mix of the rows of `b`.
    pub fn chi(&mut self, b: &[[u64; 5]; 5])
        ensures
            final(self)@ == chi(lanes(*b)),
    {
        let ghost a2 = lanes(*b);
        proof {
            lemma_lanes_grid(*b);
        }
        for x in 0..5usize
            invariant
                grid_is(*b, a2),
                forall|i: int, j: int|
                    0 <= i < x && 0 <= j < 5 ==> #[trigger] self.state[i][j] == chi_lane(a2, i, j),
        {
            for y in 0..5usize
                invariant
                    x < 5,
                    grid_is(*b, a2),
                    forall|i: int, j: int|
                        0 <= i < 5 && 0 <= j < 5 && (i < x || (i == x && j < y))
                            ==> #[trigger] self.state[i][j] == chi_lane(a2, i, j),
            {
                let v = b[x][y] ^ (!(b[(x + 1) % 5][y]) & b[(x + 2) % 5][y]);
                self.state[x][y] = v;
            }
        }
        proof {
            let a3 = chi(a2);
            assert forall|i: int, j: int| 0 <= i < 5 && 0 <= j < 5 implies #[trigger] self.state[i][j]
                == a3[i + 5 * j] by {
                assert((i + 5 * j) % 5 == i && (i + 5 * j) / 5 == j);
            }
            lemma_grid_lanes(self.state, a3);
        }
    }

    /// Iota: XORs the round constant into lane `(0, 0)`.
    pub fn iota(&mut self, index_round: usize)
        requires
            index_round < 24,
        ensures
            final(self)@ == iota(old(self)@, index_round as int),
    {
        proof {
            lemma_lanes_grid(self.state);
        }
        let v = self.state[0][0] ^ RC[index_round];
        self.state[0][0] = v;
        proof {
            let a4 = iota(old(self)@, index_round as int);
            assert forall|i: int, j: int| 0 <= i < 5 && 0 <= j < 5 implies #[trigger] self.state[i][j]
                == a4[i + 5 * j] by {}
            lemma_grid_lanes(self.state, a4);
        }
    }

    /// Applies round `index_round` of the permutation.
    pub fn round(&mut self, index_round: usize)
        requires
            index_round < 24,
        ensures
            final(self)@ == round_spec(old(self)@, index_round as int),
    {
        self.theta();
        let b = self.rho_pi();
        self.chi(&b);
        self.iota(index_round);
    }

    /// Applies all 24 rounds, in increasing order.
    pub fn kecccakf(&mut self)
        ensures
            final(self)@ == keccak_f(old(self)@),
    {
        for index_round in 0..NR
            invariant
                self@ == rounds(old(self)@, index_round as nat),
        {
            self.round(index_round);
        }
    }
}

/// Every rotation offset is below the lane width.
pub proof fn lemma_rot_bound(x: int, y: int)
    requires
        0 <= x < 5,
        0 <= y < 5,
    ensures
        ROT[x][y] < 64,
{
    let row = ROT[x];
    if x == 0 {
        assert(row[y] < 64);
    } else if x == 1 {
        assert(row[y] < 64);
    } else if x == 2 {
        assert(row[y] < 64);
    } else if x == 3 {
        assert(row[y] < 64);
    } else {
        assert(row[y] < 64);
    }
}

/// Theta leaves the all-zero state as it is.
pub proof fn lemma_theta_of_zero()
    ensures
        theta(zero_lanes()) == zero_lanes(),
{
    let z = zero_lanes();
    assert(0u64 ^ 0u64 == 0u64) by (bit_vector);
    assert((0u64 << 1u64) | (0u64 >> 63u64) == 0u64) by (bit_vector);
    assert forall|x: int| 0 <= x < 5 implies column_parity(z, x) == 0u64 by {}
    assert forall|x: int| 0 <= x < 5 implies theta_d(z, x) == 0u64 by {
        assert(column_parity(z, (x + 4) % 5) == 0u64);
        assert(column_parity(z, (x + 1) % 5) == 0u64);
    }
    assert forall|i: int| 0 <= i < 25 implies theta(z)[i] == 0u64 by {
        assert(theta_d(z, i % 5) == 0u64);
    }
    assert(theta(z) =~= z);
}

/// Rho and pi leave the all-zero state as it is.
pub proof fn lemma_rho_pi_of_zero()
    ensures
        rho_pi(zero_lanes()) == zero_lanes(),
{
    let z = zero_lanes();
    assert(forall|n: u64| 0 < n < 64 ==> (0u64 << n) | (0u64 >> ((64 - n) as u64)) == 0u64)
        by (bit_vector);
    assert forall|i: int| 0 <= i < 25 implies rho_pi(z)[i] == 0u64 by {
        let x = (i % 5 + 3 * (i / 5)) % 5;
        let y = i % 5;
        lemma_rot_bound(x, y);
        assert(z[x + 5 * y] == 0u64);
    }
    assert(rho_pi(z) =~= z);
}

/// Chi leaves the all-zero state as it is.
pub proof fn lemma_chi_of_zero()
    ensures
        chi(zero_lanes()) == zero_lanes(),
{
    let z = zero_lanes();
    assert(0u64 ^ (!0u64 & 0u64) == 0u64) by (bit_vector);
    assert forall|i: int| 0 <= i < 25 implies chi(z)[i] == 0u64 by {
        let x = i % 5;
        let y = i / 5;
        assert(z[x + 5 * y] == 0u64);
        assert(z[(x + 1) % 5 + 5 * y] == 0u64);
        assert(z[(x + 2) % 5 + 5 * y] == 0u64);
    }
    assert(chi(z) =~= z);
}

/// On the all-zero state theta, rho, pi and chi change nothing, so a round
/// leaves its round constant in lane (0, 0) and zero everywhere else.
pub proof fn lemma_round_of_zero(round: int)
    requires
        0 <= round < 24,
    ensures
        round_spec(zero_lanes(), round) == zero_lanes().update(0, RC[round]),
        round_spec(zero_lanes(), round)[0] == RC[round],
{
    let z = zero_lanes();
    lemma_theta_of_zero();
    lemma_rho_pi_of_zero();
    lemma_chi_of_zero();
    let c = RC[round];
    assert(0u64 ^ c == c) by (bit_vector);
    assert(round_spec(z, round) == iota(z, round));
    assert(iota(z, round) =~= z.update(0, c));
}

} // verus!
