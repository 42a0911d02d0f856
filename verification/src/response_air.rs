//! The trace row of constraint (R) for a proof system whose rules are sums
//! and products of columns.
//!
//! A circuit has no `mod` and no rounding. But `q`, `p` and `DELTA` are
//! powers of two, so with the witness given in bits every step becomes a rule
//! on bits: each `mod` is adding or taking away the modulus once, recorded in
//! a bit, and the rounding reads the bits of its input. Write
//! `t = (a_sigma_sum - j) mod q` and `pad_j = pads[(j - b_bar_prime) mod DELTA]`.
//!
//! One row holds all of (R): `a_sigma_sum`, then [`ENTRY_COLS`] columns per
//! entry `j`:
//!
//! | columns | content                                         |
//! |---------|-------------------------------------------------|
//! | 12      | the bits of `t`, lowest first                   |
//! | 1       | `wrapped`: 1 if `a_sigma_sum - j` was below zero |
//! | 8       | the bits of `pad_j`, lowest first               |
//! | 1       | `carry`: 1 if `round(t) + pad_j` reached `p`     |
//!
//! The rules, per entry, besides every column being 0 or 1:
//!
//! 1. `t = a_sigma_sum - j + q * wrapped`;
//! 2. `round(t) = t / DELTA + up`, where `t / DELTA` is the high 8 bits of
//!    `t`, and `up` is 1 if the low 4 bits are above `DELTA / 2`;
//! 3. `y_j = round(t) + pad_j - p * carry`.
use vstd::prelude::*;
use crate::eval::{pad, pad_index, response_entry};
use crate::modular::sub_q;
use crate::params::{Zdelta, Zq, DELTA, Q};
use crate::response::ResponseWitness;

verus! {

/// The bits of `t`.
pub const T_BITS: usize = 12;

/// The bits of a pad.
pub const PAD_BITS: usize = 8;

/// The bits of `t`, `wrapped`, the bits of the pad, `carry`.
pub const ENTRY_COLS: usize = 22;

/// `a_sigma_sum` and the columns of every entry.
pub const NUM_COLS: usize = 353;

/// The rules of (R), as a proof system checks them.
#[derive(Clone, Copy, Debug, Default)]
pub struct ResponseAir;

/// `s[start] + 2 s[start + 1] + ... + 2^(n-1) s[start + n - 1]`: the number
/// whose bits, lowest first, are these columns.
pub open spec fn pack_le(s: Seq<u32>, start: int, n: nat) -> int
    decreases n,
{
    if n == 0 {
        0
    } else {
        s[start] + 2 * pack_le(s, start + 1, (n - 1) as nat)
    }
}

/// 1 if a remainder below `DELTA`, given as its 4 bits, is above `DELTA / 2`:
/// its top bit is set and not all lower bits are 0.
pub open spec fn above_half(c0: int, c1: int, c2: int, c3: int) -> int {
    c3 * (1 - (1 - c0) * (1 - c1) * (1 - c2))
}

/// The rules for entry `j`, on its columns `cols`, with `a_sigma_sum` and the
/// public `y_j`.
pub open spec fn entry_rules(cols: Seq<u32>, a_sigma_sum: int, j: int, y: int) -> bool {
    &&& cols.len() == ENTRY_COLS
    &&& forall|k: int| 0 <= k < ENTRY_COLS ==> #[trigger] cols[k] <= 1
    &&& pack_le(cols, 0, 12) == a_sigma_sum - j + (Q as int) * cols[12]
    &&& pack_le(cols, 4, 8) + above_half(
        cols[0] as int,
        cols[1] as int,
        cols[2] as int,
        cols[3] as int,
    ) + pack_le(cols, 13, 8) - 256 * cols[21] == y
}

/// Column `k` of entry `j`, as the table above lays it out.
pub open spec fn entry_col(a_sigma_sum: int, pads: Seq<u8>, b_bar_prime: int, j: int, k: int) -> u32 {
    let t = ((a_sigma_sum - j) % (Q as int)) as u32;
    let p = pads[pad_index(j, b_bar_prime)] as u32;
    if k < 12 {
        (t >> (k as u32)) & 1u32
    } else if k == 12 {
        if a_sigma_sum < j {
            1u32
        } else {
            0u32
        }
    } else if k < 21 {
        (p >> ((k - 13) as u32)) & 1u32
    } else {
        let up: u32 = if t % 16 > 8 {
            1
        } else {
            0
        };
        if t / 16 + up + p >= 256 {
            1u32
        } else {
            0u32
        }
    }
}

/// The columns of entry `j`.
pub open spec fn entry_cols(a_sigma_sum: int, pads: Seq<u8>, b_bar_prime: int, j: int) -> Seq<u32> {
    Seq::new(ENTRY_COLS as nat, |k: int| entry_col(a_sigma_sum, pads, b_bar_prime, j, k))
}

/// Bit `k` of `x`.
pub open spec fn bit(x: u32, k: u32) -> u32 {
    (x >> k) & 1u32
}

proof fn lemma_pack_le_8(s: Seq<u32>, i: int)
    ensures
        pack_le(s, i, 8) == s[i] + 2 * (s[i + 1] + 2 * (s[i + 2] + 2 * (s[i + 3] + 2 * (s[i + 4] + 2
            * (s[i + 5] + 2 * (s[i + 6] + 2 * s[i + 7])))))),
{
    reveal_with_fuel(pack_le, 9);
}

proof fn lemma_pack_le_12(s: Seq<u32>, i: int)
    ensures
        pack_le(s, i, 12) == s[i] + 2 * (s[i + 1] + 2 * (s[i + 2] + 2 * (s[i + 3] + 2 * pack_le(
            s,
            i + 4,
            8,
        )))),
{
    reveal_with_fuel(pack_le, 5);
}

/// The bits of a number below `q`, and what its low 4 bits say about the
/// rounding.
proof fn lemma_t_bits(t: u32)
    requires
        t < 4096,
    ensures
        t / 16 == bit(t, 4) + 2 * (bit(t, 5) + 2 * (bit(t, 6) + 2 * (bit(t, 7) + 2 * (bit(t, 8) + 2
            * (bit(t, 9) + 2 * (bit(t, 10) + 2 * bit(t, 11))))))),
        t == bit(t, 0) + 2 * (bit(t, 1) + 2 * (bit(t, 2) + 2 * (bit(t, 3) + 2 * (t / 16)))),
        t % 16 > 8 <==> (bit(t, 3) == 1 && !(bit(t, 0) == 0 && bit(t, 1) == 0 && bit(t, 2) == 0)),
        bit(t, 0) <= 1,
        bit(t, 1) <= 1,
        bit(t, 2) <= 1,
        bit(t, 3) <= 1,
{
    assert(t / 16 == ((t >> 4u32) & 1u32) + 2 * (((t >> 5u32) & 1u32) + 2 * (((t >> 6u32) & 1u32)
        + 2 * (((t >> 7u32) & 1u32) + 2 * (((t >> 8u32) & 1u32) + 2 * (((t >> 9u32) & 1u32) + 2 * (
        ((t >> 10u32) & 1u32) + 2 * ((t >> 11u32) & 1u32)))))))) by (bit_vector)
        requires
            t < 4096,
    ;
    assert(t == ((t >> 0u32) & 1u32) + 2 * (((t >> 1u32) & 1u32) + 2 * (((t >> 2u32) & 1u32) + 2
        * (((t >> 3u32) & 1u32) + 2 * (t / 16))))) by (bit_vector);
    assert(t % 16 > 8 <==> (((t >> 3u32) & 1u32) == 1 && !(((t >> 0u32) & 1u32) == 0 && ((t
        >> 1u32) & 1u32) == 0 && ((t >> 2u32) & 1u32) == 0))) by (bit_vector);
    assert(((t >> 0u32) & 1u32) <= 1 && ((t >> 1u32) & 1u32) <= 1 && ((t >> 2u32) & 1u32) <= 1
        && ((t >> 3u32) & 1u32) <= 1) by (bit_vector);
}

/// The bits of a pad.
proof fn lemma_pad_bits(p: u32)
    requires
        p < 256,
    ensures
        p == bit(p, 0) + 2 * (bit(p, 1) + 2 * (bit(p, 2) + 2 * (bit(p, 3) + 2 * (bit(p, 4) + 2 * (
            bit(p, 5) + 2 * (bit(p, 6) + 2 * bit(p, 7))))))),
{
    assert(p == ((p >> 0u32) & 1u32) + 2 * (((p >> 1u32) & 1u32) + 2 * (((p >> 2u32) & 1u32) + 2
        * (((p >> 3u32) & 1u32) + 2 * (((p >> 4u32) & 1u32) + 2 * (((p >> 5u32) & 1u32) + 2 * (((p
        >> 6u32) & 1u32) + 2 * ((p >> 7u32) & 1u32)))))))) by (bit_vector)
        requires
            p < 256,
    ;
}

/// `above_half` on bits is 1 exactly when not all three lower bits are 0 and
/// the top one is 1.
proof fn lemma_above_half(c0: int, c1: int, c2: int, c3: int)
    requires
        0 <= c0 <= 1,
        0 <= c1 <= 1,
        0 <= c2 <= 1,
        0 <= c3 <= 1,
    ensures
        above_half(c0, c1, c2, c3) == (if c3 == 1 && !(c0 == 0 && c1 == 0 && c2 == 0) {
            1int
        } else {
            0int
        }),
{
    let z = (1 - c0) * (1 - c1) * (1 - c2);
    assert(z == (if c0 == 0 && c1 == 0 && c2 == 0 {
        1int
    } else {
        0int
    })) by (nonlinear_arith)
        requires
            0 <= c0 <= 1,
            0 <= c1 <= 1,
            0 <= c2 <= 1,
            z == (1 - c0) * (1 - c1) * (1 - c2),
    ;
    assert(c3 * (1 - z) == (if c3 == 1 {
        1 - z
    } else {
        0
    })) by (nonlinear_arith)
        requires
            0 <= c3 <= 1,
    ;
}

/// Every column of an entry is a bit.
proof fn lemma_cols_are_bits(a_sigma_sum: int, pads: Seq<u8>, b_bar_prime: int, j: int)
    ensures
        forall|k: int|
            0 <= k < ENTRY_COLS ==> #[trigger] entry_cols(a_sigma_sum, pads, b_bar_prime, j)[k] <= 1,
{
    let cols = entry_cols(a_sigma_sum, pads, b_bar_prime, j);
    let t = ((a_sigma_sum - j) % (Q as int)) as u32;
    let p = pads[pad_index(j, b_bar_prime)] as u32;
    assert forall|k: int| 0 <= k < ENTRY_COLS implies #[trigger] cols[k] <= 1 by {
        let kk = k as u32;
        if k < 12 {
            assert((t >> kk) & 1u32 <= 1) by (bit_vector);
        } else if 13 <= k < 21 {
            let sh = (k - 13) as u32;
            assert((p >> sh) & 1u32 <= 1) by (bit_vector);
        }
    }
}

/// The columns of an entry: the bits of `t`, then `wrapped`, then the bits
/// of the pad, then `carry`.
proof fn lemma_cols_values(a_sigma_sum: int, pads: Seq<u8>, b_bar_prime: int, j: int)
    ensures
        ({
            let cols = entry_cols(a_sigma_sum, pads, b_bar_prime, j);
            let t = ((a_sigma_sum - j) % (Q as int)) as u32;
            let p = pads[pad_index(j, b_bar_prime)] as u32;
            &&& cols[0] == bit(t, 0) && cols[1] == bit(t, 1) && cols[2] == bit(t, 2) && cols[3]
                == bit(t, 3)
            &&& cols[4] == bit(t, 4) && cols[5] == bit(t, 5) && cols[6] == bit(t, 6) && cols[7]
                == bit(t, 7)
            &&& cols[8] == bit(t, 8) && cols[9] == bit(t, 9) && cols[10] == bit(t, 10) && cols[11]
                == bit(t, 11)
            &&& cols[12] == (if a_sigma_sum < j {
                1u32
            } else {
                0u32
            })
            &&& cols[13] == bit(p, 0) && cols[14] == bit(p, 1) && cols[15] == bit(p, 2) && cols[16]
                == bit(p, 3)
            &&& cols[17] == bit(p, 4) && cols[18] == bit(p, 5) && cols[19] == bit(p, 6) && cols[20]
                == bit(p, 7)
            &&& cols[21] == (if t / 16 + (if t % 16 > 8 {
                1u32
            } else {
                0u32
            }) + p >= 256 {
                1u32
            } else {
                0u32
            })
        }),
{
}

/// The columns an honest server writes for entry `j` satisfy the rules for
/// the `y_j` it answers with.
#[verifier::rlimit(50)]
pub proof fn lemma_entry_rules(a_sigma_sum: int, pads: Seq<u8>, b_bar_prime: int, j: int)
    requires
        0 <= a_sigma_sum < Q,
        0 <= j < DELTA,
        0 <= b_bar_prime < DELTA,
        pads.len() == DELTA,
    ensures
        entry_rules(
            entry_cols(a_sigma_sum, pads, b_bar_prime, j),
            a_sigma_sum,
            j,
            response_entry(a_sigma_sum, pads, b_bar_prime, j) as int,
        ),
{
    let cols = entry_cols(a_sigma_sum, pads, b_bar_prime, j);
    let t = ((a_sigma_sum - j) % (Q as int)) as u32;
    let p = pads[pad_index(j, b_bar_prime)] as u32;
    lemma_t_bits(t);
    lemma_pad_bits(p);
    lemma_cols_are_bits(a_sigma_sum, pads, b_bar_prime, j);
    lemma_cols_values(a_sigma_sum, pads, b_bar_prime, j);
    lemma_pack_le_8(cols, 4);
    lemma_pack_le_12(cols, 0);
    lemma_pack_le_8(cols, 13);
    // Rule 1.
    assert(pack_le(cols, 0, 12) == t);
    // Rule 2.
    assert(pack_le(cols, 4, 8) == t / 16);
    lemma_above_half(cols[0] as int, cols[1] as int, cols[2] as int, cols[3] as int);
    let up: int = if t % 16 > 8 {
        1
    } else {
        0
    };
    assert(above_half(cols[0] as int, cols[1] as int, cols[2] as int, cols[3] as int) == up);
    // Rule 3.
    assert(pack_le(cols, 13, 8) == p);
    let sum = t / 16 + up + p;
    assert(sum - 256 * cols[21] == sum % 256);
    assert(response_entry(a_sigma_sum, pads, b_bar_prime, j) == ((t / 16 + up) % 256 + p) % 256);
}

impl ResponseAir {
    /// The row of (R) for `witness` and `b_bar_prime`: `a_sigma_sum`, then
    /// the columns of each entry as laid out above. A proof system repeats
    /// it over the rows of its table.
    pub fn trace_row(witness: &ResponseWitness, b_bar_prime: Zdelta) -> (row: Vec<u32>)
        requires
            witness.a_sigma_sum < Q,
            b_bar_prime < DELTA,
        ensures
            row@.len() == NUM_COLS,
            row@[0] == witness.a_sigma_sum,
            forall|j: int, k: int|
                0 <= j < DELTA && 0 <= k < ENTRY_COLS ==> #[trigger] row@[1 + ENTRY_COLS * j + k]
                    == entry_col(witness.a_sigma_sum as int, witness.pads@, b_bar_prime as int, j, k),
            forall|j: int|
                0 <= j < DELTA ==> entry_rules(
                    #[trigger] row@.subrange(1 + ENTRY_COLS * j, 1 + ENTRY_COLS * j + ENTRY_COLS),
                    row@[0] as int,
                    j,
                    response_entry(
                        witness.a_sigma_sum as int,
                        witness.pads@,
                        b_bar_prime as int,
                        j,
                    ) as int,
                ),
    {
        let a = witness.a_sigma_sum;
        let ghost pads = witness.pads@;
        let mut row: Vec<u32> = Vec::new();
        row.push(a as u32);
        let mut j: usize = 0;
        while j < DELTA
            invariant
                a == witness.a_sigma_sum,
                a < Q,
                b_bar_prime < DELTA,
                pads == witness.pads@,
                j <= DELTA,
                row@.len() == 1 + ENTRY_COLS * j,
                row@[0] == a,
                forall|jj: int, k: int|
                    0 <= jj < j && 0 <= k < ENTRY_COLS ==> #[trigger] row@[1 + ENTRY_COLS * jj + k]
                        == entry_col(a as int, pads, b_bar_prime as int, jj, k),
            decreases DELTA - j,
        {
            let t = sub_q(a, j as Zq) as u32;
            let p = pad(&witness.pads, j, b_bar_prime) as u32;
            let up: u32 = if t % 16 > 8 {
                1
            } else {
                0
            };
            let base = row.len();
            let mut k: usize = 0;
            while k < ENTRY_COLS
                invariant
                    a == witness.a_sigma_sum,
                    a < Q,
                    b_bar_prime < DELTA,
                    pads == witness.pads@,
                    j < DELTA,
                    base == 1 + ENTRY_COLS * j,
                    t == (a - j) % (Q as int),
                    p == pads[pad_index(j as int, b_bar_prime as int)],
                    up == (if t % 16 > 8 {
                        1u32
                    } else {
                        0u32
                    }),
                    k <= ENTRY_COLS,
                    row@.len() == base + k,
                    row@[0] == a,
                    forall|jj: int, kk: int|
                        0 <= jj < j && 0 <= kk < ENTRY_COLS ==> #[trigger] row@[1 + ENTRY_COLS * jj
                            + kk] == entry_col(a as int, pads, b_bar_prime as int, jj, kk),
                    forall|kk: int|
                        0 <= kk < k ==> #[trigger] row@[base + kk] == entry_col(
                            a as int,
                            pads,
                            b_bar_prime as int,
                            j as int,
                            kk,
                        ),
                decreases ENTRY_COLS - k,
            {
                let v: u32 = if k < 12 {
                    (t >> (k as u32)) & 1
                } else if k == 12 {
                    if (a as usize) < j {
                        1
                    } else {
                        0
                    }
                } else if k < 21 {
                    (p >> ((k - 13) as u32)) & 1
                } else {
                    if t / 16 + up + p >= 256 {
                        1
                    } else {
                        0
                    }
                };
                row.push(v);
                k = k + 1;
            }
            j = j + 1;
        }
        proof {
            lemma_trace_row_satisfies_rules(row@, *witness, b_bar_prime);
        }
        row
    }
}

/// The row written for a witness satisfies every rule of (R) for the
/// response an honest server gives from that witness.
pub proof fn lemma_trace_row_satisfies_rules(row: Seq<u32>, witness: ResponseWitness, b_bar_prime: Zdelta)
    requires
        witness.a_sigma_sum < Q,
        b_bar_prime < DELTA,
        row.len() == NUM_COLS,
        row[0] == witness.a_sigma_sum,
        forall|j: int, k: int|
            0 <= j < DELTA && 0 <= k < ENTRY_COLS ==> #[trigger] row[1 + ENTRY_COLS * j + k]
                == entry_col(witness.a_sigma_sum as int, witness.pads@, b_bar_prime as int, j, k),
    ensures
        forall|j: int|
            0 <= j < DELTA ==> entry_rules(
                #[trigger] row.subrange(1 + ENTRY_COLS * j, 1 + ENTRY_COLS * j + ENTRY_COLS),
                row[0] as int,
                j,
                response_entry(
                    witness.a_sigma_sum as int,
                    witness.pads@,
                    b_bar_prime as int,
                    j,
                ) as int,
            ),
{
    assert forall|j: int| 0 <= j < DELTA implies entry_rules(
        #[trigger] row.subrange(1 + ENTRY_COLS * j, 1 + ENTRY_COLS * j + ENTRY_COLS),
        row[0] as int,
        j,
        response_entry(witness.a_sigma_sum as int, witness.pads@, b_bar_prime as int, j) as int,
    ) by {
        let a = witness.a_sigma_sum as int;
        let sub = row.subrange(1 + ENTRY_COLS * j, 1 + ENTRY_COLS * j + ENTRY_COLS);
        assert forall|k: int| 0 <= k < ENTRY_COLS implies sub[k] == entry_col(
            a,
            witness.pads@,
            b_bar_prime as int,
            j,
            k,
        ) by {
            assert(sub[k] == row[1 + ENTRY_COLS * j + k]);
        }
        assert(sub =~= entry_cols(a, witness.pads@, b_bar_prime as int, j));
        lemma_entry_rules(a, witness.pads@, b_bar_prime as int, j);
    }
}

} // verus!
