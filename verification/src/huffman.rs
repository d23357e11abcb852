//! Canonical Huffman codes: building a dense prefix-lookup table from an
//! array of per-symbol code lengths, and decoding one symbol at a time from
//! a bit reader.

use vstd::prelude::*;
use vstd::arithmetic::power2::{pow2, lemma_pow2_adds, lemma_pow2_pos, lemma2_to64,
    lemma_pow2_strictly_increases};
use vstd::bits::{lemma_u32_shr_is_div, lemma_u32_shl_is_mul, lemma_usize_shl_is_mul};
use crate::BrotliError;
use crate::bitreader::{BitReader, IMPLICIT_ZEROES, stream_bits, lemma_stream_bits_bound};

verus! {

/// Maximum number of bits in a code.
pub const HUFFMAN_MAX_CODE_LENGTH: usize = 15;

/// Maximum alphabet size (the insert-and-copy code alphabet).
pub const HUFFMAN_MAX_CODE_LENGTHS_SIZE: usize = 704;

/// The lookup table is indexed by the next `HUFFMAN_MAX_CODE_LENGTH` bits of
/// the stream, so every code, short or long, resolves in a single probe.
pub const HUFFMAN_TABLE_SIZE: usize = 32768;

/// Occurrences of the length `v` among the first `n` entries of `s`.
pub open spec fn count_pref(s: Seq<u8>, v: int, n: int) -> int
    decreases n,
{
    if n <= 0 {
        0
    } else {
        count_pref(s, v, n - 1) + if s[n - 1] as int == v {
            1int
        } else {
            0int
        }
    }
}

/// Occurrences of the length `v` in all of `s`.
pub open spec fn count_len(s: Seq<u8>, v: int) -> int {
    count_pref(s, v, s.len() as int)
}

/// Kraft weight of the first `n` entries of `s`: each symbol of length `l`
/// in `1..=15` claims `2^(15-l)` of the `2^15` units of code space.
pub open spec fn kraft_pref(s: Seq<u8>, n: int) -> int
    decreases n,
{
    if n <= 0 {
        0
    } else {
        kraft_pref(s, n - 1) + if 1 <= s[n - 1] <= 15 {
            pow2((15 - s[n - 1]) as nat) as int
        } else {
            0int
        }
    }
}

/// Kraft weight of the whole length array.
pub open spec fn kraft(s: Seq<u8>) -> int {
    kraft_pref(s, s.len() as int)
}

/// A code-length array is a valid canonical code exactly when it fits the
/// format maxima and its Kraft weight fills the code space exactly: less is
/// under-subscribed, more is over-subscribed.
pub open spec fn valid_code_lengths(s: Seq<u8>) -> bool {
    &&& s.len() <= HUFFMAN_MAX_CODE_LENGTHS_SIZE
    &&& forall|i: int| 0 <= i < s.len() ==> s[i] <= 15
    &&& kraft(s) == pow2(15)
}

/// The smallest canonical code of length `l` (most-significant-bit-first
/// numeric value), by the canonical recurrence.
pub open spec fn first_code(s: Seq<u8>, l: int) -> int
    decreases l,
{
    if l <= 1 {
        0
    } else {
        2 * (first_code(s, l - 1) + count_len(s, l - 1))
    }
}

/// The canonical code assigned to symbol `sym`: the smallest code of its
/// length, advanced by one for each earlier symbol of the same length.
pub open spec fn code_of(s: Seq<u8>, sym: int) -> int {
    first_code(s, s[sym] as int) + count_pref(s, s[sym] as int, sym)
}

/// The low `l` bits of `c` in reverse order: canonical codes are assigned
/// most significant bit first, while the stream packs bits least significant
/// first, so table indices are bit-reversed codes.
pub open spec fn brev(c: nat, l: nat) -> nat
    decreases l,
{
    if l == 0 {
        0
    } else {
        (c % 2) * pow2((l - 1) as nat) + brev(c / 2, (l - 1) as nat)
    }
}

pub proof fn lemma_brev_bound(c: nat, l: nat)
    ensures
        brev(c, l) < pow2(l),
    decreases l,
{
    if l == 0 {
        lemma2_to64();
    } else {
        lemma_brev_bound(c / 2, (l - 1) as nat);
        lemma_pow2_adds((l - 1) as nat, 1);
        lemma2_to64();
        let b = c % 2;
        if b == 0 {
            assert(b * pow2((l - 1) as nat) == 0);
        } else {
            assert(b == 1);
            assert(b * pow2((l - 1) as nat) == pow2((l - 1) as nat));
        }
    }
}

/// One step of bit reversal: appending bit `j` of `c` from below.
proof fn lemma_brev_step(c: nat, j: nat)
    ensures
        brev(c, j + 1) == 2 * brev(c, j) + (c / pow2(j)) % 2,
    decreases j,
{
    if j == 0 {
        lemma2_to64();
        assert(pow2(0) == 1);
        assert(brev(c, 1) == (c % 2) * 1 + brev(c / 2, 0));
    } else {
        lemma_brev_step(c / 2, (j - 1) as nat);
        lemma_pow2_adds(1, (j - 1) as nat);
        lemma2_to64();
        lemma_pow2_pos((j - 1) as nat);
        assert((c / 2) / pow2((j - 1) as nat) == c / pow2(j)) by {
            vstd::arithmetic::div_mod::lemma_div_denominator(
                c as int,
                2,
                pow2((j - 1) as nat) as int,
            );
        }
        assert(brev(c, j + 1) == (c % 2) * pow2(j) + brev(c / 2, j));
        assert(brev(c / 2, j) == 2 * brev(c / 2, (j - 1) as nat) + (c / pow2(j)) % 2);
        assert(brev(c, j) == (c % 2) * pow2((j - 1) as nat) + brev(c / 2, (j - 1) as nat));
        assert((c % 2) * pow2(j) == 2 * ((c % 2) * pow2((j - 1) as nat))) by {
            assert(pow2(j) == 2 * pow2((j - 1) as nat));
            vstd::arithmetic::mul::lemma_mul_is_associative(
                c as int % 2,
                2,
                pow2((j - 1) as nat) as int,
            );
            vstd::arithmetic::mul::lemma_mul_is_commutative(c as int % 2, 2);
            vstd::arithmetic::mul::lemma_mul_is_associative(
                2,
                c as int % 2,
                pow2((j - 1) as nat) as int,
            );
        }
    }
}

/// The table after one symbol's entry is stored: every index whose low
/// `l` bits are `rev` now holds `e`.
pub open spec fn write_class(t: Seq<Code>, rev: int, l: nat, e: Code) -> Seq<Code> {
    Seq::new(t.len(), |i: int| if i % (pow2(l) as int) == rev {
        e
    } else {
        t[i]
    })
}

/// The table built from the first `n` symbols of `s` over an initial table
/// `t`: each symbol of nonzero length stores `{its length, its value}`
/// across all indices whose low bits are its bit-reversed canonical code.
pub open spec fn build_table(s: Seq<u8>, t: Seq<Code>, n: int) -> Seq<Code>
    decreases n,
{
    if n <= 0 {
        t
    } else {
        let t1 = build_table(s, t, n - 1);
        if s[n - 1] == 0 {
            t1
        } else {
            write_class(
                t1,
                brev(code_of(s, n - 1) as nat, s[n - 1] as nat) as int,
                s[n - 1] as nat,
                Code { bits: s[n - 1], value: (n - 1) as u16 },
            )
        }
    }
}

/// Membership in a stride class: for `0 <= rev < step`, the indices with
/// `i % step == rev` are exactly `rev` and the later indices a multiple of
/// `step` past it.
proof fn lemma_class_slots(rev: int, step: int, i: int)
    requires
        0 <= rev < step,
        0 <= i,
    ensures
        (i % step == rev) <==> (i == rev || (i > rev && (i - rev) % step == 0)),
{
    if i % step == rev {
        if i != rev {
            vstd::arithmetic::div_mod::lemma_fundamental_div_mod(i, step);
            let q = i / step;
            assert(step * q == q * step) by (nonlinear_arith);
            assert(i - rev == q * step);
            vstd::arithmetic::div_mod::lemma_mod_multiples_basic(q, step);
            if i < rev {
                vstd::arithmetic::div_mod::lemma_small_mod(i as nat, step as nat);
            }
            vstd::arithmetic::div_mod::lemma_div_pos_is_pos(i, step);
        }
    }
    if i == rev {
        vstd::arithmetic::div_mod::lemma_small_mod(rev as nat, step as nat);
    } else if i > rev && (i - rev) % step == 0 {
        vstd::arithmetic::div_mod::lemma_fundamental_div_mod(i - rev, step);
        let q = (i - rev) / step;
        assert(step * q == q * step) by (nonlinear_arith);
        vstd::arithmetic::div_mod::lemma_mod_multiples_vanish(q, rev, step);
        vstd::arithmetic::div_mod::lemma_small_mod(rev as nat, step as nat);
    }
}

proof fn lemma_count_pref_bounds(s: Seq<u8>, v: int, n: int)
    ensures
        0 <= count_pref(s, v, n),
        count_pref(s, v, n) <= if n >= 0 { n } else { 0 },
    decreases n,
{
    if n > 0 {
        lemma_count_pref_bounds(s, v, n - 1);
    }
}

proof fn lemma_first_code_bound(s: Seq<u8>, l: int)
    ensures
        0 <= first_code(s, l),
        first_code(s, l) <= (pow2(if l >= 1 { l as nat } else { 1 }) - 2) * s.len(),
    decreases l,
{
    let n = s.len() as int;
    if l <= 1 {
        lemma2_to64();
        vstd::arithmetic::mul::lemma_mul_nonnegative(pow2(1) - 2, n);
    } else {
        lemma_first_code_bound(s, l - 1);
        lemma_count_pref_bounds(s, l - 1, n);
        lemma_pow2_adds((l - 1) as nat, 1);
        lemma2_to64();
        lemma_pow2_pos((l - 1) as nat);
        assert(first_code(s, l) == 2 * (first_code(s, l - 1) + count_len(s, l - 1)));
        assert(first_code(s, l - 1) <= (pow2((l - 1) as nat) - 2) * n);
        assert(2 * ((pow2((l - 1) as nat) - 2) * n + n) == (pow2(l as nat) - 2) * n) by (nonlinear_arith)
            requires
                pow2(l as nat) == pow2((l - 1) as nat) * 2,
        ;
    }
}

proof fn lemma_count_pref_monotone(s: Seq<u8>, v: int, a: int, b: int)
    requires
        a <= b,
    ensures
        count_pref(s, v, a) <= count_pref(s, v, b),
    decreases b - a,
{
    if a < b {
        lemma_count_pref_monotone(s, v, a, b - 1);
    }
}

/// A symbol of length `v` at index `a` makes every later count strictly
/// larger.
proof fn lemma_count_pref_strict(s: Seq<u8>, v: int, a: int, b: int)
    requires
        0 <= a < b,
        s[a] as int == v,
    ensures
        count_pref(s, v, a) < count_pref(s, v, b),
{
    lemma_count_pref_monotone(s, v, a + 1, b);
}

/// The Kraft weight of the first `n` symbols, summed by code length up to
/// length `l` instead of by symbol.
pub open spec fn code_space_pref(s: Seq<u8>, n: int, l: int) -> int
    decreases l,
{
    if l <= 0 {
        0
    } else {
        code_space_pref(s, n, l - 1) + count_pref(s, l, n) * (pow2((15 - l) as nat) as int)
    }
}

/// Counting one more symbol adds that symbol's weight to every by-length
/// sum that covers its length.
proof fn lemma_code_space_pref_bump(s: Seq<u8>, n: int, l: int)
    requires
        0 <= n < s.len(),
        0 <= l <= 15,
    ensures
        code_space_pref(s, n + 1, l) == code_space_pref(s, n, l) + if 1 <= s[n] <= l {
            pow2((15 - s[n]) as nat) as int
        } else {
            0int
        },
    decreases l,
{
    if l > 0 {
        lemma_code_space_pref_bump(s, n, l - 1);
        assert(count_pref(s, l, n + 1) == count_pref(s, l, n) + if s[n] as int == l {
            1int
        } else {
            0int
        });
        if s[n] as int == l {
            vstd::arithmetic::mul::lemma_mul_is_distributive_add_other_way(
                pow2((15 - l) as nat) as int,
                count_pref(s, l, n),
                1,
            );
        }
    }
}

/// Summing the Kraft weight by code length agrees with summing it by
/// symbol.
proof fn lemma_code_space_is_kraft(s: Seq<u8>, n: int)
    requires
        forall|i: int| 0 <= i < s.len() ==> s[i] <= 15,
        0 <= n <= s.len(),
    ensures
        code_space_pref(s, n, 15) == kraft_pref(s, n),
    decreases n,
{
    if n > 0 {
        lemma_code_space_is_kraft(s, n - 1);
        lemma_code_space_pref_bump(s, n - 1, 15);
    } else {
        lemma_code_space_pref_zero(s, 15);
    }
}

proof fn lemma_code_space_pref_zero(s: Seq<u8>, l: int)
    ensures
        code_space_pref(s, 0, l) == 0,
    decreases l,
{
    if l > 0 {
        lemma_code_space_pref_zero(s, l - 1);
    }
}

/// The smallest code of each length sits exactly past the code space
/// claimed by all shorter lengths.
proof fn lemma_first_code_space(s: Seq<u8>, l: int)
    requires
        1 <= l <= 15,
    ensures
        first_code(s, l) * (pow2((15 - l) as nat) as int) == code_space_pref(
            s,
            s.len() as int,
            l - 1,
        ),
    decreases l,
{
    let n = s.len() as int;
    if l == 1 {
    } else {
        lemma_first_code_space(s, l - 1);
        let fc = first_code(s, l - 1);
        let cl = count_len(s, l - 1);
        lemma_pow2_adds((15 - l) as nat, 1);
        lemma2_to64();
        assert(first_code(s, l) == 2 * (fc + cl));
        assert(pow2((15 - (l - 1)) as nat) == 2 * pow2((15 - l) as nat));
        assert((2 * (fc + cl)) * (pow2((15 - l) as nat) as int) == fc * (2 * pow2(
            (15 - l) as nat,
        ) as int) + cl * (2 * pow2((15 - l) as nat) as int)) by (nonlinear_arith);
        assert(code_space_pref(s, n, l - 1) == code_space_pref(s, n, l - 2) + cl * (pow2(
            (15 - (l - 1)) as nat,
        ) as int));
    }
}

/// By-length sums only grow with the length bound.
proof fn lemma_code_space_monotone(s: Seq<u8>, n: int, l1: int, l2: int)
    requires
        0 <= l1 <= l2,
        0 <= n,
    ensures
        code_space_pref(s, n, l1) <= code_space_pref(s, n, l2),
    decreases l2 - l1,
{
    if l1 < l2 {
        lemma_code_space_monotone(s, n, l1, l2 - 1);
        lemma_count_pref_bounds(s, l2, n);
        lemma_pow2_pos((15 - l2) as nat);
        vstd::arithmetic::mul::lemma_mul_nonnegative(
            count_pref(s, l2, n),
            pow2((15 - l2) as nat) as int,
        );
    }
}

/// For a valid code, every symbol's canonical code fits in its declared
/// length.
proof fn lemma_code_of_bound(s: Seq<u8>, sym: int)
    requires
        valid_code_lengths(s),
        0 <= sym < s.len(),
        s[sym] > 0,
    ensures
        0 <= code_of(s, sym),
        code_of(s, sym) + count_len(s, s[sym] as int) - count_pref(s, s[sym] as int, sym)
            <= pow2(s[sym] as nat),
        code_of(s, sym) < pow2(s[sym] as nat),
{
    let n = s.len() as int;
    let l = s[sym] as int;
    let fc = first_code(s, l);
    let cl = count_len(s, l);
    let sum = fc + cl;
    lemma_first_code_space(s, l);
    lemma_code_space_monotone(s, n, l, 15);
    lemma_code_space_is_kraft(s, n);
    lemma2_to64();
    assert(code_space_pref(s, n, l) == fc * (pow2((15 - l) as nat) as int) + cl * (pow2(
        (15 - l) as nat,
    ) as int));
    vstd::arithmetic::mul::lemma_mul_is_distributive_add_other_way(
        pow2((15 - l) as nat) as int,
        fc,
        cl,
    );
    assert(sum * (pow2((15 - l) as nat) as int) <= pow2(15));
    lemma_pow2_adds(l as nat, (15 - l) as nat);
    assert(pow2(15) == pow2(l as nat) * pow2((15 - l) as nat));
    lemma_pow2_pos((15 - l) as nat);
    assert(sum <= pow2(l as nat)) by (nonlinear_arith)
        requires
            sum * (pow2((15 - l) as nat) as int) <= pow2(l as nat) * pow2((15 - l) as nat),
            pow2((15 - l) as nat) >= 1,
    ;
    lemma_count_pref_strict(s, l, sym, n);
    lemma_count_pref_bounds(s, l, sym);
    lemma_first_code_bound(s, l);
}

/// Two symbols of the same length get distinct codes, in symbol order.
proof fn lemma_codes_distinct_same_length(s: Seq<u8>, a: int, b: int)
    requires
        0 <= a < b < s.len(),
        s[a] == s[b],
        s[a] > 0,
    ensures
        code_of(s, a) < code_of(s, b),
{
    lemma_count_pref_strict(s, s[a] as int, a, b);
}

/// A shorter code is never a bit prefix of a longer one: the longer code,
/// truncated to the shorter length, lies strictly past every code of that
/// shorter length.
proof fn lemma_no_prefix(s: Seq<u8>, a: int, b: int)
    requires
        valid_code_lengths(s),
        0 <= a < s.len(),
        0 <= b < s.len(),
        0 < s[a] < s[b],
    ensures
        code_of(s, b) / (pow2((s[b] - s[a]) as nat) as int) > code_of(s, a),
{
    let n = s.len() as int;
    let la = s[a] as int;
    let lb = s[b] as int;
    let sa = first_code(s, la) + count_len(s, la);
    lemma_first_code_space(s, la);
    lemma_first_code_space(s, lb);
    lemma_code_space_monotone(s, n, la, lb - 1);
    vstd::arithmetic::mul::lemma_mul_is_distributive_add_other_way(
        pow2((15 - la) as nat) as int,
        first_code(s, la),
        count_len(s, la),
    );
    assert(code_space_pref(s, n, la) == sa * (pow2((15 - la) as nat) as int));
    assert(first_code(s, lb) * (pow2((15 - lb) as nat) as int) >= sa * (pow2(
        (15 - la) as nat,
    ) as int));
    lemma_pow2_adds((15 - lb) as nat, (lb - la) as nat);
    assert(pow2((15 - la) as nat) == pow2((15 - lb) as nat) * pow2((lb - la) as nat));
    lemma_pow2_pos((15 - lb) as nat);
    lemma_pow2_pos((lb - la) as nat);
    let m = pow2((lb - la) as nat) as int;
    assert(first_code(s, lb) >= sa * m) by (nonlinear_arith)
        requires
            first_code(s, lb) * (pow2((15 - lb) as nat) as int) >= sa * ((pow2(
                (15 - lb) as nat,
            ) as int) * m),
            pow2((15 - lb) as nat) >= 1,
    ;
    lemma_count_pref_bounds(s, lb, b);
    lemma_count_pref_monotone(s, lb, 0, b);
    assert(code_of(s, b) >= first_code(s, lb));
    assert(code_of(s, b) / m >= sa) by {
        vstd::arithmetic::div_mod::lemma_div_is_ordered(sa * m, code_of(s, b), m);
        vstd::arithmetic::div_mod::lemma_div_multiples_vanish(sa, m);
        assert(m * sa == sa * m) by (nonlinear_arith);
    }
    lemma_count_pref_strict(s, la, a, n);
    lemma_count_pref_bounds(s, la, a);
}

/// The low `l1` bits of an `l2`-bit reversal are the reversal of the top
/// `l1` bits.
proof fn lemma_brev_mod(c: nat, l1: nat, l2: nat)
    requires
        l1 <= l2,
    ensures
        brev(c, l2) % pow2(l1) == brev(c / pow2((l2 - l1) as nat), l1),
    decreases l2,
{
    lemma_pow2_pos(l1);
    lemma_pow2_pos((l2 - l1) as nat);
    if l1 == l2 {
        lemma_brev_bound(c, l1);
        vstd::arithmetic::div_mod::lemma_small_mod(brev(c, l1), pow2(l1));
        assert(pow2(0) == 1) by {
            lemma2_to64();
        }
        assert(c / 1 == c) by (nonlinear_arith);
    } else {
        lemma_brev_mod(c / 2, l1, (l2 - 1) as nat);
        let hi = (c % 2) * pow2((l2 - 1) as nat);
        let lo = brev(c / 2, (l2 - 1) as nat);
        assert(brev(c, l2) == hi + lo);
        // The high part is a multiple of pow2(l1).
        lemma_pow2_adds(l1, (l2 - 1 - l1) as nat);
        let f = (c % 2) * pow2((l2 - 1 - l1) as nat);
        assert(hi == f * pow2(l1)) by (nonlinear_arith)
            requires
                pow2((l2 - 1) as nat) == pow2(l1) * pow2((l2 - 1 - l1) as nat),
                hi == (c % 2) * pow2((l2 - 1) as nat),
                f == (c % 2) * pow2((l2 - 1 - l1) as nat),
        ;
        assert((f * (pow2(l1) as int) + lo) % (pow2(l1) as int) == (lo as int) % (
        pow2(l1) as int)) by {
            vstd::arithmetic::div_mod::lemma_mod_multiples_vanish(
                f as int,
                lo as int,
                pow2(l1) as int,
            );
            assert((pow2(l1) as int) * (f as int) == (f as int) * (pow2(l1) as int))
                by (nonlinear_arith);
        }
        assert((c / 2) / pow2((l2 - 1 - l1) as nat) == c / pow2((l2 - l1) as nat)) by {
            lemma_pow2_pos((l2 - 1 - l1) as nat);
            vstd::arithmetic::div_mod::lemma_div_denominator(
                c as int,
                2,
                pow2((l2 - 1 - l1) as nat) as int,
            );
            lemma_pow2_adds(1, (l2 - 1 - l1) as nat);
            lemma2_to64();
        }
    }
}

/// Bit reversal is injective on values of the reversed width.
proof fn lemma_brev_injective(a: nat, b: nat, l: nat)
    requires
        a < pow2(l),
        b < pow2(l),
        brev(a, l) == brev(b, l),
    ensures
        a == b,
    decreases l,
{
    if l == 0 {
        assert(pow2(0) == 1) by {
            lemma2_to64();
        }
    } else {
        lemma_brev_bound(a / 2, (l - 1) as nat);
        lemma_brev_bound(b / 2, (l - 1) as nat);
        lemma_pow2_pos((l - 1) as nat);
        let pa = (a % 2) * pow2((l - 1) as nat);
        let pb = (b % 2) * pow2((l - 1) as nat);
        assert(a % 2 == b % 2 && brev(a / 2, (l - 1) as nat) == brev(b / 2, (l - 1) as nat)) by {
            assert(a % 2 == 0 || a % 2 == 1) by (nonlinear_arith);
            assert(b % 2 == 0 || b % 2 == 1) by (nonlinear_arith);
            if a % 2 != b % 2 {
                if a % 2 == 0 {
                    assert(b % 2 == 1);
                    assert(pa == 0);
                    assert(pb == pow2((l - 1) as nat));
                } else {
                    assert(a % 2 == 1);
                    assert(pa == pow2((l - 1) as nat));
                    assert(pb == 0);
                }
                assert(false);
            }
            assert(pa == pb);
        }
        assert(a / 2 < pow2((l - 1) as nat) && b / 2 < pow2((l - 1) as nat)) by {
            lemma_pow2_adds((l - 1) as nat, 1);
            lemma2_to64();
            vstd::arithmetic::div_mod::lemma_div_is_ordered(
                a as int,
                pow2(l) as int - 1,
                2,
            );
            assert((2 * pow2((l - 1) as nat) - 1) / 2 == pow2((l - 1) as nat) as int - 1)
                by (nonlinear_arith)
                requires
                    pow2((l - 1) as nat) >= 1,
            ;
        }
        lemma_brev_injective(a / 2, b / 2, (l - 1) as nat);
        vstd::arithmetic::div_mod::lemma_fundamental_div_mod(a as int, 2);
        vstd::arithmetic::div_mod::lemma_fundamental_div_mod(b as int, 2);
    }
}

/// An index in the class of a long stride is, modulo a shorter power-of-two
/// stride, determined by the long residue.
proof fn lemma_class_mod_shorter(i: int, r2: int, l1: nat, l2: nat)
    requires
        l1 <= l2,
        i % (pow2(l2) as int) == r2,
    ensures
        i % (pow2(l1) as int) == r2 % (pow2(l1) as int),
{
    lemma_pow2_pos(l1);
    lemma_pow2_pos(l2);
    lemma_pow2_adds(l1, (l2 - l1) as nat);
    vstd::arithmetic::div_mod::lemma_fundamental_div_mod(i, pow2(l2) as int);
    let q = i / (pow2(l2) as int);
    let f = q * (pow2((l2 - l1) as nat) as int);
    assert((pow2(l2) as int) * q == f * (pow2(l1) as int)) by (nonlinear_arith)
        requires
            pow2(l2) == pow2(l1) * pow2((l2 - l1) as nat),
            f == q * (pow2((l2 - l1) as nat) as int),
    ;
    assert((f * (pow2(l1) as int) + r2) % (pow2(l1) as int) == r2 % (pow2(l1) as int)) by {
        vstd::arithmetic::div_mod::lemma_mod_multiples_vanish(f, r2, pow2(l1) as int);
        assert((pow2(l1) as int) * f == f * (pow2(l1) as int)) by (nonlinear_arith);
    }
}

/// The truncated longer code is bounded by the shorter width.
proof fn lemma_truncated_code_bound(c: nat, l1: nat, l2: nat)
    requires
        l1 <= l2,
        c < pow2(l2),
    ensures
        c / pow2((l2 - l1) as nat) < pow2(l1),
{
    lemma_pow2_adds((l2 - l1) as nat, l1);
    lemma_pow2_pos((l2 - l1) as nat);
    lemma_pow2_pos(l1);
    vstd::arithmetic::div_mod::lemma_multiply_divide_lt(
        c as int,
        pow2((l2 - l1) as nat) as int,
        pow2(l1) as int,
    );
}

/// Distinct symbols' table classes never share an index: the canonical
/// code of one symbol is never a bit prefix of another's.
proof fn lemma_classes_disjoint(s: Seq<u8>, a: int, b: int, i: int)
    requires
        valid_code_lengths(s),
        0 <= a < s.len(),
        0 <= b < s.len(),
        a != b,
        s[a] > 0,
        s[b] > 0,
        0 <= i,
        i % (pow2(s[a] as nat) as int) == brev(code_of(s, a) as nat, s[a] as nat) as int,
    ensures
        i % (pow2(s[b] as nat) as int) != brev(code_of(s, b) as nat, s[b] as nat) as int,
{
    lemma_code_of_bound(s, a);
    lemma_code_of_bound(s, b);
    let la = s[a] as nat;
    let lb = s[b] as nat;
    let ca = code_of(s, a) as nat;
    let cb = code_of(s, b) as nat;
    if i % (pow2(lb) as int) == brev(cb, lb) as int {
        if la == lb {
            lemma_brev_bound(ca, la);
            lemma_brev_bound(cb, lb);
            lemma_pow2_pos(la);
            assert(brev(ca, la) == brev(cb, lb)) by {
                vstd::arithmetic::div_mod::lemma_small_mod(brev(ca, la), pow2(la));
            }
            lemma_brev_injective(ca, cb, la);
            if a < b {
                lemma_codes_distinct_same_length(s, a, b);
            } else {
                lemma_codes_distinct_same_length(s, b, a);
            }
        } else if la < lb {
            lemma_class_mod_shorter(i, brev(cb, lb) as int, la, lb);
            lemma_brev_mod(cb, la, lb);
            let cb2 = cb / pow2((lb - la) as nat);
            lemma_truncated_code_bound(cb, la, lb);
            lemma_brev_bound(ca, la);
            lemma_pow2_pos(la);
            assert(brev(ca, la) == brev(cb2, la)) by {
                vstd::arithmetic::div_mod::lemma_small_mod(brev(cb2, la), pow2(la));
            }
            lemma_brev_injective(ca, cb2, la);
            lemma_no_prefix(s, a, b);
        } else {
            lemma_class_mod_shorter(i, brev(ca, la) as int, lb, la);
            lemma_brev_mod(ca, lb, la);
            let ca2 = ca / pow2((la - lb) as nat);
            lemma_truncated_code_bound(ca, lb, la);
            lemma_brev_bound(cb, lb);
            lemma_pow2_pos(lb);
            assert(brev(cb, lb) == brev(ca2, lb)) by {
                vstd::arithmetic::div_mod::lemma_small_mod(brev(ca2, lb), pow2(lb));
            }
            lemma_brev_injective(cb, ca2, lb);
            lemma_no_prefix(s, b, a);
        }
    }
}

proof fn lemma_build_table_len(s: Seq<u8>, t: Seq<Code>, n: int)
    ensures
        build_table(s, t, n).len() == t.len(),
    decreases n,
{
    if n > 0 {
        lemma_build_table_len(s, t, n - 1);
    }
}

/// Every entry of a built table is either the initial table's entry or
/// names one of the first `n` symbols.
proof fn lemma_build_table_entries(s: Seq<u8>, t: Seq<Code>, n: int)
    requires
        n <= 0x1_0000,
    ensures
        forall|i: int|
            0 <= i < build_table(s, t, n).len() ==> (#[trigger] build_table(s, t, n)[i]) == t[i]
                || (build_table(s, t, n)[i]).value < n,
    decreases n,
{
    if n > 0 {
        lemma_build_table_entries(s, t, n - 1);
        lemma_build_table_len(s, t, n - 1);
        let t1 = build_table(s, t, n - 1);
        if s[n - 1] != 0 {
            let w = build_table(s, t, n);
            assert forall|i: int| 0 <= i < w.len() implies (#[trigger] w[i]) == t[i] || (
            w[i]).value < n by {
                if w[i] != t1[i] {
                    assert(w[i] == (Code { bits: s[n - 1], value: (n - 1) as u16 }));
                }
            }
        }
    }
}

proof fn lemma_round_trip_steps(s: Seq<u8>, t0: Seq<Code>, sym: int, i: int, n: int)
    requires
        valid_code_lengths(s),
        0 <= sym < n <= s.len(),
        s[sym] > 0,
        0 <= i < t0.len(),
        i % (pow2(s[sym] as nat) as int) == brev(code_of(s, sym) as nat, s[sym] as nat) as int,
    ensures
        build_table(s, t0, n)[i] == (Code { bits: s[sym], value: sym as u16 }),
    decreases n,
{
    lemma_build_table_len(s, t0, n - 1);
    if n == sym + 1 {
        assert(write_class(
            build_table(s, t0, sym),
            brev(code_of(s, sym) as nat, s[sym] as nat) as int,
            s[sym] as nat,
            Code { bits: s[sym], value: sym as u16 },
        )[i] == Code { bits: s[sym], value: sym as u16 });
    } else {
        lemma_round_trip_steps(s, t0, sym, i, n - 1);
        if s[n - 1] != 0 {
            lemma_classes_disjoint(s, sym, n - 1, i);
        }
    }
}

/// The round-trip law for canonical Huffman tables: after a build from a
/// valid code-length array, any table probe whose low bits spell a
/// symbol's bit-reversed canonical code resolves to exactly that symbol,
/// with its declared length. Together with the contracts of
/// `build_from_code_lengths` and `read_huffman_symbol`, decoding the
/// assigned codes in bit-stream order returns exactly the symbols they
/// were assigned to, consuming exactly their code lengths.
pub proof fn lemma_canonical_round_trip(s: Seq<u8>, t0: Seq<Code>, sym: int, i: int)
    requires
        valid_code_lengths(s),
        0 <= sym < s.len(),
        s[sym] > 0,
        0 <= i < t0.len(),
        i % (pow2(s[sym] as nat) as int) == brev(code_of(s, sym) as nat, s[sym] as nat) as int,
    ensures
        build_table(s, t0, s.len() as int)[i] == (Code { bits: s[sym], value: sym as u16 }),
{
    lemma_round_trip_steps(s, t0, sym, i, s.len() as int);
}

/// The round-trip law at the stream level: when the bits at `pos` begin
/// with the canonical code assigned to `sym`, written most significant bit
/// first as the format transmits codes, the table probe made by
/// `read_huffman_symbol` at that position lands on `sym`'s entry, so the
/// symbol decodes back and exactly its code length is consumed.
pub proof fn lemma_stream_probe_selects_symbol(
    s: Seq<u8>,
    t0: Seq<Code>,
    sym: int,
    data: Seq<u8>,
    pos: int,
)
    requires
        valid_code_lengths(s),
        0 <= sym < s.len(),
        s[sym] > 0,
        t0.len() == HUFFMAN_TABLE_SIZE,
        stream_bits(data, pos, s[sym] as nat) == brev(code_of(s, sym) as nat, s[sym] as nat),
    ensures
        build_table(s, t0, s.len() as int)[stream_bits(data, pos, 15) as int] == (Code {
            bits: s[sym],
            value: sym as u16,
        }),
{
    crate::bitreader::lemma_stream_bits_truncate(data, pos, s[sym] as nat, 15);
    lemma_stream_bits_bound(data, pos, 15);
    lemma2_to64();
    lemma_canonical_round_trip(s, t0, sym, stream_bits(data, pos, 15) as int);
}

/// A reference encoder's output: the bits at `pos` are the canonical codes
/// of `syms`, one after another, each written most significant bit first.
pub open spec fn encodes(s: Seq<u8>, syms: Seq<u16>, data: Seq<u8>, pos: int) -> bool
    decreases syms.len(),
{
    syms.len() == 0 || {
        let sym = syms[0] as int;
        &&& 0 <= sym < s.len()
        &&& s[sym] > 0
        &&& stream_bits(data, pos, s[sym] as nat) == brev(code_of(s, sym) as nat, s[sym] as nat)
        &&& encodes(s, syms.skip(1), data, pos + s[sym])
    }
}

/// One decode step per symbol, exactly as `read_huffman_symbol` performs
/// it: probe the table with the next fifteen stream bits, emit the entry's
/// value, consume the entry's bit count.
pub open spec fn decode_fold(t: Seq<Code>, data: Seq<u8>, pos: int, n: nat) -> Seq<u16>
    decreases n,
{
    if n == 0 {
        Seq::empty()
    } else {
        let e = t[stream_bits(data, pos, 15) as int];
        seq![e.value] + decode_fold(t, data, pos + e.bits, (n - 1) as nat)
    }
}

/// The round-trip law over whole symbol sequences: decoding a stream that
/// a reference encoder produced for `syms` under a valid code returns
/// exactly `syms`.
pub proof fn lemma_sequence_round_trip(
    s: Seq<u8>,
    t0: Seq<Code>,
    syms: Seq<u16>,
    data: Seq<u8>,
    pos: int,
)
    requires
        valid_code_lengths(s),
        t0.len() == HUFFMAN_TABLE_SIZE,
        encodes(s, syms, data, pos),
    ensures
        decode_fold(build_table(s, t0, s.len() as int), data, pos, syms.len()) == syms,
    decreases syms.len(),
{
    if syms.len() > 0 {
        let sym = syms[0] as int;
        lemma_stream_probe_selects_symbol(s, t0, sym, data, pos);
        lemma_sequence_round_trip(s, t0, syms.skip(1), data, pos + s[sym]);
        assert(decode_fold(build_table(s, t0, s.len() as int), data, pos, syms.len()) =~= syms);
    }
}

/// An entry in the Huffman lookup table.
#[derive(Debug, Copy, Clone, PartialEq, Eq, Structural)]
pub struct Code {
    /// Number of bits consumed when this entry is matched.
    pub bits: u8,

    /// Decoded symbol value.
    pub value: u16,
}

/// A dense canonical Huffman lookup table. Short codes are replicated
/// across every index sharing their low-order bits, so a probe with the
/// next `HUFFMAN_MAX_CODE_LENGTH` stream bits always lands on a valid entry.
pub struct Table {
    codes: Vec<Code>,

    /// The `codes` field contains repeats, so the real alphabet size is
    /// tracked separately.
    alphabet_size: u16,
}

impl View for Table {
    type V = Seq<Code>;

    closed spec fn view(&self) -> Seq<Code> {
        self.codes@
    }
}

fn blank_codes() -> (v: Vec<Code>)
    ensures
        v@.len() == HUFFMAN_TABLE_SIZE,
        forall|i: int| 0 <= i < v@.len() ==> (#[trigger] v@[i]) == (Code { bits: 0, value: 0 }),
{
    let mut v: Vec<Code> = Vec::new();
    let mut k: usize = 0;
    while k < HUFFMAN_TABLE_SIZE
        invariant
            k <= HUFFMAN_TABLE_SIZE,
            v@.len() == k,
            forall|i: int| 0 <= i < k ==> (#[trigger] v@[i]) == (Code { bits: 0, value: 0 }),
        decreases HUFFMAN_TABLE_SIZE - k,
    {
        v.push(Code { bits: 0, value: 0 });
        k = k + 1;
    }
    v
}

fn zero_vec_u32(n: usize) -> (v: Vec<u32>)
    ensures
        v@.len() == n,
        forall|i: int| 0 <= i < n ==> (#[trigger] v@[i]) == 0u32,
{
    let mut v: Vec<u32> = Vec::new();
    let mut k: usize = 0;
    while k < n
        invariant
            k <= n,
            v@.len() == k,
            forall|i: int| 0 <= i < k ==> (#[trigger] v@[i]) == 0u32,
        decreases n - k,
    {
        v.push(0);
        k = k + 1;
    }
    v
}

impl Default for Table {
    /// A table of blank entries, ready for `build_from_code_lengths`.
    fn default() -> (r: Table)
        ensures
            r@.len() == HUFFMAN_TABLE_SIZE,
            r.wf_table(),
            forall|i: int| 0 <= i < r@.len() ==> (#[trigger] r@[i]) == (Code { bits: 0, value: 0 }),
    {
        Table { codes: blank_codes(), alphabet_size: 0 }
    }
}

impl Table {
    /// Every probe stays in bounds and every entry drops at most the
    /// maximum code length.
    pub open spec fn wf_table(&self) -> bool {
        &&& self@.len() == HUFFMAN_TABLE_SIZE
        &&& forall|i: int| 0 <= i < self@.len() ==> (#[trigger] self@[i]).bits <= 15
    }

    /// The declared alphabet size of the last successful build.
    pub closed spec fn spec_alphabet_size(&self) -> int {
        self.alphabet_size as int
    }

    /// Looks up the entry selected by the low `HUFFMAN_MAX_CODE_LENGTH` bits
    /// of `bits`; replication guarantees the entry is the right one for
    /// whatever code those bits begin with.
    pub fn lookup(&self, bits: u32) -> (c: Code)
        requires
            self@.len() == HUFFMAN_TABLE_SIZE,
        ensures
            c == self@[(bits & 0x7fff) as int],
    {
        let offs: usize = (bits & 0x7fff) as usize;
        proof {
            assert((bits & 0x7fff) < 32768) by (bit_vector);
        }
        self.codes[offs]
    }

    /// Decodes the next Huffman symbol from a bit reader: one probe with the
    /// next 15 stream bits, then exactly the matched entry's bit count is
    /// consumed.
    pub fn read_huffman_symbol<BR: BitReader>(&self, br: &mut BR) -> (sym: u16)
        requires
            self.wf_table(),
            old(br).wf(),
            old(br).cursor() + 15 <= 8 * old(br).data().len() + 8 * (IMPLICIT_ZEROES as int),
        ensures
            final(br).wf(),
            final(br).data() == old(br).data(),
            sym == self@[stream_bits(old(br).data(), old(br).cursor(), 15) as int].value,
            final(br).cursor() == old(br).cursor() + self@[stream_bits(
                old(br).data(),
                old(br).cursor(),
                15,
            ) as int].bits,
    {
        let probe = br.get_bits(15);
        proof {
            lemma_stream_bits_bound(old(br).data(), old(br).cursor(), 15);
            lemma2_to64();
            assert(probe == probe & 0x7fff) by (bit_vector)
                requires
                    probe < 32768,
            ;
        }
        let code = self.lookup(probe);
        br.drop_bits(code.bits as u32);
        code.value
    }

    /// Copies the entry at `offs` into every later slot at stride `step`.
    /// Used to replicate an entry across all table indices that share its
    /// low-order bits.
    fn replicate(&mut self, offs: usize, step: usize)
        requires
            offs < old(self)@.len(),
            old(self)@.len() <= HUFFMAN_TABLE_SIZE,
            1 <= step <= HUFFMAN_TABLE_SIZE,
        ensures
            final(self)@.len() == old(self)@.len(),
            final(self).alphabet_size == old(self).alphabet_size,
            forall|i: int|
                0 <= i < final(self)@.len() ==> (#[trigger] final(self)@[i]) == if i > offs && (i
                    - offs) % (step as int) == 0 {
                    old(self)@[offs as int]
                } else {
                    old(self)@[i]
                },
    {
        let t = self.codes[offs];
        let len = self.codes.len();
        let mut i: usize = offs + step;
        proof {
            vstd::arithmetic::div_mod::lemma_mod_self_0(step as int);
            assert forall|k: int| offs < k < offs + step implies #[trigger] ((k - offs) % (
            step as int)) != 0 by {
                vstd::arithmetic::div_mod::lemma_small_mod((k - offs) as nat, step as nat);
            }
        }
        while i < len
            invariant
                self.codes@.len() == len,
                len <= HUFFMAN_TABLE_SIZE,
                self.alphabet_size == old(self).alphabet_size,
                t == old(self)@[offs as int],
                1 <= step <= HUFFMAN_TABLE_SIZE,
                offs < len,
                i >= offs + step,
                (i as int - offs as int) % (step as int) == 0,
                forall|k: int|
                    0 <= k < len ==> (#[trigger] self.codes@[k]) == if k > offs && (k - offs) % (
                    step as int) == 0 && k < i {
                        old(self)@[offs as int]
                    } else {
                        old(self)@[k]
                    },
            decreases len + step - i,
        {
            self.codes[i] = t;
            let ghost prev = i as int;
            i = i + step;
            proof {
                let st = step as int;
                assert forall|k: int| prev < k < prev + step implies #[trigger] ((k - offs) % st)
                    != 0 by {
                    vstd::arithmetic::div_mod::lemma_add_mod_noop(prev - offs, k - prev, st);
                    vstd::arithmetic::div_mod::lemma_small_mod((k - prev) as nat, step as nat);
                }
                assert((i as int - offs) % st == 0) by {
                    vstd::arithmetic::div_mod::lemma_add_mod_noop(prev - offs, st, st);
                    vstd::arithmetic::div_mod::lemma_mod_self_0(st);
                    vstd::arithmetic::div_mod::lemma_small_mod(0, step as nat);
                }
            }
        }
    }

    /// Builds the lookup table for the canonical code described by
    /// `lengths`: symbol `sym` receives the `lengths[sym]`-bit canonical
    /// code, bit-reversed into table-index order and replicated across all
    /// indices sharing its low-order bits. Length zero marks an unused
    /// symbol. Over- and under-subscribed length arrays are rejected, as is
    /// any length over the format maxima.
    pub fn build_from_code_lengths(&mut self, lengths: &Vec<u8>) -> (r: Result<(), BrotliError>)
        requires
            old(self).wf_table(),
        ensures
            r is Ok <==> valid_code_lengths(lengths@),
            r is Err ==> r == Err::<(), BrotliError>(BrotliError::InvalidEncoding),
            final(self)@.len() == HUFFMAN_TABLE_SIZE,
            r is Ok ==> final(self).wf_table() && final(self).spec_alphabet_size()
                == lengths@.len(),
            r is Ok ==> final(self)@ == build_table(lengths@, old(self)@, lengths@.len() as int),
            r is Ok ==> (forall|i: int|
                0 <= i < final(self)@.len() ==> (#[trigger] final(self)@[i]) == old(self)@[i] || (
                final(self)@[i]).value < lengths@.len()),
            r is Err ==> final(self)@ == old(self)@ && final(self).spec_alphabet_size() == old(
                self,
            ).spec_alphabet_size(),
    {
        let ghost s = lengths@;
        let n = lengths.len();
        if n > HUFFMAN_MAX_CODE_LENGTHS_SIZE {
            return Err(BrotliError::InvalidEncoding);
        }

        // Histogram of code lengths and total Kraft weight, in one pass.
        let mut hist: Vec<u32> = zero_vec_u32(16);
        let mut space: u32 = 0;
        let mut i: usize = 0;
        while i < n
            invariant
                s == lengths@,
                n == s.len(),
                n <= HUFFMAN_MAX_CODE_LENGTHS_SIZE,
                i <= n,
                self.codes@ == old(self)@,
                self.alphabet_size == old(self).alphabet_size,
                old(self).wf_table(),
                hist@.len() == 16,
                forall|k: int| 0 <= k < s.len() ==> i <= k || s[k] <= 15,
                forall|v: int| 0 <= v < 16 ==> (#[trigger] hist@[v]) as int == count_pref(s, v, i as int),
                space as int == kraft_pref(s, i as int),
            decreases n - i,
        {
            let bits = lengths[i];
            if bits > 15 {
                proof {
                    assert(!valid_code_lengths(s));
                }
                return Err(BrotliError::InvalidEncoding);
            }
            proof {
                lemma_kraft_pref_bounds_partial(s, i as int + 1);
                lemma_kraft_pref_bounds_partial(s, i as int);
                lemma_count_pref_bounds(s, bits as int, i as int);
                lemma2_to64();
            }
            hist[bits as usize] = hist[bits as usize] + 1;
            if bits > 0 {
                let w: u32 = 1u32 << ((15 - bits) as u32);
                proof {
                    lemma_u32_shl_is_mul(1u32, (15 - bits) as u32);
                    if 15 - bits < 14 {
                        lemma_pow2_strictly_increases((15 - bits) as nat, 14);
                    } else if (15 - bits) as nat == 14 {
                    }
                    assert(pow2((15 - bits) as nat) <= pow2(14));
                }
                space = space + w;
            }
            i = i + 1;
        }

        if space != 32768 {
            proof {
                lemma2_to64();
                assert(kraft(s) != pow2(15));
            }
            return Err(BrotliError::InvalidEncoding);
        }
        proof {
            lemma2_to64();
            assert(valid_code_lengths(s));
        }

        // Smallest canonical code of each length.
        let mut next: Vec<u32> = zero_vec_u32(16);
        let mut code: u32 = 0;
        let mut l: usize = 2;
        while l <= 15
            invariant
                2 <= l <= 16,
                s == lengths@,
                n == s.len(),
                n <= HUFFMAN_MAX_CODE_LENGTHS_SIZE,
                forall|k: int| 0 <= k < s.len() ==> s[k] <= 15,
                self.codes@ == old(self)@,
                self.alphabet_size == old(self).alphabet_size,
                old(self).wf_table(),
                hist@.len() == 16,
                forall|v: int| 0 <= v < 16 ==> (#[trigger] hist@[v]) as int == count_len(s, v),
                next@.len() == 16,
                code as int == first_code(s, l as int - 1),
                forall|k: int| 1 <= k < l ==> (#[trigger] next@[k]) as int == first_code(s, k),
                forall|k: int| l <= k < 16 ==> (#[trigger] next@[k]) == 0u32,
            decreases 16 - l,
        {
            proof {
                lemma_first_code_bound(s, l as int - 1);
                lemma_count_pref_bounds(s, l as int - 1, s.len() as int);
                lemma2_to64();
                if l as int - 1 >= 1 {
                    if (l - 1) < 15 {
                        lemma_pow2_strictly_increases((l - 1) as nat, 15);
                    }
                    vstd::arithmetic::mul::lemma_mul_inequality(
                        pow2((l - 1) as nat) as int - 2,
                        pow2(15) as int - 2,
                        s.len() as int,
                    );
                }
                vstd::arithmetic::mul::lemma_mul_inequality(
                    s.len() as int,
                    HUFFMAN_MAX_CODE_LENGTHS_SIZE as int,
                    pow2(15) as int - 2,
                );
                vstd::arithmetic::mul::lemma_mul_is_commutative(
                    pow2(15) as int - 2,
                    s.len() as int,
                );
            }
            code = (code + hist[l - 1]) * 2;
            next[l] = code;
            l = l + 1;
        }

        // Assign each symbol the next unused code of its length, bit-reverse
        // it into a table index, store and replicate.
        let mut sym: usize = 0;
        while sym < n
            invariant
                s == lengths@,
                n == s.len(),
                n <= HUFFMAN_MAX_CODE_LENGTHS_SIZE,
                sym <= n,
                forall|k: int| 0 <= k < s.len() ==> s[k] <= 15,
                next@.len() == 16,
                forall|k: int| 1 <= k < 16 ==> (#[trigger] next@[k]) as int == first_code(s, k)
                    + count_pref(s, k, sym as int),
                self.codes@.len() == HUFFMAN_TABLE_SIZE,
                forall|i2: int| 0 <= i2 < self.codes@.len() ==> (#[trigger] self.codes@[i2]).bits
                    <= 15,
                self.codes@ == build_table(s, old(self)@, sym as int),
            decreases n - sym,
        {
            let bits = lengths[sym];
            if bits != 0 {
                let lv: usize = bits as usize;
                proof {
                    lemma_first_code_bound(s, lv as int);
                    lemma_count_pref_bounds(s, lv as int, sym as int);
                    lemma2_to64();
                    if lv < 15 {
                        lemma_pow2_strictly_increases(lv as nat, 15);
                    }
                    vstd::arithmetic::mul::lemma_mul_inequality(
                        pow2(lv as nat) as int - 2,
                        pow2(15) as int - 2,
                        s.len() as int,
                    );
                    vstd::arithmetic::mul::lemma_mul_inequality(
                        s.len() as int,
                        HUFFMAN_MAX_CODE_LENGTHS_SIZE as int,
                        pow2(15) as int - 2,
                    );
                    vstd::arithmetic::mul::lemma_mul_is_commutative(
                        pow2(15) as int - 2,
                        s.len() as int,
                    );
                }
                let c: u32 = next[lv];
                next[lv] = c + 1;
                proof {
                    assert(forall|k: int| 1 <= k < 16 ==> count_pref(s, k, sym as int + 1)
                        == count_pref(s, k, sym as int) + if s[sym as int] as int == k {
                        1int
                    } else {
                        0int
                    });
                }

                // Bit-reverse the low `lv` bits of the code.
                let mut rev: usize = 0;
                let mut j: usize = 0;
                proof {
                    lemma2_to64();
                }
                while j < lv
                    invariant
                        j <= lv,
                        lv <= 15,
                        rev as nat == brev(c as nat, j as nat),
                        rev < pow2(j as nat),
                    decreases lv - j,
                {
                    let bit: u32 = (c >> (j as u32)) & 1;
                    proof {
                        lemma_u32_shr_is_div(c, j as u32);
                        assert((c >> (j as u32)) & 1 == ((c >> (j as u32)) as u32) % 2)
                            by (bit_vector);
                        lemma_brev_step(c as nat, j as nat);
                        lemma_brev_bound(c as nat, (j + 1) as nat);
                        lemma_pow2_adds(j as nat, 1);
                        lemma2_to64();
                    }
                    rev = rev * 2 + (bit as usize);
                    j = j + 1;
                }
                proof {
                    lemma_brev_bound(c as nat, lv as nat);
                    if lv < 15 {
                        lemma_pow2_strictly_increases(lv as nat, 15);
                    }
                    lemma2_to64();
                }

                let ghost t_before = self.codes@;
                let e = Code { bits, value: sym as u16 };
                self.codes[rev] = e;
                let step: usize = 1usize << lv;
                proof {
                    lemma_usize_shl_is_mul(1usize, lv);
                    lemma_pow2_pos(lv as nat);
                    lemma2_to64();
                }
                self.replicate(rev, step);
                proof {
                    assert forall|i: int| 0 <= i < self.codes@.len() implies self.codes@[i]
                        == write_class(t_before, rev as int, lv as nat, e)[i] by {
                        lemma_class_slots(rev as int, step as int, i);
                    }
                    assert(self.codes@ =~= write_class(t_before, rev as int, lv as nat, e));
                    assert(c as int == code_of(s, sym as int));
                    assert(self.codes@ == build_table(s, old(self)@, sym as int + 1));
                }
            }
            sym = sym + 1;
        }

        self.alphabet_size = n as u16;
        proof {
            lemma_build_table_entries(s, old(self)@, n as int);
        }
        Ok(())
    }
}

/// Partial Kraft sums stay within the bound needed for the running total.
proof fn lemma_kraft_pref_bounds_partial(s: Seq<u8>, n: int)
    requires
        forall|i: int| 0 <= i < s.len() ==> i >= n || s[i] <= 15,
        n <= s.len(),
    ensures
        0 <= kraft_pref(s, n),
        kraft_pref(s, n) <= (if n >= 0 { n } else { 0 }) * pow2(14),
    decreases n,
{
    if n > 0 {
        lemma_kraft_pref_bounds_partial(s, n - 1);
        if 1 <= s[n - 1] <= 15 {
            if 15 - s[n - 1] < 14 {
                lemma_pow2_strictly_increases((15 - s[n - 1]) as nat, 14);
            }
        }
        vstd::arithmetic::mul::lemma_mul_is_distributive_add_other_way(
            pow2(14) as int,
            n - 1,
            1,
        );
    }
}


/// A contiguous collection of Huffman tables sharing one declared
/// alphabet, selected by a small block-type or context index at decode
/// time, so switching trees is a constant-time index operation.
pub struct TreeGroup {
    tables: Vec<Table>,
    alphabet_size: u16,
}

impl TreeGroup {
    /// The tables of the group.
    pub closed spec fn spec_tables(&self) -> Seq<Table> {
        self.tables@
    }

    /// The declared alphabet size for every tree of the group.
    pub closed spec fn spec_alphabet_size(&self) -> int {
        self.alphabet_size as int
    }

    pub open spec fn wf_group(&self) -> bool {
        forall|i: int| 0 <= i < self.spec_tables().len() ==> (
        #[trigger] self.spec_tables()[i]).wf_table()
    }

    /// A group of `trees` blank tables for an alphabet of `alphabet_size`
    /// symbols.
    pub fn new(trees: usize, alphabet_size: u16) -> (g: TreeGroup)
        requires
            trees <= 256,
        ensures
            g.wf_group(),
            g.spec_tables().len() == trees,
            g.spec_alphabet_size() == alphabet_size,
    {
        let mut tables: Vec<Table> = Vec::new();
        let mut k: usize = 0;
        while k < trees
            invariant
                k <= trees,
                tables@.len() == k,
                forall|i: int| 0 <= i < k ==> (#[trigger] tables@[i]).wf_table(),
            decreases trees - k,
        {
            tables.push(Table::default());
            k = k + 1;
        }
        TreeGroup { tables, alphabet_size }
    }

    /// The number of trees in the group.
    pub fn tree_count(&self) -> (n: usize)
        ensures
            n == self.spec_tables().len(),
    {
        self.tables.len()
    }

    /// The `n`-th tree, for decoding.
    pub fn tree(&self, n: usize) -> (t: &Table)
        requires
            n < self.spec_tables().len(),
        ensures
            *t == self.spec_tables()[n as int],
    {
        &self.tables[n]
    }

    /// The `n`-th tree, for building: the group afterwards holds whatever
    /// the caller made of the borrowed table.
    pub fn tree_mut(&mut self, n: usize) -> (t: &mut Table)
        requires
            n < old(self).spec_tables().len(),
        ensures
            *t == old(self).spec_tables()[n as int],
            final(self).spec_tables() == old(self).spec_tables().update(n as int, *final(t)),
            final(self).spec_alphabet_size() == old(self).spec_alphabet_size(),
    {
        &mut self.tables[n]
    }
}

} // verus!

