//! The abelianisation of a finitely presented group, by integer elimination.
//!
//! `ℤⁿ / im(A)` is put in diagonal form by unimodular row and column
//! operations; the diagonal entries are then the invariants of
//! `⊕ ℤ/dᵢ`.
use vstd::prelude::*;
use vstd::arithmetic::div_mod::*;
use vstd::arithmetic::mul::*;
use vstd::arithmetic::power::*;
use crate::elimination::{
    copy_row, diagonalise, diagonal_entry, dot, entry, gcol, icol, image, ints, is_matrix, multiple_of,
    lemma_dot_update_right, lemma_dot_zero_right, lemma_relates_diagonal_exact, left_inverse, left_inverse_int,
    relates, zeros, rows, elim_overflows, elim_result, elim_stops_at, lemma_elim_result,
};

verus! {

/// The greatest common divisor, by Euclid's algorithm.
pub open spec fn spec_gcd(a: nat, b: nat) -> nat
    decreases b,
{
    if b == 0 {
        a
    } else {
        spec_gcd(b, a % b)
    }
}

/// The absolute value.
pub open spec fn abs_int(x: int) -> nat {
    if x < 0 {
        (-x) as nat
    } else {
        x as nat
    }
}

/// `gcd(a, b)` divides `a` and `b`, and any common divisor of `a` and `b`
/// divides it; it is positive unless both are zero.
#[verifier::spinoff_prover]
pub proof fn lemma_gcd_properties(a: nat, b: nat)
    ensures
        spec_gcd(a, b) > 0 ==> a % spec_gcd(a, b) == 0 && b % spec_gcd(a, b) == 0,
        a > 0 || b > 0 ==> spec_gcd(a, b) > 0,
        spec_gcd(a, b) == 0 ==> a == 0 && b == 0,
        forall|d: nat| d > 0 && a % d == 0 && b % d == 0 ==> #[trigger] (spec_gcd(a, b) % d) == 0,
    decreases b,
{
    if b == 0 {
        if a > 0 {
            lemma_mod_self_0(a as int);
        }
        lemma_mod_self_0(1);
    } else {
        lemma_gcd_properties(b, a % b);
        let g = spec_gcd(b, a % b);
        lemma_fundamental_div_mod(a as int, b as int);
        lemma_mod_pos_bound(a as int, b as int);
        if g > 0 {
            // a = (a / b)·b + a % b, and g divides both terms
            lemma_mod_multiples_basic((a / b) as int, 1);
            assert((((a / b) * b) as int) % (g as int) == 0) by {
                lemma_mul_mod_noop_right((a / b) as int, b as int, g as int);
                lemma_mul_basics((a / b) as int);
            }
            lemma_add_mod_noop(((a / b) * b) as int, (a % b) as int, g as int);
            lemma_mod_self_0(g as int);
        }
        assert forall|d: nat| d > 0 && a % d == 0 && b % d == 0 implies #[trigger] (spec_gcd(a, b)
            % d) == 0 by {
            let ai = a as int;
            let bi = b as int;
            let di = d as int;
            let qi = (a / b) as int;
            assert((qi * bi) % di == 0) by {
                lemma_mul_mod_noop_right(qi, bi, di);
                lemma_mul_basics(qi);
                lemma_mod_self_0(di);
            }
            lemma_sub_mod_noop(ai, qi * bi, di);
            lemma_mul_is_commutative(qi, bi);
            assert(ai - qi * bi == (a % b) as int);
            assert(ai % di == 0);
            lemma_small_mod(0, d);
            assert(((ai % di) - ((qi * bi) % di)) % di == 0);
            assert((a % b) % d == 0);
        }
    }
}

/// The greatest common divisor of `|a|` and `|b|`.
pub fn gcd(a: i64, b: i64) -> (r: i64)
    requires
        a != i64::MIN,
        b != i64::MIN,
    ensures
        r as int == spec_gcd(abs_int(a as int), abs_int(b as int)),
        r >= 0,
{
    let mut x: i64 = if a < 0 {
        -a
    } else {
        a
    };
    let mut y: i64 = if b < 0 {
        -b
    } else {
        b
    };
    while y != 0
        invariant
            x >= 0,
            y >= 0,
            spec_gcd(x as nat, y as nat) == spec_gcd(abs_int(a as int), abs_int(b as int)),
        decreases y,
    {
        proof {
            lemma_mod_pos_bound(x as int, y as int);
        }
        let r = x % y;
        x = y;
        y = r;
    }
    x
}


/// The radix `2⁶³`, which exceeds every `i64`.
pub open spec fn radix() -> int {
    0x8000_0000_0000_0000
}

/// The value of `s` read as the digits, most significant first, of a number
/// in base [`radix`].
pub open spec fn positional(s: Seq<i64>) -> int
    decreases s.len(),
{
    if s.len() == 0 {
        0
    } else {
        s[0] * pow(radix(), (s.len() - 1) as nat) + positional(s.drop_first())
    }
}

/// Every entry is a nonnegative digit.
pub open spec fn nonnegative(s: Seq<i64>) -> bool {
    forall|k: int| 0 <= k < s.len() ==> #[trigger] s[k] >= 0
}

/// Digits in range give a value in `[0, radixˡᵉⁿ)`.
pub proof fn lemma_positional_bound(s: Seq<i64>)
    requires
        nonnegative(s),
    ensures
        0 <= positional(s) < pow(radix(), s.len()),
    decreases s.len(),
{
    reveal(pow);
    if s.len() > 0 {
        let rest = s.drop_first();
        assert(nonnegative(rest)) by {
            assert forall|k: int| 0 <= k < rest.len() implies #[trigger] rest[k] >= 0 by {
                assert(rest[k] == s[k + 1]);
            }
        }
        lemma_positional_bound(rest);
        let p = pow(radix(), (s.len() - 1) as nat);
        lemma_pow_positive(radix(), (s.len() - 1) as nat);
        assert(s[0] >= 0);
        assert(s[0] < radix());
        assert(s[0] * p + positional(rest) < radix() * p) by (nonlinear_arith)
            requires
                0 <= s[0] < radix(),
                0 <= positional(rest) < p,
                p > 0,
        ;
        assert(s[0] * p >= 0) by (nonlinear_arith)
            requires
                s[0] >= 0,
                p > 0,
        ;
        assert(pow(radix(), s.len()) == radix() * p);
    }
}

/// Lowering one digit, with the more significant digits kept, lowers the
/// value.
pub proof fn lemma_positional_lex(s: Seq<i64>, t: Seq<i64>, i: int)
    requires
        s.len() == t.len(),
        0 <= i < s.len(),
        nonnegative(s),
        nonnegative(t),
        forall|k: int| 0 <= k < i ==> s[k] == t[k],
        t[i] < s[i],
    ensures
        positional(t) < positional(s),
    decreases i,
{
    let rs = s.drop_first();
    let rt = t.drop_first();
    assert(nonnegative(rs)) by {
        assert forall|k: int| 0 <= k < rs.len() implies #[trigger] rs[k] >= 0 by {
            assert(rs[k] == s[k + 1]);
        }
    }
    assert(nonnegative(rt)) by {
        assert forall|k: int| 0 <= k < rt.len() implies #[trigger] rt[k] >= 0 by {
            assert(rt[k] == t[k + 1]);
        }
    }
    let p = pow(radix(), (s.len() - 1) as nat);
    if i == 0 {
        lemma_positional_bound(rt);
        lemma_positional_bound(rs);
        lemma_pow_positive(radix(), (s.len() - 1) as nat);
        assert(t[0] * p + positional(rt) < s[0] * p + positional(rs)) by (nonlinear_arith)
            requires
                0 <= t[0] < s[0],
                0 <= positional(rt) < p,
                0 <= positional(rs),
                p > 0,
        ;
    } else {
        assert forall|k: int| 0 <= k < i - 1 implies rs[k] == rt[k] by {
            assert(rs[k] == s[k + 1]);
            assert(rt[k] == t[k + 1]);
        }
        assert(rs[i - 1] == s[i]);
        assert(rt[i - 1] == t[i]);
        lemma_positional_lex(rs, rt, i - 1);
        assert(s[0] == t[0]);
    }
}

/// The nonzero entries of `s` form a prefix.
pub open spec fn zeros_at_tail(s: Seq<i64>) -> bool {
    forall|i: int, j: int| #![trigger s[i], s[j]] 0 <= i < j < s.len() && s[i] == 0 ==> s[j] == 0
}

/// Each nonzero entry divides the next nonzero entry.
pub open spec fn is_divisibility_chain(s: Seq<i64>) -> bool {
    forall|k: int| 0 <= k < s.len() - 1 && s[k + 1] != 0 ==> #[trigger] (s[k + 1] % s[k]) == 0
}

/// The product of the nonzero entries: the order of the torsion part of
/// `⊕ᵢ ℤ/dᵢ`.
pub open spec fn nonzero_product(s: Seq<i64>) -> int
    decreases s.len(),
{
    if s.len() == 0 {
        1
    } else {
        nonzero_product(s.drop_last()) * (if s.last() != 0 {
            s.last() as int
        } else {
            1
        })
    }
}

/// The product of the nonzero entries of an integer sequence.
pub open spec fn nonzero_product_int(s: Seq<int>) -> int
    decreases s.len(),
{
    if s.len() == 0 {
        1
    } else {
        nonzero_product_int(s.drop_last()) * (if s.last() != 0 {
            s.last()
        } else {
            1
        })
    }
}

/// Reading machine integers as integers keeps the product.
proof fn lemma_nonzero_product_ints(s: Seq<i64>, t: Seq<int>)
    requires
        s.len() == t.len(),
        forall|k: int| 0 <= k < s.len() ==> #[trigger] s[k] as int == t[k],
    ensures
        nonzero_product(s) == nonzero_product_int(t),
    decreases s.len(),
{
    if s.len() > 0 {
        lemma_nonzero_product_ints(s.drop_last(), t.drop_last());
    }
}

/// The product over a concatenation is the product of the products.
proof fn lemma_nonzero_product_concat(a: Seq<i64>, b: Seq<i64>)
    ensures
        nonzero_product(a + b) == nonzero_product(a) * nonzero_product(b),
    decreases b.len(),
{
    if b.len() == 0 {
        assert(a + b =~= a);
    } else {
        assert((a + b).drop_last() =~= a + b.drop_last());
        assert((a + b).last() == b.last());
        lemma_nonzero_product_concat(a, b.drop_last());
        let f = if b.last() != 0 {
            b.last() as int
        } else {
            1
        };
        lemma_mul_is_associative(nonzero_product(a), nonzero_product(b.drop_last()), f);
    }
}

/// Replacing two adjacent nonzero entries by nonzero entries with the same
/// product keeps the product.
proof fn lemma_nonzero_product_pair(s: Seq<i64>, i: int, x: i64, y: i64)
    requires
        0 <= i,
        i + 1 < s.len(),
        s[i] != 0,
        s[i + 1] != 0,
        x != 0,
        y != 0,
        x * y == s[i] * s[i + 1],
    ensures
        nonzero_product(s.update(i, x).update(i + 1, y)) == nonzero_product(s),
{
    let t = s.update(i, x).update(i + 1, y);
    let head = s.take(i);
    let tail = s.skip(i + 2);
    assert(s =~= head + seq![s[i], s[i + 1]] + tail);
    assert(t =~= head + seq![x, y] + tail);
    lemma_nonzero_product_concat(head + seq![s[i], s[i + 1]], tail);
    lemma_nonzero_product_concat(head, seq![s[i], s[i + 1]]);
    lemma_nonzero_product_concat(head + seq![x, y], tail);
    lemma_nonzero_product_concat(head, seq![x, y]);
    lemma_nonzero_product_two(s[i], s[i + 1]);
    lemma_nonzero_product_two(x, y);
}

/// The product of two nonzero entries.
proof fn lemma_nonzero_product_two(x: i64, y: i64)
    requires
        x != 0,
        y != 0,
    ensures
        nonzero_product(seq![x, y]) == x * y,
{
    assert(seq![x, y].drop_last() =~= seq![x]);
    assert(seq![x].drop_last() =~= Seq::<i64>::empty());
    assert(nonzero_product(Seq::<i64>::empty()) == 1);
    assert(nonzero_product(seq![x]) == 1 * (x as int));
    assert(nonzero_product(seq![x, y]) == nonzero_product(seq![x]) * (y as int));
}

/// `m` is a multiple of every nonzero entry of `s`.
pub open spec fn common_multiple(s: Seq<i64>, m: int) -> bool {
    forall|k: int| 0 <= k < s.len() && s[k] != 0 ==> #[trigger] (m % (s[k] as int)) == 0
}

/// The nonzero entries of `s` have a positive common multiple within `i64`;
/// equivalently, their least common multiple fits in `i64`.
pub open spec fn lcm_fits(s: Seq<i64>) -> bool {
    exists|m: int| 0 < m <= i64::MAX && #[trigger] common_multiple(s, m)
}

/// Divisibility is transitive: `z | y` and `y | x` give `z | x`.
proof fn lemma_divides_trans(x: int, y: int, z: int)
    requires
        y > 0,
        z > 0,
        x % y == 0,
        y % z == 0,
    ensures
        x % z == 0,
{
    lemma_fundamental_div_mod(x, y);
    lemma_fundamental_div_mod(y, z);
    assert(x == ((y / z) * (x / y)) * z) by (nonlinear_arith)
        requires
            x == y * (x / y),
            y == z * (y / z),
    ;
    lemma_mod_multiples_basic((y / z) * (x / y), z);
}

/// A positive multiple of a positive `d` is at least `d`.
proof fn lemma_divisor_le(x: int, d: int)
    requires
        x > 0,
        d > 0,
        x % d == 0,
    ensures
        d <= x,
{
    lemma_fundamental_div_mod(x, d);
    assert(d <= x) by (nonlinear_arith)
        requires
            x == d * (x / d),
            x > 0,
            d > 0,
    ;
}

/// The gcd is homogeneous: `gcd(k·a, k·b) = k·gcd(a, b)`.
proof fn lemma_gcd_scale(k: nat, a: nat, b: nat)
    requires
        k > 0,
    ensures
        spec_gcd(k * a, k * b) == k * spec_gcd(a, b),
    decreases b,
{
    if b == 0 {
        assert(k * b == 0) by (nonlinear_arith)
            requires
                b == 0,
        ;
    } else {
        let q = (a / b) as int;
        let r = (a % b) as int;
        lemma_fundamental_div_mod(a as int, b as int);
        lemma_mod_pos_bound(a as int, b as int);
        let ka = (k * a) as int;
        let kb = (k * b) as int;
        assert(ka == kb * q + k * r && 0 <= k * r < kb) by (nonlinear_arith)
            requires
                a == b * q + r,
                0 <= r < b,
                k > 0,
                ka == k * a,
                kb == k * b,
        ;
        lemma_fundamental_div_mod_converse(ka, kb, q, k * r);
        lemma_gcd_scale(k, b, a % b);
        assert((k * a) % (k * b) == k * (a % b));
    }
}

/// The least common multiple `(a / gcd)·b` of positive `a` and `b` divides
/// each of their common multiples.
proof fn lemma_lcm_divides(a: int, b: int, g: int, q: int, m: int)
    requires
        a > 0,
        b > 0,
        g == spec_gcd(a as nat, b as nat),
        q == a / g,
        m % a == 0,
        m % b == 0,
    ensures
        g > 0,
        q > 0,
        m % (q * b) == 0,
{
    lemma_gcd_properties(a as nat, b as nat);
    lemma_fundamental_div_mod(a, g);
    assert(q > 0) by (nonlinear_arith)
        requires
            a == g * q + a % g,
            a % g == 0,
            a > 0,
            g > 0,
    ;
    assert(q * b > 0) by (nonlinear_arith)
        requires
            q > 0,
            b > 0,
    ;
    let mm: int = if m >= 0 { m } else { -m };
    assert(mm % a == 0 && mm % b == 0) by {
        if m < 0 {
            lemma_fundamental_div_mod(m, a);
            lemma_fundamental_div_mod(m, b);
            assert(mm == a * (-(m / a))) by (nonlinear_arith)
                requires
                    m == a * (m / a) + m % a,
                    m % a == 0,
                    mm == -m,
            ;
            assert(mm == b * (-(m / b))) by (nonlinear_arith)
                requires
                    m == b * (m / b) + m % b,
                    m % b == 0,
                    mm == -m,
            ;
            lemma_mod_multiples_basic(-(m / a), a);
            lemma_mod_multiples_basic(-(m / b), b);
            lemma_mul_is_commutative(a, -(m / a));
            lemma_mul_is_commutative(b, -(m / b));
        }
    }
    if mm > 0 {
        lemma_gcd_scale(mm as nat, a as nat, b as nat);
        let ma = (mm * a) as nat;
        let mb = (mm * b) as nat;
        lemma_gcd_properties(ma, mb);
        lemma_fundamental_div_mod(mm, a);
        lemma_fundamental_div_mod(mm, b);
        let ab = a * b;
        assert(ab > 0) by (nonlinear_arith)
            requires
                a > 0,
                b > 0,
                ab == a * b,
        ;
        assert(ma == ((mm / b) * ab)) by (nonlinear_arith)
            requires
                mm == b * (mm / b),
                ma == mm * a,
                ab == a * b,
        ;
        assert(mb == ((mm / a) * ab)) by (nonlinear_arith)
            requires
                mm == a * (mm / a),
                mb == mm * b,
                ab == a * b,
        ;
        lemma_mod_multiples_basic(mm / b, ab);
        lemma_mod_multiples_basic(mm / a, ab);
        assert((spec_gcd(ma, mb) as int) % ab == 0);
        let t = (mm * g) / ab;
        lemma_fundamental_div_mod(mm * g, ab);
        assert(mm == (q * b) * t) by (nonlinear_arith)
            requires
                mm * g == ab * t,
                ab == a * b,
                a == g * q,
                g > 0,
        ;
        lemma_mod_multiples_basic(t, q * b);
        lemma_mul_is_commutative(q * b, t);
    } else {
        lemma_mod_self_0(q * b);
        assert(mm == 0);
        lemma_small_mod(0, (q * b) as nat);
    }
    assert(m % (q * b) == 0) by {
        if m < 0 {
            lemma_fundamental_div_mod(mm, q * b);
            lemma_mod_multiples_basic(-(mm / (q * b)), q * b);
            assert(m == (-(mm / (q * b))) * (q * b)) by (nonlinear_arith)
                requires
                    mm == (q * b) * (mm / (q * b)) + mm % (q * b),
                    mm % (q * b) == 0,
                    mm == -m,
            ;
        }
    }
}

/// In a divisibility chain of positive entries, each entry divides every
/// later one.
proof fn lemma_chain_divides(s: Seq<i64>, k: int, j: int)
    requires
        0 <= k <= j < s.len(),
        forall|t: int| 0 <= t <= j ==> s[t] > 0,
        forall|t: int| 0 <= t < j ==> #[trigger] (s[t + 1] % s[t]) == 0,
    ensures
        (s[j] as int) % (s[k] as int) == 0,
    decreases j - k,
{
    if k == j {
        lemma_mod_self_0(s[j] as int);
    } else {
        lemma_chain_divides(s, k + 1, j);
        assert(s[k + 1] % s[k] == 0);
        lemma_divides_trans(s[j] as int, s[k + 1] as int, s[k] as int);
    }
}

/// `t` is `s` with the adjacent positive pair at `i, i + 1` replaced by its
/// greatest common divisor and least common multiple. Since
/// `ℤ/a ⊕ ℤ/b ≅ ℤ/gcd(a, b) ⊕ ℤ/lcm(a, b)`, the group `⊕ₖ ℤ/sₖ` is unchanged
/// up to isomorphism.
pub open spec fn gcd_lcm_pair(s: Seq<i64>, t: Seq<i64>, i: int) -> bool {
    let g = spec_gcd(s[i] as nat, s[i + 1] as nat) as int;
    &&& 0 <= i && i + 1 < s.len()
    &&& s[i] > 0 && s[i + 1] > 0
    &&& t.len() == s.len()
    &&& t[i] as int == g
    &&& t[i + 1] as int == (s[i] as int / g) * s[i + 1]
    &&& forall|k: int| 0 <= k < s.len() && k != i && k != i + 1 ==> #[trigger] t[k] == s[k]
}

/// `t` comes from `s` by one replacement of an adjacent pair by its gcd and
/// lcm.
pub open spec fn gcd_lcm_step(s: Seq<i64>, t: Seq<i64>) -> bool {
    exists|i: int| #[trigger] gcd_lcm_pair(s, t, i)
}

/// The states of a sequence of gcd–lcm replacements.
pub open spec fn gcd_lcm_trace(trace: Seq<Seq<i64>>) -> bool {
    &&& trace.len() >= 1
    &&& forall|k: int| 0 <= k < trace.len() - 1 ==> gcd_lcm_step(#[trigger] trace[k], trace[k + 1])
}

/// `t` is reached from `s` by gcd–lcm replacements of adjacent pairs, and so
/// presents the same finite abelian group.
pub open spec fn gcd_lcm_reachable(s: Seq<i64>, t: Seq<i64>) -> bool {
    exists|trace: Seq<Seq<i64>>| #[trigger] gcd_lcm_trace(trace) && trace[0] == s && trace.last() == t
}

/// A trace extended by one step is a trace.
proof fn lemma_trace_extend(trace: Seq<Seq<i64>>, t: Seq<i64>)
    requires
        gcd_lcm_trace(trace),
        gcd_lcm_step(trace.last(), t),
    ensures
        gcd_lcm_trace(trace.push(t)),
        trace.push(t)[0] == trace[0],
        trace.push(t).last() == t,
{
    let t2 = trace.push(t);
    assert forall|k: int| 0 <= k < t2.len() - 1 implies gcd_lcm_step(#[trigger] t2[k], t2[k + 1]) by {
        if k < trace.len() - 1 {
            assert(t2[k] == trace[k]);
            assert(t2[k + 1] == trace[k + 1]);
        } else {
            assert(t2[k] == trace.last());
        }
    }
}

/// Imposes `d₁ | d₂ | … | d_r` on the nonzero prefix, leaving the zeros (free
/// coordinates) at the end: adjacent entries `a ∤ b` are replaced by
/// `gcd(a, b)` and `lcm(a, b)`, which leaves `ℤ/a ⊕ ℤ/b` unchanged.
///
/// Returns `false`, with the entries still a valid factorisation, exactly
/// when the least common multiple of the nonzero entries exceeds `i64`: every
/// `lcm` formed along the way divides it.
#[verifier::spinoff_prover]
#[verifier::rlimit(60)]
pub fn make_divisibility_chain(inv: &mut Vec<i64>) -> (ok: bool)
    requires
        nonnegative(old(inv)@),
        zeros_at_tail(old(inv)@),
    ensures
        final(inv)@.len() == old(inv)@.len(),
        nonnegative(final(inv)@),
        forall|k: int| 0 <= k < old(inv)@.len() ==> (#[trigger] final(inv)@[k] == 0) == (old(inv)@[k] == 0),
        nonzero_product(final(inv)@) == nonzero_product(old(inv)@),
        ok ==> is_divisibility_chain(final(inv)@),
        ok <==> lcm_fits(old(inv)@),
        gcd_lcm_reachable(old(inv)@, final(inv)@),
{
    let mut r: usize = 0;
    while r < inv.len() && inv[r] != 0
        invariant
            r <= inv@.len(),
            forall|k: int| 0 <= k < r ==> inv@[k] != 0,
        decreases inv@.len() - r,
    {
        r = r + 1;
    }
    let ghost orig = inv@;
    let ghost big: int = if lcm_fits(orig) {
        choose|m: int| 0 < m <= i64::MAX && #[trigger] common_multiple(orig, m)
    } else {
        1
    };
    proof {
        let t = inv@.take(r as int);
        assert(nonnegative(t)) by {
            assert forall|k: int| 0 <= k < t.len() implies #[trigger] t[k] >= 0 by {
                assert(t[k] == inv@[k]);
                assert(inv@[k] >= 0);
            }
        }
        lemma_positional_bound(t);
    }
    // the zeros sit exactly at positions r..
    assert forall|k: int| r <= k < inv@.len() implies #[trigger] inv@[k] == 0 by {
        if r < inv@.len() {
            assert(inv@[r as int] == 0);
            if k > r {
                assert(inv@[k] == 0);
            }
        }
    }
    let ghost mut trace = seq![inv@];
    let mut changed = true;
    while changed
        invariant
            orig == old(inv)@,
            gcd_lcm_trace(trace) && trace[0] == orig && trace.last() == inv@,
            r <= inv@.len(),
            inv@.len() == orig.len(),
            0 <= positional(inv@.take(r as int)),
            forall|k: int| 0 <= k < r ==> #[trigger] inv@[k] > 0,
            forall|k: int| r <= k < inv@.len() ==> #[trigger] inv@[k] == 0,
            forall|k: int| 0 <= k < orig.len() ==> (#[trigger] orig[k] == 0) == (k >= r),
            nonzero_product(inv@) == nonzero_product(orig),
            !changed ==> forall|k: int|
                0 <= k < r - 1 ==> #[trigger] (inv@[k + 1] % inv@[k]) == 0,
            forall|m: int| #[trigger] common_multiple(inv@, m) ==> common_multiple(orig, m),
            lcm_fits(orig) ==> 0 < big <= i64::MAX && common_multiple(inv@, big),
        decreases positional(inv@.take(r as int)) + (if changed {
            1int
        } else {
            0int
        }),
    {
        changed = false;
        let ghost start = inv@.take(r as int);
        let last = if r > 0 {
            r - 1
        } else {
            0
        };
        let mut i: usize = 0;
        while i < last
            invariant
                orig == old(inv)@,
                gcd_lcm_trace(trace) && trace[0] == orig && trace.last() == inv@,
                forall|k: int| 0 <= k < orig.len() ==> (#[trigger] orig[k] == 0) == (k >= r),
                nonzero_product(inv@) == nonzero_product(orig),
                r <= inv@.len(),
                inv@.len() == orig.len(),
                0 <= positional(inv@.take(r as int)),
                last == (if r > 0 {
                    r - 1
                } else {
                    0
                }),
                i <= last,
                forall|k: int| 0 <= k < r ==> #[trigger] inv@[k] > 0,
                forall|k: int| r <= k < inv@.len() ==> #[trigger] inv@[k] == 0,
                nonnegative(start),
                start.len() == r,
                forall|m: int| #[trigger] common_multiple(inv@, m) ==> common_multiple(orig, m),
                lcm_fits(orig) ==> 0 < big <= i64::MAX && common_multiple(inv@, big),
                changed ==> positional(inv@.take(r as int)) < positional(start),
                !changed ==> inv@.take(r as int) == start,
                !changed ==> forall|k: int| 0 <= k < i ==> #[trigger] (inv@[k + 1] % inv@[k]) == 0,
            decreases last - i,
        {
            let a = inv[i];
            let b = inv[i + 1];
            if b % a != 0 {
                let g = gcd(a, b);
                proof {
                    lemma_gcd_properties(a as nat, b as nat);
                    lemma_mod_pos_bound(a as int, g as int);
                    assert(g <= a) by {
                        if g > a {
                            lemma_small_mod(a as nat, g as nat);
                        }
                    }
                    assert(g != a);
                }
                let q = a / g;
                proof {
                    lemma_fundamental_div_mod(a as int, g as int);
                    assert(q > 0) by (nonlinear_arith)
                        requires
                            a == g * q + a % g,
                            a % g == 0,
                            a > 0,
                            g > 0,
                    ;
                }
                match q.checked_mul(b) {
                    None => {
                        proof {
                            if lcm_fits(orig) {
                                assert(inv@[i as int] != 0 && inv@[i + 1] != 0);
                                assert((big % (inv@[i as int] as int)) == 0);
                                assert((big % (inv@[i + 1] as int)) == 0);
                                lemma_lcm_divides(a as int, b as int, g as int, q as int, big);
                                lemma_divisor_le(big, q * b);
                                assert(false);
                            }
                            assert(!lcm_fits(old(inv)@));
                            assert(nonnegative(inv@)) by {
                                assert forall|k: int| 0 <= k < inv@.len() implies #[trigger] inv@[k]
                                    >= 0 by {
                                    if k < r {
                                        assert(inv@[k] > 0);
                                    } else {
                                        assert(inv@[k] == 0);
                                    }
                                }
                            }
                            assert forall|k: int| 0 <= k < old(inv)@.len() implies (
                            #[trigger] inv@[k] == 0) == (old(inv)@[k] == 0) by {
                                if k < r {
                                    assert(inv@[k] > 0);
                                } else {
                                    assert(inv@[k] == 0);
                                }
                            }
                        }
                        return false;
                    },
                    Some(l) => {
                        let ghost before = inv@;
                        proof {
                            assert(l > 0) by (nonlinear_arith)
                                requires
                                    q > 0,
                                    b > 0,
                                    l == q * b,
                            ;
                        }
                        let ghost cur = inv@;
                        inv.set(i, g);
                        inv.set(i + 1, l);
                        proof {
                            lemma_gcd_properties(a as nat, b as nat);
                            assert(g as int == spec_gcd(a as nat, b as nat));
                            // `a | l` and `b | l`
                            lemma_fundamental_div_mod(b as int, g as int);
                            let bq = (b as int) / (g as int);
                            assert(l == bq * a) by (nonlinear_arith)
                                requires
                                    l == q * b,
                                    a == g * q,
                                    b == g * bq + (b as int) % (g as int),
                                    (b as int) % (g as int) == 0,
                            ;
                            lemma_mod_multiples_basic(bq, a as int);
                            lemma_mod_multiples_basic(q as int, b as int);
                            assert forall|m: int| #[trigger] common_multiple(inv@, m) implies common_multiple(orig, m) by {
                                assert(m % (inv@[i as int] as int) == 0);
                                assert(m % (inv@[i + 1] as int) == 0);
                                lemma_divides_trans(m, l as int, a as int);
                                lemma_divides_trans(m, l as int, b as int);
                                assert forall|k: int| 0 <= k < cur.len() && cur[k] != 0 implies #[trigger] (m % (cur[k] as int)) == 0 by {
                                    if k != i && k != i + 1 {
                                        assert(inv@[k] == cur[k]);
                                    }
                                }
                                assert(common_multiple(cur, m));
                            }
                            if lcm_fits(orig) {
                                assert((big % (cur[i as int] as int)) == 0);
                                assert((big % (cur[i + 1] as int)) == 0);
                                lemma_lcm_divides(a as int, b as int, g as int, q as int, big);
                                lemma_divides_trans(big, a as int, g as int);
                                assert forall|k: int| 0 <= k < inv@.len() && inv@[k] != 0 implies #[trigger] (big % (inv@[k] as int)) == 0 by {
                                    if k != i && k != i + 1 {
                                        assert(inv@[k] == cur[k]);
                                        assert(big % (cur[k] as int) == 0);
                                    }
                                }
                            }
                            lemma_mul_is_associative(g as int, q as int, b as int);
                            assert(a == g * q);
                            lemma_nonzero_product_pair(before, i as int, g, l);
                            assert(inv@ =~= before.update(i as int, g).update(i + 1, l));
                            assert(gcd_lcm_pair(before, inv@, i as int));
                            lemma_trace_extend(trace, inv@);
                            trace = trace.push(inv@);
                            let now = inv@.take(r as int);
                            let was = before.take(r as int);
                            assert(nonnegative(now)) by {
                                assert forall|k: int| 0 <= k < now.len() implies #[trigger] now[k]
                                    >= 0 by {
                                    assert(now[k] == inv@[k]);
                                }
                            }
                            assert(nonnegative(was)) by {
                                assert forall|k: int| 0 <= k < was.len() implies #[trigger] was[k]
                                    >= 0 by {
                                    assert(was[k] == before[k]);
                                }
                            }
                            assert forall|k: int| 0 <= k < i implies was[k] == now[k] by {
                                assert(was[k] == before[k]);
                                assert(now[k] == inv@[k]);
                            }
                            lemma_positional_lex(was, now, i as int);
                            lemma_positional_bound(now);
                        }
                        changed = true;
                    },
                }
            }
            i = i + 1;
        }
        proof {
            if !changed {
                assert forall|k: int| 0 <= k < r - 1 implies #[trigger] (inv@[k + 1] % inv@[k]) == 0 by {
                }
            }
        }
    }
    proof {
        assert forall|k: int| 0 <= k < inv@.len() - 1 && inv@[k + 1] != 0 implies #[trigger] (inv@[k
            + 1] % inv@[k]) == 0 by {
            assert(k + 1 < r);
        }
        assert(nonnegative(inv@)) by {
            assert forall|k: int| 0 <= k < inv@.len() implies #[trigger] inv@[k] >= 0 by {
                if k < r {
                    assert(inv@[k] > 0);
                } else {
                    assert(inv@[k] == 0);
                }
            }
        }
        assert forall|k: int| 0 <= k < old(inv)@.len() implies (#[trigger] inv@[k] == 0) == (old(
            inv,
        )@[k] == 0) by {
            if k < r {
                assert(inv@[k] > 0);
            } else {
                assert(inv@[k] == 0);
            }
        }
        let w: int = if r > 0 {
            inv@[r - 1] as int
        } else {
            1
        };
        assert forall|k: int| 0 <= k < inv@.len() && inv@[k] != 0 implies #[trigger] (w % (inv@[k] as int)) == 0 by {
            assert(k < r);
            lemma_chain_divides(inv@, k, r - 1);
        }
        assert(common_multiple(inv@, w));
        assert(common_multiple(orig, w));
        assert(lcm_fits(old(inv)@));
    }
    true
}


/// `x` reduced modulo `d`, or `x` itself when `d` is zero (a free
/// coordinate).
pub open spec fn reduce(x: int, d: int) -> int {
    if d != 0 {
        x % d
    } else {
        x
    }
}

/// The first `n` entries of relation `j`, as integers: column `j` of the
/// relation matrix.
pub open spec fn relation_column(relations: Seq<Seq<i64>>, j: int, n: nat) -> Seq<int> {
    Seq::new(n, |g: int| relations[j][g] as int)
}

/// The number of zero entries.
pub open spec fn count_zero(s: Seq<i64>) -> nat
    decreases s.len(),
{
    if s.len() == 0 {
        0
    } else {
        count_zero(s.drop_last()) + if s.last() == 0 {
            1nat
        } else {
            0nat
        }
    }
}

/// The entries greater than one, in order.
pub open spec fn torsion_of(s: Seq<i64>) -> Seq<i64>
    decreases s.len(),
{
    if s.len() == 0 {
        Seq::empty()
    } else if s.last() > 1 {
        torsion_of(s.drop_last()).push(s.last())
    } else {
        torsion_of(s.drop_last())
    }
}

/// The number of zero entries is the length of the list of them, and with
/// the entries greater than one, the zeros and the ones make up the list.
proof fn lemma_count_zero_entries(s: Seq<i64>)
    ensures
        count_zero(s) == s.filter(|x: i64| x == 0).len(),
        nonnegative(s) ==> s.len() == s.filter(|x: i64| x == 0).len() + s.filter(|x: i64| x == 1).len() + s.filter(
            |x: i64| x > 1,
        ).len(),
    decreases s.len(),
{
    reveal(Seq::filter);
    if s.len() > 0 {
        let t = s.drop_last();
        lemma_count_zero_entries(t);
        assert(nonnegative(s) ==> nonnegative(t)) by {
            if nonnegative(s) {
                assert forall|k: int| 0 <= k < t.len() implies #[trigger] t[k] >= 0 by {
                    assert(t[k] == s[k]);
                }
            }
        }
        if nonnegative(s) {
            assert(s[s.len() - 1] >= 0);
        }
    }
}

/// The entries greater than one, in order and with multiplicity; of a
/// nonnegative list, their product is the product of its nonzero entries.
proof fn lemma_torsion_of_entries(s: Seq<i64>)
    ensures
        torsion_of(s) == s.filter(|x: i64| x > 1),
        nonnegative(s) ==> nonzero_product(torsion_of(s)) == nonzero_product(s),
    decreases s.len(),
{
    reveal(Seq::filter);
    if s.len() > 0 {
        let t = s.drop_last();
        lemma_torsion_of_entries(t);
        assert(nonnegative(s) ==> nonnegative(t)) by {
            if nonnegative(s) {
                assert forall|k: int| 0 <= k < t.len() implies #[trigger] t[k] >= 0 by {
                    assert(t[k] == s[k]);
                }
            }
        }
        assert(nonzero_product(s) == nonzero_product(t) * (if s.last() != 0 {
            s.last() as int
        } else {
            1
        }));
        if s.last() > 1 {
            let u = torsion_of(s);
            assert(u.drop_last() =~= torsion_of(t));
            assert(u.last() == s.last());
            assert(nonzero_product(u) == nonzero_product(torsion_of(t)) * (s.last() as int));
        } else if nonnegative(s) {
            assert(s[s.len() - 1] >= 0);
            assert(torsion_of(s) == torsion_of(t));
        }
    }
}

/// The `n × m` relation matrix as rows: entry `(i, j)` is entry `i` of
/// relation `j`.
pub open spec fn relation_matrix(relations: Seq<Seq<i64>>, n: nat) -> Seq<Seq<i64>> {
    Seq::new(n, |i: int| Seq::new(relations.len(), |j: int| relations[j][i]))
}

/// The `n × n` identity as rows.
pub open spec fn identity_rows(n: nat) -> Seq<Seq<i64>> {
    Seq::new(n, |i: int| Seq::new(n, |j: int| if i == j { 1i64 } else { 0i64 }))
}

/// The absolute values of the diagonal of an `n × m` matrix, `0` past the
/// last column.
pub open spec fn abs_diagonal(g: Seq<Seq<i64>>, n: nat, m: nat) -> Seq<i64> {
    Seq::new(n, |i: int| if i < m { abs_int(g[i][i] as int) as i64 } else { 0i64 })
}

/// Where the elimination of the relation matrix, started from the identity
/// transform, stops: the diagonalised matrix and the row transform.
pub open spec fn relation_elimination(n: nat, relations: Seq<Seq<i64>>) -> (Seq<Seq<i64>>, Seq<Seq<i64>>) {
    elim_result(relation_matrix(relations, n), identity_rows(n), relations.len() as int)
}

/// The abelianisation of the relations fits in `i64`: the elimination of the
/// relation matrix (from the identity transform) keeps every entry within
/// `i64`, no diagonal entry it stops at is `i64::MIN`, and the least common
/// multiple of the absolute diagonal fits.
pub open spec fn abelianisation_fits(n: nat, relations: Seq<Seq<i64>>) -> bool {
    let a = relation_matrix(relations, n);
    let r0 = identity_rows(n);
    let m = relations.len();
    let g = elim_result(a, r0, m as int).0;
    &&& !elim_overflows(a, r0, m as int)
    &&& forall|i: int| 0 <= i < n && i < m ==> #[trigger] g[i][i] != i64::MIN
    &&& lcm_fits(abs_diagonal(g, n, m))
}

/// `R·A = D·C` for the relation matrix `A` (column `j` the first `n` entries
/// of relation `j`), with `R` (`n × n`) and `C` (`m × m`) both having integer
/// inverses and `D` diagonal with entries `d`: so `ℤⁿ / im(A) ≅ ⊕ᵢ ℤ/dᵢ`.
pub open spec fn smith_form(r: Seq<Seq<int>>, relations: Seq<Seq<i64>>, d: Seq<int>, n: nat) -> bool {
    let m = relations.len();
    &&& exists|l: Seq<Seq<int>>| #[trigger] left_inverse_int(l, r, n as int)
    &&& exists|c: Seq<Seq<int>>, l: Seq<Seq<int>>|
        {
            &&& #[trigger] left_inverse_int(l, c, m as int)
            &&& forall|k: int| 0 <= k < m ==> (#[trigger] c[k]).len() == m
            &&& forall|i: int, j: int|
                0 <= i < n && 0 <= j < m ==> #[trigger] dot(r[i], relation_column(relations, j, n)) == d[i] * c[i][j]
        }
}

/// The abelianisation `G^ab = G/[G,G]` of a finitely presented group,
/// together with the change of basis that puts it in canonical form.
///
/// Two edge-paths whose keys differ lie in different homotopy classes; equal
/// keys decide nothing. The key is a filter, never a decision.
pub struct Abelianisation {
    /// Coordinates whose diagonal entry is not `1`, in order.
    live: Vec<usize>,
    /// `diagonal[live[l]]`: `0` for a free coordinate, `> 1` for torsion.
    live_invariants: Vec<i64>,
    /// The image of each generator on the live coordinates, reduced.
    gen_images: Vec<Vec<i64>>,
    /// The invariants `d₁ | d₂ | …`, zeros (free coordinates) last.
    invariants: Vec<i64>,
    /// The accumulated row transform `R`.
    transform: Ghost<Seq<Seq<int>>>,
    /// `|D[i][i]|` for the diagonal `D` that `R` produced, before the chain.
    diagonal: Ghost<Seq<int>>,
    /// `D[i][i]` itself, `0` past the last relation.
    signed_diagonal: Ghost<Seq<int>>,
    /// The relation vectors the group was built from.
    relations: Ghost<Seq<Seq<i64>>>,
}

impl Abelianisation {
    /// The invariants, one per coordinate of `ℤⁿ`.
    pub closed spec fn invariants_view(self) -> Seq<i64> {
        self.invariants@
    }

    /// The live coordinates, in order.
    pub closed spec fn live_view(self) -> Seq<usize> {
        self.live@
    }

    /// The modulus of each live coordinate.
    pub closed spec fn moduli(self) -> Seq<i64> {
        self.live_invariants@
    }

    /// The reduced image of each generator on the live coordinates.
    pub closed spec fn images(self) -> Seq<Seq<i64>> {
        Seq::new(self.gen_images@.len(), |g: int| self.gen_images@[g]@)
    }

    /// The row transform `R` of the elimination.
    pub closed spec fn transform_view(self) -> Seq<Seq<int>> {
        self.transform@
    }

    /// The absolute diagonal of the elimination, before the divisibility
    /// chain was imposed.
    pub closed spec fn diagonal_view(self) -> Seq<int> {
        self.diagonal@
    }

    /// The relation vectors the group was built from.
    pub closed spec fn relations_view(self) -> Seq<Seq<i64>> {
        self.relations@
    }

    /// The signed diagonal `D[i][i]` of the elimination.
    pub closed spec fn signed_diagonal_view(self) -> Seq<int> {
        self.signed_diagonal@
    }

    /// Everything the construction establishes.
    pub closed spec fn well_formed(self) -> bool {
        let n = self.invariants@.len();
        let live = self.live@;
        let moduli = self.live_invariants@;
        &&& self.gen_images@.len() == n
        &&& live.len() == moduli.len()
        &&& forall|l: int| 0 <= l < live.len() ==> #[trigger] live[l] < n
        &&& forall|l: int| 0 <= l < live.len() ==> #[trigger] moduli[l] as int == self.diagonal@[live[l] as int]
        &&& forall|l: int| 0 <= l < live.len() ==> self.diagonal@[#[trigger] live[l] as int] != 1
        &&& forall|a: int, b: int| 0 <= a < b < live.len() ==> #[trigger] live[a] < #[trigger] live[b]
        &&& forall|i: int| 0 <= i < n && self.diagonal@[i] != 1 ==> exists|l: int| 0 <= l < live.len() && #[trigger] live[l] == i
        &&& nonnegative(self.invariants@)
        &&& zeros_at_tail(self.invariants@)
        &&& is_divisibility_chain(self.invariants@)
        &&& self.diagonal@.len() == n
        &&& forall|i: int| 0 <= i < n ==> #[trigger] self.diagonal@[i] >= 0 && (self.diagonal@[i] == 0) == (self.invariants@[i] == 0)
        &&& self.transform@.len() == n
        &&& forall|i: int| 0 <= i < n ==> (#[trigger] self.transform@[i]).len() == n
        &&& forall|j: int| 0 <= j < self.relations@.len() ==> (#[trigger] self.relations@[j]).len() >= n
        &&& forall|i: int, j: int| 0 <= i < n && 0 <= j < self.relations@.len() ==> multiple_of(
            #[trigger] dot(self.transform@[i], relation_column(self.relations@, j, n)),
            self.diagonal@[i],
        )
        &&& self.signed_diagonal@.len() == n
        &&& forall|i: int| 0 <= i < n ==> #[trigger] self.diagonal@[i] == abs_int(self.signed_diagonal@[i])
        &&& smith_form(self.transform@, self.relations@, self.signed_diagonal@, n)
        &&& nonzero_product(self.invariants@) == nonzero_product_int(self.diagonal@)
        &&& gcd_lcm_reachable(Seq::new(n, |k: int| self.diagonal@[k] as i64), self.invariants@)
        &&& forall|g: int| 0 <= g < n ==> (#[trigger] self.gen_images@[g])@.len() == live.len()
        &&& forall|g: int, l: int| 0 <= g < n && 0 <= l < live.len() ==> #[trigger] self.gen_images@[g]@[l]
            == reduce(self.transform@[live[l] as int][g], moduli[l] as int)
    }

    /// `ℤⁿ / im(A)`, where `A`'s columns are the first `n` entries of the
    /// relation vectors.
    ///
    /// `None` when an entry of the elimination leaves `i64`, or the least
    /// common multiple of the invariants does; never without relations.
    pub fn from_relations(n: usize, relations: Vec<Vec<i64>>) -> (r: Option<Self>)
        requires
            forall|j: int| 0 <= j < relations.len() ==> (#[trigger] relations@[j])@.len() >= n,
        ensures
            r matches Some(a) ==> a.well_formed() && a.invariants_view().len() == n && a.relations_view() == Seq::new(
                relations@.len(),
                |j: int| relations@[j]@,
            ),
            relations@.len() == 0 ==> r is Some,
            r is Some <==> abelianisation_fits(n as nat, Seq::new(relations@.len(), |j: int| relations@[j]@)),
            r matches Some(a) ==> a.diagonal_view() == Seq::new(
                n as nat,
                |k: int|
                    abs_diagonal(
                        relation_elimination(n as nat, Seq::new(relations@.len(), |j: int| relations@[j]@)).0,
                        n as nat,
                        relations@.len() as nat,
                    )[k] as int,
            ),
            r matches Some(a) ==> a.transform_view() == Seq::new(
                n as nat,
                |k: int| ints(relation_elimination(n as nat, Seq::new(relations@.len(), |j: int| relations@[j]@)).1[k]),
            ),
    {
        let m = relations.len();
        let ghost rels = Seq::new(relations@.len(), |j: int| relations@[j]@);
        let mut mat: Vec<Vec<i64>> = Vec::new();
        let mut i: usize = 0;
        while i < n
            invariant
                m == relations.len(),
                rels == Seq::new(relations@.len(), |j: int| relations@[j]@),
                forall|j: int| 0 <= j < relations.len() ==> (#[trigger] relations@[j])@.len() >= n,
                i <= n,
                is_matrix(mat@, i as int, m as int),
                forall|a: int, b: int| 0 <= a < i && 0 <= b < m ==> #[trigger] entry(mat@, a, b) == rels[b][a],
            decreases n - i,
        {
            let mut row: Vec<i64> = Vec::new();
            let mut j: usize = 0;
            while j < m
                invariant
                    m == relations.len(),
                    rels == Seq::new(relations@.len(), |j: int| relations@[j]@),
                    forall|j: int| 0 <= j < relations.len() ==> (#[trigger] relations@[j])@.len() >= n,
                    i < n,
                    j <= m,
                    row@.len() == j,
                    forall|b: int| 0 <= b < j ==> #[trigger] row@[b] == rels[b][i as int],
                decreases m - j,
            {
                row.push(relations[j][i]);
                j = j + 1;
            }
            let ghost before = mat@;
            let ghost rv = row@;
            mat.push(row);
            proof {
                assert(mat@[i as int]@ == rv);
                assert forall|a: int, b: int| 0 <= a < i + 1 && 0 <= b < m implies #[trigger] entry(mat@, a, b)
                    == rels[b][a] by {
                    if a < i {
                        assert(mat@[a] == before[a]);
                        assert(entry(before, a, b) == rels[b][a]);
                    } else {
                        assert(a == i);
                        assert(rv[b] == rels[b][i as int]);
                    }
                }
            }
            i = i + 1;
        }
        let ghost a0 = mat@;
        assert forall|b: int| 0 <= b < m implies #[trigger] relation_column(rels, b, n as nat) == icol(a0, b) by {
            assert forall|g: int| 0 <= g < n implies #[trigger] relation_column(rels, b, n as nat)[g] == icol(a0, b)[g] by {
                assert(entry(a0, g, b) == rels[b][g]);
            }
            assert(relation_column(rels, b, n as nat) =~= icol(a0, b));
        }
        let mut row_transform: Vec<Vec<i64>> = Vec::new();
        let mut i: usize = 0;
        while i < n
            invariant
                i <= n,
                is_matrix(row_transform@, i as int, n as int),
                forall|a: int, b: int| 0 <= a < i && 0 <= b < n ==> #[trigger] entry(row_transform@, a, b) == (if a == b {
                    1i64
                } else {
                    0i64
                }),
            decreases n - i,
        {
            let mut row: Vec<i64> = Vec::new();
            let mut j: usize = 0;
            while j < n
                invariant
                    i < n,
                    j <= n,
                    row@.len() == j,
                    forall|b: int| 0 <= b < j ==> #[trigger] row@[b] == (if i == b {
                        1i64
                    } else {
                        0i64
                    }),
                decreases n - j,
            {
                row.push(if i == j { 1 } else { 0 });
                j = j + 1;
            }
            let ghost before = row_transform@;
            let ghost rv = row@;
            row_transform.push(row);
            proof {
                assert(row_transform@[i as int]@ == rv);
                assert forall|a: int, b: int| 0 <= a < i + 1 && 0 <= b < n implies #[trigger] entry(
                    row_transform@,
                    a,
                    b,
                ) == (if a == b {
                    1i64
                } else {
                    0i64
                }) by {
                    if a < i {
                        assert(row_transform@[a] == before[a]);
                        assert(entry(before, a, b) == (if a == b {
                            1i64
                        } else {
                            0i64
                        }));
                    } else {
                        assert(rv[b] == (if i == b {
                            1i64
                        } else {
                            0i64
                        }));
                    }
                }
            }
            i = i + 1;
        }
        let ghost ga = rows(mat@);
        let ghost gr = rows(row_transform@);
        proof {
            assert(ga =~= relation_matrix(rels, n as nat)) by {
                assert forall|a: int| 0 <= a < n implies #[trigger] ga[a] =~= relation_matrix(rels, n as nat)[a] by {
                    assert forall|b: int| 0 <= b < m implies #[trigger] ga[a][b] == rels[b][a] by {
                        assert(entry(a0, a, b) == rels[b][a]);
                    }
                }
            }
            assert(gr =~= identity_rows(n as nat)) by {
                assert forall|a: int| 0 <= a < n implies #[trigger] gr[a] =~= identity_rows(n as nat)[a] by {
                    assert forall|b: int| 0 <= b < n implies #[trigger] gr[a][b] == identity_rows(n as nat)[a][b] by {
                        assert(entry(row_transform@, a, b) == (if a == b { 1i64 } else { 0i64 }));
                    }
                }
            }
        }
        if !diagonalise(&mut mat, &mut row_transform, m) {
            return None;
        }
        let ghost res = rows(mat@);
        proof {
            lemma_elim_result(ga, gr, m as int, rows(mat@), rows(row_transform@));
        }
        let ghost signed = Seq::new(n as nat, |k: int| diagonal_entry(mat@, k, m as int));
        let ghost linv = choose|l: Seq<Seq<int>>| left_inverse(l, row_transform@, n as int);
        let ghost (cc, cl) = choose|c: Seq<Seq<int>>, l: Seq<Seq<int>>|
            relates(row_transform@, a0, mat@, c, n as int, m as int) && #[trigger] left_inverse_int(l, c, m as int);
        proof {
            lemma_relates_diagonal_exact(row_transform@, a0, mat@, cc, n as int, m as int);
        }
        // The absolute diagonal.
        let mut invariants: Vec<i64> = Vec::new();
        let mut i: usize = 0;
        while i < n
            invariant
                i <= n,
                m == relations@.len(),
                is_matrix(mat@, n as int, m as int),
                res == rows(mat@),
                ga == relation_matrix(rels, n as nat),
                gr == identity_rows(n as nat),
                rels == Seq::new(relations@.len(), |j: int| relations@[j]@),
                elim_result(ga, gr, m as int).0 == res,
                forall|k: int| 0 <= k < i && k < m ==> #[trigger] res[k][k] != i64::MIN,
                invariants@.len() == i,
                forall|k: int| 0 <= k < i ==> #[trigger] invariants@[k] as int == abs_int(diagonal_entry(mat@, k, m as int)),
            decreases n - i,
        {
            let d: i64 = if i < m {
                let x = mat[i][i];
                if x == i64::MIN {
                    proof {
                        assert(res[i as int][i as int] == i64::MIN);
                    }
                    return None;
                }
                if x < 0 {
                    -x
                } else {
                    x
                }
            } else {
                0
            };
            invariants.push(d);
            i = i + 1;
        }
        let ghost diagonal = Seq::new(n as nat, |k: int| abs_int(diagonal_entry(mat@, k, m as int)) as int);
        proof {
            assert(nonnegative(invariants@));
            assert(zeros_at_tail(invariants@)) by {
                assert forall|a: int, b: int| 0 <= a < b < invariants@.len() && invariants@[a] == 0 implies invariants@[b] == 0 by {
                    assert(invariants@[a] as int == abs_int(diagonal_entry(mat@, a, m as int)));
                    assert(invariants@[b] as int == abs_int(diagonal_entry(mat@, b, m as int)));
                    assert(diagonal_entry(mat@, a, m as int) == 0);
                }
            }
        }
        // The keys live on the diagonal itself: the chain below rewrites the
        // invariants, not the transform, so the moduli are taken before it.
        let diag_vals = copy_row(&invariants);
        proof {
            assert forall|k: int| 0 <= k < n implies #[trigger] diag_vals@[k] as int == diagonal[k] by {
                assert(invariants@[k] as int == abs_int(diagonal_entry(mat@, k, m as int)));
            }
        }
        proof {
            if m == 0 {
                assert(common_multiple(invariants@, 1)) by {
                    assert forall|k: int| 0 <= k < invariants@.len() implies invariants@[k] == 0 by {
                        assert(invariants@[k] as int == abs_int(diagonal_entry(mat@, k, m as int)));
                    }
                }
                assert(lcm_fits(invariants@));
            }
        }
        proof {
            assert(invariants@ =~= abs_diagonal(res, n as nat, m as nat)) by {
                assert forall|k: int| 0 <= k < n implies #[trigger] invariants@[k] == abs_diagonal(
                    res,
                    n as nat,
                    m as nat,
                )[k] by {
                    assert(invariants@[k] as int == abs_int(diagonal_entry(mat@, k, m as int)));
                    if k < m {
                        assert(diagonal_entry(mat@, k, m as int) == res[k][k] as int);
                    }
                }
            }
        }
        if !make_divisibility_chain(&mut invariants) {
            return None;
        }
        proof {
            assert(abelianisation_fits(n as nat, rels));
            lemma_nonzero_product_ints(diag_vals@, diagonal);
            assert(diag_vals@ =~= Seq::new(n as nat, |k: int| diagonal[k] as i64));
        }
        // The live coordinates.
        let mut live: Vec<usize> = Vec::new();
        let mut live_invariants: Vec<i64> = Vec::new();
        let mut i: usize = 0;
        while i < n
            invariant
                i <= n,
                diag_vals@.len() == n,
                live@.len() == live_invariants@.len(),
                forall|l: int| 0 <= l < live@.len() ==> #[trigger] live@[l] < i,
                forall|l: int| 0 <= l < live@.len() ==> #[trigger] live_invariants@[l] == diag_vals@[live@[l] as int],
                forall|l: int| 0 <= l < live@.len() ==> diag_vals@[#[trigger] live@[l] as int] != 1,
                forall|a: int, b: int| 0 <= a < b < live@.len() ==> #[trigger] live@[a] < #[trigger] live@[b],
                forall|k: int| 0 <= k < i && diag_vals@[k] != 1 ==> exists|l: int| 0 <= l < live@.len() && #[trigger] live@[l] == k,
            decreases n - i,
        {
            let ghost before = live@;
            if diag_vals[i] != 1 {
                live.push(i);
                live_invariants.push(diag_vals[i]);
                assert(live@[live@.len() - 1] == i);
            }
            proof {
                assert forall|k: int| 0 <= k < i + 1 && diag_vals@[k] != 1 implies exists|l: int|
                    0 <= l < live@.len() && #[trigger] live@[l] == k by {
                    if k < i {
                        let l = choose|l: int| 0 <= l < before.len() && #[trigger] before[l] == k;
                        assert(live@[l] == before[l]);
                    } else {
                        assert(live@[live@.len() - 1] == i);
                    }
                }
            }
            i = i + 1;
        }
        // The generator images, reduced.
        let mut gen_images: Vec<Vec<i64>> = Vec::new();
        let mut g: usize = 0;
        while g < n
            invariant
                g <= n,
                is_matrix(row_transform@, n as int, n as int),
                diag_vals@.len() == n,
                live@.len() == live_invariants@.len(),
                forall|l: int| 0 <= l < live@.len() ==> #[trigger] live@[l] < n,
                forall|l: int| 0 <= l < live@.len() ==> #[trigger] live_invariants@[l] == diag_vals@[live@[l] as int],
                nonnegative(diag_vals@),
                gen_images@.len() == g,
                forall|h: int| 0 <= h < g ==> (#[trigger] gen_images@[h])@.len() == live@.len(),
                forall|h: int, l: int| 0 <= h < g && 0 <= l < live@.len() ==> #[trigger] gen_images@[h]@[l]
                    == reduce(entry(row_transform@, live@[l] as int, h) as int, live_invariants@[l] as int),
            decreases n - g,
        {
            let mut w: Vec<i64> = Vec::new();
            let mut l: usize = 0;
            while l < live.len()
                invariant
                    g < n,
                    is_matrix(row_transform@, n as int, n as int),
                    diag_vals@.len() == n,
                    live@.len() == live_invariants@.len(),
                    forall|l: int| 0 <= l < live@.len() ==> #[trigger] live@[l] < n,
                    forall|l: int| 0 <= l < live@.len() ==> #[trigger] live_invariants@[l] == diag_vals@[live@[l] as int],
                    nonnegative(diag_vals@),
                    l <= live@.len(),
                    w@.len() == l,
                    forall|k: int| 0 <= k < l ==> #[trigger] w@[k] == reduce(
                        entry(row_transform@, live@[k] as int, g as int) as int,
                        live_invariants@[k] as int,
                    ),
                decreases live@.len() - l,
            {
                let x = row_transform[live[l]][g];
                let d = live_invariants[l];
                proof {
                    assert(diag_vals@[live@[l as int] as int] >= 0);
                }
                proof {
                    if d != 0 {
                        lemma_mod_bound(x as int, d as int);
                    }
                }
                let v = if d != 0 {
                    match x.checked_rem_euclid(d) {
                        Some(v) => v,
                        None => return None,
                    }
                } else {
                    x
                };
                w.push(v);
                l = l + 1;
            }
            gen_images.push(w);
            g = g + 1;
        }
        let ghost transform = Seq::new(n as nat, |k: int| ints(row_transform@[k]@));
        proof {
            assert forall|a: int, b: int| 0 <= a < n && 0 <= b < m implies #[trigger] dot(
                transform[a],
                relation_column(rels, b, n as nat),
            ) == image(row_transform@, a0, a, b) by {
                assert(relation_column(rels, b, n as nat) == icol(a0, b));
            }
            assert(left_inverse_int(linv, transform, n as int)) by {
                assert forall|a: int, b: int| 0 <= a < n && 0 <= b < n implies #[trigger] dot(
                    linv[a],
                    gcol(transform, b),
                ) == (if a == b {
                    1int
                } else {
                    0int
                }) by {
                    assert(gcol(transform, b) =~= icol(row_transform@, b));
                }
            }
            assert forall|i: int, j: int| 0 <= i < n && 0 <= j < m implies #[trigger] dot(
                transform[i],
                relation_column(rels, j, n as nat),
            ) == signed[i] * cc[i][j] by {
                assert(image(row_transform@, a0, i, j) == diagonal_entry(mat@, i, m as int) * cc[i][j]);
            }
            assert(left_inverse_int(cl, cc, m as int));
            assert(smith_form(transform, rels, signed, n as nat)) by {
                assert(relates(row_transform@, a0, mat@, cc, n as int, m as int));
                assert(forall|k: int| 0 <= k < m ==> (#[trigger] cc[k]).len() == m);
                assert(rels.len() == m);
            }
        }
        let a = Abelianisation {
            live,
            live_invariants,
            gen_images,
            invariants,
            transform: Ghost(transform),
            diagonal: Ghost(diagonal),
            signed_diagonal: Ghost(signed),
            relations: Ghost(rels),
        };
        proof {
            assert(relation_elimination(n as nat, rels) == (rows(mat@), rows(row_transform@)));
            assert(a.diagonal@ =~= Seq::new(n as nat, |k: int| abs_diagonal(res, n as nat, m as nat)[k] as int)) by {
                assert forall|k: int| 0 <= k < n implies #[trigger] a.diagonal@[k] == abs_diagonal(
                    res,
                    n as nat,
                    m as nat,
                )[k] as int by {
                    if k < m {
                        assert(diagonal_entry(mat@, k, m as int) == res[k][k] as int);
                        assert(res[k][k] != i64::MIN);
                    }
                }
            }
            assert(a.transform@ =~= Seq::new(n as nat, |k: int| ints(rows(row_transform@)[k])));
        }
        proof {
            let n = a.invariants@.len();
            assert(a.gen_images@.len() == n);
            assert(nonnegative(a.invariants@));
            assert(zeros_at_tail(a.invariants@));
            assert(is_divisibility_chain(a.invariants@));
            assert(a.diagonal@.len() == n);
            assert(forall|i: int| 0 <= i < n ==> #[trigger] a.diagonal@[i] >= 0 && (a.diagonal@[i] == 0) == (a.invariants@[i] == 0));
            assert(a.transform@.len() == n);
            assert(forall|i: int| 0 <= i < n ==> (#[trigger] a.transform@[i]).len() == n);
            assert(forall|j: int| 0 <= j < a.relations@.len() ==> (#[trigger] a.relations@[j]).len() >= n);
            assert(forall|i: int, j: int| 0 <= i < n && 0 <= j < a.relations@.len() ==> multiple_of(
                #[trigger] dot(a.transform@[i], relation_column(a.relations@, j, n)),
                a.diagonal@[i],
            ));
            assert(forall|g: int, l: int| 0 <= g < n && 0 <= l < a.live@.len() ==> #[trigger] a.gen_images@[g]@[l]
                == reduce(a.transform@[a.live@[l] as int][g], a.live_invariants@[l] as int));
        }
        Some(a)
    }

    /// What the construction establishes, in terms of the views.
    #[verifier::spinoff_prover]
    pub proof fn lemma_well_formed(&self)
        requires
            self.well_formed(),
        ensures
            self.images().len() == self.invariants_view().len(),
            self.live_view().len() == self.moduli().len(),
            forall|l: int| 0 <= l < self.live_view().len() ==> #[trigger] self.live_view()[l] < self.invariants_view().len(),
            forall|l: int|
                0 <= l < self.live_view().len() ==> #[trigger] self.moduli()[l] as int == self.diagonal_view()[self.live_view()[l] as int],
            forall|l: int| 0 <= l < self.live_view().len() ==> #[trigger] self.moduli()[l] != 1,
            forall|a: int, b: int|
                0 <= a < b < self.live_view().len() ==> #[trigger] self.live_view()[a] < #[trigger] self.live_view()[b],
            forall|i: int|
                0 <= i < self.invariants_view().len() && self.diagonal_view()[i] != 1 ==> exists|l: int|
                    0 <= l < self.live_view().len() && #[trigger] self.live_view()[l] == i,
            nonnegative(self.invariants_view()),
            zeros_at_tail(self.invariants_view()),
            is_divisibility_chain(self.invariants_view()),
            self.diagonal_view().len() == self.invariants_view().len(),
            forall|i: int|
                0 <= i < self.invariants_view().len() ==> #[trigger] self.diagonal_view()[i] >= 0 && (
                self.diagonal_view()[i] == 0) == (self.invariants_view()[i] == 0),
            self.transform_view().len() == self.invariants_view().len(),
            forall|i: int|
                0 <= i < self.invariants_view().len() ==> (#[trigger] self.transform_view()[i]).len()
                    == self.invariants_view().len(),
            forall|j: int|
                0 <= j < self.relations_view().len() ==> (#[trigger] self.relations_view()[j]).len()
                    >= self.invariants_view().len(),
            forall|i: int, j: int|
                0 <= i < self.invariants_view().len() && 0 <= j < self.relations_view().len() ==> multiple_of(
                    #[trigger] dot(
                        self.transform_view()[i],
                        relation_column(self.relations_view(), j, self.invariants_view().len()),
                    ),
                    self.diagonal_view()[i],
                ),
            self.signed_diagonal_view().len() == self.invariants_view().len(),
            forall|i: int|
                0 <= i < self.invariants_view().len() ==> #[trigger] self.diagonal_view()[i] == abs_int(
                    self.signed_diagonal_view()[i],
                ),
            smith_form(
                self.transform_view(),
                self.relations_view(),
                self.signed_diagonal_view(),
                self.invariants_view().len(),
            ),
            nonzero_product(self.invariants_view()) == nonzero_product_int(self.diagonal_view()),
            gcd_lcm_reachable(
                Seq::new(self.invariants_view().len(), |k: int| self.diagonal_view()[k] as i64),
                self.invariants_view(),
            ),
            forall|g: int|
                0 <= g < self.invariants_view().len() ==> (#[trigger] self.images()[g]).len()
                    == self.live_view().len(),
            forall|g: int, l: int|
                0 <= g < self.invariants_view().len() && 0 <= l < self.live_view().len() ==> #[trigger] self.images()[g][l]
                    == reduce(self.transform_view()[self.live_view()[l] as int][g], self.moduli()[l] as int),
    {
        assert forall|l: int| 0 <= l < self.live_view().len() implies #[trigger] self.moduli()[l] != 1 by {
            assert(self.diagonal@[self.live@[l] as int] != 1);
        }
        assert forall|i: int|
            0 <= i < self.invariants_view().len() && self.diagonal_view()[i] != 1 implies exists|l: int|
                0 <= l < self.live_view().len() && #[trigger] self.live_view()[l] == i by {
            let l = choose|l: int| 0 <= l < self.live@.len() && #[trigger] self.live@[l] == i;
            assert(self.live_view()[l] == i);
        }
    }

    /// Whether extending `key` by `edge` stays within `i64` on every live
    /// coordinate, the edge's generator being one of the presentation's.
    pub open spec fn can_extend(self, key: Seq<i64>, edge: Option<(usize, bool)>) -> bool {
        match edge {
            None => true,
            Some((idx, inverted)) => {
                &&& idx < self.invariants_view().len()
                &&& forall|l: int|
                    0 <= l < key.len() && l < self.live_view().len() ==> {
                        let g = #[trigger] self.images()[idx as int][l];
                        if inverted {
                            g != i64::MIN && i64::MIN <= key[l] - g <= i64::MAX
                        } else {
                            i64::MIN <= key[l] + g <= i64::MAX
                        }
                    }
            },
        }
    }

    /// `key` extended by `edge`: on each live coordinate the generator's
    /// image is added (subtracted when inverted) and the sum reduced; other
    /// entries are kept.
    pub open spec fn extended(self, key: Seq<i64>, edge: Option<(usize, bool)>) -> Seq<i64> {
        match edge {
            None => key,
            Some((idx, inverted)) => Seq::new(
                key.len(),
                |l: int|
                    if l < self.live_view().len() {
                        reduce(
                            if inverted {
                                key[l] - self.images()[idx as int][l]
                            } else {
                                key[l] + self.images()[idx as int][l]
                            },
                            self.moduli()[l] as int,
                        ) as i64
                    } else {
                        key[l]
                    },
            ),
        }
    }

    /// The key of the empty prefix.
    pub fn identity(&self) -> (r: Vec<i64>)
        requires
            self.well_formed(),
        ensures
            r@ == Seq::new(self.live_view().len(), |l: int| 0i64),
    {
        let mut out: Vec<i64> = Vec::new();
        let mut l: usize = 0;
        while l < self.live.len()
            invariant
                l <= self.live@.len(),
                out@ == Seq::new(l as nat, |k: int| 0i64),
            decreases self.live@.len() - l,
        {
            out.push(0);
            l = l + 1;
        }
        out
    }

    /// Whether extending `key` by `edge` stays within `i64`: exactly
    /// [`Self::can_extend`].
    pub fn check_extend(&self, key: &[i64], edge: Option<(usize, bool)>) -> (r: bool)
        requires
            self.well_formed(),
        ensures
            r == self.can_extend(key@, edge),
    {
        let (idx, inverted) = match edge {
            None => return true,
            Some(e) => e,
        };
        if idx >= self.invariants.len() {
            return false;
        }
        let img = &self.gen_images[idx];
        let bound = if key.len() < self.live.len() {
            key.len()
        } else {
            self.live.len()
        };
        let mut l: usize = 0;
        while l < bound
            invariant
                self.well_formed(),
                edge == Some((idx, inverted)),
                idx < self.invariants@.len(),
                img@ == self.gen_images@[idx as int]@,
                bound <= key@.len(),
                bound <= self.live@.len(),
                bound == key@.len() || bound == self.live@.len(),
                l <= bound,
                forall|q: int|
                    0 <= q < l ==> {
                        let g = #[trigger] self.images()[idx as int][q];
                        if inverted {
                            g != i64::MIN && i64::MIN <= key@[q] - g <= i64::MAX
                        } else {
                            i64::MIN <= key@[q] + g <= i64::MAX
                        }
                    },
            decreases bound - l,
        {
            let g = img[l];
            proof {
                assert(self.images()[idx as int][l as int] == g);
            }
            let fits = if inverted {
                g != i64::MIN && key[l].checked_sub(g).is_some()
            } else {
                key[l].checked_add(g).is_some()
            };
            if !fits {
                return false;
            }
            l = l + 1;
        }
        true
    }

    /// `key(prefix · e) = key(prefix) + key(e)`: the abelianisation is a
    /// homomorphism. Tree edges pass `None` and contribute nothing.
    pub fn extend(&self, key: &[i64], edge: Option<(usize, bool)>) -> (r: Vec<i64>)
        requires
            self.well_formed(),
            self.can_extend(key@, edge),
        ensures
            r@ == self.extended(key@, edge),
    {
        let mut out: Vec<i64> = Vec::new();
        let mut k: usize = 0;
        while k < key.len()
            invariant
                k <= key@.len(),
                out@ == key@.take(k as int),
            decreases key@.len() - k,
        {
            out.push(key[k]);
            assert(key@.take(k + 1) =~= key@.take(k as int).push(key@[k as int]));
            k = k + 1;
        }
        assert(key@.take(key@.len() as int) =~= key@);
        let (idx, inverted) = match edge {
            None => return out,
            Some(e) => e,
        };
        let img = &self.gen_images[idx];
        let bound = if out.len() < self.live.len() {
            out.len()
        } else {
            self.live.len()
        };
        let mut l: usize = 0;
        while l < bound
            invariant
                self.well_formed(),
                edge == Some((idx, inverted)),
                self.can_extend(key@, edge),
                idx < self.gen_images@.len(),
                img@ == self.gen_images@[idx as int]@,
                bound <= key@.len(),
                bound <= self.live@.len(),
                bound == key@.len() || bound == self.live@.len(),
                l <= bound,
                out@.len() == key@.len(),
                forall|k: int| 0 <= k < key@.len() ==> #[trigger] out@[k] == (if k < l {
                    self.extended(key@, edge)[k]
                } else {
                    key@[k]
                }),
            decreases bound - l,
        {
            let g = img[l];
            let d = self.live_invariants[l];
            proof {
                assert(self.images()[idx as int][l as int] == g);
                assert(d >= 0) by {
                    assert(self.invariants@[self.live@[l as int] as int] >= 0);
                }
            }
            let v = if inverted {
                out[l] - g
            } else {
                out[l] + g
            };
            let v = if d != 0 {
                let rem = v.checked_rem_euclid(d);
                rem.unwrap()
            } else {
                v
            };
            out.set(l, v);
            l = l + 1;
        }
        assert(out@ =~= self.extended(key@, edge));
        out
    }

    /// The free rank: `H₁ ≅ ℤ^rank ⊕ torsion`.
    pub fn free_rank(&self) -> (r: usize)
        ensures
            r == count_zero(self.invariants_view()),
            r == self.invariants_view().filter(|x: i64| x == 0).len(),
            nonnegative(self.invariants_view()) ==> self.invariants_view().len() == r + self.invariants_view().filter(
                |x: i64| x == 1,
            ).len() + self.invariants_view().filter(|x: i64| x > 1).len(),
    {
        let mut count: usize = 0;
        let mut i: usize = 0;
        while i < self.invariants.len()
            invariant
                i <= self.invariants@.len(),
                count == count_zero(self.invariants@.take(i as int)),
                count <= i,
            decreases self.invariants@.len() - i,
        {
            assert(self.invariants@.take(i + 1).drop_last() =~= self.invariants@.take(i as int));
            if self.invariants[i] == 0 {
                count = count + 1;
            }
            i = i + 1;
        }
        assert(self.invariants@.take(self.invariants@.len() as int) =~= self.invariants@);
        proof {
            lemma_count_zero_entries(self.invariants@);
        }
        count
    }

    /// The elementary divisors `d₁ | d₂ | … | d_r`, each `> 1`: exactly the
    /// invariants greater than one, in order and with multiplicity, so their
    /// product is the order of the torsion subgroup.
    pub fn torsion(&self) -> (r: Vec<i64>)
        ensures
            r@ == torsion_of(self.invariants_view()),
            r@ == self.invariants_view().filter(|x: i64| x > 1),
            nonnegative(self.invariants_view()) ==> nonzero_product(r@) == nonzero_product(self.invariants_view()),
    {
        let mut out: Vec<i64> = Vec::new();
        let mut i: usize = 0;
        while i < self.invariants.len()
            invariant
                i <= self.invariants@.len(),
                out@ == torsion_of(self.invariants@.take(i as int)),
            decreases self.invariants@.len() - i,
        {
            assert(self.invariants@.take(i + 1).drop_last() =~= self.invariants@.take(i as int));
            if self.invariants[i] > 1 {
                out.push(self.invariants[i]);
            }
            i = i + 1;
        }
        assert(self.invariants@.take(self.invariants@.len() as int) =~= self.invariants@);
        proof {
            lemma_torsion_of_entries(self.invariants@);
        }
        out
    }

    /// Whether `H₁` is finite: no free coordinate.
    pub fn is_finite(&self) -> (r: bool)
        ensures
            r == (count_zero(self.invariants_view()) == 0),
    {
        self.free_rank() == 0
    }
}

/// Adding to an already reduced value and reducing again is reducing once.
pub proof fn lemma_reduce_absorb(x: int, c: int, d: int)
    requires
        d >= 0,
    ensures
        reduce(reduce(x, d) + c, d) == reduce(x + c, d),
{
    if d > 0 {
        lemma_add_mod_noop_right(c, x, d);
    }
}

/// Reducing the entries of the left factor modulo `d` leaves the sum's
/// residue modulo `d` unchanged.
pub proof fn lemma_dot_mod(x: Seq<int>, x2: Seq<int>, z: Seq<int>, d: int)
    requires
        d > 0,
        x.len() == x2.len(),
        forall|k: int| 0 <= k < x.len() ==> #[trigger] x2[k] == x[k] % d,
    ensures
        dot(x2, z) % d == dot(x, z) % d,
    decreases x.len(),
{
    if x.len() > 0 {
        let l = x.len() - 1;
        lemma_dot_mod(x.drop_last(), x2.drop_last(), z, d);
        let a = dot(x.drop_last(), z);
        let a2 = dot(x2.drop_last(), z);
        let b = x[l] * z[l];
        let b2 = x2[l] * z[l];
        assert(x2[l] == x[l] % d);
        lemma_mul_mod_noop_left(x[l], z[l], d);
        lemma_add_mod_noop(a2, b2, d);
        lemma_add_mod_noop(a, b, d);
        assert(dot(x2, z) == a2 + b2);
        assert(dot(x, z) == a + b);
    }
}

impl Abelianisation {
    /// Whether each live coordinate of `key` with a nonzero modulus is
    /// already reduced.
    pub open spec fn is_reduced(self, key: Seq<i64>) -> bool {
        forall|l: int|
            0 <= l < key.len() && l < self.live_view().len() && self.moduli()[l] != 0 ==> 0 <= #[trigger] key[l]
                < self.moduli()[l]
    }

    /// The images of all generators on live coordinate `l`.
    pub open spec fn image_column(self, l: int) -> Seq<int> {
        Seq::new(self.invariants_view().len(), |g: int| self.images()[g][l] as int)
    }

    /// The key of the abelianised word with generator counts `v`.
    pub open spec fn key_of_vector(self, v: Seq<int>) -> Seq<int> {
        Seq::new(
            self.live_view().len(),
            |l: int| reduce(dot(self.image_column(l), v), self.moduli()[l] as int),
        )
    }
}

/// The abelianisation is abelian: extending a key by two edges gives the
/// same key in either order.
pub proof fn lemma_extend_commutes(
    a: Abelianisation,
    key: Seq<i64>,
    e1: Option<(usize, bool)>,
    e2: Option<(usize, bool)>,
)
    requires
        a.well_formed(),
        a.can_extend(key, e1),
        a.can_extend(a.extended(key, e1), e2),
        a.can_extend(key, e2),
        a.can_extend(a.extended(key, e2), e1),
    ensures
        a.extended(a.extended(key, e1), e2) == a.extended(a.extended(key, e2), e1),
{
    a.lemma_well_formed();
    let k12 = a.extended(a.extended(key, e1), e2);
    let k21 = a.extended(a.extended(key, e2), e1);
    assert forall|l: int| 0 <= l < key.len() implies #[trigger] k12[l] == k21[l] by {
        if l < a.live_view().len() {
            let d = a.moduli()[l] as int;
            assert(d >= 0) by {
                assert(a.diagonal_view()[a.live_view()[l] as int] >= 0);
            }
            let s1: int = match e1 {
                None => 0,
                Some((i1, v1)) => if v1 {
                    -a.images()[i1 as int][l]
                } else {
                    a.images()[i1 as int][l] as int
                },
            };
            let s2: int = match e2 {
                None => 0,
                Some((i2, v2)) => if v2 {
                    -a.images()[i2 as int][l]
                } else {
                    a.images()[i2 as int][l] as int
                },
            };
            lemma_reduce_absorb(key[l] + s1, s2, d);
            lemma_reduce_absorb(key[l] + s2, s1, d);
            lemma_reduce_absorb(key[l] as int, s1, d);
            lemma_reduce_absorb(key[l] as int, s2, d);
            if d > 0 {
                lemma_mod_bound(key[l] + s1, d);
                lemma_mod_bound(key[l] + s2, d);
                lemma_mod_bound(key[l] + s1 + s2, d);
            }
            assert(key[l] + s1 + s2 == key[l] + s2 + s1);
        }
    }
    assert(k12 =~= k21);
}

/// Extending a reduced key by an edge and then by the same edge reversed
/// gives the key back.
pub proof fn lemma_extend_inverse(a: Abelianisation, key: Seq<i64>, idx: usize, inverted: bool)
    requires
        a.well_formed(),
        a.is_reduced(key),
        a.can_extend(key, Some((idx, inverted))),
        a.can_extend(a.extended(key, Some((idx, inverted))), Some((idx, !inverted))),
    ensures
        a.extended(a.extended(key, Some((idx, inverted))), Some((idx, !inverted))) == key,
{
    a.lemma_well_formed();
    let k1 = a.extended(key, Some((idx, inverted)));
    let k2 = a.extended(k1, Some((idx, !inverted)));
    assert forall|l: int| 0 <= l < key.len() implies #[trigger] k2[l] == key[l] by {
        if l < a.live_view().len() {
            let d = a.moduli()[l] as int;
            assert(d >= 0) by {
                assert(a.diagonal_view()[a.live_view()[l] as int] >= 0);
            }
            let g = a.images()[idx as int][l] as int;
            let s: int = if inverted {
                -g
            } else {
                g
            };
            lemma_reduce_absorb(key[l] + s, -s, d);
            if d > 0 {
                lemma_mod_bound(key[l] + s, d);
                lemma_small_mod(key[l] as nat, d as nat);
            }
        }
    }
    assert(k2 =~= key);
}

/// Every relation the group was built from has the identity key: a word that
/// is a relator abelianises into the image of the relation matrix, and the
/// key of that image is zero on every live coordinate. So two words whose
/// keys differ do not differ by relators.
pub proof fn lemma_relations_vanish(a: Abelianisation, j: int)
    requires
        a.well_formed(),
        0 <= j < a.relations_view().len(),
    ensures
        a.key_of_vector(relation_column(a.relations_view(), j, a.invariants_view().len())) == Seq::new(
            a.live_view().len(),
            |l: int| 0int,
        ),
{
    a.lemma_well_formed();
    let n = a.invariants_view().len();
    let v = relation_column(a.relations_view(), j, n);
    let key = a.key_of_vector(v);
    assert forall|l: int| 0 <= l < a.live_view().len() implies #[trigger] key[l] == 0 by {
        let i = a.live_view()[l] as int;
        let d = a.moduli()[l] as int;
        let row = a.transform_view()[i];
        let col = a.image_column(l);
        assert(d == a.diagonal_view()[i]);
        assert(multiple_of(dot(row, v), a.diagonal_view()[i]));
        assert forall|g: int| 0 <= g < n implies #[trigger] col[g] == reduce(row[g], d) by {
            assert(a.images()[g][l] == reduce(a.transform_view()[i][g], d));
        }
        if d > 0 {
            lemma_dot_mod(row, col, v, d);
        } else {
            assert(col =~= row);
        }
    }
    assert(key =~= Seq::new(a.live_view().len(), |l: int| 0int));
}


/// `w + q·r`, entry by entry.
pub open spec fn add_scaled(w: Seq<int>, r: Seq<int>, q: int) -> Seq<int> {
    Seq::new(w.len(), |k: int| w[k] + q * r[k])
}

/// `v` plus the integer combination `Σⱼ c[j]·(relation column j)`.
pub open spec fn plus_relations(v: Seq<int>, relations: Seq<Seq<i64>>, c: Seq<int>, n: nat) -> Seq<int>
    decreases c.len(),
{
    if c.len() == 0 {
        v
    } else {
        add_scaled(
            plus_relations(v, relations, c.drop_last(), n),
            relation_column(relations, c.len() - 1, n),
            c.last(),
        )
    }
}

/// The sum is linear in its right factor.
pub proof fn lemma_dot_add_scaled(x: Seq<int>, w: Seq<int>, r: Seq<int>, q: int)
    requires
        x.len() <= w.len(),
        x.len() <= r.len(),
    ensures
        dot(x, add_scaled(w, r, q)) == dot(x, w) + q * dot(x, r),
    decreases x.len(),
{
    if x.len() > 0 {
        let l = x.len() - 1;
        lemma_dot_add_scaled(x.drop_last(), w, r, q);
        let z = add_scaled(w, r, q);
        assert(z[l] == w[l] + q * r[l]);
        assert(x[l] * z[l] == x[l] * w[l] + q * (x[l] * r[l])) by (nonlinear_arith)
            requires
                z[l] == w[l] + q * r[l],
        ;
        assert(q * dot(x, r) == q * dot(x.drop_last(), r) + q * (x[l] * r[l])) by (nonlinear_arith)
            requires
                dot(x, r) == dot(x.drop_last(), r) + x[l] * r[l],
        ;
    }
}

/// Adding a multiple of one relation column leaves a key unchanged.
pub proof fn lemma_key_add_relation(a: Abelianisation, w: Seq<int>, j: int, q: int)
    requires
        a.well_formed(),
        w.len() == a.invariants_view().len(),
        0 <= j < a.relations_view().len(),
    ensures
        a.key_of_vector(add_scaled(w, relation_column(a.relations_view(), j, a.invariants_view().len()), q))
            == a.key_of_vector(w),
{
    a.lemma_well_formed();
    let n = a.invariants_view().len();
    let r = relation_column(a.relations_view(), j, n);
    let w2 = add_scaled(w, r, q);
    lemma_relations_vanish(a, j);
    let k0 = a.key_of_vector(r);
    assert forall|l: int| 0 <= l < a.live_view().len() implies #[trigger] a.key_of_vector(w2)[l]
        == a.key_of_vector(w)[l] by {
        let col = a.image_column(l);
        let d = a.moduli()[l] as int;
        assert(d >= 0) by {
            assert(a.diagonal_view()[a.live_view()[l] as int] >= 0);
        }
        lemma_dot_add_scaled(col, w, r, q);
        assert(k0[l] == 0);
        assert(a.key_of_vector(w2)[l] == reduce(dot(col, w2), d));
        assert(a.key_of_vector(w)[l] == reduce(dot(col, w), d));
        assert(k0[l] == reduce(dot(col, r), d));
        if d == 0 {
            assert(dot(col, r) == 0);
            assert(q * dot(col, r) == 0) by (nonlinear_arith)
                requires
                    dot(col, r) == 0,
            ;
        }
        if d > 0 {
            let b = dot(col, r);
            assert(b % d == 0);
            lemma_fundamental_div_mod(b, d);
            let t = b / d;
            assert(q * b == (q * t) * d) by (nonlinear_arith)
                requires
                    b == d * t + 0,
            ;
            lemma_mod_multiples_vanish(q * t, dot(col, w), d);
            assert(dot(col, w) + q * b == (q * t) * d + dot(col, w));
        }
    }
    assert(a.key_of_vector(w2) =~= a.key_of_vector(w));
}

/// Keys see only the class modulo the relations: adding any integer
/// combination of the relation vectors to `v` leaves its key unchanged. So
/// two words whose keys differ are not equal in the abelianised group.
pub proof fn lemma_key_respects_relations(a: Abelianisation, v: Seq<int>, c: Seq<int>)
    requires
        a.well_formed(),
        v.len() == a.invariants_view().len(),
        c.len() <= a.relations_view().len(),
    ensures
        a.key_of_vector(plus_relations(v, a.relations_view(), c, a.invariants_view().len())) == a.key_of_vector(v),
    decreases c.len(),
{
    if c.len() > 0 {
        let n = a.invariants_view().len();
        let prev = plus_relations(v, a.relations_view(), c.drop_last(), n);
        lemma_key_respects_relations(a, v, c.drop_last());
        lemma_plus_relations_len(v, a.relations_view(), c.drop_last(), n);
        lemma_key_add_relation(a, prev, c.len() - 1, c.last());
    }
}

/// Adding relations keeps the length.
pub proof fn lemma_plus_relations_len(v: Seq<int>, relations: Seq<Seq<i64>>, c: Seq<int>, n: nat)
    ensures
        plus_relations(v, relations, c, n).len() == v.len(),
    decreases c.len(),
{
    if c.len() > 0 {
        lemma_plus_relations_len(v, relations, c.drop_last(), n);
    }
}

/// The empty word, counted as the zero vector, has the identity key.
pub proof fn lemma_key_of_zero(a: Abelianisation)
    requires
        a.well_formed(),
    ensures
        a.key_of_vector(zeros(a.invariants_view().len())) == Seq::new(a.live_view().len(), |l: int| 0int),
{
    a.lemma_well_formed();
    let n = a.invariants_view().len();
    assert forall|l: int| 0 <= l < a.live_view().len() implies #[trigger] a.key_of_vector(zeros(n))[l] == 0 by {
        let col = a.image_column(l);
        lemma_dot_zero_right(col);
        if a.moduli()[l] != 0 {
            lemma_small_mod(0, a.moduli()[l] as nat);
        }
    }
    assert(a.key_of_vector(zeros(n)) =~= Seq::new(a.live_view().len(), |l: int| 0int));
}

/// Extending the key of a generator count by an edge gives the key of the
/// count with that generator's entry moved by one: the key is the
/// homomorphism `ℤⁿ → key space` that [`Abelianisation::extend`] walks.
pub proof fn lemma_extend_counts(a: Abelianisation, v: Seq<int>, key: Seq<i64>, idx: usize, inverted: bool)
    requires
        a.well_formed(),
        v.len() == a.invariants_view().len(),
        key.len() == a.live_view().len(),
        forall|l: int| 0 <= l < key.len() ==> #[trigger] key[l] as int == a.key_of_vector(v)[l],
        a.can_extend(key, Some((idx, inverted))),
    ensures
        forall|l: int|
            0 <= l < key.len() ==> #[trigger] a.extended(key, Some((idx, inverted)))[l] as int == a.key_of_vector(
                v.update(idx as int, v[idx as int] + if inverted { -1int } else { 1int }),
            )[l],
{
    a.lemma_well_formed();
    let s: int = if inverted { -1int } else { 1int };
    let v2 = v.update(idx as int, v[idx as int] + s);
    assert forall|l: int| 0 <= l < key.len() implies #[trigger] a.extended(key, Some((idx, inverted)))[l] as int
        == a.key_of_vector(v2)[l] by {
        let col = a.image_column(l);
        let d = a.moduli()[l] as int;
        assert(d >= 0) by {
            assert(a.diagonal_view()[a.live_view()[l] as int] >= 0);
        }
        lemma_dot_update_right(col, v, idx as int, v[idx as int] + s);
        let g = a.images()[idx as int][l] as int;
        assert(col[idx as int] == g);
        assert(dot(col, v2) == dot(col, v) + s * g) by (nonlinear_arith)
            requires
                dot(col, v2) == dot(col, v) + col[idx as int] * (v[idx as int] + s - v[idx as int]),
                col[idx as int] == g,
        ;
        lemma_reduce_absorb(dot(col, v), s * g, d);
        let x = if inverted { key[l] - g } else { key[l] + g };
        assert(key[l] as int == reduce(dot(col, v), d));
        if inverted {
            assert(s == -1);
            assert(s * g == -g) by (nonlinear_arith)
                requires
                    s == -1,
            ;
        } else {
            assert(s == 1);
            assert(s * g == g) by (nonlinear_arith)
                requires
                    s == 1,
            ;
        }
        assert(x == reduce(dot(col, v), d) + s * g);
        let r = reduce(x, d);
        if d > 0 {
            lemma_mod_bound(x, d);
        }
        assert(a.extended(key, Some((idx, inverted)))[l] == r as i64);
    }
}

} // verus!
