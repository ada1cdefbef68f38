//! Words in free groups, group presentations, and their simplification.
//!
//! A letter `(g, inverted)` is the generator `g` or its inverse; a word is a
//! sequence of letters; a presentation `⟨S | R⟩` is a generator count and a
//! list of relator words.
use vstd::prelude::*;

verus! {

/// The inverse of a letter: the same generator with the opposite exponent.
pub open spec fn letter_inverse(l: (usize, bool)) -> (usize, bool) {
    (l.0, !l.1)
}

/// Free reduction by a left-to-right stack: each letter either cancels the
/// last surviving letter (when it is its inverse) or is kept.
pub open spec fn free_reduction(w: Seq<(usize, bool)>) -> Seq<(usize, bool)>
    decreases w.len(),
{
    if w.len() == 0 {
        Seq::empty()
    } else {
        let r = free_reduction(w.drop_last());
        if r.len() > 0 && r.last() == letter_inverse(w.last()) {
            r.drop_last()
        } else {
            r.push(w.last())
        }
    }
}

/// No letter is followed by its inverse.
pub open spec fn is_freely_reduced(w: Seq<(usize, bool)>) -> bool {
    forall|i: int| 0 <= i < w.len() - 1 ==> w[i + 1] != letter_inverse(#[trigger] w[i])
}

/// The free reduction of a word is freely reduced, and no longer than it.
pub proof fn lemma_free_reduction_reduced(w: Seq<(usize, bool)>)
    ensures
        is_freely_reduced(free_reduction(w)),
        free_reduction(w).len() <= w.len(),
    decreases w.len(),
{
    if w.len() > 0 {
        lemma_free_reduction_reduced(w.drop_last());
        let r = free_reduction(w.drop_last());
        if r.len() > 0 && r.last() == letter_inverse(w.last()) {
            assert(is_freely_reduced(r.drop_last())) by {
                assert forall|i: int| 0 <= i < r.drop_last().len() - 1 implies r.drop_last()[i
                    + 1] != letter_inverse(#[trigger] r.drop_last()[i]) by {
                    assert(r.drop_last()[i] == r[i]);
                    assert(r.drop_last()[i + 1] == r[i + 1]);
                }
            }
        } else {
            let p = r.push(w.last());
            assert forall|i: int| 0 <= i < p.len() - 1 implies p[i + 1] != letter_inverse(
                #[trigger] p[i],
            ) by {
                if i < r.len() - 1 {
                    assert(p[i] == r[i]);
                    assert(p[i + 1] == r[i + 1]);
                } else {
                    assert(p[i] == r.last());
                    assert(p[i + 1] == w.last());
                }
            }
        }
    }
}

/// Free reduction fixes a freely reduced word; in particular it is idempotent.
pub proof fn lemma_free_reduction_fixes_reduced(w: Seq<(usize, bool)>)
    requires
        is_freely_reduced(w),
    ensures
        free_reduction(w) == w,
    decreases w.len(),
{
    if w.len() > 0 {
        let d = w.drop_last();
        assert(is_freely_reduced(d)) by {
            assert forall|i: int| 0 <= i < d.len() - 1 implies d[i + 1] != letter_inverse(
                #[trigger] d[i],
            ) by {
                assert(d[i] == w[i]);
                assert(d[i + 1] == w[i + 1]);
            }
        }
        lemma_free_reduction_fixes_reduced(d);
        if d.len() > 0 {
            assert(w[d.len() - 1] == d.last());
            assert(w[d.len() - 1 + 1] != letter_inverse(w[d.len() - 1]));
            assert(d.last() != letter_inverse(w.last()));
        }
        assert(d.push(w.last()) =~= w);
    }
}

/// Free reduction is idempotent.
pub proof fn lemma_free_reduction_idempotent(w: Seq<(usize, bool)>)
    ensures
        free_reduction(free_reduction(w)) == free_reduction(w),
{
    lemma_free_reduction_reduced(w);
    lemma_free_reduction_fixes_reduced(free_reduction(w));
}

/// Freely reduces a word: cancels every adjacent `x x⁻¹` pair.
pub fn free_reduce(word: Vec<(usize, bool)>) -> (r: Vec<(usize, bool)>)
    ensures
        r@ == free_reduction(word@),
{
    let mut reduced: Vec<(usize, bool)> = Vec::new();
    let mut i: usize = 0;
    while i < word.len()
        invariant
            i <= word.len(),
            reduced@ == free_reduction(word@.take(i as int)),
        decreases word.len() - i,
    {
        let letter = word[i];
        proof {
            assert(word@.take(i + 1).drop_last() =~= word@.take(i as int));
            assert(word@.take(i + 1).last() == letter);
        }
        let n = reduced.len();
        if n > 0 && reduced[n - 1].0 == letter.0 && reduced[n - 1].1 == !letter.1 {
            reduced.pop();
        } else {
            reduced.push(letter);
        }
        i = i + 1;
    }
    assert(word@.take(word.len() as int) =~= word@);
    reduced
}


/// The inverse word: letters reversed, each inverted.
pub open spec fn word_inverse(w: Seq<(usize, bool)>) -> Seq<(usize, bool)> {
    Seq::new(w.len(), |i: int| letter_inverse(w[w.len() - 1 - i]))
}

/// Inverting twice gives the word back.
pub proof fn lemma_word_inverse_involution(w: Seq<(usize, bool)>)
    ensures
        word_inverse(word_inverse(w)) == w,
{
    assert(word_inverse(word_inverse(w)) =~= w);
}

/// The inverse of a word.
pub fn invert(w: &[(usize, bool)]) -> (r: Vec<(usize, bool)>)
    ensures
        r@ == word_inverse(w@),
{
    let mut out: Vec<(usize, bool)> = Vec::new();
    let n = w.len();
    let mut i: usize = 0;
    while i < n
        invariant
            i <= n,
            n == w@.len(),
            out@.len() == i,
            forall|k: int| 0 <= k < i ==> out@[k] == letter_inverse(w@[n - 1 - k]),
        decreases n - i,
    {
        let (g, inv) = w[n - 1 - i];
        out.push((g, !inv));
        i = i + 1;
    }
    assert(out@ =~= word_inverse(w@));
    out
}

/// Whether the first and last letters of a word of length at least two
/// cancel cyclically.
pub open spec fn cyclically_cancels(w: Seq<(usize, bool)>) -> bool {
    w.len() >= 2 && w[0].0 == w.last().0 && w[0].1 != w.last().1
}

/// Repeatedly strips a cancelling first/last pair, freely reducing the
/// middle each time.
pub open spec fn cyclic_strip(w: Seq<(usize, bool)>) -> Seq<(usize, bool)>
    decreases w.len(),
{
    if cyclically_cancels(w) {
        proof {
            lemma_free_reduction_reduced(w.subrange(1, w.len() - 1));
        }
        cyclic_strip(free_reduction(w.subrange(1, w.len() - 1)))
    } else {
        w
    }
}

/// Free reduction followed by cyclic stripping.
pub open spec fn cyclic_reduction(w: Seq<(usize, bool)>) -> Seq<(usize, bool)> {
    cyclic_strip(free_reduction(w))
}

/// A word that is freely reduced and whose ends do not cancel.
pub open spec fn is_cyclically_reduced(w: Seq<(usize, bool)>) -> bool {
    is_freely_reduced(w) && !cyclically_cancels(w)
}

/// Cyclic stripping of a freely reduced word is cyclically reduced.
pub proof fn lemma_cyclic_strip_reduced(w: Seq<(usize, bool)>)
    requires
        is_freely_reduced(w),
    ensures
        is_cyclically_reduced(cyclic_strip(w)),
        cyclic_strip(w).len() <= w.len(),
    decreases w.len(),
{
    if cyclically_cancels(w) {
        let m = free_reduction(w.subrange(1, w.len() - 1));
        lemma_free_reduction_reduced(w.subrange(1, w.len() - 1));
        lemma_cyclic_strip_reduced(m);
    }
}

/// The cyclic reduction of any word is cyclically reduced.
pub proof fn lemma_cyclic_reduction_reduced(w: Seq<(usize, bool)>)
    ensures
        is_cyclically_reduced(cyclic_reduction(w)),
{
    lemma_free_reduction_reduced(w);
    lemma_cyclic_strip_reduced(free_reduction(w));
}

/// Whether the ends of a word cancel cyclically.
fn ends_cancel(w: &Vec<(usize, bool)>) -> (b: bool)
    ensures
        b == cyclically_cancels(w@),
{
    if w.len() >= 2 {
        let f = w[0];
        let l = w[w.len() - 1];
        f.0 == l.0 && f.1 != l.1
    } else {
        false
    }
}

/// Free and then cyclic reduction of a relator.
pub fn cyclic_reduce(w: Vec<(usize, bool)>) -> (r: Vec<(usize, bool)>)
    ensures
        r@ == cyclic_reduction(w@),
{
    let ghost target = cyclic_reduction(w@);
    let mut w = free_reduce(w);
    while ends_cancel(&w)
        invariant
            cyclic_strip(w@) == target,
        decreases w.len(),
    {
        let ghost before = w@;
        w.remove(0);
        w.pop();
        assert(w@ =~= before.subrange(1, before.len() - 1));
        w = free_reduce(w);
        proof {
            lemma_free_reduction_reduced(before.subrange(1, before.len() - 1));
        }
    }
    w
}


/// The order on letters: by generator, then uninverted before inverted.
pub open spec fn letter_lt(a: (usize, bool), b: (usize, bool)) -> bool {
    a.0 < b.0 || (a.0 == b.0 && !a.1 && b.1)
}

/// The lexicographic order on words, a proper prefix coming first.
#[verifier::opaque]
pub open spec fn word_lt(a: Seq<(usize, bool)>, b: Seq<(usize, bool)>) -> bool
    decreases a.len(),
{
    if a.len() == 0 {
        b.len() > 0
    } else if b.len() == 0 {
        false
    } else if letter_lt(a[0], b[0]) {
        true
    } else if a[0] == b[0] {
        word_lt(a.drop_first(), b.drop_first())
    } else {
        false
    }
}

/// The word order is irreflexive.
pub proof fn lemma_word_lt_irreflexive(a: Seq<(usize, bool)>)
    ensures
        !word_lt(a, a),
    decreases a.len(),
{
    reveal(word_lt);
    if a.len() > 0 {
        lemma_word_lt_irreflexive(a.drop_first());
    }
}

/// The word order is transitive.
pub proof fn lemma_word_lt_transitive(
    a: Seq<(usize, bool)>,
    b: Seq<(usize, bool)>,
    c: Seq<(usize, bool)>,
)
    requires
        word_lt(a, b),
        word_lt(b, c),
    ensures
        word_lt(a, c),
    decreases a.len(),
{
    reveal(word_lt);
    if a.len() > 0 && b.len() > 0 && c.len() > 0 && a[0] == b[0] && b[0] == c[0] {
        lemma_word_lt_transitive(a.drop_first(), b.drop_first(), c.drop_first());
    }
}

/// Two distinct words are comparable.
pub proof fn lemma_word_lt_total(a: Seq<(usize, bool)>, b: Seq<(usize, bool)>)
    requires
        a != b,
    ensures
        word_lt(a, b) || word_lt(b, a),
    decreases a.len(),
{
    reveal(word_lt);
    if a.len() == 0 && b.len() == 0 {
        assert(a =~= b);
    }
    if a.len() > 0 && b.len() > 0 && a[0] == b[0] {
        assert(a =~= seq![a[0]] + a.drop_first());
        assert(b =~= seq![b[0]] + b.drop_first());
        lemma_word_lt_total(a.drop_first(), b.drop_first());
    }
}

/// The word order is asymmetric.
pub proof fn lemma_word_lt_asymmetric(a: Seq<(usize, bool)>, b: Seq<(usize, bool)>)
    requires
        word_lt(a, b),
    ensures
        !word_lt(b, a),
{
    if word_lt(b, a) {
        lemma_word_lt_transitive(a, b, a);
        lemma_word_lt_irreflexive(a);
    }
}

/// One step of the word order.
pub proof fn lemma_word_lt_unfold(a: Seq<(usize, bool)>, b: Seq<(usize, bool)>)
    ensures
        word_lt(a, b) == (if a.len() == 0 {
            b.len() > 0
        } else if b.len() == 0 {
            false
        } else if letter_lt(a[0], b[0]) {
            true
        } else if a[0] == b[0] {
            word_lt(a.drop_first(), b.drop_first())
        } else {
            false
        }),
{
    reveal(word_lt);
}

/// Whether `a` precedes `b` in the word order.
pub fn word_less(a: &[(usize, bool)], b: &[(usize, bool)]) -> (r: bool)
    ensures
        r == word_lt(a@, b@),
{
    let mut i: usize = 0;
    assert(a@.skip(0) =~= a@);
    assert(b@.skip(0) =~= b@);
    while i < a.len() && i < b.len()
        invariant
            i <= a.len(),
            i <= b.len(),
            forall|k: int| 0 <= k < i ==> a@[k] == b@[k],
            word_lt(a@, b@) == word_lt(a@.skip(i as int), b@.skip(i as int)),
        decreases a.len() - i,
    {
        let x = a[i];
        let y = b[i];
        proof {
            lemma_word_lt_unfold(a@.skip(i as int), b@.skip(i as int));
        }
        assert(a@.skip(i as int)[0] == x);
        assert(b@.skip(i as int)[0] == y);
        if x.0 < y.0 || (x.0 == y.0 && !x.1 && y.1) {
            return true;
        }
        if x.0 != y.0 || x.1 != y.1 {
            return false;
        }
        assert(a@.skip(i as int).drop_first() =~= a@.skip(i + 1));
        assert(b@.skip(i as int).drop_first() =~= b@.skip(i + 1));
        i = i + 1;
    }
    proof {
        lemma_word_lt_unfold(a@.skip(i as int), b@.skip(i as int));
    }
    i < b.len()
}

/// The word rotated left by `r` places.
pub open spec fn rotation(w: Seq<(usize, bool)>, r: int) -> Seq<(usize, bool)> {
    w.skip(r) + w.take(r)
}

/// `w` rotated left by `r < |w|` places.
fn rotate_left(w: &Vec<(usize, bool)>, r: usize) -> (out: Vec<(usize, bool)>)
    requires
        r <= w.len(),
    ensures
        out@ == rotation(w@, r as int),
{
    let mut out: Vec<(usize, bool)> = Vec::new();
    let n = w.len();
    let mut i: usize = r;
    while i < n
        invariant
            r <= i <= n,
            n == w.len(),
            out@ == w@.subrange(r as int, i as int),
        decreases n - i,
    {
        out.push(w[i]);
        i = i + 1;
    }
    let mut j: usize = 0;
    while j < r
        invariant
            j <= r <= n,
            n == w.len(),
            out@ == w@.skip(r as int) + w@.take(j as int),
        decreases r - j,
    {
        out.push(w[j]);
        assert(w@.take(j + 1) =~= w@.take(j as int).push(w@[j as int]));
        j = j + 1;
    }
    assert(out@ =~= rotation(w@, r as int));
    out
}

/// The lesser of two words, keeping the first on a tie.
fn least_word(best: Vec<(usize, bool)>, cand: Vec<(usize, bool)>) -> (r: Vec<(usize, bool)>)
    ensures
        r@ == best@ || r@ == cand@,
        !word_lt(cand@, r@),
        !word_lt(best@, r@),
        forall|x: Seq<(usize, bool)>| !word_lt(x, best@) ==> !#[trigger] word_lt(x, r@),
{
    if word_less(&cand, &best) {
        proof {
            lemma_word_lt_irreflexive(cand@);
            lemma_word_lt_asymmetric(cand@, best@);
            assert forall|x: Seq<(usize, bool)>| !word_lt(x, best@) implies !#[trigger] word_lt(
                x,
                cand@,
            ) by {
                if word_lt(x, cand@) {
                    lemma_word_lt_transitive(x, cand@, best@);
                }
            }
        }
        cand
    } else {
        proof {
            lemma_word_lt_irreflexive(best@);
        }
        best
    }
}

/// The rotations of a relator and of its inverse: the relators that present
/// the same normal closure.
pub open spec fn is_relator_variant(w: Seq<(usize, bool)>, c: Seq<(usize, bool)>) -> bool {
    exists|k: int| #[trigger] variant_at(w, c, k)
}

/// `c` is the rotation by `k` of `w` or of its inverse.
pub open spec fn variant_at(w: Seq<(usize, bool)>, c: Seq<(usize, bool)>, k: int) -> bool {
    0 <= k < w.len() && (c == rotation(w, k) || c == rotation(word_inverse(w), k))
}

/// The canonical form of a relator up to cyclic rotation and inversion: the
/// least of its rotations and those of its inverse.
pub fn canonical_relator(w: &[(usize, bool)]) -> (r: Vec<(usize, bool)>)
    ensures
        w@.len() == 0 ==> r@.len() == 0,
        w@.len() > 0 ==> is_relator_variant(w@, r@),
        forall|k: int| 0 <= k < w@.len() ==> !#[trigger] word_lt(rotation(w@, k), r@),
        forall|k: int|
            0 <= k < w@.len() ==> !#[trigger] word_lt(rotation(word_inverse(w@), k), r@),
{
    let n = w.len();
    if n == 0 {
        return Vec::new();
    }
    let mut forward: Vec<(usize, bool)> = Vec::new();
    let mut t: usize = 0;
    while t < n
        invariant
            t <= n,
            n == w@.len(),
            forward@ == w@.take(t as int),
        decreases n - t,
    {
        forward.push(w[t]);
        assert(w@.take(t + 1) =~= w@.take(t as int).push(w@[t as int]));
        t = t + 1;
    }
    assert(w@.take(n as int) =~= w@);
    let backward = invert(w);
    let ghost wi = word_inverse(w@);
    let mut best = rotate_left(&forward, 0);
    proof {
        assert(variant_at(w@, best@, 0));
    }
    let mut r: usize = 0;
    while r < n
        invariant
            r <= n,
            n == w@.len(),
            forward@ == w@,
            wi == word_inverse(w@),
            backward@ == wi,
            is_relator_variant(w@, best@),
            forall|k: int| 0 <= k < r ==> !#[trigger] word_lt(rotation(w@, k), best@),
            forall|k: int| 0 <= k < r ==> !#[trigger] word_lt(rotation(wi, k), best@),
        decreases n - r,
    {
        let a = rotate_left(&forward, r);
        let ghost b0 = best@;
        best = least_word(best, a);
        let ghost b1 = best@;
        let b = rotate_left(&backward, r);
        best = least_word(best, b);
        proof {
            assert forall|k: int| 0 <= k < r + 1 implies !#[trigger] word_lt(
                rotation(w@, k),
                best@,
            ) by {
                if k < r {
                    assert(!word_lt(rotation(w@, k), b0));
                    assert(!word_lt(rotation(w@, k), b1));
                } else {
                    assert(!word_lt(a@, b1));
                }
            }
            assert forall|k: int| 0 <= k < r + 1 implies !#[trigger] word_lt(rotation(wi, k), best@) by {
                if k < r {
                    assert(!word_lt(rotation(wi, k), b0));
                    assert(!word_lt(rotation(wi, k), b1));
                }
            }
            assert(is_relator_variant(w@, best@)) by {
                if best@ == b@ {
                    assert(variant_at(w@, best@, r as int));
                } else if best@ == a@ {
                    assert(variant_at(w@, best@, r as int));
                }
            }
        }
        r = r + 1;
    }
    best
}


/// Every occurrence of generator `g` replaced by `rep` (or by its inverse,
/// for an inverted occurrence).
pub open spec fn substitution(
    w: Seq<(usize, bool)>,
    g: usize,
    rep: Seq<(usize, bool)>,
) -> Seq<(usize, bool)>
    decreases w.len(),
{
    if w.len() == 0 {
        Seq::empty()
    } else {
        substitution(w.drop_last(), g, rep) + (if w.last().0 == g {
            if w.last().1 {
                word_inverse(rep)
            } else {
                rep
            }
        } else {
            seq![w.last()]
        })
    }
}

/// Substitutes `replacement` for generator `g` throughout `w`, then freely
/// reduces.
pub fn substitute(w: &[(usize, bool)], g: usize, replacement: &[(usize, bool)]) -> (r: Vec<
    (usize, bool),
>)
    ensures
        r@ == free_reduction(substitution(w@, g, replacement@)),
{
    let inv_rep = invert(replacement);
    let mut out: Vec<(usize, bool)> = Vec::new();
    let mut i: usize = 0;
    while i < w.len()
        invariant
            i <= w.len(),
            inv_rep@ == word_inverse(replacement@),
            out@ == substitution(w@.take(i as int), g, replacement@),
        decreases w.len() - i,
    {
        let (x, inv) = w[i];
        proof {
            assert(w@.take(i + 1).drop_last() =~= w@.take(i as int));
            assert(w@.take(i + 1).last() == w@[i as int]);
        }
        let ghost before = out@;
        if x == g {
            let piece: &Vec<(usize, bool)> = &inv_rep;
            let n = if inv {
                inv_rep.len()
            } else {
                replacement.len()
            };
            let mut k: usize = 0;
            while k < n
                invariant
                    k <= n,
                    inv_rep@ == word_inverse(replacement@),
                    n == (if inv {
                        inv_rep@.len()
                    } else {
                        replacement@.len()
                    }),
                    out@ == before + (if inv {
                        inv_rep@
                    } else {
                        replacement@
                    }).take(k as int),
                decreases n - k,
            {
                if inv {
                    out.push(inv_rep[k]);
                    assert(inv_rep@.take(k + 1) =~= inv_rep@.take(k as int).push(inv_rep@[k as int]));
                } else {
                    out.push(replacement[k]);
                    assert(replacement@.take(k + 1) =~= replacement@.take(k as int).push(
                        replacement@[k as int],
                    ));
                }
                k = k + 1;
            }
            assert(inv_rep@.take(inv_rep@.len() as int) =~= inv_rep@);
            assert(replacement@.take(replacement@.len() as int) =~= replacement@);
        } else {
            out.push((x, inv));
        }
        assert(out@ =~= substitution(w@.take(i + 1), g, replacement@));
        i = i + 1;
    }
    assert(w@.take(w.len() as int) =~= w@);
    free_reduce(out)
}

/// A permutation with no ascent: the last in lexicographic order.
pub open spec fn is_descending(p: Seq<usize>) -> bool {
    forall|k: int| 0 < k < p.len() ==> p[k - 1] >= #[trigger] p[k]
}

/// The successor of `p` given its pivot `i` (the last ascent ends at `i`)
/// and the exchange position `j` (the last entry above `p[i-1]`): swap
/// `p[i-1]` and `p[j]`, then reverse the suffix from `i`.
pub open spec fn permutation_successor(p: Seq<usize>, i: int, j: int) -> Seq<usize> {
    let s = p.update(i - 1, p[j]).update(j, p[i - 1]);
    s.take(i) + s.skip(i).reverse()
}

/// Whether `i` and `j` are the pivot and exchange position of `p`.
pub open spec fn is_successor_pivot(p: Seq<usize>, i: int, j: int) -> bool {
    &&& 1 <= i <= j < p.len()
    &&& p[i - 1] < p[i]
    &&& forall|k: int| i < k < p.len() ==> p[k - 1] >= #[trigger] p[k]
    &&& p[j] > p[i - 1]
    &&& forall|k: int| j < k < p.len() ==> #[trigger] p[k] <= p[i - 1]
}

/// The successor of a permutation without repeated entries has none.
pub proof fn lemma_permutation_successor_injective(p: Seq<usize>, i: int, j: int)
    requires
        1 <= i <= j < p.len(),
        forall|a: int, b: int| 0 <= a < p.len() && 0 <= b < p.len() && a != b ==> #[trigger] p[a] != #[trigger] p[b],
    ensures
        forall|a: int, b: int|
            0 <= a < p.len() && 0 <= b < p.len() && a != b ==> #[trigger] permutation_successor(p, i, j)[a]
                != #[trigger] permutation_successor(p, i, j)[b],
{
    let n = p.len();
    let s = p.update(i - 1, p[j]).update(j, p[i - 1]);
    let r = permutation_successor(p, i, j);
    let swap = |k: int| if k == i - 1 {
        j
    } else if k == j {
        i - 1
    } else {
        k
    };
    let place = |k: int| if k < i {
        k
    } else {
        n - 1 - k + i
    };
    assert forall|k: int| 0 <= k < n implies #[trigger] s[k] == p[swap(k)] by {}
    assert forall|k: int| 0 <= k < n implies #[trigger] r[k] == s[place(k)] by {
        if k >= i {
            assert(s.skip(i).reverse()[k - i] == s.skip(i)[s.skip(i).len() - 1 - (k - i)]);
        }
    }
    assert forall|a: int, b: int|
        0 <= a < n && 0 <= b < n && a != b implies #[trigger] r[a] != #[trigger] r[b] by {
        assert(r[a] == s[place(a)]);
        assert(r[b] == s[place(b)]);
        assert(s[place(a)] == p[swap(place(a))]);
        assert(s[place(b)] == p[swap(place(b))]);
    }
}

/// Every entry of `p` is below `n`.
pub open spec fn all_below(p: Seq<usize>, n: nat) -> bool {
    forall|k: int| 0 <= k < p.len() ==> #[trigger] p[k] < n
}

/// The successor keeps the length, and its entries are entries of `p`.
pub proof fn lemma_permutation_successor_entries(p: Seq<usize>, i: int, j: int)
    requires
        1 <= i <= j < p.len(),
    ensures
        permutation_successor(p, i, j).len() == p.len(),
        forall|k: int|
            0 <= k < p.len() ==> exists|m: int|
                0 <= m < p.len() && #[trigger] permutation_successor(p, i, j)[k] == p[m],
{
    let s = p.update(i - 1, p[j]).update(j, p[i - 1]);
    let q = permutation_successor(p, i, j);
    assert forall|k: int| 0 <= k < p.len() implies exists|m: int|
        0 <= m < p.len() && #[trigger] q[k] == p[m] by {
        let pos = if k < i {
            k
        } else {
            p.len() - 1 - (k - i)
        };
        assert(q[k] == s[pos]);
        if pos == j {
            assert(s[pos] == p[i - 1]);
        } else if pos == i - 1 {
            assert(s[pos] == p[j]);
        } else {
            assert(s[pos] == p[pos]);
        }
    }
}

/// Advances `perm` to the next permutation in lexicographic order; returns
/// `false`, leaving it unchanged, when it is already the last.
#[verifier::spinoff_prover]
#[verifier::rlimit(50)]
pub fn next_permutation(perm: &mut Vec<usize>) -> (r: bool)
    ensures
        r == !is_descending(old(perm)@),
        final(perm)@.len() == old(perm)@.len(),
        forall|b: nat| all_below(old(perm)@, b) ==> #[trigger] all_below(final(perm)@, b),
        !r ==> final(perm)@ == old(perm)@,
        r ==> exists|i: int, j: int|
            is_successor_pivot(old(perm)@, i, j) && final(perm)@ == permutation_successor(
                old(perm)@,
                i,
                j,
            ),
{
    let n = perm.len();
    if n < 2 {
        return false;
    }
    let mut i = n - 1;
    while i > 0 && perm[i - 1] >= perm[i]
        invariant
            0 <= i < n,
            n == perm@.len(),
            forall|k: int| i < k < n ==> perm@[k - 1] >= #[trigger] perm@[k],
        decreases i,
    {
        i = i - 1;
    }
    if i == 0 {
        proof {
            assert forall|k: int| 0 < k < perm@.len() implies perm@[k - 1] >= #[trigger] perm@[k] by {
            }
        }
        return false;
    }
    let mut j = n - 1;
    while perm[j] <= perm[i - 1]
        invariant
            i <= j < n,
            n == perm@.len(),
            0 < i,
            perm@[i - 1] < perm@[i as int],
            forall|k: int| j < k < n ==> #[trigger] perm@[k] <= perm@[i - 1],
        decreases j,
    {
        j = j - 1;
    }
    let ghost p = perm@;
    let a = perm[i - 1];
    let b = perm[j];
    let mut swapped: Vec<usize> = Vec::new();
    let mut k: usize = 0;
    while k < i
        invariant
            k <= i <= j < n,
            n == p.len(),
            a == p[i - 1],
            b == p[j as int],
            perm@ == p,
            swapped@ == p.update(i - 1, b).update(j as int, a).take(k as int),
        decreases i - k,
    {
        let x = if k == i - 1 {
            b
        } else {
            perm[k]
        };
        swapped.push(x);
        assert(p.update(i - 1, b).update(j as int, a).take(k + 1) =~= p.update(i - 1, b).update(
            j as int,
            a,
        ).take(k as int).push(x));
        k = k + 1;
    }
    let mut t: usize = n;
    while t > i
        invariant
            0 < i,
            i <= t <= n,
            i <= j < n,
            n == p.len(),
            a == p[i - 1],
            b == p[j as int],
            perm@ == p,
            swapped@ == p.update(i - 1, b).update(j as int, a).take(i as int) + p.update(
                i - 1,
                b,
            ).update(j as int, a).subrange(t as int, n as int).reverse(),
        decreases t,
    {
        let x = if t - 1 == j {
            a
        } else {
            perm[t - 1]
        };
        let ghost s = p.update(i - 1, b).update(j as int, a);
        swapped.push(x);
        assert(x == s[t - 1]);
        assert(s.subrange(t - 1, n as int).reverse() =~= s.subrange(t as int, n as int).reverse().push(
            x,
        ));
        t = t - 1;
    }
    proof {
        let s = p.update(i - 1, b).update(j as int, a);
        assert(s.subrange(i as int, n as int) =~= s.skip(i as int));
        assert(is_successor_pivot(p, i as int, j as int));
        lemma_permutation_successor_entries(p, i as int, j as int);
        assert forall|bound: nat| all_below(p, bound) implies #[trigger] all_below(
            permutation_successor(p, i as int, j as int),
            bound,
        ) by {
            assert forall|k: int| 0 <= k < p.len() implies #[trigger] permutation_successor(
                p,
                i as int,
                j as int,
            )[k] < bound by {
                let m = choose|m: int|
                    0 <= m < p.len() && permutation_successor(p, i as int, j as int)[k] == p[m];
                assert(p[m] < bound);
            }
        }
        assert(swapped@ == permutation_successor(p, i as int, j as int));
        assert(!is_descending(p)) by {
            assert(p[i - 1] < p[i as int]);
        }
    }
    *perm = swapped;
    true
}


/// Every letter of `w` names a generator that `alive` marks live.
pub open spec fn uses_live_generators(w: Seq<(usize, bool)>, alive: Seq<bool>) -> bool {
    forall|i: int| 0 <= i < w.len() ==> (#[trigger] w[i]).0 < alive.len() && alive[w[i].0 as int]
}

/// Every letter of the free reduction is a letter of the word.
pub proof fn lemma_free_reduction_letters(w: Seq<(usize, bool)>)
    ensures
        forall|k: int|
            0 <= k < free_reduction(w).len() ==> exists|m: int|
                0 <= m < w.len() && #[trigger] free_reduction(w)[k] == w[m],
    decreases w.len(),
{
    if w.len() > 0 {
        lemma_free_reduction_letters(w.drop_last());
        let r = free_reduction(w.drop_last());
        assert forall|k: int| 0 <= k < free_reduction(w).len() implies exists|m: int|
            0 <= m < w.len() && #[trigger] free_reduction(w)[k] == w[m] by {
            if r.len() > 0 && r.last() == letter_inverse(w.last()) {
                assert(free_reduction(w)[k] == r[k]);
                let m = choose|m: int| 0 <= m < w.drop_last().len() && r[k] == w.drop_last()[m];
                assert(w[m] == w.drop_last()[m]);
            } else if k < r.len() {
                assert(free_reduction(w)[k] == r[k]);
                let m = choose|m: int| 0 <= m < w.drop_last().len() && r[k] == w.drop_last()[m];
                assert(w[m] == w.drop_last()[m]);
            } else {
                assert(free_reduction(w)[k] == w[w.len() - 1]);
            }
        }
    }
}

/// Free reduction keeps a word within the live generators.
pub proof fn lemma_free_reduction_live(w: Seq<(usize, bool)>, alive: Seq<bool>)
    requires
        uses_live_generators(w, alive),
    ensures
        uses_live_generators(free_reduction(w), alive),
{
    lemma_free_reduction_letters(w);
    assert forall|i: int| 0 <= i < free_reduction(w).len() implies (#[trigger] free_reduction(
        w,
    )[i]).0 < alive.len() && alive[free_reduction(w)[i].0 as int] by {
        let m = choose|m: int| 0 <= m < w.len() && free_reduction(w)[i] == w[m];
        assert(w[m].0 < alive.len());
    }
}

/// Cyclic reduction keeps a word within the live generators.
pub proof fn lemma_cyclic_strip_live(w: Seq<(usize, bool)>, alive: Seq<bool>)
    requires
        uses_live_generators(w, alive),
    ensures
        uses_live_generators(cyclic_strip(w), alive),
    decreases w.len(),
{
    if cyclically_cancels(w) {
        let m = w.subrange(1, w.len() - 1);
        assert(uses_live_generators(m, alive)) by {
            assert forall|i: int| 0 <= i < m.len() implies (#[trigger] m[i]).0 < alive.len()
                && alive[m[i].0 as int] by {
                assert(m[i] == w[i + 1]);
            }
        }
        lemma_free_reduction_live(m, alive);
        lemma_free_reduction_reduced(m);
        lemma_cyclic_strip_live(free_reduction(m), alive);
    }
}

/// Inversion keeps a word within the live generators.
pub proof fn lemma_word_inverse_live(w: Seq<(usize, bool)>, alive: Seq<bool>)
    requires
        uses_live_generators(w, alive),
    ensures
        uses_live_generators(word_inverse(w), alive),
{
    assert forall|i: int| 0 <= i < word_inverse(w).len() implies (#[trigger] word_inverse(
        w,
    )[i]).0 < alive.len() && alive[word_inverse(w)[i].0 as int] by {
        assert(word_inverse(w)[i] == letter_inverse(w[w.len() - 1 - i]));
    }
}

/// Substituting a live word for a generator leaves only live generators.
pub proof fn lemma_substitution_live(
    w: Seq<(usize, bool)>,
    g: usize,
    rep: Seq<(usize, bool)>,
    alive: Seq<bool>,
)
    requires
        g < alive.len(),
        uses_live_generators(w, alive.update(g as int, true)),
        uses_live_generators(rep, alive),
    ensures
        uses_live_generators(substitution(w, g, rep), alive),
    decreases w.len(),
{
    if w.len() > 0 {
        let d = w.drop_last();
        assert(uses_live_generators(d, alive.update(g as int, true))) by {
            assert forall|i: int| 0 <= i < d.len() implies (#[trigger] d[i]).0 < alive.update(
                g as int,
                true,
            ).len() && alive.update(g as int, true)[d[i].0 as int] by {
                assert(d[i] == w[i]);
            }
        }
        lemma_substitution_live(d, g, rep, alive);
        lemma_word_inverse_live(rep, alive);
        let head = substitution(d, g, rep);
        let tail = if w.last().0 == g {
            if w.last().1 {
                word_inverse(rep)
            } else {
                rep
            }
        } else {
            seq![w.last()]
        };
        assert(w.last() == w[w.len() - 1]);
        assert forall|i: int| 0 <= i < (head + tail).len() implies (#[trigger] (head + tail)[i]).0
            < alive.len() && alive[(head + tail)[i].0 as int] by {
            if i < head.len() {
                assert((head + tail)[i] == head[i]);
            } else {
                assert((head + tail)[i] == tail[i - head.len()]);
            }
        }
    }
}

/// Whether two words are identical.
pub fn words_equal(a: &[(usize, bool)], b: &[(usize, bool)]) -> (r: bool)
    ensures
        r == (a@ == b@),
{
    if a.len() != b.len() {
        return false;
    }
    let mut i: usize = 0;
    while i < a.len()
        invariant
            i <= a.len(),
            a.len() == b.len(),
            forall|k: int| 0 <= k < i ==> a@[k] == b@[k],
        decreases a.len() - i,
    {
        if a[i].0 != b[i].0 || a[i].1 != b[i].1 {
            return false;
        }
        i = i + 1;
    }
    assert(a@ =~= b@);
    true
}

/// How many letters of `w` name generator `g`.
pub open spec fn occurrences(w: Seq<(usize, bool)>, g: usize) -> nat
    decreases w.len(),
{
    if w.len() == 0 {
        0
    } else {
        occurrences(w.drop_last(), g) + (if w.last().0 == g {
            1nat
        } else {
            0nat
        })
    }
}

/// A generator occurring exactly once in a word occurs at one position only.
pub proof fn lemma_occurrences_single(w: Seq<(usize, bool)>, g: usize, p: int)
    requires
        0 <= p < w.len(),
        w[p].0 == g,
        occurrences(w, g) == 1,
    ensures
        forall|k: int| 0 <= k < w.len() && k != p ==> (#[trigger] w[k]).0 != g,
    decreases w.len(),
{
    lemma_occurrences_positive(w, g);
    if w.len() > 0 {
        let d = w.drop_last();
        if p == w.len() - 1 {
            assert(occurrences(d, g) == 0);
            assert forall|k: int| 0 <= k < w.len() && k != p implies (#[trigger] w[k]).0 != g by {
                assert(w[k] == d[k]);
                lemma_occurrences_positive(d, g);
            }
        } else {
            assert(d[p] == w[p]);
            lemma_occurrences_positive(d, g);
            if w.last().0 == g {
                assert(occurrences(d, g) == 0);
            }
            assert(occurrences(d, g) == 1);
            lemma_occurrences_single(d, g, p);
            assert forall|k: int| 0 <= k < w.len() && k != p implies (#[trigger] w[k]).0 != g by {
                if k < w.len() - 1 {
                    assert(w[k] == d[k]);
                }
            }
        }
    }
}

/// A word with no occurrence of `g` has no letter naming `g`.
pub proof fn lemma_occurrences_positive(w: Seq<(usize, bool)>, g: usize)
    ensures
        occurrences(w, g) == 0 ==> forall|k: int| 0 <= k < w.len() ==> (#[trigger] w[k]).0 != g,
    decreases w.len(),
{
    if w.len() > 0 {
        let d = w.drop_last();
        lemma_occurrences_positive(d, g);
        assert forall|k: int| occurrences(w, g) == 0 && 0 <= k < w.len() implies (
        #[trigger] w[k]).0 != g by {
            if k < w.len() - 1 {
                assert(w[k] == d[k]);
            }
        }
    }
}

/// How many letters of `w` are inverted.
pub open spec fn inverted_letters(w: Seq<(usize, bool)>) -> nat
    decreases w.len(),
{
    if w.len() == 0 {
        0
    } else {
        inverted_letters(w.drop_last()) + (if w.last().1 {
            1nat
        } else {
            0nat
        })
    }
}

/// A relator in the form Tietze simplification leaves: cyclically reduced,
/// with no generator occurring exactly once, and with at most half of its
/// letters inverted.
pub open spec fn is_simplified_relator(w: Seq<(usize, bool)>) -> bool {
    &&& is_cyclically_reduced(w)
    &&& no_single_occurrence(w)
    &&& 2 * inverted_letters(w) <= w.len()
}

/// No generator occurs exactly once in `w`.
pub open spec fn no_single_occurrence(w: Seq<(usize, bool)>) -> bool {
    forall|g: usize| #[trigger] occurrences(w, g) != 1
}

/// A generator that occurs has a position.
proof fn lemma_occurrence_witness(w: Seq<(usize, bool)>, g: usize)
    requires
        occurrences(w, g) > 0,
    ensures
        exists|q: int| 0 <= q < w.len() && (#[trigger] w[q]).0 == g,
    decreases w.len(),
{
    let d = w.drop_last();
    if w.last().0 == g {
        assert(w[w.len() - 1].0 == g);
    } else {
        lemma_occurrence_witness(d, g);
        let q = choose|q: int| 0 <= q < d.len() && (#[trigger] d[q]).0 == g;
        assert(w[q] == d[q]);
    }
}

/// If no letter's generator occurs exactly once, no generator does.
proof fn lemma_no_single_from_positions(w: Seq<(usize, bool)>)
    requires
        forall|p: int| 0 <= p < w.len() ==> occurrences(w, (#[trigger] w[p]).0) != 1,
    ensures
        no_single_occurrence(w),
{
    assert forall|g: usize| #[trigger] occurrences(w, g) != 1 by {
        if occurrences(w, g) == 1 {
            lemma_occurrence_witness(w, g);
            let q = choose|q: int| 0 <= q < w.len() && (#[trigger] w[q]).0 == g;
            assert(occurrences(w, w[q].0) != 1);
        }
    }
}

/// Occurrences add over concatenation.
proof fn lemma_occurrences_concat(a: Seq<(usize, bool)>, b: Seq<(usize, bool)>, g: usize)
    ensures
        occurrences(a + b, g) == occurrences(a, g) + occurrences(b, g),
    decreases b.len(),
{
    if b.len() == 0 {
        assert(a + b =~= a);
    } else {
        assert((a + b).drop_last() =~= a + b.drop_last());
        assert((a + b).last() == b.last());
        lemma_occurrences_concat(a, b.drop_last(), g);
    }
}

/// A rotation has the same occurrences, and a rotation of a cyclically
/// reduced word is cyclically reduced.
proof fn lemma_rotation_keeps(w: Seq<(usize, bool)>, k: int)
    requires
        0 <= k < w.len(),
    ensures
        forall|g: usize| #[trigger] occurrences(rotation(w, k), g) == occurrences(w, g),
        is_cyclically_reduced(w) ==> is_cyclically_reduced(rotation(w, k)),
{
    let n = w.len();
    let r = rotation(w, k);
    assert(w =~= w.take(k) + w.skip(k));
    assert forall|g: usize| #[trigger] occurrences(rotation(w, k), g) == occurrences(w, g) by {
        lemma_occurrences_concat(w.skip(k), w.take(k), g);
        lemma_occurrences_concat(w.take(k), w.skip(k), g);
    }
    assert(r.len() == n);
    assert forall|i: int| 0 <= i < n implies #[trigger] r[i] == (if i < n - k {
        w[i + k]
    } else {
        w[i - (n - k)]
    }) by {}
    if is_cyclically_reduced(w) {
        assert forall|i: int| 0 <= i < r.len() - 1 implies r[i + 1] != letter_inverse(#[trigger] r[i]) by {
            if i + 1 < n - k {
                assert(w[(i + k) + 1] != letter_inverse(w[i + k]));
            } else if i + 1 == n - k {
                assert(r[i] == w[n - 1]);
                assert(r[i + 1] == w[0]);
                assert(w.last() == w[n - 1]);
                if n >= 2 {
                    assert(!cyclically_cancels(w));
                }
            } else {
                assert(w[(i - (n - k)) + 1] != letter_inverse(w[i - (n - k)]));
            }
        }
        if n >= 2 && k > 0 {
            assert(r[0] == w[k]);
            assert(r.last() == r[n - 1]);
            assert(r[n - 1] == w[k - 1]);
            assert(w[(k - 1) + 1] != letter_inverse(w[k - 1]));
        }
        if k == 0 {
            assert(r =~= w);
        }
    }
}

/// A variant of a relator (a rotation of it or of its inverse) keeps its
/// occurrences, and its being cyclically reduced.
pub proof fn lemma_variant_keeps(w: Seq<(usize, bool)>, c: Seq<(usize, bool)>)
    requires
        is_relator_variant(w, c),
    ensures
        forall|g: usize| #[trigger] occurrences(c, g) == occurrences(w, g),
        is_cyclically_reduced(w) ==> is_cyclically_reduced(c),
{
    let k = choose|k: int| variant_at(w, c, k);
    let wi = word_inverse(w);
    if c == rotation(w, k) {
        lemma_rotation_keeps(w, k);
    } else {
        assert(wi.len() == w.len());
        lemma_rotation_keeps(wi, k);
        assert forall|g: usize| #[trigger] occurrences(c, g) == occurrences(w, g) by {
            lemma_inverse_counts(w, g);
        }
        if is_cyclically_reduced(w) {
            lemma_inverse_reduced(w);
        }
    }
}

/// Each generator `g` renamed `perm[g]`, and inverted where bit `g` of
/// `mask` is set.
pub open spec fn relabel_flip(w: Seq<(usize, bool)>, perm: Seq<usize>, mask: u32) -> Seq<(usize, bool)> {
    Seq::new(
        w.len(),
        |i: int| (perm[w[i].0 as int], w[i].1 != ((mask >> (w[i].0 as u32)) & 1 == 1)),
    )
}

/// Entries of `p` are pairwise distinct.
pub open spec fn is_injective(p: Seq<usize>) -> bool {
    forall|a: int, b: int| 0 <= a < p.len() && 0 <= b < p.len() && a != b ==> #[trigger] p[a] != #[trigger] p[b]
}

/// Renaming by an injective `perm` and flipping keeps a word cyclically
/// reduced and keeps every occurrence count, and no generator outside the
/// image of `perm` occurs.
proof fn lemma_relabel_flip_keeps(w: Seq<(usize, bool)>, perm: Seq<usize>, mask: u32)
    requires
        is_injective(perm),
        perm.len() <= usize::MAX,
        forall|i: int| 0 <= i < w.len() ==> (#[trigger] w[i]).0 < perm.len(),
    ensures
        is_cyclically_reduced(w) ==> is_cyclically_reduced(relabel_flip(w, perm, mask)),
        no_single_occurrence(w) ==> no_single_occurrence(relabel_flip(w, perm, mask)),
{
    let m = relabel_flip(w, perm, mask);
    if is_cyclically_reduced(w) {
        assert forall|i: int| 0 <= i < m.len() - 1 implies m[i + 1] != letter_inverse(#[trigger] m[i]) by {
            assert(w[i + 1] != letter_inverse(w[i]));
            if w[i + 1].0 != w[i].0 {
                assert(perm[w[i + 1].0 as int] != perm[w[i].0 as int]);
            }
        }
        if w.len() >= 2 {
            assert(m.last() == m[w.len() - 1]);
            assert(w.last() == w[w.len() - 1]);
            if w[0].0 != w.last().0 {
                assert(perm[w[0].0 as int] != perm[w[w.len() - 1].0 as int]);
            }
        }
    }
    if no_single_occurrence(w) {
        assert forall|h: usize| #[trigger] occurrences(m, h) != 1 by {
            if exists|g: usize| (g as int) < perm.len() && #[trigger] perm[g as int] == h {
                let g = choose|g: usize| (g as int) < perm.len() && #[trigger] perm[g as int] == h;
                lemma_relabel_flip_occurrences(w, perm, mask, g);
                assert(occurrences(w, g) != 1);
            } else {
                assert forall|g: int| 0 <= g < perm.len() implies perm[g] != h by {
                    let u = g as usize;
                    assert(u as int == g);
                }
                lemma_relabel_flip_absent(w, perm, mask, h);
            }
        }
    }
}

/// Renaming by an injective `perm` keeps how often each generator occurs.
proof fn lemma_relabel_flip_occurrences(w: Seq<(usize, bool)>, perm: Seq<usize>, mask: u32, g: usize)
    requires
        is_injective(perm),
        forall|i: int| 0 <= i < w.len() ==> (#[trigger] w[i]).0 < perm.len(),
        g < perm.len(),
    ensures
        occurrences(relabel_flip(w, perm, mask), perm[g as int]) == occurrences(w, g),
    decreases w.len(),
{
    if w.len() > 0 {
        let d = w.drop_last();
        assert(relabel_flip(w, perm, mask).drop_last() =~= relabel_flip(d, perm, mask));
        assert forall|i: int| 0 <= i < d.len() implies (#[trigger] d[i]).0 < perm.len() by {
            assert(d[i] == w[i]);
        }
        lemma_relabel_flip_occurrences(d, perm, mask, g);
        assert(w.last() == w[w.len() - 1]);
        if w.last().0 != g {
            assert(perm[w.last().0 as int] != perm[g as int]);
        }
    }
}

/// A generator outside the image of `perm` does not occur after renaming.
proof fn lemma_relabel_flip_absent(w: Seq<(usize, bool)>, perm: Seq<usize>, mask: u32, h: usize)
    requires
        forall|i: int| 0 <= i < w.len() ==> (#[trigger] w[i]).0 < perm.len(),
        forall|g: int| 0 <= g < perm.len() ==> perm[g] != h,
    ensures
        occurrences(relabel_flip(w, perm, mask), h) == 0,
    decreases w.len(),
{
    if w.len() > 0 {
        let d = w.drop_last();
        assert(relabel_flip(w, perm, mask).drop_last() =~= relabel_flip(d, perm, mask));
        assert forall|i: int| 0 <= i < d.len() implies (#[trigger] d[i]).0 < perm.len() by {
            assert(d[i] == w[i]);
        }
        lemma_relabel_flip_absent(d, perm, mask, h);
        assert(w.last() == w[w.len() - 1]);
    }
}

/// The letters of `w` with each generator `g` renamed `remap[g]`.
pub open spec fn relabel(w: Seq<(usize, bool)>, remap: Seq<usize>) -> Seq<(usize, bool)> {
    Seq::new(w.len(), |i: int| (remap[w[i].0 as int], w[i].1))
}

/// `remap` sends distinct live generators to distinct generators.
pub open spec fn injective_on(remap: Seq<usize>, alive: Seq<bool>) -> bool {
    forall|p: int, q: int|
        0 <= p < alive.len() && 0 <= q < alive.len() && alive[p] && alive[q] && p != q ==> #[trigger] remap[p]
            != #[trigger] remap[q]
}

/// Counting occurrences from the front: the first letter, then the rest.
proof fn lemma_occurrences_front(w: Seq<(usize, bool)>, g: usize)
    requires
        w.len() >= 1,
    ensures
        occurrences(w, g) == (if w[0].0 == g {
            1nat
        } else {
            0nat
        }) + occurrences(w.drop_first(), g),
    decreases w.len(),
{
    if w.len() > 1 {
        lemma_occurrences_front(w.drop_last(), g);
        assert(w.drop_last().drop_first() =~= w.drop_first().drop_last());
        assert(w.drop_last()[0] == w[0]);
        assert(w.drop_first().last() == w.last());
        assert(occurrences(w.drop_first(), g) == occurrences(w.drop_first().drop_last(), g) + (if w.last().0 == g {
            1nat
        } else {
            0nat
        }));
        assert(occurrences(w, g) == occurrences(w.drop_last(), g) + (if w.last().0 == g {
            1nat
        } else {
            0nat
        }));
        assert(occurrences(w.drop_last().drop_first(), g) == occurrences(w.drop_first().drop_last(), g));
        assert(occurrences(w.drop_last(), g) == (if w[0].0 == g {
            1nat
        } else {
            0nat
        }) + occurrences(w.drop_last().drop_first(), g));
    } else {
        assert(w.drop_first().len() == 0);
        assert(w.drop_last().len() == 0);
        assert(w.last() == w[0]);
        assert(occurrences(w.drop_first(), g) == 0);
        assert(occurrences(w.drop_last(), g) == 0);
    }
}

/// Counting inverted letters from the front.
proof fn lemma_inverted_front(w: Seq<(usize, bool)>)
    requires
        w.len() >= 1,
    ensures
        inverted_letters(w) == (if w[0].1 {
            1nat
        } else {
            0nat
        }) + inverted_letters(w.drop_first()),
    decreases w.len(),
{
    if w.len() > 1 {
        lemma_inverted_front(w.drop_last());
        assert(w.drop_last().drop_first() =~= w.drop_first().drop_last());
        assert(w.drop_last()[0] == w[0]);
        assert(w.drop_first().last() == w.last());
        assert(inverted_letters(w.drop_first()) == inverted_letters(w.drop_first().drop_last()) + (if w.last().1 {
            1nat
        } else {
            0nat
        }));
        assert(inverted_letters(w.drop_last().drop_first()) == inverted_letters(w.drop_first().drop_last()));
        assert(inverted_letters(w.drop_last()) == (if w[0].1 {
            1nat
        } else {
            0nat
        }) + inverted_letters(w.drop_last().drop_first()));
    } else {
        assert(w.drop_first().len() == 0);
        assert(w.drop_last().len() == 0);
        assert(w.last() == w[0]);
        assert(inverted_letters(w.drop_first()) == 0);
        assert(inverted_letters(w.drop_last()) == 0);
    }
}

/// Inverting a word keeps how often each generator occurs, and exchanges
/// inverted and uninverted letters.
pub proof fn lemma_inverse_counts(w: Seq<(usize, bool)>, g: usize)
    ensures
        occurrences(word_inverse(w), g) == occurrences(w, g),
        inverted_letters(word_inverse(w)) + inverted_letters(w) == w.len(),
    decreases w.len(),
{
    if w.len() > 0 {
        let wi = word_inverse(w);
        assert(wi.drop_last() =~= word_inverse(w.drop_first()));
        assert(wi.last() == letter_inverse(w[0]));
        lemma_inverse_counts(w.drop_first(), g);
        lemma_occurrences_front(w, g);
        lemma_inverted_front(w);
    }
}

/// Inverting keeps a word cyclically reduced.
pub proof fn lemma_inverse_reduced(w: Seq<(usize, bool)>)
    requires
        is_cyclically_reduced(w),
    ensures
        is_cyclically_reduced(word_inverse(w)),
{
    let n = w.len();
    let wi = word_inverse(w);
    assert forall|i: int| 0 <= i < wi.len() - 1 implies wi[i + 1] != letter_inverse(#[trigger] wi[i]) by {
        assert(wi[i] == letter_inverse(w[n - 1 - i]));
        assert(wi[i + 1] == letter_inverse(w[n - 1 - (i + 1)]));
        assert(w[(n - 2 - i) + 1] != letter_inverse(w[n - 2 - i]));
    }
    if n >= 2 {
        assert(wi[0] == letter_inverse(w[n - 1]));
        assert(wi.last() == letter_inverse(w[0]));
    }
}

/// Renaming live generators injectively keeps occurrence counts and
/// inverted letters.
pub proof fn lemma_relabel_counts(w: Seq<(usize, bool)>, remap: Seq<usize>, alive: Seq<bool>, g: usize)
    requires
        uses_live_generators(w, alive),
        injective_on(remap, alive),
        remap.len() == alive.len(),
        g < alive.len(),
        alive[g as int],
    ensures
        occurrences(relabel(w, remap), remap[g as int]) == occurrences(w, g),
        inverted_letters(relabel(w, remap)) == inverted_letters(w),
    decreases w.len(),
{
    if w.len() > 0 {
        let d = w.drop_last();
        assert(relabel(w, remap).drop_last() =~= relabel(d, remap));
        assert(uses_live_generators(d, alive)) by {
            assert forall|i: int| 0 <= i < d.len() implies (#[trigger] d[i]).0 < alive.len() && alive[d[i].0 as int] by {
                assert(d[i] == w[i]);
            }
        }
        lemma_relabel_counts(d, remap, alive, g);
        let l = w.last();
        assert(l == w[w.len() - 1]);
        assert(l.0 < alive.len() && alive[l.0 as int]);
        if l.0 != g {
            assert(remap[l.0 as int] != remap[g as int]);
        }
    }
}

/// Renaming live generators injectively keeps a word cyclically reduced.
pub proof fn lemma_relabel_reduced(w: Seq<(usize, bool)>, remap: Seq<usize>, alive: Seq<bool>)
    requires
        is_cyclically_reduced(w),
        uses_live_generators(w, alive),
        injective_on(remap, alive),
        remap.len() == alive.len(),
    ensures
        is_cyclically_reduced(relabel(w, remap)),
{
    let m = relabel(w, remap);
    assert forall|i: int| 0 <= i < m.len() - 1 implies m[i + 1] != letter_inverse(#[trigger] m[i]) by {
        assert(w[i].0 < alive.len() && alive[w[i].0 as int]);
        assert(w[i + 1].0 < alive.len() && alive[w[i + 1].0 as int]);
        assert(w[i + 1] != letter_inverse(w[i]));
        if w[i + 1].0 != w[i].0 {
            assert(remap[w[i + 1].0 as int] != remap[w[i].0 as int]);
        }
    }
    if w.len() >= 2 {
        assert(w[0].0 < alive.len() && alive[w[0].0 as int]);
        assert(w[w.len() - 1].0 < alive.len() && alive[w[w.len() - 1].0 as int]);
        assert(m.last() == m[w.len() - 1]);
        if w[0].0 != w.last().0 {
            assert(remap[w[0].0 as int] != remap[w[w.len() - 1].0 as int]);
        }
    }
}

/// The number of letters of `w` naming `g`.
fn count_occurrences(w: &[(usize, bool)], g: usize) -> (c: usize)
    ensures
        c == occurrences(w@, g),
{
    let mut c: usize = 0;
    let mut i: usize = 0;
    while i < w.len()
        invariant
            i <= w.len(),
            c == occurrences(w@.take(i as int), g),
            c <= i,
        decreases w.len() - i,
    {
        assert(w@.take(i + 1).drop_last() =~= w@.take(i as int));
        if w[i].0 == g {
            c = c + 1;
        }
        i = i + 1;
    }
    assert(w@.take(w.len() as int) =~= w@);
    c
}


/// Every relator is nonempty and names only generators below `n`.
pub open spec fn relators_within(rels: Seq<Vec<(usize, bool)>>, n: nat) -> bool {
    forall|k: int|
        0 <= k < rels.len() ==> (#[trigger] rels[k])@.len() > 0 && forall|i: int|
            0 <= i < rels[k]@.len() ==> (#[trigger] rels[k]@[i]).0 < n
}

/// Every relator is nonempty and names only live generators.
pub open spec fn relators_live(rels: Seq<Vec<(usize, bool)>>, alive: Seq<bool>) -> bool {
    forall|k: int|
        0 <= k < rels.len() ==> (#[trigger] rels[k])@.len() > 0 && uses_live_generators(
            rels[k]@,
            alive,
        )
}

/// Whether `w` is one of the words `rels`.
pub open spec fn word_among(w: Seq<(usize, bool)>, rels: Seq<Vec<(usize, bool)>>) -> bool {
    exists|m: int| 0 <= m < rels.len() && rels[m]@ == w
}

/// `c` is the least of the relator variants of `w`: the rotations of `w` and
/// of its inverse. The empty word's is empty.
pub open spec fn is_least_variant(w: Seq<(usize, bool)>, c: Seq<(usize, bool)>) -> bool {
    &&& (w.len() == 0 ==> c.len() == 0)
    &&& (w.len() > 0 ==> is_relator_variant(w, c))
    &&& forall|k: int| 0 <= k < w.len() ==> !#[trigger] word_lt(rotation(w, k), c)
    &&& forall|k: int| 0 <= k < w.len() ==> !#[trigger] word_lt(rotation(word_inverse(w), k), c)
}

/// Entry `i` of a rotation by `a` is entry `(i + a) mod |w|` of the word.
proof fn lemma_rotation_index(w: Seq<(usize, bool)>, a: int, i: int)
    requires
        0 <= a < w.len(),
        0 <= i < w.len(),
    ensures
        rotation(w, a)[i] == w[(i + a) % (w.len() as int)],
{
    let n = w.len() as int;
    if i < n - a {
        vstd::arithmetic::div_mod::lemma_small_mod((i + a) as nat, n as nat);
    } else {
        vstd::arithmetic::div_mod::lemma_mod_add_multiples_vanish(i + a - n, n);
        vstd::arithmetic::div_mod::lemma_small_mod((i + a - n) as nat, n as nat);
        assert(n + (i + a - n) == i + a);
    }
}

/// Rotating by `a` and then by `b` is rotating by `a + b`, modulo `|w|`.
proof fn lemma_rotation_rotation(w: Seq<(usize, bool)>, a: int, b: int)
    requires
        0 <= a < w.len(),
        0 <= b < w.len(),
    ensures
        rotation(rotation(w, a), b) == rotation(w, (a + b) % (w.len() as int)),
        0 <= (a + b) % (w.len() as int) < w.len(),
{
    let n = w.len() as int;
    let r = rotation(w, a);
    let ab = (a + b) % n;
    vstd::arithmetic::div_mod::lemma_mod_bound(a + b, n);
    assert forall|i: int| 0 <= i < n implies #[trigger] rotation(r, b)[i] == rotation(w, ab)[i] by {
        lemma_rotation_index(r, b, i);
        vstd::arithmetic::div_mod::lemma_mod_bound(i + b, n);
        lemma_rotation_index(w, a, (i + b) % n);
        lemma_rotation_index(w, ab, i);
        vstd::arithmetic::div_mod::lemma_add_mod_noop(i + b, a, n);
        vstd::arithmetic::div_mod::lemma_small_mod(a as nat, n as nat);
        vstd::arithmetic::div_mod::lemma_add_mod_noop(i, a + b, n);
        vstd::arithmetic::div_mod::lemma_small_mod(i as nat, n as nat);
        assert(i + b + a == i + (a + b));
    }
    assert(rotation(r, b) =~= rotation(w, ab));
}

/// The inverse of a rotation is a rotation of the inverse.
proof fn lemma_inverse_rotation(w: Seq<(usize, bool)>, a: int)
    requires
        0 <= a < w.len(),
    ensures
        word_inverse(rotation(w, a)) == rotation(word_inverse(w), (w.len() - a) % (w.len() as int)),
        0 <= (w.len() - a) % (w.len() as int) < w.len(),
{
    let n = w.len() as int;
    let b = (n - a) % n;
    let iw = word_inverse(w);
    vstd::arithmetic::div_mod::lemma_mod_bound(n - a, n);
    if a == 0 {
        vstd::arithmetic::div_mod::lemma_mod_self_0(n);
    } else {
        vstd::arithmetic::div_mod::lemma_small_mod((n - a) as nat, n as nat);
    }
    assert forall|i: int| 0 <= i < n implies #[trigger] word_inverse(rotation(w, a))[i] == rotation(iw, b)[i] by {
        lemma_rotation_index(w, a, n - 1 - i);
        lemma_rotation_index(iw, b, i);
        let p = (n - 1 - i + a) % n;
        let q = (i + b) % n;
        if a == 0 {
            vstd::arithmetic::div_mod::lemma_small_mod((n - 1 - i) as nat, n as nat);
            vstd::arithmetic::div_mod::lemma_small_mod(i as nat, n as nat);
            assert(p == n - 1 - i);
            assert(q == i);
        } else if i >= a {
            vstd::arithmetic::div_mod::lemma_small_mod((n - 1 - i + a) as nat, n as nat);
            vstd::arithmetic::div_mod::lemma_mod_add_multiples_vanish(i - a, n);
            vstd::arithmetic::div_mod::lemma_small_mod((i - a) as nat, n as nat);
            assert(n + (i - a) == i + b);
            assert(p == n - 1 - i + a);
            assert(q == i - a);
        } else {
            vstd::arithmetic::div_mod::lemma_mod_add_multiples_vanish(a - 1 - i, n);
            vstd::arithmetic::div_mod::lemma_small_mod((a - 1 - i) as nat, n as nat);
            vstd::arithmetic::div_mod::lemma_small_mod((i + n - a) as nat, n as nat);
            assert(n + (a - 1 - i) == n - 1 - i + a);
            assert(p == a - 1 - i);
            assert(q == i + n - a);
        }
        assert(n - 1 - p == q);
    }
    assert(word_inverse(rotation(w, a)) =~= rotation(iw, b));
}

/// The least variant of a word is its own least variant: a canonical form
/// is canonical.
pub proof fn lemma_least_variant_self(w: Seq<(usize, bool)>, c: Seq<(usize, bool)>)
    requires
        is_least_variant(w, c),
    ensures
        is_least_variant(c, c),
        canonical_form(c) == c,
{
    if w.len() == 0 {
        assert(c.len() == 0);
    } else {
        let n = w.len() as int;
        let k0 = choose|k: int| #[trigger] variant_at(w, c, k);
        assert(variant_at(w, c, k0));
        let iw = word_inverse(w);
        lemma_word_inverse_involution(w);
        assert(c.len() == n);
        assert(rotation(c, 0) =~= c);
        assert(variant_at(c, c, 0));
        assert forall|k: int| 0 <= k < c.len() implies !#[trigger] word_lt(rotation(c, k), c) by {
            if c == rotation(w, k0) {
                lemma_rotation_rotation(w, k0, k);
                assert(!word_lt(rotation(w, (k0 + k) % n), c));
            } else {
                assert(c == rotation(iw, k0));
                lemma_rotation_rotation(iw, k0, k);
                assert(!word_lt(rotation(word_inverse(w), (k0 + k) % n), c));
            }
        }
        assert forall|k: int| 0 <= k < c.len() implies !#[trigger] word_lt(rotation(word_inverse(c), k), c) by {
            if c == rotation(w, k0) {
                lemma_inverse_rotation(w, k0);
                let b = (n - k0) % n;
                lemma_rotation_rotation(iw, b, k);
                assert(!word_lt(rotation(word_inverse(w), (b + k) % n), c));
            } else {
                assert(c == rotation(iw, k0));
                lemma_inverse_rotation(iw, k0);
                let b = (n - k0) % n;
                assert(word_inverse(iw) == w);
                lemma_rotation_rotation(w, b, k);
                assert(!word_lt(rotation(w, (b + k) % n), c));
            }
        }
    }
    lemma_least_variant_unique(c, c);
}

/// The canonical form of a relator: the least of its variants, by which
/// relators are compared up to rotation and inversion.
pub open spec fn canonical_form(w: Seq<(usize, bool)>) -> Seq<(usize, bool)> {
    choose|c: Seq<(usize, bool)>| is_least_variant(w, c)
}

/// A word has one least variant, and it is the canonical form.
pub proof fn lemma_least_variant_unique(w: Seq<(usize, bool)>, c: Seq<(usize, bool)>)
    requires
        is_least_variant(w, c),
    ensures
        canonical_form(w) == c,
{
    let d = canonical_form(w);
    assert(is_least_variant(w, d));
    if w.len() == 0 {
        assert(c =~= d);
    } else if c != d {
        let kc = choose|k: int| variant_at(w, c, k);
        let kd = choose|k: int| variant_at(w, d, k);
        assert(!word_lt(c, d)) by {
            if c == rotation(w, kc) {
                assert(!word_lt(rotation(w, kc), d));
            } else {
                assert(!word_lt(rotation(word_inverse(w), kc), d));
            }
        }
        assert(!word_lt(d, c)) by {
            if d == rotation(w, kd) {
                assert(!word_lt(rotation(w, kd), c));
            } else {
                assert(!word_lt(rotation(word_inverse(w), kd), c));
            }
        }
        lemma_word_lt_total(c, d);
    }
}

/// No relator is a rotation of another or of another's inverse: no two are
/// the same relation up to rotation and inversion.
pub open spec fn pairwise_unrelated(rels: Seq<Seq<(usize, bool)>>) -> bool {
    forall|a: int, b: int|
        0 <= a < rels.len() && 0 <= b < rels.len() && a != b ==> !#[trigger] is_relator_variant(rels[a], rels[b])
}

/// Rotating by nothing leaves a word as it is.
proof fn lemma_rotation_zero(w: Seq<(usize, bool)>)
    ensures
        rotation(w, 0) == w,
{
    assert(rotation(w, 0) =~= w);
}

/// The rotation that undoes a rotation by `k`.
proof fn lemma_rotation_undo(w: Seq<(usize, bool)>, k: int) -> (b: int)
    requires
        0 <= k < w.len(),
    ensures
        0 <= b < w.len(),
        rotation(rotation(w, k), b) == w,
{
    let n = w.len() as int;
    let b = if k == 0 {
        0
    } else {
        n - k
    };
    lemma_rotation_rotation(w, k, b);
    if k == 0 {
        vstd::arithmetic::div_mod::lemma_small_mod(0, n as nat);
    } else {
        vstd::arithmetic::div_mod::lemma_mod_self_0(n);
    }
    assert((k + b) % n == 0);
    lemma_rotation_zero(w);
    b
}

/// Being a variant is symmetric.
pub proof fn lemma_variant_symmetric(w: Seq<(usize, bool)>, c: Seq<(usize, bool)>)
    requires
        is_relator_variant(w, c),
    ensures
        is_relator_variant(c, w),
{
    let k = choose|k: int| #[trigger] variant_at(w, c, k);
    let iw = word_inverse(w);
    if c == rotation(w, k) {
        let b = lemma_rotation_undo(w, k);
        assert(variant_at(c, w, b));
    } else {
        assert(c == rotation(iw, k));
        let b = lemma_rotation_undo(iw, k);
        assert(rotation(c, b) == iw);
        lemma_inverse_rotation(c, b);
        lemma_word_inverse_involution(w);
        assert(variant_at(c, w, (c.len() - b) % (c.len() as int)));
    }
}

/// Being a variant is transitive.
pub proof fn lemma_variant_transitive(u: Seq<(usize, bool)>, v: Seq<(usize, bool)>, w: Seq<(usize, bool)>)
    requires
        is_relator_variant(u, v),
        is_relator_variant(v, w),
    ensures
        is_relator_variant(u, w),
{
    let n = u.len() as int;
    let iu = word_inverse(u);
    let k1 = choose|k: int| #[trigger] variant_at(u, v, k);
    let k2 = choose|k: int| #[trigger] variant_at(v, w, k);
    lemma_word_inverse_involution(u);
    if v == rotation(u, k1) {
        if w == rotation(v, k2) {
            lemma_rotation_rotation(u, k1, k2);
            assert(variant_at(u, w, (k1 + k2) % n));
        } else {
            lemma_inverse_rotation(u, k1);
            let b = (n - k1) % n;
            lemma_rotation_rotation(iu, b, k2);
            assert(variant_at(u, w, (b + k2) % n));
        }
    } else {
        assert(v == rotation(iu, k1));
        if w == rotation(v, k2) {
            lemma_rotation_rotation(iu, k1, k2);
            assert(variant_at(u, w, (k1 + k2) % n));
        } else {
            lemma_inverse_rotation(iu, k1);
            let b = (n - k1) % n;
            lemma_rotation_rotation(u, b, k2);
            assert(variant_at(u, w, (b + k2) % n));
        }
    }
}

/// Inverting either word keeps the relation: a variant of `w` is one of
/// `w⁻¹`, and its inverse is a variant of `w`.
pub proof fn lemma_variant_inverse(w: Seq<(usize, bool)>, c: Seq<(usize, bool)>)
    requires
        is_relator_variant(w, c),
    ensures
        is_relator_variant(word_inverse(w), c),
        is_relator_variant(w, word_inverse(c)),
{
    let n = w.len() as int;
    let iw = word_inverse(w);
    let k = choose|k: int| #[trigger] variant_at(w, c, k);
    lemma_word_inverse_involution(w);
    if c == rotation(w, k) {
        assert(variant_at(iw, c, k));
        lemma_inverse_rotation(w, k);
        assert(variant_at(w, word_inverse(c), (n - k) % n));
    } else {
        assert(c == rotation(iw, k));
        assert(variant_at(iw, c, k));
        lemma_inverse_rotation(iw, k);
        assert(variant_at(w, word_inverse(c), (n - k) % n));
    }
}

/// A least variant of a word is the canonical form of every variant of it.
pub proof fn lemma_variant_canonical(v: Seq<(usize, bool)>, c: Seq<(usize, bool)>, w: Seq<(usize, bool)>)
    requires
        is_least_variant(v, c),
        is_relator_variant(v, w),
    ensures
        canonical_form(w) == c,
{
    let k0 = choose|k: int| #[trigger] variant_at(v, w, k);
    assert(v.len() > 0);
    assert(w.len() == v.len());
    lemma_variant_symmetric(v, w);
    lemma_variant_transitive(w, v, c);
    assert forall|k: int| 0 <= k < w.len() implies !#[trigger] word_lt(rotation(w, k), c) by {
        assert(variant_at(w, rotation(w, k), k));
        lemma_variant_transitive(v, w, rotation(w, k));
        let k2 = choose|k2: int| #[trigger] variant_at(v, rotation(w, k), k2);
        if rotation(w, k) == rotation(v, k2) {
            assert(!word_lt(rotation(v, k2), c));
        } else {
            assert(!word_lt(rotation(word_inverse(v), k2), c));
        }
    }
    assert forall|k: int| 0 <= k < w.len() implies !#[trigger] word_lt(rotation(word_inverse(w), k), c) by {
        assert(variant_at(w, rotation(word_inverse(w), k), k));
        lemma_variant_transitive(v, w, rotation(word_inverse(w), k));
        let k2 = choose|k2: int| #[trigger] variant_at(v, rotation(word_inverse(w), k), k2);
        if rotation(word_inverse(w), k) == rotation(v, k2) {
            assert(!word_lt(rotation(v, k2), c));
        } else {
            assert(!word_lt(rotation(word_inverse(v), k2), c));
        }
    }
    assert(is_least_variant(w, c));
    lemma_least_variant_unique(w, c);
}

/// Relabelling commutes with rotation and with inversion.
proof fn lemma_relabel_commutes(w: Seq<(usize, bool)>, remap: Seq<usize>, k: int)
    requires
        0 <= k <= w.len(),
    ensures
        relabel(rotation(w, k), remap) == rotation(relabel(w, remap), k),
        relabel(word_inverse(w), remap) == word_inverse(relabel(w, remap)),
{
    assert(relabel(rotation(w, k), remap) =~= rotation(relabel(w, remap), k));
    assert(relabel(word_inverse(w), remap) =~= word_inverse(relabel(w, remap)));
}

/// A relabelling injective on the live generators tells words on them apart.
proof fn lemma_relabel_injective(x: Seq<(usize, bool)>, y: Seq<(usize, bool)>, remap: Seq<usize>, alive: Seq<bool>)
    requires
        uses_live_generators(x, alive),
        uses_live_generators(y, alive),
        injective_on(remap, alive),
        relabel(x, remap) == relabel(y, remap),
    ensures
        x == y,
{
    assert(x.len() == relabel(x, remap).len());
    assert forall|i: int| 0 <= i < x.len() implies x[i] == y[i] by {
        assert(relabel(x, remap)[i] == relabel(y, remap)[i]);
        assert(x[i].0 < alive.len() && alive[x[i].0 as int]);
        assert(y[i].0 < alive.len() && alive[y[i].0 as int]);
    }
    assert(x =~= y);
}

/// An injective relabelling does not make unrelated relators related.
proof fn lemma_relabel_reflects(v: Seq<(usize, bool)>, w: Seq<(usize, bool)>, remap: Seq<usize>, alive: Seq<bool>)
    requires
        uses_live_generators(v, alive),
        uses_live_generators(w, alive),
        injective_on(remap, alive),
        is_relator_variant(relabel(v, remap), relabel(w, remap)),
    ensures
        is_relator_variant(v, w),
{
    let rv = relabel(v, remap);
    let k = choose|k: int| #[trigger] variant_at(rv, relabel(w, remap), k);
    lemma_relabel_commutes(v, remap, k);
    lemma_word_inverse_live(v, alive);
    let iv = word_inverse(v);
    lemma_relabel_commutes(iv, remap, k);
    if relabel(w, remap) == rotation(rv, k) {
        assert(uses_live_generators(rotation(v, k), alive)) by {
            assert forall|i: int| 0 <= i < rotation(v, k).len() implies (#[trigger] rotation(v, k)[i]).0 < alive.len()
                && alive[rotation(v, k)[i].0 as int] by {
                lemma_rotation_index(v, k, i);
            }
        }
        lemma_relabel_injective(w, rotation(v, k), remap, alive);
        assert(variant_at(v, w, k));
    } else {
        assert(uses_live_generators(rotation(iv, k), alive)) by {
            assert forall|i: int| 0 <= i < rotation(iv, k).len() implies (#[trigger] rotation(iv, k)[i]).0
                < alive.len() && alive[rotation(iv, k)[i].0 as int] by {
                lemma_rotation_index(iv, k, i);
            }
        }
        lemma_relabel_injective(w, rotation(iv, k), remap, alive);
        assert(variant_at(v, w, k));
    }
}

/// `kept` keeps the first relator of each class of `rels` up to rotation and
/// inversion: every relator is in the class of a kept one, no two kept
/// relators share a class, and each kept relator is the first of its class.
pub open spec fn first_of_each_class(rels: Seq<Vec<(usize, bool)>>, kept: Seq<Vec<(usize, bool)>>) -> bool {
    &&& forall|i: int| #![trigger rels[i]] 0 <= i && i < rels.len() ==> kept_class(kept, canonical_form(rels[i]@))
    &&& forall|a: int, b: int| 0 <= a < b < kept.len() ==> canonical_form(#[trigger] kept[a]@) != canonical_form(#[trigger] kept[b]@)
    &&& forall|k: int| #![trigger kept[k]] 0 <= k && k < kept.len() ==> first_in(rels, kept[k]@)
}

/// Some relator of `kept` has canonical form `c`.
pub open spec fn kept_class(kept: Seq<Vec<(usize, bool)>>, c: Seq<(usize, bool)>) -> bool {
    exists|k: int| 0 <= k < kept.len() && canonical_form(#[trigger] kept[k]@) == c
}

/// One of the words `seen` is `c`.
pub open spec fn seen_has(seen: Seq<Vec<(usize, bool)>>, c: Seq<(usize, bool)>) -> bool {
    exists|q: int| 0 <= q < seen.len() && #[trigger] seen[q]@ == c
}

/// `w` is a relator of `rels` whose class no earlier relator shares.
pub open spec fn first_in(rels: Seq<Vec<(usize, bool)>>, w: Seq<(usize, bool)>) -> bool {
    exists|i: int|
        0 <= i < rels.len() && #[trigger] rels[i]@ == w && forall|j: int|
            0 <= j < i ==> canonical_form(#[trigger] rels[j]@) != canonical_form(w)
}

/// What the scan of `dedupe_relators` establishes gives the classes.
proof fn lemma_first_of_each_class(
    rels: Seq<Vec<(usize, bool)>>,
    kept: Seq<Vec<(usize, bool)>>,
    seen: Seq<Vec<(usize, bool)>>,
)
    requires
        seen.len() == kept.len(),
        forall|q: int| 0 <= q < seen.len() ==> (#[trigger] seen[q])@ == canonical_form(kept[q]@),
        forall|a: int, b: int| 0 <= a < b < seen.len() ==> (#[trigger] seen[a])@ != (#[trigger] seen[b])@,
        forall|i2: int| #![trigger rels[i2]] 0 <= i2 && i2 < rels.len() ==> seen_has(seen, canonical_form(rels[i2]@)),
        forall|k: int| #![trigger kept[k]] 0 <= k && k < kept.len() ==> first_in(rels, kept[k]@),
    ensures
        first_of_each_class(rels, kept),
{
    assert forall|i: int| 0 <= i && i < rels.len() implies kept_class(kept, canonical_form(#[trigger] rels[i]@)) by {
        assert(seen_has(seen, canonical_form(rels[i]@)));
        let q = choose|q: int| 0 <= q < seen.len() && #[trigger] seen[q]@ == canonical_form(rels[i]@);
        assert(seen[q]@ == canonical_form(kept[q]@));
    }
    assert forall|a: int, b: int| 0 <= a < b < kept.len() implies canonical_form(#[trigger] kept[a]@) != canonical_form(#[trigger] kept[b]@) by {
        assert(seen[a]@ == canonical_form(kept[a]@));
        assert(seen[b]@ == canonical_form(kept[b]@));
    }
}

/// The first relator of each class, kept with its least variant, are
/// unrelated to one another.
proof fn lemma_kept_unrelated(rels: Seq<Vec<(usize, bool)>>, kept: Seq<Vec<(usize, bool)>>)
    requires
        first_of_each_class(rels, kept),
        forall|k: int| 0 <= k < kept.len() ==> is_least_variant(#[trigger] kept[k]@, canonical_form(kept[k]@)),
    ensures
        pairwise_unrelated(views(kept)),
{
    let vk = views(kept);
    assert forall|a: int, b: int| 0 <= a < vk.len() && 0 <= b < vk.len() && a != b implies !#[trigger] is_relator_variant(
        vk[a],
        vk[b],
    ) by {
        assert(vk[a] == kept[a]@);
        assert(vk[b] == kept[b]@);
        if is_relator_variant(vk[a], vk[b]) {
            assert(is_least_variant(kept[a]@, canonical_form(kept[a]@)));
            lemma_variant_canonical(kept[a]@, canonical_form(kept[a]@), kept[b]@);
            if a < b {
                assert(canonical_form(kept[a]@) != canonical_form(kept[b]@));
            } else {
                assert(canonical_form(kept[b]@) != canonical_form(kept[a]@));
            }
        }
    }
}

/// Keeps the first relator of each class up to rotation and inversion.
fn dedupe_relators(rels: Vec<Vec<(usize, bool)>>) -> (r: Vec<Vec<(usize, bool)>>)
    ensures
        r.len() <= rels.len(),
        forall|k: int| 0 <= k < r.len() ==> word_among(#[trigger] r@[k]@, rels@),
        first_of_each_class(rels@, r@),
        pairwise_unrelated(views(r@)),
{
    let mut kept: Vec<Vec<(usize, bool)>> = Vec::new();
    let mut seen: Vec<Vec<(usize, bool)>> = Vec::new();
    let mut i: usize = 0;
    while i < rels.len()
        invariant
            i <= rels.len(),
            kept.len() <= i,
            seen.len() == kept.len(),
            forall|k: int| 0 <= k < kept.len() ==> word_among(#[trigger] kept@[k]@, rels@),
            forall|q: int| 0 <= q < seen.len() ==> (#[trigger] seen@[q])@ == canonical_form(kept@[q]@),
            forall|q: int| 0 <= q < kept.len() ==> is_least_variant(#[trigger] kept@[q]@, canonical_form(kept@[q]@)),
            forall|a: int, b: int| 0 <= a < b < seen.len() ==> (#[trigger] seen@[a])@ != (#[trigger] seen@[b])@,
            forall|i2: int| #![trigger rels@[i2]] 0 <= i2 && i2 < i ==> seen_has(seen@, canonical_form(rels@[i2]@)),
            forall|k: int| #![trigger kept@[k]] 0 <= k && k < kept.len() ==> first_in(rels@, kept@[k]@),
        decreases rels.len() - i,
    {
        let c = canonical_relator(&rels[i]);
        proof {
            lemma_least_variant_unique(rels@[i as int]@, c@);
        }
        let mut found = false;
        let mut j: usize = 0;
        while j < seen.len()
            invariant
                j <= seen.len(),
                found <==> exists|q: int| 0 <= q < j && (#[trigger] seen@[q])@ == c@,
            decreases seen.len() - j,
        {
            if words_equal(&seen[j], &c) {
                found = true;
            }
            j = j + 1;
        }
        if !found {
            let ghost seen0 = seen@;
            let ghost kept0 = kept@;
            seen.push(c);
            let w = copy_word(&rels[i]);
            kept.push(w);
            proof {
                assert(kept@[kept.len() - 1]@ == rels@[i as int]@);
                assert forall|k: int| #![trigger kept@[k]] 0 <= k && k < kept.len() implies first_in(rels@, kept@[k]@) by {
                    if k < kept.len() - 1 {
                        assert(kept@[k] == kept0[k]);
                    } else {
                        assert forall|j: int| 0 <= j < i implies canonical_form(#[trigger] rels@[j]@) != canonical_form(rels@[i as int]@) by {
                            assert(seen_has(seen0, canonical_form(rels@[j]@)));
                            let q = choose|q: int| 0 <= q < seen0.len() && #[trigger] seen0[q]@ == canonical_form(rels@[j]@);
                            assert(seen@[q] == seen0[q]);
                        }
                        assert(rels@[i as int]@ == kept@[k]@);
                    }
                }
                assert forall|i2: int| #![trigger rels@[i2]] 0 <= i2 && i2 < i + 1 implies seen_has(seen@, canonical_form(rels@[i2]@)) by {
                    if i2 < i {
                        assert(seen_has(seen0, canonical_form(rels@[i2]@)));
                        let q = choose|q: int| 0 <= q < seen0.len() && #[trigger] seen0[q]@ == canonical_form(rels@[i2]@);
                        assert(seen@[q] == seen0[q]);
                    } else {
                        assert(seen@[seen.len() - 1]@ == c@);
                    }
                }
                assert forall|q: int| 0 <= q < seen.len() implies (#[trigger] seen@[q])@ == canonical_form(kept@[q]@) by {
                    if q < seen.len() - 1 {
                        assert(seen@[q] == seen0[q]);
                        assert(kept@[q] == kept0[q]);
                    }
                }
                assert forall|q: int| 0 <= q < kept.len() implies is_least_variant(#[trigger] kept@[q]@, canonical_form(kept@[q]@)) by {
                    if q < kept.len() - 1 {
                        assert(kept@[q] == kept0[q]);
                    } else {
                        assert(kept@[q]@ == rels@[i as int]@);
                        assert(canonical_form(rels@[i as int]@) == c@);
                    }
                }
                assert forall|a: int, b: int| 0 <= a < b < seen.len() implies (#[trigger] seen@[a])@ != (#[trigger] seen@[b])@ by {
                    assert(seen@[a] == seen0[a]);
                    if b < seen.len() - 1 {
                        assert(seen@[b] == seen0[b]);
                    }
                }
                assert forall|k: int| 0 <= k < kept.len() implies word_among(#[trigger] kept@[k]@, rels@) by {
                    if k < kept.len() - 1 {
                        assert(kept@[k] == kept0[k]);
                    } else {
                        assert(rels@[i as int]@ == kept@[k]@);
                    }
                }
            }
        } else {
            proof {
                let q = choose|q: int| 0 <= q < j && (#[trigger] seen@[q])@ == c@;
                assert forall|i2: int| #![trigger rels@[i2]] 0 <= i2 && i2 < i + 1 implies seen_has(seen@, canonical_form(rels@[i2]@)) by {
                    if i2 == i {
                        assert(seen@[q]@ == canonical_form(rels@[i2]@));
                    }
                }
            }
        }
        i = i + 1;
    }
    proof {
        lemma_first_of_each_class(rels@, kept@, seen@);
        lemma_kept_unrelated(rels@, kept@);
    }
    kept
}

/// A copy of a word.
pub fn copy_word(w: &[(usize, bool)]) -> (r: Vec<(usize, bool)>)
    ensures
        r@ == w@,
{
    let mut out: Vec<(usize, bool)> = Vec::new();
    let mut i: usize = 0;
    while i < w.len()
        invariant
            i <= w.len(),
            out@ == w@.take(i as int),
        decreases w.len() - i,
    {
        out.push(w[i]);
        assert(w@.take(i + 1) =~= w@.take(i as int).push(w@[i as int]));
        i = i + 1;
    }
    assert(w@.take(w.len() as int) =~= w@);
    out
}

/// Inserting a relator unrelated to those already placed keeps them
/// pairwise unrelated.
proof fn lemma_insert_unrelated(
    rels: Seq<Vec<(usize, bool)>>,
    before: Seq<Vec<(usize, bool)>>,
    out: Seq<Vec<(usize, bool)>>,
    pos: int,
    i: int,
)
    requires
        0 <= i < rels.len(),
        0 <= pos <= before.len(),
        out.len() == before.len() + 1,
        forall|k: int| 0 <= k < pos ==> out[k] == before[k],
        out[pos]@ == rels[i]@,
        forall|k: int| pos < k < out.len() ==> out[k] == before[k - 1],
        forall|k: int| 0 <= k < before.len() ==> exists|m: int| 0 <= m < i && #[trigger] rels[m]@ == (#[trigger] before[k])@,
        pairwise_unrelated(views(rels)),
        pairwise_unrelated(views(before)),
    ensures
        pairwise_unrelated(views(out)),
{
    let vr = views(rels);
    let vo = views(out);
    let vb = views(before);
    assert forall|a: int, b: int| 0 <= a < vo.len() && 0 <= b < vo.len() && a != b implies !#[trigger] is_relator_variant(
        vo[a],
        vo[b],
    ) by {
        let sa = if a < pos { a } else if a == pos { -1 } else { a - 1 };
        let sb = if b < pos { b } else if b == pos { -1 } else { b - 1 };
        assert(vo[a] == out[a]@);
        assert(vo[b] == out[b]@);
        if sa >= 0 {
            assert(out[a] == before[sa]);
        }
        if sb >= 0 {
            assert(out[b] == before[sb]);
        }
        if sa >= 0 && sb >= 0 {
            assert(vb[sa] == before[sa]@);
            assert(vb[sb] == before[sb]@);
            assert(!is_relator_variant(vb[sa], vb[sb]));
        } else if sa >= 0 {
            let ma = choose|m: int| 0 <= m < i && #[trigger] rels[m]@ == (#[trigger] before[sa])@;
            assert(vr[ma] == rels[ma]@);
            assert(vr[i] == rels[i]@);
            assert(!is_relator_variant(vr[ma], vr[i]));
        } else {
            let mb = choose|m: int| 0 <= m < i && #[trigger] rels[m]@ == (#[trigger] before[sb])@;
            assert(vr[mb] == rels[mb]@);
            assert(vr[i] == rels[i]@);
            assert(!is_relator_variant(vr[i], vr[mb]));
        }
    }
}

/// Stable sort of relators by length (insertion sort).
fn sort_by_length(rels: Vec<Vec<(usize, bool)>>) -> (r: Vec<Vec<(usize, bool)>>)
    ensures
        r.len() == rels.len(),
        forall|k: int| 0 <= k < r.len() ==> word_among(#[trigger] r@[k]@, rels@),
        forall|m: int| 0 <= m < rels.len() ==> word_among(#[trigger] rels@[m]@, r@),
        forall|a: int, b: int| 0 <= a < b < r.len() ==> r@[a]@.len() <= r@[b]@.len(),
        pairwise_unrelated(views(rels@)) ==> pairwise_unrelated(views(r@)),
{
    let mut out: Vec<Vec<(usize, bool)>> = Vec::new();
    let mut i: usize = 0;
    while i < rels.len()
        invariant
            i <= rels.len(),
            out.len() == i,
            forall|k: int| 0 <= k < out.len() ==> word_among(#[trigger] out@[k]@, rels@),
            forall|m: int| 0 <= m < i ==> word_among(#[trigger] rels@[m]@, out@),
            forall|a: int, b: int| 0 <= a < b < out.len() ==> out@[a]@.len() <= out@[b]@.len(),
            forall|k: int| 0 <= k < out.len() ==> exists|m: int| 0 <= m < i && #[trigger] rels@[m]@ == (#[trigger] out@[k])@,
            pairwise_unrelated(views(rels@)) ==> pairwise_unrelated(views(out@)),
        decreases rels.len() - i,
    {
        let w = copy_word(&rels[i]);
        let len = w.len();
        let mut pos = out.len();
        while pos > 0 && out[pos - 1].len() > len
            invariant
                pos <= out.len(),
                forall|k: int| pos <= k < out.len() ==> out@[k]@.len() > len,
            decreases pos,
        {
            pos = pos - 1;
        }
        let ghost before = out@;
        out.insert(pos, w);
        proof {
            assert forall|m: int| 0 <= m < i + 1 implies word_among(#[trigger] rels@[m]@, out@) by {
                if m < i {
                    let q = choose|q: int| 0 <= q < before.len() && before[q]@ == rels@[m]@;
                    if q < pos {
                        assert(out@[q] == before[q]);
                    } else {
                        assert(out@[q + 1] == before[q]);
                    }
                } else {
                    assert(out@[pos as int]@ == rels@[m]@);
                }
            }
            assert forall|k: int| 0 <= k < out.len() implies word_among(#[trigger] out@[k]@, rels@) by {
                if k < pos {
                    assert(out@[k] == before[k]);
                } else if k == pos {
                    assert(out@[k]@ == rels@[i as int]@);
                } else {
                    assert(out@[k] == before[k - 1]);
                }
            }
            assert forall|k: int| 0 <= k < out.len() implies exists|m: int| 0 <= m < i + 1 && #[trigger] rels@[m]@
                == (#[trigger] out@[k])@ by {
                if k < pos {
                    assert(out@[k] == before[k]);
                } else if k == pos {
                    assert(rels@[i as int]@ == out@[k]@);
                } else {
                    assert(out@[k] == before[k - 1]);
                }
            }
            if pairwise_unrelated(views(rels@)) {
                lemma_insert_unrelated(rels@, before, out@, pos as int, i as int);
            }
        }
        i = i + 1;
    }
    out
}

/// Whether some generator occurs exactly once in relator `w`, and where.
fn single_occurrence(w: &[(usize, bool)]) -> (r: Option<usize>)
    ensures
        r matches Some(pos) ==> pos < w@.len() && occurrences(w@, w@[pos as int].0) == 1,
        r is None ==> forall|p: int| 0 <= p < w@.len() ==> occurrences(w@, (#[trigger] w@[p]).0) != 1,
{
    let mut pos: usize = 0;
    while pos < w.len()
        invariant
            pos <= w.len(),
            forall|p: int| 0 <= p < pos ==> occurrences(w@, (#[trigger] w@[p]).0) != 1,
        decreases w.len() - pos,
    {
        if count_occurrences(w, w[pos].0) == 1 {
            return Some(pos);
        }
        pos = pos + 1;
    }
    None
}

/// Solves relator `r = … g^e …` (with `g` occurring once at `pos`) for `g`:
/// rotating `r` to start at `g` gives `g^e · rest = 1`, so `g = rest⁻¹` when
/// `e = 1` and `g = rest` when `e = -1`.
fn solve_for_generator(r: &[(usize, bool)], pos: usize) -> (repl: Vec<(usize, bool)>)
    requires
        pos < r@.len(),
        occurrences(r@, r@[pos as int].0) == 1,
    ensures
        repl@ == (if r@[pos as int].1 {
            free_reduction(r@.subrange(pos + 1, r@.len() as int) + r@.subrange(0, pos as int))
        } else {
            word_inverse(r@.subrange(pos + 1, r@.len() as int) + r@.subrange(0, pos as int))
        }),
        forall|i: int| 0 <= i < repl@.len() ==> (#[trigger] repl@[i]).0 != r@[pos as int].0
            && exists|m: int| 0 <= m < r@.len() && r@[m].0 == repl@[i].0,
{
    let g = r[pos].0;
    proof {
        lemma_occurrences_single(r@, g, pos as int);
    }
    let mut rest: Vec<(usize, bool)> = Vec::new();
    let mut i: usize = pos + 1;
    while i < r.len()
        invariant
            pos < i <= r.len(),
            g == r@[pos as int].0,
            forall|k: int| 0 <= k < r@.len() && k != pos ==> (#[trigger] r@[k]).0 != g,
            forall|k: int| 0 <= k < rest@.len() ==> (#[trigger] rest@[k]).0 != g && exists|m: int| 0 <= m < r@.len() && r@[m].0 == rest@[k].0,
            rest@ == r@.subrange(pos + 1, i as int),
        decreases r.len() - i,
    {
        rest.push(r[i]);
        proof {
            assert(rest@[rest@.len() - 1] == r@[i as int]);
        }
        i = i + 1;
    }
    let mut j: usize = 0;
    while j < pos
        invariant
            j <= pos < r@.len(),
            g == r@[pos as int].0,
            forall|k: int| 0 <= k < r@.len() && k != pos ==> (#[trigger] r@[k]).0 != g,
            forall|k: int| 0 <= k < rest@.len() ==> (#[trigger] rest@[k]).0 != g && exists|m: int| 0 <= m < r@.len() && r@[m].0 == rest@[k].0,
            rest@ == r@.subrange(pos + 1, r@.len() as int) + r@.subrange(0, j as int),
        decreases pos - j,
    {
        rest.push(r[j]);
        proof {
            assert(rest@[rest@.len() - 1] == r@[j as int]);
        }
        j = j + 1;
    }
    let repl = if r[pos].1 {
        let f = free_reduce(rest);
        proof {
            lemma_free_reduction_letters(rest@);
            assert forall|k: int| 0 <= k < f@.len() implies (#[trigger] f@[k]).0 != g && exists|m: int| 0 <= m < r@.len() && r@[m].0 == f@[k].0 by {
                let m = choose|m: int| 0 <= m < rest@.len() && free_reduction(rest@)[k] == rest@[m];
                assert(rest@[m].0 != g);
            }
        }
        f
    } else {
        let f = invert(&rest);
        proof {
            assert forall|k: int| 0 <= k < f@.len() implies (#[trigger] f@[k]).0 != g && exists|m: int| 0 <= m < r@.len() && r@[m].0 == f@[k].0 by {
                assert(f@[k] == letter_inverse(rest@[rest@.len() - 1 - k]));
                assert(rest@[rest@.len() - 1 - k].0 != g);
            }
        }
        f
    };
    repl
}


/// Cyclic reduction keeps a word within the live generators.
pub proof fn lemma_cyclic_reduction_live(w: Seq<(usize, bool)>, alive: Seq<bool>)
    requires
        uses_live_generators(w, alive),
    ensures
        uses_live_generators(cyclic_reduction(w), alive),
{
    lemma_free_reduction_live(w, alive);
    lemma_cyclic_strip_live(free_reduction(w), alive);
}

/// The number of live generators.
pub open spec fn live_count(alive: Seq<bool>) -> nat
    decreases alive.len(),
{
    if alive.len() == 0 {
        0
    } else {
        live_count(alive.drop_last()) + if alive.last() {
            1nat
        } else {
            0nat
        }
    }
}

/// Eliminating a live generator lowers the count by one.
proof fn lemma_live_count_kill(alive: Seq<bool>, g: int)
    requires
        0 <= g < alive.len(),
        alive[g],
    ensures
        live_count(alive.update(g, false)) + 1 == live_count(alive),
    decreases alive.len(),
{
    let u = alive.update(g, false);
    if g == alive.len() - 1 {
        assert(u.drop_last() =~= alive.drop_last());
    } else {
        assert(u.drop_last() =~= alive.drop_last().update(g, false));
        lemma_live_count_kill(alive.drop_last(), g);
    }
}

/// With every generator live, all of them count.
proof fn lemma_live_count_all(alive: Seq<bool>)
    requires
        forall|h: int| 0 <= h < alive.len() ==> alive[h],
    ensures
        live_count(alive) == alive.len(),
    decreases alive.len(),
{
    if alive.len() > 0 {
        lemma_live_count_all(alive.drop_last());
    }
}

/// `w` stands for the same relation as `u`: it is `u`, its cyclic reduction,
/// its inverse, a rotation of it or of its inverse, or a word with its
/// canonical form. Each makes `w` trivial exactly where `u` is.
pub open spec fn same_relation(w: Seq<(usize, bool)>, u: Seq<(usize, bool)>) -> bool {
    ||| w == u
    ||| w == cyclic_reduction(u)
    ||| w == word_inverse(u)
    ||| is_relator_variant(u, w)
    ||| canonical_form(w) == canonical_form(u)
}

/// `w` stands for one of the relators `p`.
pub open spec fn stands_for_one_of(w: Seq<(usize, bool)>, p: Seq<Seq<(usize, bool)>>) -> bool {
    exists|m: int| 0 <= m < p.len() && same_relation(w, #[trigger] p[m])
}

/// Relator `u` reduces to the empty word, or one of `q` stands for it.
pub open spec fn kept_among(u: Seq<(usize, bool)>, q: Seq<Seq<(usize, bool)>>) -> bool {
    cyclic_reduction(u).len() == 0 || exists|k: int| 0 <= k < q.len() && same_relation(#[trigger] q[k], u)
}

/// `q` and `p` impose the same relations: every relator of `q` stands for
/// one of `p`, and every relator of `p` is trivial or kept in `q`.
pub open spec fn same_relators(p: Seq<Seq<(usize, bool)>>, q: Seq<Seq<(usize, bool)>>) -> bool {
    &&& forall|k: int| #![trigger q[k]] 0 <= k < q.len() ==> stands_for_one_of(q[k], p)
    &&& forall|m: int| #![trigger p[m]] 0 <= m < p.len() ==> kept_among(p[m], q)
}

/// The word that relator `r`, with its generator at `pos` occurring once,
/// gives for that generator.
pub open spec fn solution(r: Seq<(usize, bool)>, pos: int) -> Seq<(usize, bool)> {
    let rest = r.subrange(pos + 1, r.len() as int) + r.subrange(0, pos);
    if r[pos].1 {
        free_reduction(rest)
    } else {
        word_inverse(rest)
    }
}

/// Every generator is live.
pub open spec fn all_live(n: nat) -> Seq<bool> {
    Seq::new(n, |h: int| true)
}

/// `q` comes from `p` by eliminating the generator at position `pos` of
/// relator `k`, which occurs there once: the relator is removed and the
/// generator's solution substituted into the others.
pub open spec fn eliminates(
    p: (Seq<bool>, Seq<Seq<(usize, bool)>>),
    q: (Seq<bool>, Seq<Seq<(usize, bool)>>),
    k: int,
    pos: int,
) -> bool {
    let r = p.1[k];
    let g = r[pos].0;
    &&& 0 <= k < p.1.len()
    &&& 0 <= pos < r.len()
    &&& (g as int) < p.0.len()
    &&& p.0[g as int]
    &&& occurrences(r, g) == 1
    &&& q.0 == p.0.update(g as int, false)
    &&& q.1 == Seq::new(
        (p.1.len() - 1) as nat,
        |j: int| free_reduction(substitution(p.1.remove(k)[j], g, solution(r, pos))),
    )
}

/// `q` comes from `p` by renaming the live generators injectively to
/// `0..count`, where `count` is their number, some of them inverted.
pub open spec fn renames_by(
    p: (Seq<bool>, Seq<Seq<(usize, bool)>>),
    q: (Seq<bool>, Seq<Seq<(usize, bool)>>),
    remap: Seq<usize>,
    mask: u32,
) -> bool {
    &&& remap.len() == p.0.len()
    &&& injective_on(remap, p.0)
    &&& forall|h: int| 0 <= h < p.0.len() && p.0[h] ==> #[trigger] remap[h] < live_count(p.0)
    &&& forall|k: int| 0 <= k < p.1.len() ==> uses_live_generators(#[trigger] p.1[k], p.0)
    &&& q.0 == all_live(live_count(p.0))
    &&& q.1.len() == p.1.len()
    &&& forall|k: int| 0 <= k < p.1.len() ==> #[trigger] q.1[k] == relabel(p.1[k], remap) || q.1[k] == relabel_flip(
        p.1[k],
        remap,
        mask,
    )
}

/// One Tietze transformation: the same relations, the elimination of a
/// generator together with the relator that defines it, or a renaming of the
/// generators.
pub open spec fn tietze_step(p: (Seq<bool>, Seq<Seq<(usize, bool)>>), q: (Seq<bool>, Seq<Seq<(usize, bool)>>)) -> bool {
    ||| p.0 == q.0 && same_relators(p.1, q.1)
    ||| exists|k: int, pos: int| eliminates(p, q, k, pos)
    ||| exists|remap: Seq<usize>, mask: u32| renames_by(p, q, remap, mask)
}

/// Consecutive presentations of `t` are related by Tietze transformations.
pub open spec fn tietze_trace(t: Seq<(Seq<bool>, Seq<Seq<(usize, bool)>>)>) -> bool {
    &&& t.len() >= 1
    &&& forall|i: int| 0 <= i < t.len() - 1 ==> #[trigger] tietze_step(t[i], t[i + 1])
}

/// `⟨n_out | out⟩` comes from `⟨n | rels⟩` by a sequence of Tietze
/// transformations, and so presents the same group.
pub open spec fn tietze_derivable(
    n: nat,
    rels: Seq<Seq<(usize, bool)>>,
    n_out: nat,
    out: Seq<Seq<(usize, bool)>>,
) -> bool {
    exists|t: Seq<(Seq<bool>, Seq<Seq<(usize, bool)>>)>|
        #[trigger] tietze_trace(t) && t[0] == (all_live(n), rels) && t.last() == (all_live(n_out), out)
}

/// After the first `i` relators of `p`: every relator of `q` stands for one
/// of `p`, and each of those `i` is trivial or kept in `q`.
pub open spec fn reduces_prefix(p: Seq<Seq<(usize, bool)>>, q: Seq<Seq<(usize, bool)>>, i: int) -> bool {
    &&& forall|k: int| #![trigger q[k]] 0 <= k < q.len() ==> stands_for_one_of(q[k], p)
    &&& forall|m: int| #![trigger p[m]] 0 <= m < i ==> kept_among(p[m], q)
}

/// Keeping the cyclic reduction of relator `i`, unless it is empty, extends
/// the prefix.
proof fn lemma_reduce_step(p: Seq<Seq<(usize, bool)>>, q: Seq<Seq<(usize, bool)>>, i: int, c: Seq<(usize, bool)>)
    requires
        0 <= i < p.len(),
        c == cyclic_reduction(p[i]),
        reduces_prefix(p, q, i),
    ensures
        reduces_prefix(p, if c.len() > 0 { q.push(c) } else { q }, i + 1),
{
    let q2 = if c.len() > 0 { q.push(c) } else { q };
    assert(same_relation(c, p[i]));
    assert forall|k: int| #![trigger q2[k]] 0 <= k < q2.len() implies stands_for_one_of(q2[k], p) by {
        if k < q.len() {
            assert(q2[k] == q[k]);
            assert(stands_for_one_of(q[k], p));
        } else {
            assert(q2[k] == c);
        }
    }
    assert forall|m: int| #![trigger p[m]] 0 <= m < i + 1 implies kept_among(p[m], q2) by {
        if m < i {
            assert(kept_among(p[m], q));
            if cyclic_reduction(p[m]).len() != 0 {
                let k = choose|k: int| 0 <= k < q.len() && same_relation(#[trigger] q[k], p[m]);
                assert(q2[k] == q[k]);
            }
        } else if c.len() > 0 {
            assert(q2[q.len() as int] == c);
        }
    }
}

/// Deduplicating and then reordering relators keeps the relations.
proof fn lemma_dedupe_step(
    before: Seq<Vec<(usize, bool)>>,
    deduped: Seq<Vec<(usize, bool)>>,
    sorted: Seq<Vec<(usize, bool)>>,
)
    requires
        first_of_each_class(before, deduped),
        forall|k: int| 0 <= k < sorted.len() ==> word_among(#[trigger] sorted[k]@, deduped),
        forall|k: int| 0 <= k < deduped.len() ==> word_among(#[trigger] deduped[k]@, before),
        forall|m: int| 0 <= m < deduped.len() ==> word_among(#[trigger] deduped[m]@, sorted),
    ensures
        same_relators(views(before), views(sorted)),
{
    let p = views(before);
    let q = views(sorted);
    assert forall|k: int| #![trigger q[k]] 0 <= k < q.len() implies stands_for_one_of(q[k], p) by {
        assert(q[k] == sorted[k]@);
        assert(word_among(sorted[k]@, deduped));
        let m1 = choose|m1: int| 0 <= m1 < deduped.len() && deduped[m1]@ == sorted[k]@;
        assert(word_among(deduped[m1]@, before));
        let m2 = choose|m2: int| 0 <= m2 < before.len() && before[m2]@ == deduped[m1]@;
        assert(p[m2] == before[m2]@);
        assert(same_relation(q[k], p[m2]));
    }
    assert forall|m: int| #![trigger p[m]] 0 <= m < p.len() implies kept_among(p[m], q) by {
        assert(p[m] == before[m]@);
        reveal(first_of_each_class);
        assert(kept_class(deduped, canonical_form(before[m]@)));
        let k = choose|k: int| 0 <= k < deduped.len() && canonical_form(#[trigger] deduped[k]@) == canonical_form(before[m]@);
        assert(word_among(deduped[k]@, sorted));
        let k2 = choose|k2: int| 0 <= k2 < sorted.len() && sorted[k2]@ == deduped[k]@;
        assert(q[k2] == sorted[k2]@);
        assert(same_relation(q[k2], p[m]));
    }
}

/// The relators of `input`, renamed by `perm` with the generators in `mask`
/// inverted.
pub open spec fn renamed_relators(input: Seq<Seq<(usize, bool)>>, perm: Seq<usize>, mask: u32) -> Seq<Seq<(usize, bool)>> {
    Seq::new(input.len(), |k: int| relabel_flip(input[k], perm, mask))
}

/// `b` keeps the relations of `input` renamed by some permutation of the
/// generators, some of them inverted.
pub open spec fn renamed_image(input: Seq<Seq<(usize, bool)>>, n: nat, b: Seq<Seq<(usize, bool)>>) -> bool {
    exists|perm: Seq<usize>, mask: u32|
        perm.len() == n && all_below(perm, n) && is_injective(perm) && #[trigger] same_relators(
            renamed_relators(input, perm, mask),
            b,
        )
}

/// A renaming of the generators followed by the same relations is a
/// derivation by Tietze transformations.
proof fn lemma_renamed_derivable(input: Seq<Seq<(usize, bool)>>, n: nat, b: Seq<Seq<(usize, bool)>>)
    requires
        renamed_image(input, n, b),
        forall|k: int, i: int| 0 <= k < input.len() && 0 <= i < input[k].len() ==> (#[trigger] input[k][i]).0 < n,
    ensures
        tietze_derivable(n, input, n, b),
{
    let (perm, mask) = choose|perm: Seq<usize>, mask: u32|
        perm.len() == n && all_below(perm, n) && is_injective(perm) && #[trigger] same_relators(
            renamed_relators(input, perm, mask),
            b,
        );
    let s0 = (all_live(n), input);
    let s1 = (all_live(n), renamed_relators(input, perm, mask));
    let s2 = (all_live(n), b);
    lemma_live_count_all(all_live(n));
    assert forall|k: int| 0 <= k < input.len() implies uses_live_generators(#[trigger] input[k], all_live(n)) by {
        assert forall|j: int| 0 <= j < input[k].len() implies (#[trigger] input[k][j]).0 < all_live(n).len()
            && all_live(n)[input[k][j].0 as int] by {
        }
    }
    assert forall|h: int| 0 <= h < n && all_live(n)[h] implies #[trigger] perm[h] < live_count(all_live(n)) by {
    }
    assert(renames_by(s0, s1, perm, mask));
    let t = seq![s0];
    assert(tietze_trace(t));
    lemma_trace_push(t, s1);
    lemma_trace_push(t.push(s1), s2);
    assert(tietze_trace(t.push(s1).push(s2)));
}

/// Inserting a word standing for relator `k` extends the prefix.
proof fn lemma_insert_step(
    p: Seq<Seq<(usize, bool)>>,
    before: Seq<Vec<(usize, bool)>>,
    after: Seq<Vec<(usize, bool)>>,
    k: int,
    c: Seq<(usize, bool)>,
)
    requires
        0 <= k < p.len(),
        reduces_prefix(p, views(before), k),
        same_relation(c, p[k]),
        forall|x: int| 0 <= x < after.len() ==> #[trigger] after[x]@ == c || exists|m: int|
            0 <= m < before.len() && after[x]@ == before[m]@,
        word_among(c, after),
        forall|m: int| 0 <= m < before.len() ==> word_among(#[trigger] before[m]@, after),
    ensures
        reduces_prefix(p, views(after), k + 1),
{
    let q = views(after);
    let q0 = views(before);
    assert forall|x: int| #![trigger q[x]] 0 <= x < q.len() implies stands_for_one_of(q[x], p) by {
        assert(q[x] == after[x]@);
        if after[x]@ != c {
            let m = choose|m: int| 0 <= m < before.len() && after[x]@ == before[m]@;
            assert(q0[m] == before[m]@);
            assert(stands_for_one_of(q0[m], p));
        }
    }
    assert forall|m: int| #![trigger p[m]] 0 <= m < k + 1 implies kept_among(p[m], q) by {
        if m < k {
            assert(kept_among(p[m], q0));
            if cyclic_reduction(p[m]).len() != 0 {
                let x = choose|x: int| 0 <= x < q0.len() && same_relation(#[trigger] q0[x], p[m]);
                assert(q0[x] == before[x]@);
                assert(word_among(before[x]@, after));
                let y = choose|y: int| 0 <= y < after.len() && after[y]@ == before[x]@;
                assert(q[y] == after[y]@);
            }
        } else {
            let y = choose|y: int| 0 <= y < after.len() && after[y]@ == c;
            assert(q[y] == after[y]@);
        }
    }
}

/// Derivations by Tietze transformations compose.
pub proof fn lemma_derivable_trans(
    n1: nat,
    r1: Seq<Seq<(usize, bool)>>,
    n2: nat,
    r2: Seq<Seq<(usize, bool)>>,
    n3: nat,
    r3: Seq<Seq<(usize, bool)>>,
)
    requires
        tietze_derivable(n1, r1, n2, r2),
        tietze_derivable(n2, r2, n3, r3),
    ensures
        tietze_derivable(n1, r1, n3, r3),
{
    let t1 = choose|t: Seq<(Seq<bool>, Seq<Seq<(usize, bool)>>)>|
        #[trigger] tietze_trace(t) && t[0] == (all_live(n1), r1) && t.last() == (all_live(n2), r2);
    let t2 = choose|t: Seq<(Seq<bool>, Seq<Seq<(usize, bool)>>)>|
        #[trigger] tietze_trace(t) && t[0] == (all_live(n2), r2) && t.last() == (all_live(n3), r3);
    let t = t1 + t2.skip(1);
    assert forall|i: int| 0 <= i < t.len() - 1 implies #[trigger] tietze_step(t[i], t[i + 1]) by {
        if i < t1.len() - 1 {
            assert(t[i] == t1[i] && t[i + 1] == t1[i + 1]);
            assert(tietze_step(t1[i], t1[i + 1]));
        } else {
            let j = i - (t1.len() - 1);
            assert(t[i] == t2[j]);
            assert(t[i + 1] == t2[j + 1]);
            assert(tietze_step(t2[j], t2[j + 1]));
        }
    }
    if t2.len() == 1 {
        assert(t.last() == t1.last());
    } else {
        assert(t.last() == t2.last());
    }
    assert(tietze_trace(t));
}

/// Extending a trace by one Tietze transformation.
proof fn lemma_trace_push(
    t: Seq<(Seq<bool>, Seq<Seq<(usize, bool)>>)>,
    s: (Seq<bool>, Seq<Seq<(usize, bool)>>),
)
    requires
        tietze_trace(t),
        tietze_step(t.last(), s),
    ensures
        tietze_trace(t.push(s)),
        t.push(s)[0] == t[0],
        t.push(s).last() == s,
{
    let u = t.push(s);
    assert forall|i: int| 0 <= i < u.len() - 1 implies #[trigger] tietze_step(u[i], u[i + 1]) by {
        if i < t.len() - 1 {
            assert(u[i] == t[i]);
            assert(u[i + 1] == t[i + 1]);
            assert(tietze_step(t[i], t[i + 1]));
        } else {
            assert(u[i] == t.last());
        }
    }
}

/// A presentation computed by simplification: `n_generators` generators and
/// the relator words.
pub struct FundamentalGroupPresentation {
    pub n_generators: usize,
    pub relations: Vec<Vec<(usize, bool)>>,
}

/// Relabelling unrelated relators injectively, and inverting some of them,
/// leaves them unrelated.
proof fn lemma_relabel_unrelated(
    rels: Seq<Vec<(usize, bool)>>,
    out: Seq<Vec<(usize, bool)>>,
    remap: Seq<usize>,
    alive: Seq<bool>,
)
    requires
        pairwise_unrelated(views(rels)),
        out.len() == rels.len(),
        forall|q: int| 0 <= q < out.len() ==> #[trigger] out[q]@ == relabel(rels[q]@, remap) || out[q]@
            == word_inverse(relabel(rels[q]@, remap)),
        relators_live(rels, alive),
        injective_on(remap, alive),
    ensures
        pairwise_unrelated(views(out)),
{
    let vo = views(out);
    let vr = views(rels);
    assert forall|a: int, b: int| 0 <= a < vo.len() && 0 <= b < vo.len() && a != b implies !#[trigger] is_relator_variant(
        vo[a],
        vo[b],
    ) by {
        assert(vo[a] == out[a]@);
        assert(vo[b] == out[b]@);
        let ra = relabel(rels[a]@, remap);
        let rb = relabel(rels[b]@, remap);
        if is_relator_variant(vo[a], vo[b]) {
            lemma_word_inverse_involution(ra);
            lemma_word_inverse_involution(rb);
            if out[a]@ == word_inverse(ra) {
                lemma_variant_inverse(word_inverse(ra), vo[b]);
            }
            assert(is_relator_variant(ra, vo[b]));
            if out[b]@ == word_inverse(rb) {
                lemma_variant_inverse(ra, word_inverse(rb));
            }
            assert(is_relator_variant(ra, rb));
            assert(rels[a]@.len() > 0 && uses_live_generators(rels[a]@, alive));
            assert(rels[b]@.len() > 0 && uses_live_generators(rels[b]@, alive));
            lemma_relabel_reflects(rels[a]@, rels[b]@, remap, alive);
            assert(vr[a] == rels[a]@);
            assert(vr[b] == rels[b]@);
        }
    }
}

/// Applies Tietze transformations until none applies: free and cyclic
/// reduction of relators, deletion of duplicate relators up to rotation and
/// inversion, and elimination of a generator occurring exactly once in some
/// relator by solving that relator for it and substituting. The surviving
/// generators are renumbered `0..k`, and each relator is given in its
/// mostly-uninverted orientation.
///
/// Each elimination removes a generator together with the relator it was
/// solved from, and reduction and deduplication only remove relators, so the
/// deficiency (generators minus relators) never falls. No relator of the
/// result is a rotation of another or of another's inverse.
pub fn tietze_simplify(n_generators: usize, relations: &Vec<Vec<(usize, bool)>>) -> (r:
    FundamentalGroupPresentation)
    requires
        forall|k: int, i: int|
            0 <= k < relations@.len() && 0 <= i < relations@[k]@.len() ==> (
            #[trigger] relations@[k]@[i]).0 < n_generators,
    ensures
        r.n_generators <= n_generators,
        relators_within(r.relations@, r.n_generators as nat),
        forall|k: int| 0 <= k < r.relations@.len() ==> is_simplified_relator(#[trigger] r.relations@[k]@),
        r.n_generators + relations@.len() >= n_generators + r.relations@.len(),
        tietze_derivable(n_generators as nat, views(relations@), r.n_generators as nat, views(r.relations@)),
        pairwise_unrelated(views(r.relations@)),
{
    let ghost input = views(relations@);
    let mut alive: Vec<bool> = Vec::new();
    let mut t: usize = 0;
    while t < n_generators
        invariant
            t <= n_generators,
            alive@.len() == t,
            forall|h: int| 0 <= h < t ==> alive@[h],
        decreases n_generators - t,
    {
        alive.push(true);
        t = t + 1;
    }
    let mut rels: Vec<Vec<(usize, bool)>> = Vec::new();
    let mut i: usize = 0;
    while i < relations.len()
        invariant
            i <= relations.len(),
            alive@.len() == n_generators,
            forall|h: int| 0 <= h < n_generators ==> alive@[h],
            forall|k: int, i: int|
                0 <= k < relations@.len() && 0 <= i < relations@[k]@.len() ==> (
                #[trigger] relations@[k]@[i]).0 < n_generators,
            relators_live(rels@, alive@),
            forall|k: int| 0 <= k < rels@.len() ==> is_cyclically_reduced(#[trigger] rels@[k]@),
            rels@.len() <= i,
            input == views(relations@),
            reduces_prefix(input, views(rels@), i as int),
        decreases relations.len() - i,
    {
        let w = copy_word(&relations[i]);
        proof {
            assert(uses_live_generators(w@, alive@)) by {
                assert forall|j: int| 0 <= j < w@.len() implies (#[trigger] w@[j]).0 < alive@.len()
                    && alive@[w@[j].0 as int] by {
                    assert(w@[j] == relations@[i as int]@[j]);
                }
            }
            lemma_cyclic_reduction_live(w@, alive@);
            lemma_cyclic_reduction_reduced(w@);
        }
        let c = cyclic_reduce(w);
        proof {
            assert(input[i as int] == relations@[i as int]@);
            lemma_reduce_step(input, views(rels@), i as int, c@);
        }
        let ghost rels0 = views(rels@);
        if c.len() > 0 {
            rels.push(c);
            proof {
                assert(views(rels@) =~= rels0.push(c@));
            }
        }
        i = i + 1;
    }
    let ghost init = (all_live(n_generators as nat), input);
    let ghost mut trace = seq![init];
    proof {
        lemma_live_count_all(alive@);
        assert(alive@ =~= all_live(n_generators as nat));
        assert(same_relators(input, views(rels@)));
        assert(tietze_step(init, (alive@, views(rels@))));
        assert(tietze_trace(trace));
        lemma_trace_push(trace, (alive@, views(rels@)));
        trace = trace.push((alive@, views(rels@)));
    }
    loop
        invariant
            alive@.len() == n_generators,
            relators_live(rels@, alive@),
            forall|k: int| 0 <= k < rels@.len() ==> is_cyclically_reduced(#[trigger] rels@[k]@),
            live_count(alive@) + relations@.len() >= n_generators + rels@.len(),
            tietze_trace(trace),
            trace[0] == init,
            trace.last() == (alive@, views(rels@)),
        ensures
            tietze_trace(trace),
            trace[0] == init,
            trace.last() == (alive@, views(rels@)),
            live_count(alive@) + relations@.len() >= n_generators + rels@.len(),
            alive@.len() == n_generators,
            relators_live(rels@, alive@),
            forall|k: int| 0 <= k < rels@.len() ==> is_cyclically_reduced(#[trigger] rels@[k]@),
            forall|k: int, p: int|
                0 <= k < rels@.len() && 0 <= p < rels@[k]@.len() ==> occurrences(
                    rels@[k]@,
                    (#[trigger] rels@[k]@[p]).0,
                ) != 1,
            pairwise_unrelated(views(rels@)),
        decreases rels.len(),
    {
        let ghost before = rels@;
        let deduped = dedupe_relators(rels);
        let sorted = sort_by_length(deduped);
        proof {
            assert forall|k: int| 0 <= k < sorted@.len() implies (#[trigger] sorted@[k])@.len() > 0
                && uses_live_generators(sorted@[k]@, alive@) by {
                let m = choose|m: int| 0 <= m < deduped@.len() && deduped@[m]@ == sorted@[k]@;
                let m2 = choose|m2: int| 0 <= m2 < before.len() && before[m2]@ == deduped@[m]@;
                assert(before[m2]@.len() > 0);
            }
            assert forall|k: int| 0 <= k < sorted@.len() implies is_cyclically_reduced(#[trigger] sorted@[k]@) by {
                let m = choose|m: int| 0 <= m < deduped@.len() && deduped@[m]@ == sorted@[k]@;
                let m2 = choose|m2: int| 0 <= m2 < before.len() && before[m2]@ == deduped@[m]@;
                assert(is_cyclically_reduced(before[m2]@));
            }
            lemma_dedupe_step(before, deduped@, sorted@);
            lemma_trace_push(trace, (alive@, views(sorted@)));
            trace = trace.push((alive@, views(sorted@)));
        }
        let mut found: Option<(usize, usize)> = None;
        let mut ri: usize = 0;
        while ri < sorted.len()
            invariant
                ri <= sorted.len(),
                found matches Some((a, b)) ==> a < sorted@.len() && b < sorted@[a as int]@.len()
                    && occurrences(sorted@[a as int]@, sorted@[a as int]@[b as int].0) == 1,
                found is None ==> forall|k: int, p: int|
                    0 <= k < ri && 0 <= p < sorted@[k]@.len() ==> occurrences(
                        sorted@[k]@,
                        (#[trigger] sorted@[k]@[p]).0,
                    ) != 1,
            decreases sorted.len() - ri,
        {
            if found.is_none() {
                match single_occurrence(&sorted[ri]) {
                    Some(pos) => {
                        found = Some((ri, pos));
                    },
                    None => {},
                }
            }
            ri = ri + 1;
        }
        match found {
            None => {
                rels = sorted;
                assert(pairwise_unrelated(views(rels@)));
                break;
            },
            Some((ri, pos)) => {
                let g = sorted[ri][pos].0;
                let repl = solve_for_generator(&sorted[ri], pos);
                let ghost old_alive = alive@;
                proof {
                    assert(uses_live_generators(sorted@[ri as int]@, old_alive));
                    assert(sorted@[ri as int]@[pos as int].0 < old_alive.len());
                }
                let mut remaining = sorted;
                let removed = remaining.remove(ri);
                alive.set(g, false);
                proof {
                    assert(removed@ == sorted@[ri as int]@);
                    assert(alive@ == old_alive.update(g as int, false));
                    assert(old_alive[g as int]);
                    lemma_live_count_kill(old_alive, g as int);
                    assert(uses_live_generators(repl@, alive@)) by {
                        assert forall|j: int| 0 <= j < repl@.len() implies (
                        #[trigger] repl@[j]).0 < alive@.len() && alive@[repl@[j].0 as int] by {
                            let m = choose|m: int|
                                0 <= m < removed@.len() && removed@[m].0 == repl@[j].0;
                            assert(uses_live_generators(removed@, old_alive));
                            assert(old_alive[removed@[m].0 as int]);
                        }
                    }
                    assert(old_alive =~= alive@.update(g as int, true));
                }
                let ghost raw = Seq::new(
                    remaining@.len(),
                    |j: int| free_reduction(substitution(remaining@[j]@, g, repl@)),
                );
                proof {
                    let p = trace.last();
                    let rv = views(sorted@)[ri as int];
                    assert(rv == sorted@[ri as int]@);
                    assert(views(remaining@) =~= views(sorted@).remove(ri as int));
                    assert(repl@ == solution(rv, pos as int));
                    assert(raw =~= Seq::new(
                        (p.1.len() - 1) as nat,
                        |j: int| free_reduction(substitution(p.1.remove(ri as int)[j], g, solution(rv, pos as int))),
                    )) by {
                        assert forall|j: int| 0 <= j < raw.len() implies raw[j] == free_reduction(
                            substitution(p.1.remove(ri as int)[j], g, solution(rv, pos as int)),
                        ) by {
                            assert(views(remaining@)[j] == remaining@[j]@);
                        }
                    }
                    assert(eliminates(p, (alive@, raw), ri as int, pos as int));
                    lemma_trace_push(trace, (alive@, raw));
                    trace = trace.push((alive@, raw));
                    assert(reduces_prefix(raw, views(Seq::<Vec<(usize, bool)>>::empty()), 0));
                }
                let mut next: Vec<Vec<(usize, bool)>> = Vec::new();
                let mut k: usize = 0;
                while k < remaining.len()
                    invariant
                        k <= remaining.len(),
                        g < alive@.len(),
                        alive@.len() == n_generators,
                        old_alive == alive@.update(g as int, true),
                        uses_live_generators(repl@, alive@),
                        relators_live(remaining@, old_alive),
                        relators_live(next@, alive@),
                        forall|q: int| 0 <= q < next@.len() ==> is_cyclically_reduced(#[trigger] next@[q]@),
                        next.len() <= k,
                        live_count(alive@) + 1 + relations@.len() >= n_generators + remaining@.len() + 1,
                        raw == Seq::new(
                            remaining@.len(),
                            |j: int| free_reduction(substitution(remaining@[j]@, g, repl@)),
                        ),
                        reduces_prefix(raw, views(next@), k as int),
                    decreases remaining.len() - k,
                {
                    let sub = substitute(&remaining[k], g, &repl);
                    proof {
                        lemma_substitution_live(remaining@[k as int]@, g, repl@, alive@);
                        lemma_free_reduction_live(
                            substitution(remaining@[k as int]@, g, repl@),
                            alive@,
                        );
                        lemma_cyclic_reduction_live(sub@, alive@);
                        lemma_cyclic_reduction_reduced(sub@);
                    }
                    let c = cyclic_reduce(sub);
                    proof {
                        lemma_reduce_step(raw, views(next@), k as int, c@);
                    }
                    let ghost next0 = views(next@);
                    if c.len() > 0 {
                        next.push(c);
                        proof {
                            assert(views(next@) =~= next0.push(c@));
                        }
                    }
                    k = k + 1;
                }
                proof {
                    assert(same_relators(raw, views(next@)));
                    lemma_trace_push(trace, (alive@, views(next@)));
                    trace = trace.push((alive@, views(next@)));
                }
                rels = next;
            },
        }
    }
    let mut remap: Vec<usize> = Vec::new();
    let mut count: usize = 0;
    let mut h: usize = 0;
    while h < n_generators
        invariant
            h <= n_generators,
            alive@.len() == n_generators,
            remap@.len() == h,
            count <= h,
            forall|q: int| 0 <= q < h && alive@[q] ==> remap@[q] < count,
            forall|p: int, q: int| 0 <= p < q < h && alive@[p] && alive@[q] ==> #[trigger] remap@[p] < #[trigger] remap@[q],
            count == live_count(alive@.take(h as int)),
        decreases n_generators - h,
    {
        proof {
            assert(alive@.take(h + 1).drop_last() =~= alive@.take(h as int));
        }
        if alive[h] {
            remap.push(count);
            count = count + 1;
        } else {
            remap.push(0);
        }
        h = h + 1;
    }
    proof {
        assert(alive@.take(n_generators as int) =~= alive@);
    }
    proof {
        assert(injective_on(remap@, alive@)) by {
            assert forall|p: int, q: int|
                0 <= p < alive@.len() && 0 <= q < alive@.len() && alive@[p] && alive@[q] && p != q implies #[trigger] remap@[p]
                != #[trigger] remap@[q] by {
                if p < q {
                    assert(remap@[p] < remap@[q]);
                } else {
                    assert(remap@[q] < remap@[p]);
                }
            }
        }
    }
    let mut out: Vec<Vec<(usize, bool)>> = Vec::new();
    let mut k: usize = 0;
    while k < rels.len()
        invariant
            k <= rels.len(),
            alive@.len() == n_generators,
            remap@.len() == n_generators,
            forall|q: int| 0 <= q < n_generators && alive@[q] ==> remap@[q] < count,
            injective_on(remap@, alive@),
            relators_live(rels@, alive@),
            forall|q: int| 0 <= q < rels@.len() ==> is_cyclically_reduced(#[trigger] rels@[q]@),
            forall|q: int, p: int|
                0 <= q < rels@.len() && 0 <= p < rels@[q]@.len() ==> occurrences(
                    rels@[q]@,
                    (#[trigger] rels@[q]@[p]).0,
                ) != 1,
            relators_within(out@, count as nat),
            forall|q: int| 0 <= q < out@.len() ==> is_simplified_relator(#[trigger] out@[q]@),
            out@.len() == k,
            count + relations@.len() >= n_generators + rels@.len(),
            forall|q: int| 0 <= q < k ==> #[trigger] out@[q]@ == relabel(rels@[q]@, remap@) || out@[q]@
                == word_inverse(relabel(rels@[q]@, remap@)),
        decreases rels.len() - k,
    {
        let w = &rels[k];
        let mut mapped: Vec<(usize, bool)> = Vec::new();
        let mut inv_count: usize = 0;
        let mut j: usize = 0;
        while j < w.len()
            invariant
                j <= w@.len(),
                w@ == rels@[k as int]@,
                uses_live_generators(w@, alive@),
                remap@.len() == n_generators,
                alive@.len() == n_generators,
                forall|q: int| 0 <= q < n_generators && alive@[q] ==> remap@[q] < count,
                mapped@.len() == j,
                mapped@ == relabel(w@.take(j as int), remap@),
                inv_count == inverted_letters(w@.take(j as int)),
                inv_count <= j,
                forall|q: int| 0 <= q < j ==> (#[trigger] mapped@[q]).0 < count,
            decreases w.len() - j,
        {
            let (x, inv) = w[j];
            mapped.push((remap[x], inv));
            proof {
                let t = w@.take(j + 1);
                assert(t.drop_last() =~= w@.take(j as int));
                assert(t.last() == w@[j as int]);
                assert(mapped@ =~= relabel(t, remap@));
            }
            if inv {
                inv_count = inv_count + 1;
            }
            j = j + 1;
        }
        proof {
            assert(w@.take(w@.len() as int) =~= w@);
            let wk = w@;
            assert forall|q: int| 0 <= q < wk.len() implies occurrences(mapped@, (#[trigger] mapped@[q]).0) != 1 by {
                assert(wk[q].0 < alive@.len() && alive@[wk[q].0 as int]);
                lemma_relabel_counts(wk, remap@, alive@, wk[q].0);
                assert(occurrences(wk, wk[q].0) != 1);
            }
            lemma_relabel_reduced(wk, remap@, alive@);
            lemma_no_single_from_positions(mapped@);
            if wk.len() > 0 {
                assert(wk[0].0 < alive@.len() && alive@[wk[0].0 as int]);
                lemma_relabel_counts(wk, remap@, alive@, wk[0].0);
            }
            assert(inv_count == inverted_letters(mapped@));
        }
        let oriented = if inv_count > mapped.len() - inv_count {
            let f = invert(&mapped);
            proof {
                assert forall|q: int| 0 <= q < f@.len() implies (#[trigger] f@[q]).0 < count by {
                    assert(f@[q] == letter_inverse(mapped@[mapped@.len() - 1 - q]));
                }
                lemma_inverse_reduced(mapped@);
                lemma_inverse_counts(mapped@, 0);
                assert forall|q: int| 0 <= q < f@.len() implies occurrences(f@, (#[trigger] f@[q]).0) != 1 by {
                    let m = mapped@.len() - 1 - q;
                    assert(f@[q] == letter_inverse(mapped@[m]));
                    lemma_inverse_counts(mapped@, mapped@[m].0);
                }
                lemma_no_single_from_positions(f@);
            }
            f
        } else {
            mapped
        };
        let ghost out0 = out@;
        out.push(oriented);
        proof {
            assert(w@.take(w@.len() as int) =~= w@);
            assert forall|q: int| 0 <= q < k + 1 implies #[trigger] out@[q]@ == relabel(rels@[q]@, remap@) || out@[q]@
                == word_inverse(relabel(rels@[q]@, remap@)) by {
                if q < k {
                    assert(out@[q] == out0[q]);
                }
            }
        }
        k = k + 1;
    }
    proof {
        lemma_relabel_unrelated(rels@, out@, remap@, alive@);
    }
    proof {
        let last = trace.last();
        let relab = Seq::new(rels@.len(), |q: int| relabel(rels@[q]@, remap@));
        let s5 = (all_live(count as nat), relab);
        assert(count == live_count(alive@));
        assert forall|q: int| 0 <= q < last.1.len() implies uses_live_generators(#[trigger] last.1[q], last.0) by {
            assert(last.1[q] == rels@[q]@);
        }
        assert forall|q: int| 0 <= q < last.1.len() implies #[trigger] s5.1[q] == relabel(last.1[q], remap@) || s5.1[q]
            == relabel_flip(last.1[q], remap@, 0) by {
            assert(last.1[q] == rels@[q]@);
        }
        assert(renames_by(last, s5, remap@, 0));
        lemma_trace_push(trace, s5);
        let t5 = trace.push(s5);
        let s6 = (all_live(count as nat), views(out@));
        assert forall|q: int| #![trigger views(out@)[q]] 0 <= q < views(out@).len() implies stands_for_one_of(views(out@)[q], relab) by {
            assert(views(out@)[q] == out@[q]@);
            assert(same_relation(views(out@)[q], relab[q]));
        }
        assert forall|m: int| #![trigger relab[m]] 0 <= m < relab.len() implies kept_among(relab[m], views(out@)) by {
            assert(views(out@)[m] == out@[m]@);
            assert(same_relation(views(out@)[m], relab[m]));
        }
        assert(same_relators(relab, views(out@)));
        lemma_trace_push(t5, s6);
        assert(tietze_trace(t5.push(s6)));
    }
    FundamentalGroupPresentation { n_generators: count, relations: out }
}


/// The words of a list of relators.
pub open spec fn views(rels: Seq<Vec<(usize, bool)>>) -> Seq<Seq<(usize, bool)>> {
    rels.map_values(|w: Vec<(usize, bool)>| w@)
}

/// A relator variant of a word within `n` generators is within `n`
/// generators and has the same length.
pub proof fn lemma_variant_within(w: Seq<(usize, bool)>, c: Seq<(usize, bool)>, n: nat)
    requires
        is_relator_variant(w, c),
        forall|i: int| 0 <= i < w.len() ==> (#[trigger] w[i]).0 < n,
    ensures
        c.len() == w.len(),
        forall|i: int| 0 <= i < c.len() ==> (#[trigger] c[i]).0 < n,
{
    let k = choose|k: int| variant_at(w, c, k);
    let wi = word_inverse(w);
    assert(0 <= k < w.len());
    assert(w.skip(k).len() == w.len() - k);
    assert(rotation(w, k).len() == w.len());
    assert(rotation(wi, k).len() == w.len());
    assert forall|i: int| 0 <= i < c.len() implies (#[trigger] c[i]).0 < n by {
        if c == rotation(w, k) {
            if i < w.len() - k {
                assert(c[i] == w[i + k]);
            } else {
                assert(c[i] == w[i - (w.len() - k)]);
            }
        } else {
            if i < w.len() - k {
                assert(c[i] == wi[i + k]);
                assert(wi[i + k] == letter_inverse(w[w.len() - 1 - (i + k)]));
            } else {
                assert(c[i] == wi[i - (w.len() - k)]);
                assert(wi[i - (w.len() - k)] == letter_inverse(
                    w[w.len() - 1 - (i - (w.len() - k))],
                ));
            }
        }
    }
}

/// `s` with `w` inserted after its last entry that `w` does not precede.
pub open spec fn insert_word(s: Seq<Seq<(usize, bool)>>, w: Seq<(usize, bool)>) -> Seq<Seq<(usize, bool)>>
    decreases s.len(),
{
    if s.len() == 0 || !word_lt(w, s.last()) {
        s.push(w)
    } else {
        insert_word(s.drop_last(), w).push(s.last())
    }
}

/// The words sorted by inserting each in turn, first to last.
pub open spec fn insertion_sorted(ws: Seq<Seq<(usize, bool)>>) -> Seq<Seq<(usize, bool)>>
    decreases ws.len(),
{
    if ws.len() == 0 {
        Seq::empty()
    } else {
        insert_word(insertion_sorted(ws.drop_last()), ws.last())
    }
}

/// Inserting at the position past every entry that `w` does not precede.
proof fn lemma_insert_word_at(s: Seq<Seq<(usize, bool)>>, w: Seq<(usize, bool)>, pos: int)
    requires
        0 <= pos <= s.len(),
        forall|k: int| pos <= k < s.len() ==> word_lt(w, #[trigger] s[k]),
        pos > 0 ==> !word_lt(w, s[pos - 1]),
    ensures
        insert_word(s, w) == s.take(pos) + seq![w] + s.skip(pos),
    decreases s.len(),
{
    if pos == s.len() {
        assert(s.take(pos) =~= s);
        assert(s.skip(pos) =~= Seq::<Seq<(usize, bool)>>::empty());
        assert(s.push(w) =~= s.take(pos) + seq![w] + s.skip(pos));
    } else {
        assert(word_lt(w, s[s.len() - 1]));
        let t = s.drop_last();
        assert forall|k: int| pos <= k < t.len() implies word_lt(w, #[trigger] t[k]) by {
            assert(t[k] == s[k]);
        }
        if pos > 0 {
            assert(t[pos - 1] == s[pos - 1]);
        }
        lemma_insert_word_at(t, w, pos);
        assert(insert_word(s, w) == insert_word(t, w).push(s.last()));
        assert((t.take(pos) + seq![w] + t.skip(pos)).push(s.last()) =~= s.take(pos) + seq![w] + s.skip(pos));
    }
}

/// Inserts a word into a list sorted in the word order, after every word
/// not greater than it.
fn insert_sorted(out: &mut Vec<Vec<(usize, bool)>>, w: Vec<(usize, bool)>)
    requires
        forall|a: int, b: int|
            0 <= a < b < old(out)@.len() ==> !word_lt(old(out)@[b]@, old(out)@[a]@),
    ensures
        final(out)@.len() == old(out)@.len() + 1,
        forall|a: int, b: int|
            0 <= a < b < final(out)@.len() ==> !word_lt(final(out)@[b]@, final(out)@[a]@),
        forall|k: int|
            0 <= k < final(out)@.len() ==> #[trigger] final(out)@[k]@ == w@ || exists|m: int|
                0 <= m < old(out)@.len() && final(out)@[k]@ == old(out)@[m]@,
        word_among(w@, final(out)@),
        forall|m: int| 0 <= m < old(out)@.len() ==> word_among(#[trigger] old(out)@[m]@, final(out)@),
        views(final(out)@) == insert_word(views(old(out)@), w@),
{
    let mut pos = out.len();
    while pos > 0 && word_less(&w, &out[pos - 1])
        invariant
            pos <= out@.len(),
            forall|k: int| pos <= k < out@.len() ==> word_lt(w@, #[trigger] out@[k]@),
        decreases pos,
    {
        pos = pos - 1;
    }
    let ghost before = out@;
    out.insert(pos, w);
    proof {
        assert forall|a: int, b: int| 0 <= a < b < out@.len() implies !word_lt(
            out@[b]@,
            out@[a]@,
        ) by {
            if b < pos {
                assert(out@[a] == before[a]);
                assert(out@[b] == before[b]);
            } else if b == pos {
                assert(out@[a] == before[a]);
                if word_lt(out@[b]@, out@[a]@) {
                    if a < pos - 1 {
                        assert(!word_lt(before[pos - 1]@, before[a]@));
                        if word_lt(before[a]@, before[pos - 1]@) {
                            lemma_word_lt_transitive(w@, before[a]@, before[pos - 1]@);
                        } else if before[a]@ != before[pos - 1]@ {
                            lemma_word_lt_total(before[a]@, before[pos - 1]@);
                        }
                    }
                }
            } else if a < pos {
                assert(out@[a] == before[a]);
                assert(out@[b] == before[b - 1]);
                if a < pos - 1 || true {
                    assert(!word_lt(before[b - 1]@, before[a]@));
                }
            } else if a == pos {
                assert(out@[b] == before[b - 1]);
                assert(word_lt(w@, before[b - 1]@));
                lemma_word_lt_asymmetric(w@, before[b - 1]@);
            } else {
                assert(out@[a] == before[a - 1]);
                assert(out@[b] == before[b - 1]);
            }
        }
        assert forall|k: int| 0 <= k < out@.len() implies #[trigger] out@[k]@ == w@ || exists|m: int|
            0 <= m < before.len() && out@[k]@ == before[m]@ by {
            if k < pos {
                assert(out@[k] == before[k]);
            } else if k > pos {
                assert(out@[k] == before[k - 1]);
            }
        }
        assert(out@[pos as int]@ == w@);
        assert forall|m: int| 0 <= m < before.len() implies word_among(#[trigger] before[m]@, out@) by {
            if m < pos {
                assert(out@[m] == before[m]);
            } else {
                assert(out@[m + 1] == before[m]);
            }
        }
        let vb = views(before);
        assert forall|k: int| pos <= k < vb.len() implies word_lt(w@, #[trigger] vb[k]) by {
            assert(vb[k] == before[k]@);
        }
        if pos > 0 {
            assert(vb[pos - 1] == before[pos - 1]@);
        }
        lemma_insert_word_at(vb, w@, pos as int);
        assert(views(out@) =~= vb.take(pos as int) + seq![w@] + vb.skip(pos as int)) by {
            assert forall|k: int| 0 <= k < out@.len() implies #[trigger] views(out@)[k] == (vb.take(pos as int)
                + seq![w@] + vb.skip(pos as int))[k] by {
                if k < pos {
                    assert(out@[k] == before[k]);
                } else if k > pos {
                    assert(out@[k] == before[k - 1]);
                }
            }
        }
    }
}


/// The lexicographic order on lists of words, by the word order.
#[verifier::opaque]
pub open spec fn relators_lt(a: Seq<Seq<(usize, bool)>>, b: Seq<Seq<(usize, bool)>>) -> bool
    decreases a.len(),
{
    if a.len() == 0 {
        b.len() > 0
    } else if b.len() == 0 {
        false
    } else if word_lt(a[0], b[0]) {
        true
    } else if a[0] == b[0] {
        relators_lt(a.drop_first(), b.drop_first())
    } else {
        false
    }
}

/// One step of the order on lists of words.
pub proof fn lemma_relators_lt_unfold(a: Seq<Seq<(usize, bool)>>, b: Seq<Seq<(usize, bool)>>)
    ensures
        relators_lt(a, b) == (if a.len() == 0 {
            b.len() > 0
        } else if b.len() == 0 {
            false
        } else if word_lt(a[0], b[0]) {
            true
        } else if a[0] == b[0] {
            relators_lt(a.drop_first(), b.drop_first())
        } else {
            false
        }),
{
    reveal(relators_lt);
}

/// The order on lists of words is transitive.
pub proof fn lemma_relators_lt_transitive(
    a: Seq<Seq<(usize, bool)>>,
    b: Seq<Seq<(usize, bool)>>,
    c: Seq<Seq<(usize, bool)>>,
)
    requires
        relators_lt(a, b),
        relators_lt(b, c),
    ensures
        relators_lt(a, c),
    decreases a.len(),
{
    lemma_relators_lt_unfold(a, b);
    lemma_relators_lt_unfold(b, c);
    lemma_relators_lt_unfold(a, c);
    if a.len() > 0 && b.len() > 0 && c.len() > 0 {
        if word_lt(a[0], b[0]) && word_lt(b[0], c[0]) {
            lemma_word_lt_transitive(a[0], b[0], c[0]);
        } else if a[0] == b[0] && b[0] == c[0] {
            lemma_relators_lt_transitive(a.drop_first(), b.drop_first(), c.drop_first());
        }
    }
}

/// The relators of `input` renamed by `perm` and `mask`, each in canonical
/// form, sorted: the candidate a relabelling offers.
pub open spec fn canonical_relabelling(input: Seq<Seq<(usize, bool)>>, perm: Seq<usize>, mask: u32) -> Seq<Seq<(usize, bool)>> {
    insertion_sorted(Seq::new(input.len(), |k: int| canonical_form(relabel_flip(input[k], perm, mask))))
}

/// Whether the list `a` precedes the list `b`.
fn relators_less(a: &Vec<Vec<(usize, bool)>>, b: &Vec<Vec<(usize, bool)>>) -> (r: bool)
    ensures
        r == relators_lt(views(a@), views(b@)),
{
    let ghost va = views(a@);
    let ghost vb = views(b@);
    let mut i: usize = 0;
    assert(va.skip(0) =~= va);
    assert(vb.skip(0) =~= vb);
    while i < a.len() && i < b.len()
        invariant
            i <= a.len(),
            i <= b.len(),
            va == views(a@),
            vb == views(b@),
            relators_lt(va, vb) == relators_lt(va.skip(i as int), vb.skip(i as int)),
        decreases a.len() - i,
    {
        proof {
            lemma_relators_lt_unfold(va.skip(i as int), vb.skip(i as int));
        }
        assert(va.skip(i as int)[0] == a@[i as int]@);
        assert(vb.skip(i as int)[0] == b@[i as int]@);
        if word_less(&a[i], &b[i]) {
            return true;
        }
        if !words_equal(&a[i], &b[i]) {
            return false;
        }
        assert(va.skip(i as int).drop_first() =~= va.skip(i + 1));
        assert(vb.skip(i as int).drop_first() =~= vb.skip(i + 1));
        i = i + 1;
    }
    proof {
        lemma_relators_lt_unfold(va.skip(i as int), vb.skip(i as int));
    }
    i < b.len()
}

/// The best candidate so far, with what the search keeps of it: the shape
/// and properties of its relators, and that it is the candidate of some
/// relabelling.
pub open spec fn best_so_far(
    best: Option<Vec<Vec<(usize, bool)>>>,
    relators: Seq<Vec<(usize, bool)>>,
    n: nat,
    reduced_in: bool,
    single_free_in: bool,
) -> bool {
    &&& best matches Some(b) ==> b.len() == relators.len() && relators_within(b@, n) && forall|x: int, y: int|
        0 <= x < y < b@.len() ==> !word_lt(b@[y]@, b@[x]@)
    &&& best matches Some(b) ==> forall|x: int| 0 <= x < b@.len() ==> (reduced_in ==> is_cyclically_reduced(
        #[trigger] b@[x]@,
    )) && (single_free_in ==> no_single_occurrence(b@[x]@)) && is_least_variant(b@[x]@, b@[x]@)
    &&& best matches Some(b) ==> renamed_image(views(relators), n, views(b@))
    &&& best matches Some(b) ==> is_candidate(views(relators), n, views(b@))
}

/// The canonical forms of the renamed relators, in input order.
pub open spec fn candidates(input: Seq<Seq<(usize, bool)>>, perm: Seq<usize>, mask: u32) -> Seq<Seq<(usize, bool)>> {
    Seq::new(input.len(), |k: int| canonical_form(relabel_flip(input[k], perm, mask)))
}

/// The least of the rotations by less than `k` places of `w` and of its
/// inverse.
pub open spec fn least_rotation_upto(w: Seq<(usize, bool)>, k: nat) -> Seq<(usize, bool)>
    decreases k,
{
    let i = if k == 0 {
        0int
    } else {
        k - 1
    };
    let a = rotation(w, i);
    let b = rotation(word_inverse(w), i);
    let ab = if word_lt(b, a) {
        b
    } else {
        a
    };
    if k <= 1 {
        ab
    } else {
        let m = least_rotation_upto(w, (k - 1) as nat);
        if word_lt(ab, m) {
            ab
        } else {
            m
        }
    }
}

/// The least of the first `k` rotations is a variant, and none of those
/// rotations precedes it.
proof fn lemma_least_rotation_upto(w: Seq<(usize, bool)>, k: nat)
    requires
        1 <= k <= w.len(),
    ensures
        is_relator_variant(w, least_rotation_upto(w, k)),
        forall|i: int| 0 <= i < k ==> !#[trigger] word_lt(rotation(w, i), least_rotation_upto(w, k)),
        forall|i: int| 0 <= i < k ==> !#[trigger] word_lt(rotation(word_inverse(w), i), least_rotation_upto(w, k)),
    decreases k,
{
    let i = k - 1;
    let iw = word_inverse(w);
    let a = rotation(w, i);
    let b = rotation(iw, i);
    let ab = if word_lt(b, a) {
        b
    } else {
        a
    };
    let r = least_rotation_upto(w, k);
    lemma_word_lt_irreflexive(a);
    lemma_word_lt_irreflexive(b);
    if word_lt(b, a) {
        lemma_word_lt_asymmetric(b, a);
    }
    assert(!word_lt(a, ab) && !word_lt(b, ab));
    assert(variant_at(w, ab, i));
    if k == 1 {
        assert(r == ab);
        assert forall|j: int| 0 <= j < k implies !#[trigger] word_lt(rotation(w, j), r) by {
            assert(j == i);
        }
        assert forall|j: int| 0 <= j < k implies !#[trigger] word_lt(rotation(iw, j), r) by {
            assert(j == i);
        }
    } else {
        let m = least_rotation_upto(w, (k - 1) as nat);
        lemma_least_rotation_upto(w, (k - 1) as nat);
        if word_lt(ab, m) {
            assert(r == ab);
            assert forall|j: int| 0 <= j < k implies !#[trigger] word_lt(rotation(w, j), r) by {
                if j < k - 1 {
                    assert(!word_lt(rotation(w, j), m));
                    if word_lt(rotation(w, j), r) {
                        lemma_word_lt_transitive(rotation(w, j), ab, m);
                    }
                } else {
                    assert(j == i);
                }
            }
            assert forall|j: int| 0 <= j < k implies !#[trigger] word_lt(rotation(iw, j), r) by {
                if j < k - 1 {
                    assert(!word_lt(rotation(iw, j), m));
                    if word_lt(rotation(iw, j), r) {
                        lemma_word_lt_transitive(rotation(iw, j), ab, m);
                    }
                } else {
                    assert(j == i);
                }
            }
        } else {
            assert(r == m);
            if ab != m {
                lemma_word_lt_total(ab, m);
                if word_lt(a, m) {
                    lemma_word_lt_transitive(a, m, ab);
                }
                if word_lt(b, m) {
                    lemma_word_lt_transitive(b, m, ab);
                }
            }
            assert(!word_lt(a, m) && !word_lt(b, m));
            assert forall|j: int| 0 <= j < k implies !#[trigger] word_lt(rotation(w, j), r) by {
                if j < k - 1 {
                    assert(!word_lt(rotation(w, j), m));
                } else {
                    assert(j == i);
                }
            }
            assert forall|j: int| 0 <= j < k implies !#[trigger] word_lt(rotation(iw, j), r) by {
                if j < k - 1 {
                    assert(!word_lt(rotation(iw, j), m));
                } else {
                    assert(j == i);
                }
            }
        }
    }
}

/// A nonempty word's canonical form is its least variant.
pub proof fn lemma_canonical_form_least(w: Seq<(usize, bool)>)
    requires
        w.len() > 0,
    ensures
        is_least_variant(w, canonical_form(w)),
        is_relator_variant(w, canonical_form(w)),
{
    let c = least_rotation_upto(w, w.len());
    lemma_least_rotation_upto(w, w.len());
    assert(is_least_variant(w, c));
    lemma_least_variant_unique(w, c);
}

/// Renaming and inverting generators commutes with rotation and with
/// inversion of words.
proof fn lemma_relabel_flip_commutes(w: Seq<(usize, bool)>, perm: Seq<usize>, mask: u32, k: int)
    requires
        0 <= k <= w.len(),
    ensures
        relabel_flip(rotation(w, k), perm, mask) == rotation(relabel_flip(w, perm, mask), k),
        relabel_flip(word_inverse(w), perm, mask) == word_inverse(relabel_flip(w, perm, mask)),
{
    assert(relabel_flip(rotation(w, k), perm, mask) =~= rotation(relabel_flip(w, perm, mask), k));
    assert(relabel_flip(word_inverse(w), perm, mask) =~= word_inverse(relabel_flip(w, perm, mask)));
}

/// Every letter of `w` names a generator below `n`.
pub open spec fn letters_below(w: Seq<(usize, bool)>, n: nat) -> bool {
    forall|i: int| 0 <= i < w.len() ==> (#[trigger] w[i]).0 < n
}

/// An injective renaming tells words apart.
proof fn lemma_relabel_flip_injective(x: Seq<(usize, bool)>, y: Seq<(usize, bool)>, perm: Seq<usize>, mask: u32)
    requires
        is_injective(perm),
        letters_below(x, perm.len()),
        letters_below(y, perm.len()),
        relabel_flip(x, perm, mask) == relabel_flip(y, perm, mask),
    ensures
        x == y,
{
    assert(x.len() == relabel_flip(x, perm, mask).len());
    assert forall|i: int| 0 <= i < x.len() implies x[i] == y[i] by {
        assert(relabel_flip(x, perm, mask)[i] == relabel_flip(y, perm, mask)[i]);
        assert(x[i].0 < perm.len());
        assert(y[i].0 < perm.len());
        assert(perm[x[i].0 as int] == perm[y[i].0 as int]);
    }
    assert(x =~= y);
}

/// An injective renaming does not make unrelated relators related.
proof fn lemma_relabel_flip_reflects(v: Seq<(usize, bool)>, w: Seq<(usize, bool)>, perm: Seq<usize>, mask: u32)
    requires
        is_injective(perm),
        letters_below(v, perm.len()),
        letters_below(w, perm.len()),
        is_relator_variant(relabel_flip(v, perm, mask), relabel_flip(w, perm, mask)),
    ensures
        is_relator_variant(v, w),
{
    let rv = relabel_flip(v, perm, mask);
    let k = choose|k: int| #[trigger] variant_at(rv, relabel_flip(w, perm, mask), k);
    let iv = word_inverse(v);
    lemma_relabel_flip_commutes(v, perm, mask, k);
    lemma_relabel_flip_commutes(iv, perm, mask, k);
    assert(letters_below(rotation(v, k), perm.len())) by {
        assert forall|i: int| 0 <= i < rotation(v, k).len() implies (#[trigger] rotation(v, k)[i]).0 < perm.len() by {
            lemma_rotation_index(v, k, i);
        }
    }
    assert(letters_below(iv, perm.len())) by {
        assert forall|i: int| 0 <= i < iv.len() implies (#[trigger] iv[i]).0 < perm.len() by {
            assert(iv[i] == letter_inverse(v[v.len() - 1 - i]));
        }
    }
    assert(letters_below(rotation(iv, k), perm.len())) by {
        assert forall|i: int| 0 <= i < rotation(iv, k).len() implies (#[trigger] rotation(iv, k)[i]).0 < perm.len() by {
            lemma_rotation_index(iv, k, i);
        }
    }
    if relabel_flip(w, perm, mask) == rotation(rv, k) {
        lemma_relabel_flip_injective(w, rotation(v, k), perm, mask);
    } else {
        lemma_relabel_flip_injective(w, rotation(iv, k), perm, mask);
    }
    assert(variant_at(v, w, k));
}

/// The canonical forms of unrelated relators, renamed injectively, are
/// unrelated.
proof fn lemma_candidates_unrelated(input: Seq<Seq<(usize, bool)>>, perm: Seq<usize>, mask: u32)
    requires
        pairwise_unrelated(input),
        is_injective(perm),
        forall|k: int| 0 <= k < input.len() ==> (#[trigger] input[k]).len() > 0 && letters_below(input[k], perm.len()),
    ensures
        pairwise_unrelated(candidates(input, perm, mask)),
{
    let cs = candidates(input, perm, mask);
    assert forall|a: int, b: int| 0 <= a < cs.len() && 0 <= b < cs.len() && a != b implies !#[trigger] is_relator_variant(
        cs[a],
        cs[b],
    ) by {
        let ta = relabel_flip(input[a], perm, mask);
        let tb = relabel_flip(input[b], perm, mask);
        assert(input[a].len() > 0 && letters_below(input[a], perm.len()));
        assert(input[b].len() > 0 && letters_below(input[b], perm.len()));
        lemma_canonical_form_least(ta);
        lemma_canonical_form_least(tb);
        if is_relator_variant(cs[a], cs[b]) {
            lemma_variant_transitive(ta, cs[a], cs[b]);
            lemma_variant_symmetric(tb, cs[b]);
            lemma_variant_transitive(ta, cs[b], tb);
            lemma_relabel_flip_reflects(input[a], input[b], perm, mask);
            assert(!is_relator_variant(input[a], input[b]));
        }
    }
}

/// Inserting a word unrelated to every word of an unrelated list keeps the
/// list unrelated, and adds only that word.
proof fn lemma_insert_word_unrelated(s: Seq<Seq<(usize, bool)>>, w: Seq<(usize, bool)>)
    requires
        pairwise_unrelated(s),
        forall|k: int| #![trigger s[k]] 0 <= k < s.len() ==> !is_relator_variant(s[k], w) && !is_relator_variant(w, s[k]),
    ensures
        pairwise_unrelated(insert_word(s, w)),
        insert_word(s, w).len() == s.len() + 1,
        forall|k: int|
            0 <= k < insert_word(s, w).len() ==> #[trigger] insert_word(s, w)[k] == w || exists|m: int|
                0 <= m < s.len() && insert_word(s, w)[k] == s[m],
    decreases s.len(),
{
    let r = insert_word(s, w);
    if s.len() == 0 || !word_lt(w, s.last()) {
        assert(r == s.push(w));
        assert forall|a: int, b: int| 0 <= a < r.len() && 0 <= b < r.len() && a != b implies !#[trigger] is_relator_variant(
            r[a],
            r[b],
        ) by {
            if a < s.len() && b < s.len() {
                assert(r[a] == s[a] && r[b] == s[b]);
                assert(!is_relator_variant(s[a], s[b]));
            } else if a < s.len() {
                assert(r[a] == s[a] && r[b] == w);
                assert(!is_relator_variant(s[a], w));
            } else {
                assert(r[a] == w && r[b] == s[b]);
                assert(!is_relator_variant(w, s[b]));
            }
        }
        assert forall|k: int| 0 <= k < r.len() implies #[trigger] r[k] == w || exists|m: int|
            0 <= m < s.len() && r[k] == s[m] by {
            if k < s.len() {
                assert(r[k] == s[k]);
            }
        }
    } else {
        let x = s.drop_last();
        let l = s.last();
        assert forall|a: int, b: int| 0 <= a < x.len() && 0 <= b < x.len() && a != b implies !#[trigger] is_relator_variant(
            x[a],
            x[b],
        ) by {
            assert(x[a] == s[a] && x[b] == s[b]);
        }
        assert forall|k: int| #![trigger x[k]] 0 <= k < x.len() implies !is_relator_variant(x[k], w) && !is_relator_variant(w, x[k]) by {
            assert(x[k] == s[k]);
        }
        lemma_insert_word_unrelated(x, w);
        let t = insert_word(x, w);
        assert(r == t.push(l));
        assert forall|k: int| #![trigger t[k]] 0 <= k < t.len() implies !is_relator_variant(t[k], l) && !is_relator_variant(l, t[k]) by {
            if t[k] == w {
                assert(!is_relator_variant(s[s.len() - 1], w) && !is_relator_variant(w, s[s.len() - 1]));
            } else {
                let m = choose|m: int| 0 <= m < x.len() && t[k] == x[m];
                assert(x[m] == s[m]);
                assert(!is_relator_variant(s[m], s[s.len() - 1]));
                assert(!is_relator_variant(s[s.len() - 1], s[m]));
            }
        }
        assert forall|a: int, b: int| 0 <= a < r.len() && 0 <= b < r.len() && a != b implies !#[trigger] is_relator_variant(
            r[a],
            r[b],
        ) by {
            if a < t.len() && b < t.len() {
                assert(r[a] == t[a] && r[b] == t[b]);
            } else if a < t.len() {
                assert(r[a] == t[a] && r[b] == l);
            } else {
                assert(r[a] == l && r[b] == t[b]);
            }
        }
        assert forall|k: int| 0 <= k < r.len() implies #[trigger] r[k] == w || exists|m: int|
            0 <= m < s.len() && r[k] == s[m] by {
            if k < t.len() {
                assert(r[k] == t[k]);
                if t[k] != w {
                    let m = choose|m: int| 0 <= m < x.len() && t[k] == x[m];
                    assert(x[m] == s[m]);
                }
            } else {
                assert(r[k] == s[s.len() - 1]);
            }
        }
    }
}

/// Sorting by insertion keeps unrelated words unrelated.
proof fn lemma_insertion_sorted_unrelated(ws: Seq<Seq<(usize, bool)>>)
    requires
        pairwise_unrelated(ws),
    ensures
        pairwise_unrelated(insertion_sorted(ws)),
        insertion_sorted(ws).len() == ws.len(),
        forall|k: int|
            0 <= k < insertion_sorted(ws).len() ==> exists|m: int|
                0 <= m < ws.len() && #[trigger] insertion_sorted(ws)[k] == ws[m],
    decreases ws.len(),
{
    if ws.len() > 0 {
        let x = ws.drop_last();
        let w = ws.last();
        assert forall|a: int, b: int| 0 <= a < x.len() && 0 <= b < x.len() && a != b implies !#[trigger] is_relator_variant(
            x[a],
            x[b],
        ) by {
            assert(x[a] == ws[a] && x[b] == ws[b]);
        }
        lemma_insertion_sorted_unrelated(x);
        let s = insertion_sorted(x);
        assert forall|k: int| #![trigger s[k]] 0 <= k < s.len() implies !is_relator_variant(s[k], w) && !is_relator_variant(w, s[k]) by {
            let m = choose|m: int| 0 <= m < x.len() && #[trigger] s[k] == x[m];
            assert(x[m] == ws[m]);
            assert(!is_relator_variant(ws[m], ws[ws.len() - 1]));
            assert(!is_relator_variant(ws[ws.len() - 1], ws[m]));
        }
        lemma_insert_word_unrelated(s, w);
        let r = insertion_sorted(ws);
        assert(r == insert_word(s, w));
        assert forall|k: int| 0 <= k < r.len() implies exists|m: int| 0 <= m < ws.len() && #[trigger] r[k] == ws[m] by {
            if r[k] == w {
                assert(r[k] == ws[ws.len() - 1]);
            } else {
                let m = choose|m: int| 0 <= m < s.len() && r[k] == s[m];
                let m2 = choose|m2: int| 0 <= m2 < x.len() && #[trigger] s[m] == x[m2];
                assert(x[m2] == ws[m2]);
            }
        }
    }
}

/// A candidate of unrelated relators is itself unrelated.
pub proof fn lemma_relabelling_unrelated(input: Seq<Seq<(usize, bool)>>, perm: Seq<usize>, mask: u32)
    requires
        pairwise_unrelated(input),
        is_injective(perm),
        forall|k: int| 0 <= k < input.len() ==> (#[trigger] input[k]).len() > 0 && letters_below(input[k], perm.len()),
    ensures
        pairwise_unrelated(canonical_relabelling(input, perm, mask)),
{
    lemma_candidates_unrelated(input, perm, mask);
    assert(canonical_relabelling(input, perm, mask) == insertion_sorted(candidates(input, perm, mask)));
    lemma_insertion_sorted_unrelated(candidates(input, perm, mask));
}

/// `b` is the candidate of some relabelling of the `n` generators.
pub open spec fn is_candidate(input: Seq<Seq<(usize, bool)>>, n: nat, b: Seq<Seq<(usize, bool)>>) -> bool {
    exists|perm: Seq<usize>, mask: u32|
        perm.len() == n && all_below(perm, n) && is_injective(perm) && mask < (1u32 << (n as u32)) && b
            == #[trigger] canonical_relabelling(input, perm, mask)
}

/// `x` does not precede the best candidate.
pub open spec fn not_before_best(x: Seq<Seq<(usize, bool)>>, best: Option<Vec<Vec<(usize, bool)>>>) -> bool {
    best matches Some(b) && !relators_lt(x, views(b@))
}

/// `new` is `old` or precedes it.
pub open spec fn no_worse(new: Option<Vec<Vec<(usize, bool)>>>, old: Option<Vec<Vec<(usize, bool)>>>) -> bool {
    old matches Some(o) ==> (new matches Some(b) && (views(b@) == views(o@) || relators_lt(views(b@), views(o@))))
}

/// No list precedes itself.
proof fn lemma_relators_lt_irreflexive(a: Seq<Seq<(usize, bool)>>)
    ensures
        !relators_lt(a, a),
    decreases a.len(),
{
    lemma_relators_lt_unfold(a, a);
    if a.len() > 0 {
        lemma_word_lt_irreflexive(a[0]);
        lemma_relators_lt_irreflexive(a.drop_first());
    }
}

/// What does not precede the best does not precede a better one either.
proof fn lemma_not_before_best_kept(
    x: Seq<Seq<(usize, bool)>>,
    old: Option<Vec<Vec<(usize, bool)>>>,
    new: Option<Vec<Vec<(usize, bool)>>>,
)
    requires
        not_before_best(x, old),
        no_worse(new, old),
    ensures
        not_before_best(x, new),
{
    let o = old->0;
    let b = new->0;
    if relators_lt(x, views(b@)) && relators_lt(views(b@), views(o@)) {
        lemma_relators_lt_transitive(x, views(b@), views(o@));
    }
}

/// Being no worse is transitive.
proof fn lemma_no_worse_trans(
    a: Option<Vec<Vec<(usize, bool)>>>,
    b: Option<Vec<Vec<(usize, bool)>>>,
    c: Option<Vec<Vec<(usize, bool)>>>,
)
    requires
        no_worse(a, b),
        no_worse(b, c),
        b is Some,
    ensures
        no_worse(a, c),
{
    if c is Some {
        let (va, vb, vc) = (views(a->0@), views(b->0@), views(c->0@));
        if relators_lt(va, vb) && relators_lt(vb, vc) {
            lemma_relators_lt_transitive(va, vb, vc);
        }
    }
}

/// Tries every inversion mask with the renaming `perm`, keeping the least
/// candidate.
#[verifier::spinoff_prover]
#[verifier::rlimit(80)]
fn best_over_masks(
    relators: &Vec<Vec<(usize, bool)>>,
    n: usize,
    perm: &Vec<usize>,
    start: Option<Vec<Vec<(usize, bool)>>>,
    Ghost(reduced_in): Ghost<bool>,
    Ghost(single_free_in): Ghost<bool>,
) -> (best: Option<Vec<Vec<(usize, bool)>>>)
    requires
        n <= 31,
        perm@.len() == n,
        all_below(perm@, n as nat),
        is_injective(perm@),
        reduced_in == forall|m: int| 0 <= m < relators@.len() ==> is_cyclically_reduced(#[trigger] relators@[m]@),
        single_free_in == forall|m: int| 0 <= m < relators@.len() ==> no_single_occurrence(#[trigger] relators@[m]@),
        relators_within(relators@, n as nat),
        best_so_far(start, relators@, n as nat, reduced_in, single_free_in),
    ensures
        best_so_far(best, relators@, n as nat, reduced_in, single_free_in),
        no_worse(best, start),
        best is Some,
        forall|mask: u32| mask < (1u32 << (n as u32)) ==> #[trigger] not_before_best(
            canonical_relabelling(views(relators@), perm@, mask),
            best,
        ),
{
    let ghost input = views(relators@);
    let ghost ob = start;
    let mut best = start;
    let nn: u32 = n as u32;
    let limit: u32 = 1u32 << nn;
    assert((1u32 << nn) >= 1) by (bit_vector)
        requires
            nn <= 31,
    ;
    let mut mask: u32 = 0;
    while mask < limit
        invariant
            limit >= 1,
            mask > 0 ==> best is Some,
            n <= 31,
            perm@.len() == n,
            all_below(perm@, n as nat),
            is_injective(perm@),
            reduced_in == forall|m: int| 0 <= m < relators@.len() ==> is_cyclically_reduced(#[trigger] relators@[m]@),
            single_free_in == forall|m: int| 0 <= m < relators@.len() ==> no_single_occurrence(#[trigger] relators@[m]@),
            relators_within(relators@, n as nat),
            best matches Some(b) ==> b.len() == relators.len() && relators_within(
                b@,
                n as nat,
            ) && forall|x: int, y: int|
                0 <= x < y < b@.len() ==> !word_lt(b@[y]@, b@[x]@),
            best matches Some(b) ==> forall|x: int| 0 <= x < b@.len() ==> (reduced_in ==> is_cyclically_reduced(
                #[trigger] b@[x]@,
            )) && (single_free_in ==> no_single_occurrence(b@[x]@)) && is_least_variant(b@[x]@, b@[x]@),
            input == views(relators@),
            best matches Some(b) ==> renamed_image(input, n as nat, views(b@)),
            limit == (1u32 << (n as u32)),
            best_so_far(best, relators@, n as nat, reduced_in, single_free_in),
            mask == 0 ==> best == ob,
            mask > 0 ==> no_worse(best, ob) && best is Some,
            forall|msk: u32| msk < mask ==> #[trigger] not_before_best(canonical_relabelling(input, perm@, msk), best),
        decreases limit - mask,
    {
        let mut relabeled: Vec<Vec<(usize, bool)>> = Vec::new();
        let mut k: usize = 0;
        while k < relators.len()
            invariant
                k <= relators.len(),
                n <= 31,
                perm@.len() == n,
                all_below(perm@, n as nat),
                is_injective(perm@),
                reduced_in == forall|m: int| 0 <= m < relators@.len() ==> is_cyclically_reduced(#[trigger] relators@[m]@),
                single_free_in == forall|m: int| 0 <= m < relators@.len() ==> no_single_occurrence(#[trigger] relators@[m]@),
                relators_within(relators@, n as nat),
                relabeled.len() == k,
                forall|x: int| 0 <= x < relabeled@.len() ==> (reduced_in ==> is_cyclically_reduced(
                    #[trigger] relabeled@[x]@,
                )) && (single_free_in ==> no_single_occurrence(relabeled@[x]@)) && is_least_variant(
                    relabeled@[x]@,
                    relabeled@[x]@,
                ),
                relators_within(relabeled@, n as nat),
                forall|x: int, y: int|
                    0 <= x < y < relabeled@.len() ==> !word_lt(
                        relabeled@[y]@,
                        relabeled@[x]@,
                    ),
                input == views(relators@),
                reduces_prefix(renamed_relators(input, perm@, mask), views(relabeled@), k as int),
                views(relabeled@) == insertion_sorted(candidates(input, perm@, mask).take(k as int)),
            decreases relators.len() - k,
        {
            let w = &relators[k];
            let mut word: Vec<(usize, bool)> = Vec::new();
            let mut j: usize = 0;
            while j < w.len()
                invariant
                    j <= w@.len(),
                    w@ == relators@[k as int]@,
                    n <= 31,
                    perm@.len() == n,
                    all_below(perm@, n as nat),
                    forall|q: int| 0 <= q < w@.len() ==> (#[trigger] w@[q]).0 < n,
                    word@.len() == j,
                    forall|q: int| 0 <= q < j ==> (#[trigger] word@[q]).0 < n,
                    word@ == relabel_flip(w@.take(j as int), perm@, mask),
                decreases w.len() - j,
            {
                let (g, inv) = w[j];
                let new_g = perm[g];
                let flip = (mask >> (g as u32)) & 1 == 1;
                word.push((new_g, inv != flip));
                proof {
                    assert(word@ =~= relabel_flip(w@.take(j + 1), perm@, mask));
                }
                j = j + 1;
            }
            let c = canonical_relator(&word);
            proof {
                assert(is_least_variant(word@, c@));
                lemma_least_variant_self(word@, c@);
                assert(w@.len() > 0);
                lemma_variant_within(word@, c@, n as nat);
                assert(w@.take(w@.len() as int) =~= w@);
                lemma_relabel_flip_keeps(w@, perm@, mask);
                lemma_variant_keeps(word@, c@);
                if reduced_in {
                    assert(is_cyclically_reduced(relators@[k as int]@));
                }
                if single_free_in {
                    assert(no_single_occurrence(relators@[k as int]@));
                    assert(no_single_occurrence(c@)) by {
                        assert forall|g: usize| #[trigger] occurrences(c@, g) != 1 by {
                            assert(occurrences(word@, g) != 1);
                        }
                    }
                }
            }
            let ghost before = relabeled@;
            insert_sorted(&mut relabeled, c);
            proof {
                let rr = renamed_relators(input, perm@, mask);
                assert(input[k as int] == relators@[k as int]@);
                assert(word@ =~= rr[k as int]);
                assert(same_relation(c@, rr[k as int]));
                lemma_insert_step(rr, before, relabeled@, k as int, c@);
                lemma_least_variant_unique(word@, c@);
                let cands = candidates(input, perm@, mask);
                assert(cands[k as int] == c@);
                assert(cands.take(k + 1).drop_last() =~= cands.take(k as int));
                assert forall|x: int| 0 <= x < relabeled@.len() implies (#[trigger] relabeled@[x])@.len() > 0
                    && forall|i: int| 0 <= i < relabeled@[x]@.len() ==> (#[trigger] relabeled@[x]@[i]).0 < n by {
                    if relabeled@[x]@ != c@ {
                        let m = choose|m: int| 0 <= m < before.len() && relabeled@[x]@ == before[m]@;
                    }
                }
                assert forall|x: int| 0 <= x < relabeled@.len() implies (reduced_in ==> is_cyclically_reduced(
                    #[trigger] relabeled@[x]@,
                )) && (single_free_in ==> no_single_occurrence(relabeled@[x]@)) && is_least_variant(
                    relabeled@[x]@,
                    relabeled@[x]@,
                ) by {
                    if relabeled@[x]@ != c@ {
                        let m = choose|m: int| 0 <= m < before.len() && relabeled@[x]@ == before[m]@;
                        assert(reduced_in ==> is_cyclically_reduced(before[m]@));
                        assert(single_free_in ==> no_single_occurrence(before[m]@));
                        assert(is_least_variant(before[m]@, before[m]@));
                    }
                }
            }
            k = k + 1;
        }
        let better = match &best {
            None => true,
            Some(b) => relators_less(&relabeled, b),
        };
        proof {
            let rr = renamed_relators(input, perm@, mask);
            assert(same_relators(rr, views(relabeled@)));
            assert(renamed_image(input, n as nat, views(relabeled@)));
        }
        let ghost cand = views(relabeled@);
        let ghost prev = best;
        proof {
            assert(candidates(input, perm@, mask).take(relators.len() as int) =~= candidates(input, perm@, mask));
            assert(cand == canonical_relabelling(input, perm@, mask));
        }
        if better {
            best = Some(relabeled);
        }
        proof {
            lemma_relators_lt_irreflexive(cand);
            assert forall|msk: u32| msk < mask + 1 implies #[trigger] not_before_best(
                canonical_relabelling(input, perm@, msk),
                best,
            ) by {
                if msk < mask {
                    if better {
                        lemma_not_before_best_kept(canonical_relabelling(input, perm@, msk), prev, best);
                    }
                }
            }
            if better {
                assert(is_candidate(input, n as nat, cand));
                if mask > 0 {
                    lemma_no_worse_trans(best, prev, ob);
                }
            }
        }
        mask = mask + 1;
    }
    best
}

/// Extends `perm` in every way to a renaming of the `n` generators, tries
/// every inversion mask with each, and keeps the least candidate.
#[verifier::spinoff_prover]
#[verifier::rlimit(80)]
fn search_renamings(
    relators: &Vec<Vec<(usize, bool)>>,
    n: usize,
    perm: &mut Vec<usize>,
    used: &mut Vec<bool>,
    start: Option<Vec<Vec<(usize, bool)>>>,
    Ghost(reduced_in): Ghost<bool>,
    Ghost(single_free_in): Ghost<bool>,
) -> (best: Option<Vec<Vec<(usize, bool)>>>)
    requires
        n <= 31,
        old(perm)@.len() <= n,
        all_below(old(perm)@, n as nat),
        is_injective(old(perm)@),
        old(used)@.len() == n,
        forall|v: int| 0 <= v < n ==> (#[trigger] old(used)@[v] <==> old(perm)@.contains(v as usize)),
        reduced_in == forall|m: int| 0 <= m < relators@.len() ==> is_cyclically_reduced(#[trigger] relators@[m]@),
        single_free_in == forall|m: int| 0 <= m < relators@.len() ==> no_single_occurrence(#[trigger] relators@[m]@),
        relators_within(relators@, n as nat),
        best_so_far(start, relators@, n as nat, reduced_in, single_free_in),
    ensures
        final(perm)@ == old(perm)@,
        final(used)@ == old(used)@,
        best_so_far(best, relators@, n as nat, reduced_in, single_free_in),
        no_worse(best, start),
        forall|q: Seq<usize>, mask: u32|
            q.len() == n && all_below(q, n as nat) && is_injective(q) && q.take(old(perm)@.len() as int) == old(
                perm,
            )@ && mask < (1u32 << (n as u32)) ==> #[trigger] not_before_best(
                canonical_relabelling(views(relators@), q, mask),
                best,
            ),
    decreases n - old(perm)@.len(),
{
    let ghost p0 = perm@;
    let ghost u0 = used@;
    if perm.len() == n {
        let best = best_over_masks(relators, n, perm, start, Ghost(reduced_in), Ghost(single_free_in));
        proof {
            assert forall|q: Seq<usize>, mask: u32|
                q.len() == n && all_below(q, n as nat) && is_injective(q) && q.take(p0.len() as int) == p0 && mask
                    < (1u32 << (n as u32)) implies #[trigger] not_before_best(
                canonical_relabelling(views(relators@), q, mask),
                best,
            ) by {
                assert(q =~= q.take(n as int));
            }
        }
        return best;
    }
    let mut best = start;
    let mut v: usize = 0;
    while v < n
        invariant
            n <= 31,
            perm@ == p0,
            used@ == u0,
            p0 == old(perm)@,
            u0 == old(used)@,
            p0.len() < n,
            v <= n,
            all_below(p0, n as nat),
            is_injective(p0),
            u0.len() == n,
            forall|w: int| 0 <= w < n ==> (#[trigger] u0[w] <==> p0.contains(w as usize)),
            reduced_in == forall|m: int| 0 <= m < relators@.len() ==> is_cyclically_reduced(#[trigger] relators@[m]@),
            single_free_in == forall|m: int| 0 <= m < relators@.len() ==> no_single_occurrence(#[trigger] relators@[m]@),
            relators_within(relators@, n as nat),
            best_so_far(best, relators@, n as nat, reduced_in, single_free_in),
            no_worse(best, start),
            forall|q: Seq<usize>, mask: u32|
                q.len() == n && all_below(q, n as nat) && is_injective(q) && q.take(p0.len() as int) == p0 && q[p0.len()
                    as int] < v && mask < (1u32 << (n as u32)) ==> #[trigger] not_before_best(
                    canonical_relabelling(views(relators@), q, mask),
                    best,
                ),
        decreases n - v,
    {
        if !used[v] {
            let ghost before = best;
            perm.push(v);
            used.set(v, true);
            proof {
                assert(!p0.contains(v));
                assert(perm@ == p0.push(v));
                assert(is_injective(perm@)) by {
                    assert forall|a: int, b: int| 0 <= a < perm@.len() && 0 <= b < perm@.len() && a != b implies #[trigger] perm@[a]
                        != #[trigger] perm@[b] by {
                        if a < p0.len() && b < p0.len() {
                            assert(perm@[a] == p0[a] && perm@[b] == p0[b]);
                        } else if a < p0.len() {
                            assert(perm@[a] == p0[a]);
                        } else if b < p0.len() {
                            assert(perm@[b] == p0[b]);
                        }
                    }
                }
                assert forall|w: int| 0 <= w < n implies (#[trigger] used@[w] <==> perm@.contains(w as usize)) by {
                    if w == v {
                        assert(perm@[p0.len() as int] == v);
                    } else {
                        if perm@.contains(w as usize) {
                            let j = choose|j: int| 0 <= j < perm@.len() && perm@[j] == w as usize;
                            assert(j < p0.len());
                            assert(p0[j] == w as usize);
                        }
                        if p0.contains(w as usize) {
                            let j = choose|j: int| 0 <= j < p0.len() && p0[j] == w as usize;
                            assert(perm@[j] == w as usize);
                        }
                    }
                }
            }
            best = search_renamings(relators, n, perm, used, best, Ghost(reduced_in), Ghost(single_free_in));
            perm.pop();
            used.set(v, false);
            proof {
                assert(perm@ =~= p0);
                assert(used@ =~= u0);
                if before is Some {
                    lemma_no_worse_trans(best, before, start);
                }
                assert forall|q: Seq<usize>, mask: u32|
                    q.len() == n && all_below(q, n as nat) && is_injective(q) && q.take(p0.len() as int) == p0 && q[p0.len()
                        as int] < v + 1 && mask < (1u32 << (n as u32)) implies #[trigger] not_before_best(
                        canonical_relabelling(views(relators@), q, mask),
                        best,
                    ) by {
                    if q[p0.len() as int] < v {
                        lemma_not_before_best_kept(canonical_relabelling(views(relators@), q, mask), before, best);
                    } else {
                        assert(q.take((p0.len() + 1) as int) =~= p0.push(v));
                    }
                }
            }
        } else {
            proof {
                assert forall|q: Seq<usize>, mask: u32|
                    q.len() == n && all_below(q, n as nat) && is_injective(q) && q.take(p0.len() as int) == p0 && q[p0.len()
                        as int] < v + 1 && mask < (1u32 << (n as u32)) implies #[trigger] not_before_best(
                        canonical_relabelling(views(relators@), q, mask),
                        best,
                    ) by {
                    if q[p0.len() as int] == v {
                        assert(p0.contains(v));
                        let j = choose|j: int| 0 <= j < p0.len() && p0[j] == v;
                        assert(q.take(p0.len() as int)[j] == q[j]);
                        assert(q[j] == q[p0.len() as int]);
                    }
                }
            }
        }
        v = v + 1;
    }
    proof {
        assert forall|q: Seq<usize>, mask: u32|
            q.len() == n && all_below(q, n as nat) && is_injective(q) && q.take(p0.len() as int) == p0 && mask < (1u32
                << (n as u32)) implies #[trigger] not_before_best(canonical_relabelling(views(relators@), q, mask), best) by {
            assert(q[p0.len() as int] < n);
        }
    }
    best
}

/// The canonical representative of a presentation under relabelling:
/// over every renaming of the generators and every choice of which
/// generators to invert, each relator is replaced by its canonical form, the
/// relators are sorted, and the least such list is kept.
///
/// The choice of inversions is a mask of `n_generators` bits in a `u32`, so
/// at most 31 generators are accepted.
#[verifier::spinoff_prover]
#[verifier::rlimit(80)]
pub fn canonicalize_presentation(n_generators: usize, relators: &Vec<Vec<(usize, bool)>>) -> (r: (
    usize,
    Vec<Vec<(usize, bool)>>,
))
    requires
        n_generators <= 31,
        relators_within(relators@, n_generators as nat),
    ensures
        r.0 == n_generators,
        r.1.len() == relators.len(),
        relators_within(r.1@, n_generators as nat),
        forall|a: int, b: int| 0 <= a < b < r.1@.len() ==> !word_lt(r.1@[b]@, r.1@[a]@),
        (forall|m: int| 0 <= m < relators@.len() ==> is_cyclically_reduced(#[trigger] relators@[m]@))
            ==> forall|k: int| 0 <= k < r.1@.len() ==> is_cyclically_reduced(#[trigger] r.1@[k]@),
        (forall|m: int| 0 <= m < relators@.len() ==> no_single_occurrence(#[trigger] relators@[m]@))
            ==> forall|k: int| 0 <= k < r.1@.len() ==> no_single_occurrence(#[trigger] r.1@[k]@),
        renamed_image(views(relators@), n_generators as nat, views(r.1@)),
        forall|k: int| 0 <= k < r.1@.len() ==> canonical_form(#[trigger] r.1@[k]@) == r.1@[k]@,
        tietze_derivable(n_generators as nat, views(relators@), r.0 as nat, views(r.1@)),
        forall|perm: Seq<usize>, mask: u32|
            perm.len() == n_generators && all_below(perm, n_generators as nat) && is_injective(perm) && mask < (1u32
                << (n_generators as u32)) ==> !relators_lt(
                #[trigger] canonical_relabelling(views(relators@), perm, mask),
                views(r.1@),
            ),
        is_candidate(views(relators@), n_generators as nat, views(r.1@)),
{
    let ghost input = views(relators@);
    let ghost reduced_in = forall|m: int| 0 <= m < relators@.len() ==> is_cyclically_reduced(#[trigger] relators@[m]@);
    let ghost single_free_in = forall|m: int| 0 <= m < relators@.len() ==> no_single_occurrence(#[trigger] relators@[m]@);
    let n = n_generators;
    let mut perm: Vec<usize> = Vec::new();
    let mut used: Vec<bool> = Vec::new();
    let mut t: usize = 0;
    while t < n
        invariant
            t <= n,
            used@.len() == t,
            forall|w: int| 0 <= w < t ==> !#[trigger] used@[w],
        decreases n - t,
    {
        used.push(false);
        t = t + 1;
    }
    proof {
        assert forall|w: int| 0 <= w < n implies (#[trigger] used@[w] <==> perm@.contains(w as usize)) by {}
    }
    let best = search_renamings(relators, n, &mut perm, &mut used, None, Ghost(reduced_in), Ghost(single_free_in));
    let nn: u32 = n as u32;
    assert((1u32 << nn) >= 1) by (bit_vector)
        requires
            nn <= 31,
    ;
    proof {
        let id = Seq::new(n as nat, |i: int| i as usize);
        assert(all_below(id, n as nat));
        assert(is_injective(id));
        assert(id.take(0) =~= Seq::<usize>::empty());
        assert(not_before_best(canonical_relabelling(input, id, 0), best));
    }
    match best {
        Some(b) => {
            proof {
                assert forall|k: int, i: int| 0 <= k < input.len() && 0 <= i < input[k].len() implies (
                #[trigger] input[k][i]).0 < n by {
                    assert(input[k] == relators@[k]@);
                }
                lemma_renamed_derivable(input, n as nat, views(b@));
                assert forall|q: Seq<usize>, mask: u32|
                    q.len() == n_generators && all_below(q, n_generators as nat) && is_injective(q) && mask < (1u32
                        << (n_generators as u32)) implies !relators_lt(
                    #[trigger] canonical_relabelling(views(relators@), q, mask),
                    views(b@),
                ) by {
                    assert(q.take(0) =~= Seq::<usize>::empty());
                    assert(not_before_best(canonical_relabelling(input, q, mask), best));
                }
                assert forall|k: int| 0 <= k < b@.len() implies canonical_form(#[trigger] b@[k]@) == b@[k]@ by {
                    lemma_least_variant_unique(b@[k]@, b@[k]@);
                }
            }
            (n, b)
        },
        None => (n, Vec::new()),
    }
}


/// A presentation `⟨S | R⟩` of a group by generators and relations.
///
/// The generators are indexed `0..n_generators`, and the relations are words
/// in those generators.
pub trait GroupPresentation {
    spec fn generators_spec(&self) -> nat;

    spec fn relations_spec(&self) -> Seq<Seq<(usize, bool)>>;

    /// The number of generators in the presentation.
    fn n_generators(&self) -> (r: usize)
        ensures
            r == self.generators_spec(),
    ;

    /// The relations: words in the generators that evaluate to the identity.
    fn relations(&self) -> (r: Vec<Vec<(usize, bool)>>)
        ensures
            views(r@) == self.relations_spec(),
    ;
}

/// Whether two presentations are literally equal: the same number of
/// generators and the same relation words in the same order.
pub fn check_exactly_equal<S: GroupPresentation, P: GroupPresentation>(this: &S, other: &P) -> (r: bool)
    ensures
        r == (this.generators_spec() == other.generators_spec() && this.relations_spec()
            == other.relations_spec()),
{
    if this.n_generators() != other.n_generators() {
        return false;
    }
    let a = this.relations();
    let b = other.relations();
    if a.len() != b.len() {
        proof {
            assert(views(a@).len() == a@.len());
            assert(views(b@).len() == b@.len());
        }
        return false;
    }
    let mut i: usize = 0;
    assert(this.generators_spec() == other.generators_spec());
    while i < a.len()
        invariant
            this.generators_spec() == other.generators_spec(),
            i <= a.len(),
            a.len() == b.len(),
            views(a@) == this.relations_spec(),
            views(b@) == other.relations_spec(),
            forall|k: int| 0 <= k < i ==> a@[k]@ == b@[k]@,
        decreases a.len() - i,
    {
        if !words_equal(&a[i], &b[i]) {
            proof {
                assert(views(a@)[i as int] == a@[i as int]@);
                assert(views(b@)[i as int] == b@[i as int]@);
                assert(views(a@) != views(b@));
            }
            return false;
        }
        i = i + 1;
    }
    proof {
        assert(views(a@) =~= views(b@));
    }
    true
}

impl GroupPresentation for FundamentalGroupPresentation {
    open spec fn generators_spec(&self) -> nat {
        self.n_generators as nat
    }

    open spec fn relations_spec(&self) -> Seq<Seq<(usize, bool)>> {
        views(self.relations@)
    }

    fn n_generators(&self) -> (r: usize) {
        self.n_generators
    }

    fn relations(&self) -> (r: Vec<Vec<(usize, bool)>>) {
        copy_words(&self.relations)
    }
}

/// A copy of a list of words.
pub fn copy_words(rels: &Vec<Vec<(usize, bool)>>) -> (r: Vec<Vec<(usize, bool)>>)
    ensures
        views(r@) == views(rels@),
{
    let mut out: Vec<Vec<(usize, bool)>> = Vec::new();
    let mut i: usize = 0;
    while i < rels.len()
        invariant
            i <= rels.len(),
            out.len() == i,
            forall|k: int| 0 <= k < i ==> out@[k]@ == rels@[k]@,
        decreases rels.len() - i,
    {
        out.push(copy_word(&rels[i]));
        i = i + 1;
    }
    assert(views(out@) =~= views(rels@));
    out
}

/// A single relation, borrowed from the flat backing array of a
/// [`StaticGroupPresentation`].
#[derive(Clone, Copy)]
pub struct StaticWord(pub &'static [(usize, bool)]);

/// A presentation whose relations live in static storage: every relation's
/// letters concatenated in `flat_words`, and one handle per relation in
/// `words`.
pub struct StaticGroupPresentation {
    pub n_generators: usize,
    pub flat_words: &'static [(usize, bool)],
    pub words: &'static [StaticWord],
}

impl StaticGroupPresentation {
    /// The number of relations.
    pub fn n_relations(&self) -> (r: usize)
        ensures
            r == self.words@.len(),
    {
        self.words.len()
    }
}

impl GroupPresentation for StaticGroupPresentation {
    open spec fn generators_spec(&self) -> nat {
        self.n_generators as nat
    }

    open spec fn relations_spec(&self) -> Seq<Seq<(usize, bool)>> {
        self.words@.map_values(|w: StaticWord| w.0@)
    }

    fn n_generators(&self) -> (r: usize) {
        self.n_generators
    }

    fn relations(&self) -> (r: Vec<Vec<(usize, bool)>>) {
        let mut out: Vec<Vec<(usize, bool)>> = Vec::new();
        let mut i: usize = 0;
        while i < self.words.len()
            invariant
                i <= self.words@.len(),
                out.len() == i,
                forall|k: int| 0 <= k < i ==> out@[k]@ == self.words@[k].0@,
            decreases self.words@.len() - i,
        {
            out.push(copy_word(self.words[i].0));
            i = i + 1;
        }
        assert(views(out@) =~= self.words@.map_values(|w: StaticWord| w.0@));
        out
    }
}

} // verus!
