//! The combinatorial topology of a finite good cover: the spanning tree of its
//! 1-skeleton, one generator per non-tree edge, one relation per triangle,
//! and the abelianisation of the group they present.
use vstd::prelude::*;
use crate::presentation::{
    free_reduction, free_reduce, lemma_free_reduction_letters, views, relators_within, word_lt,
    tietze_simplify, canonicalize_presentation, FundamentalGroupPresentation, is_cyclically_reduced,
    no_single_occurrence, is_simplified_relator, tietze_derivable, lemma_derivable_trans, canonical_form,
    is_candidate, canonical_relabelling, relators_lt, all_below, is_injective, pairwise_unrelated,
    letters_below, lemma_relabelling_unrelated,
};
use crate::homology::{Abelianisation, abelianisation_fits};
use crate::algebra::CMonoid;

verus! {

/// Every neighbour index names a node, no node lists itself, and no list
/// repeats an entry: each list is the set of other nodes whose domains
/// overlap the node's own, the 1-skeleton of the nerve as the neighbour
/// query describes it.
pub open spec fn valid_neighbors(nbrs: Seq<Vec<usize>>) -> bool {
    &&& forall|i: int, a: int|
        0 <= i < nbrs.len() && 0 <= a < nbrs[i]@.len() ==> (#[trigger] nbrs[i]@[a]) < nbrs.len()
            && nbrs[i]@[a] != i
    &&& forall|i: int, a: int, b: int|
        0 <= i < nbrs.len() && 0 <= a < b < nbrs[i]@.len() ==> #[trigger] nbrs[i]@[a] != #[trigger] nbrs[i]@[b]
}

/// Node `v` has been reached: it is the root or has a parent.
pub open spec fn reached(parent: Seq<Option<usize>>, v: int) -> bool {
    v == 0 || parent[v] is Some
}

/// The number of `false` entries.
pub open spec fn count_false(s: Seq<bool>) -> nat
    decreases s.len(),
{
    if s.len() == 0 {
        0
    } else {
        count_false(s.drop_last()) + if s.last() {
            0nat
        } else {
            1nat
        }
    }
}

/// Setting an unset flag removes one `false`.
proof fn lemma_count_false_set(s: Seq<bool>, i: int)
    requires
        0 <= i < s.len(),
        !s[i],
    ensures
        count_false(s.update(i, true)) + 1 == count_false(s),
    decreases s.len(),
{
    let t = s.update(i, true);
    if i == s.len() - 1 {
        assert(t.drop_last() =~= s.drop_last());
    } else {
        assert(t.drop_last() =~= s.drop_last().update(i, true));
        lemma_count_false_set(s.drop_last(), i);
    }
}

/// A breadth-first spanning tree of the component of node `0`.
///
/// Returns each node's parent, `None` for the root and for nodes not
/// reached, with a ghost rank along which parents strictly precede their
/// children (so the parent links form a tree). Every neighbour of a reached
/// node is reached.
fn spanning_tree(neighbors: &Vec<Vec<usize>>) -> (r: (Vec<Option<usize>>, Ghost<Seq<nat>>))
    requires
        neighbors.len() >= 1,
        valid_neighbors(neighbors@),
    ensures
        r.0@.len() == neighbors.len(),
        r.0@[0] is None,
        r.1@.len() == neighbors.len(),
        forall|v: int|
            0 <= v < neighbors.len() && #[trigger] r.0@[v] is Some ==> {
                let u = r.0@[v]->0 as int;
                &&& u < neighbors.len()
                &&& v != 0
                &&& neighbors@[u]@.contains(v as usize)
                &&& r.1@[u] < r.1@[v]
            },
        forall|u: int, a: int|
            0 <= u < neighbors.len() && reached(r.0@, u) && 0 <= a < neighbors@[u]@.len() ==> reached(
                r.0@,
                #[trigger] neighbors@[u]@[a] as int,
            ),
{
    let n = neighbors.len();
    let mut parent: Vec<Option<usize>> = Vec::new();
    let mut seen: Vec<bool> = Vec::new();
    let mut k: usize = 0;
    while k < n
        invariant
            k <= n,
            parent@ == Seq::new(k as nat, |v: int| None::<usize>),
            seen@ == Seq::new(k as nat, |v: int| v == 0),
        decreases n - k,
    {
        parent.push(None);
        seen.push(k == 0);
        k = k + 1;
    }
    let mut queue: Vec<usize> = Vec::new();
    queue.push(0);
    let ghost mut pos: Seq<nat> = Seq::new(n as nat, |v: int| 0nat);
    let mut head: usize = 0;
    while head < queue.len()
        invariant
            n == neighbors.len(),
            valid_neighbors(neighbors@),
            parent@.len() == n,
            seen@.len() == n,
            pos.len() == n,
            head <= queue@.len(),
            parent@[0] is None,
            seen@[0],
            forall|v: int| 0 <= v < n ==> #[trigger] seen@[v] == reached(parent@, v),
            forall|q: int| 0 <= q < queue@.len() ==> #[trigger] queue@[q] < n && seen@[queue@[q] as int]
                && pos[queue@[q] as int] == q,
            forall|v: int| 0 <= v < n && #[trigger] seen@[v] ==> pos[v] < queue@.len() && queue@[pos[v] as int] == v,
            forall|v: int|
                0 <= v < n && #[trigger] parent@[v] is Some ==> {
                    let u = parent@[v]->0 as int;
                    &&& u < n
                    &&& v != 0
                    &&& neighbors@[u]@.contains(v as usize)
                    &&& pos[u] < pos[v]
                    &&& seen@[u]
                },
            forall|q: int, a: int|
                0 <= q < head && 0 <= a < neighbors@[queue@[q] as int]@.len() ==> seen@[#[trigger] neighbors@[queue@[q] as int]@[a] as int],
        decreases count_false(seen@), queue@.len() - head,
    {
        let u = queue[head];
        let nu = &neighbors[u];
        let ghost cf0 = count_false(seen@);
        let ghost q0 = queue@.len();
        let mut b: usize = 0;
        while b < nu.len()
            invariant
                n == neighbors.len(),
                valid_neighbors(neighbors@),
                nu@ == neighbors@[u as int]@,
                u < n,
                head < queue@.len(),
                queue@[head as int] == u,
                parent@.len() == n,
                seen@.len() == n,
                pos.len() == n,
                parent@[0] is None,
                seen@[0],
                seen@[u as int],
                b <= nu@.len(),
                q0 <= queue@.len(),
                count_false(seen@) + (queue@.len() - q0) == cf0,
                forall|v: int| 0 <= v < n ==> #[trigger] seen@[v] == reached(parent@, v),
                forall|q: int| 0 <= q < queue@.len() ==> #[trigger] queue@[q] < n && seen@[queue@[q] as int]
                    && pos[queue@[q] as int] == q,
                forall|v: int| 0 <= v < n && #[trigger] seen@[v] ==> pos[v] < queue@.len() && queue@[pos[v] as int] == v,
                forall|v: int|
                    0 <= v < n && #[trigger] parent@[v] is Some ==> {
                        let w = parent@[v]->0 as int;
                        &&& w < n
                        &&& v != 0
                        &&& neighbors@[w]@.contains(v as usize)
                        &&& pos[w] < pos[v]
                        &&& seen@[w]
                    },
                forall|q: int, a: int|
                    0 <= q < head && 0 <= a < neighbors@[queue@[q] as int]@.len() ==> seen@[#[trigger] neighbors@[queue@[q] as int]@[a] as int],
                forall|a: int| 0 <= a < b ==> seen@[#[trigger] nu@[a] as int],
            decreases nu@.len() - b,
        {
            let v = nu[b];
            if !seen[v] {
                proof {
                    lemma_count_false_set(seen@, v as int);
                    pos = pos.update(v as int, queue@.len());
                }
                seen.set(v, true);
                parent.set(v, Some(u));
                queue.push(v);
                assert(nu@.contains(v));
            }
            b = b + 1;
        }
        head = head + 1;
    }
    proof {
        assert forall|u: int, a: int|
            0 <= u < n && reached(parent@, u) && 0 <= a < neighbors@[u]@.len() implies reached(
                parent@,
                #[trigger] neighbors@[u]@[a] as int,
            ) by {
            assert(seen@[u]);
            let q = pos[u] as int;
            assert(queue@[q] == u);
            assert(seen@[neighbors@[queue@[q] as int]@[a] as int]);
        }
    }
    (parent, Ghost(pos))
}

/// The `a`-th neighbour of node `i` closes a non-tree edge, taken from its
/// lower endpoint.
pub open spec fn is_generator_edge(nbrs: Seq<Vec<usize>>, parent: Seq<Option<usize>>, i: int, a: int) -> bool {
    let j = nbrs[i]@[a] as int;
    &&& i < j
    &&& parent[j] != Some(i as usize)
    &&& parent[i] != Some(j as usize)
}

/// The number of generator edges before position `(i, a)`, scanning each
/// node's neighbours in order, node by node.
pub open spec fn generators_before(nbrs: Seq<Vec<usize>>, parent: Seq<Option<usize>>, i: int, a: int) -> nat
    decreases i, a,
{
    if a > 0 {
        generators_before(nbrs, parent, i, a - 1) + if is_generator_edge(nbrs, parent, i, a - 1) {
            1nat
        } else {
            0nat
        }
    } else if i > 0 {
        generators_before(nbrs, parent, i - 1, nbrs[i - 1]@.len() as int)
    } else {
        0
    }
}

/// Position `(x, b)` comes before `(i, a)` in the scan.
pub open spec fn scanned_before(x: int, b: int, i: int, a: int) -> bool {
    x < i || (x == i && b < a)
}

/// The generator table: entry `(x, y)` holds the generator of the non-tree
/// edge `x → y` and whether it is traversed against its orientation.
pub open spec fn generator_table(
    nbrs: Seq<Vec<usize>>,
    parent: Seq<Option<usize>>,
    eg: Seq<Vec<Option<(usize, bool)>>>,
    ng: nat,
    i: int,
    a: int,
) -> bool {
    let n = nbrs.len();
    &&& eg.len() == n
    &&& forall|x: int| 0 <= x < n ==> (#[trigger] eg[x])@.len() == n
    &&& forall|x: int, b: int|
        0 <= x < n && 0 <= b < nbrs[x]@.len() && scanned_before(x, b, i, a) && #[trigger] is_generator_edge(
            nbrs,
            parent,
            x,
            b,
        ) ==> eg[x]@[nbrs[x]@[b] as int] == Some((generators_before(nbrs, parent, x, b) as usize, false))
            && eg[nbrs[x]@[b] as int]@[x] == Some((generators_before(nbrs, parent, x, b) as usize, true))
    &&& forall|x: int, y: int|
        0 <= x < n && 0 <= y < n && (#[trigger] eg[x]@[y]) is Some ==> {
            &&& (eg[x]@[y]->0).0 < ng
            &&& (exists|b: int|
                0 <= b < nbrs[x]@.len() && scanned_before(x, b, i, a) && #[trigger] is_generator_edge(
                    nbrs,
                    parent,
                    x,
                    b,
                ) && nbrs[x]@[b] == y && !(eg[x]@[y]->0).1) || (exists|b: int|
                0 <= b < nbrs[y]@.len() && scanned_before(y, b, i, a) && #[trigger] is_generator_edge(
                    nbrs,
                    parent,
                    y,
                    b,
                ) && nbrs[y]@[b] == x && (eg[x]@[y]->0).1)
        }
}

/// The number of generator edges of the whole scan.
#[verifier::opaque]
pub open spec fn generator_count(nbrs: Seq<Vec<usize>>, parent: Seq<Option<usize>>) -> nat {
    generators_before(nbrs, parent, nbrs.len() as int, 0)
}

/// The count of generator edges grows along each node's neighbour list.
proof fn lemma_generators_row(nbrs: Seq<Vec<usize>>, parent: Seq<Option<usize>>, i: int, a: int, b: int)
    requires
        0 <= a <= b,
    ensures
        generators_before(nbrs, parent, i, a) <= generators_before(nbrs, parent, i, b),
    decreases b - a,
{
    if a < b {
        lemma_generators_row(nbrs, parent, i, a, b - 1);
    }
}

/// No position of the scan has counted more generator edges than the whole
/// scan.
proof fn lemma_generators_total(nbrs: Seq<Vec<usize>>, parent: Seq<Option<usize>>, i: int, a: int)
    requires
        0 <= i < nbrs.len(),
        0 <= a <= nbrs[i]@.len(),
    ensures
        generators_before(nbrs, parent, i, a) <= generators_before(nbrs, parent, nbrs.len() as int, 0),
    decreases nbrs.len() - i,
{
    lemma_generators_row(nbrs, parent, i, a, nbrs[i]@.len() as int);
    assert(generators_before(nbrs, parent, i + 1, 0) == generators_before(nbrs, parent, i, nbrs[i]@.len() as int));
    if i + 1 < nbrs.len() {
        lemma_generators_total(nbrs, parent, i + 1, 0);
    }
}

/// One generator per non-tree edge of the spanning tree `parent`, numbered
/// in scan order; `None` exactly when the count leaves `usize`.
#[verifier::spinoff_prover]
#[verifier::rlimit(30)]
fn number_generators(neighbors: &Vec<Vec<usize>>, parent: &Vec<Option<usize>>) -> (r: Option<(usize, Vec<Vec<Option<(usize, bool)>>>)>)
    requires
        valid_neighbors(neighbors@),
        parent@.len() == neighbors.len(),
    ensures
        r is None <==> generator_count(neighbors@, parent@) > usize::MAX,
        r matches Some((ng, eg)) ==> ng == generators_before(neighbors@, parent@, neighbors@.len() as int, 0)
            && generator_table(neighbors@, parent@, eg@, ng as nat, neighbors@.len() as int, 0),
{
    let n = neighbors.len();
    let mut eg: Vec<Vec<Option<(usize, bool)>>> = Vec::new();
    let mut x: usize = 0;
    while x < n
        invariant
            x <= n,
            eg@.len() == x,
            forall|k: int| 0 <= k < x ==> (#[trigger] eg@[k])@ == Seq::new(n as nat, |y: int| None::<(usize, bool)>),
        decreases n - x,
    {
        let mut row: Vec<Option<(usize, bool)>> = Vec::new();
        let mut y: usize = 0;
        while y < n
            invariant
                y <= n,
                row@ == Seq::new(y as nat, |k: int| None::<(usize, bool)>),
            decreases n - y,
        {
            row.push(None);
            y = y + 1;
        }
        eg.push(row);
        x = x + 1;
    }
    let mut ng: usize = 0;
    let mut i: usize = 0;
    while i < n
        invariant
            n == neighbors@.len(),
            valid_neighbors(neighbors@),
            parent@.len() == n,
            i <= n,
            ng == generators_before(neighbors@, parent@, i as int, 0),
            generator_table(neighbors@, parent@, eg@, ng as nat, i as int, 0),
        decreases n - i,
    {
        let row = &neighbors[i];
        let mut a: usize = 0;
        while a < row.len()
            invariant
                n == neighbors@.len(),
                valid_neighbors(neighbors@),
                parent@.len() == n,
                i < n,
                row@ == neighbors@[i as int]@,
                a <= row@.len(),
                ng == generators_before(neighbors@, parent@, i as int, a as int),
                generator_table(neighbors@, parent@, eg@, ng as nat, i as int, a as int),
            decreases row@.len() - a,
        {
            let j = row[a];
            let tree_edge = match parent[j] {
                Some(p) => p == i,
                None => false,
            } || match parent[i] {
                Some(p) => p == j,
                None => false,
            };
            if i < j && !tree_edge {
                if ng == usize::MAX {
                    proof {
                        assert(is_generator_edge(neighbors@, parent@, i as int, a as int));
                        assert(generators_before(neighbors@, parent@, i as int, a + 1) == ng + 1);
                        lemma_generators_total(neighbors@, parent@, i as int, a + 1);
                        reveal(generator_count);
                    }
                    return None;
                }
                let ghost eg0 = eg@;
                let mut ri = copy_table_row(&eg[i]);
                ri.set(j, Some((ng, false)));
                eg.set(i, ri);
                let mut rj = copy_table_row(&eg[j]);
                rj.set(i, Some((ng, true)));
                eg.set(j, rj);
                proof {
                    lemma_table_step(neighbors@, parent@, eg0, eg@, ng as nat, i as int, a as int);
                }
                ng = ng + 1;
            } else {
                proof {
                    lemma_table_skip(neighbors@, parent@, eg@, ng as nat, i as int, a as int);
                }
            }
            a = a + 1;
        }
        proof {
            lemma_table_next_row(neighbors@, parent@, eg@, ng as nat, i as int);
        }
        i = i + 1;
    }
    proof {
        reveal(generator_count);
    }
    Some((ng, eg))
}

/// A copy of a row of the generator table.
fn copy_table_row(v: &Vec<Option<(usize, bool)>>) -> (r: Vec<Option<(usize, bool)>>)
    ensures
        r@ == v@,
{
    let mut out: Vec<Option<(usize, bool)>> = Vec::new();
    let mut k: usize = 0;
    while k < v.len()
        invariant
            k <= v.len(),
            out@ == v@.take(k as int),
        decreases v.len() - k,
    {
        out.push(v[k]);
        assert(v@.take(k + 1) =~= v@.take(k as int).push(v@[k as int]));
        k = k + 1;
    }
    assert(v@.take(v.len() as int) =~= v@);
    out
}

/// Recording the generator edge at position `(i, a)` extends the table.
proof fn lemma_table_step(
    nbrs: Seq<Vec<usize>>,
    parent: Seq<Option<usize>>,
    eg0: Seq<Vec<Option<(usize, bool)>>>,
    eg1: Seq<Vec<Option<(usize, bool)>>>,
    ng: nat,
    i: int,
    a: int,
)
    requires
        valid_neighbors(nbrs),
        parent.len() == nbrs.len(),
        0 <= i < nbrs.len(),
        0 <= a < nbrs[i]@.len(),
        is_generator_edge(nbrs, parent, i, a),
        ng == generators_before(nbrs, parent, i, a),
        generator_table(nbrs, parent, eg0, ng, i, a),
        eg1.len() == nbrs.len(),
        forall|x: int|
            0 <= x < nbrs.len() && x != i && x != nbrs[i]@[a] as int ==> (#[trigger] eg1[x])@ == eg0[x]@,
        eg1[i]@ == eg0[i]@.update(nbrs[i]@[a] as int, Some((ng as usize, false))),
        eg1[nbrs[i]@[a] as int]@ == eg0[nbrs[i]@[a] as int]@.update(i, Some((ng as usize, true))),
    ensures
        generator_table(nbrs, parent, eg1, ng + 1, i, a + 1),
{
    let n = nbrs.len();
    let j = nbrs[i]@[a] as int;
    assert(i != j);
    assert forall|x: int| 0 <= x < n implies (#[trigger] eg1[x])@.len() == n by {
        assert(eg0[x]@.len() == n);
    }
    // A cell recorded at an earlier position is neither (i, j) nor (j, i).
    assert forall|x: int, b: int|
        0 <= x < n && 0 <= b < nbrs[x]@.len() && scanned_before(x, b, i, a + 1) && #[trigger] is_generator_edge(
            nbrs,
            parent,
            x,
            b,
        ) implies eg1[x]@[nbrs[x]@[b] as int] == Some((generators_before(nbrs, parent, x, b) as usize, false))
        && eg1[nbrs[x]@[b] as int]@[x] == Some((generators_before(nbrs, parent, x, b) as usize, true)) by {
        let y = nbrs[x]@[b] as int;
        if x == i && b == a {
        } else {
            assert(scanned_before(x, b, i, a));
            if x == i {
                assert(nbrs[i]@[b] != nbrs[i]@[a]);
            }
            assert(eg1[x]@[y] == eg0[x]@[y]);
            assert(eg1[y]@[x] == eg0[y]@[x]);
        }
    }
    assert forall|x: int, y: int| 0 <= x < n && 0 <= y < n && (#[trigger] eg1[x]@[y]) is Some implies {
        &&& (eg1[x]@[y]->0).0 < ng + 1
        &&& (exists|b: int|
            0 <= b < nbrs[x]@.len() && scanned_before(x, b, i, a + 1) && #[trigger] is_generator_edge(
                nbrs,
                parent,
                x,
                b,
            ) && nbrs[x]@[b] == y && !(eg1[x]@[y]->0).1) || (exists|b: int|
            0 <= b < nbrs[y]@.len() && scanned_before(y, b, i, a + 1) && #[trigger] is_generator_edge(
                nbrs,
                parent,
                y,
                b,
            ) && nbrs[y]@[b] == x && (eg1[x]@[y]->0).1)
    } by {
        if x == i && y == j {
            assert(is_generator_edge(nbrs, parent, i, a));
        } else if x == j && y == i {
            assert(is_generator_edge(nbrs, parent, i, a));
        } else {
            assert(eg1[x]@[y] == eg0[x]@[y]);
            assert(eg0[x]@[y] is Some);
            if exists|b: int|
                0 <= b < nbrs[x]@.len() && scanned_before(x, b, i, a) && #[trigger] is_generator_edge(
                    nbrs,
                    parent,
                    x,
                    b,
                ) && nbrs[x]@[b] == y && !(eg0[x]@[y]->0).1 {
                let b = choose|b: int|
                    0 <= b < nbrs[x]@.len() && scanned_before(x, b, i, a) && #[trigger] is_generator_edge(
                        nbrs,
                        parent,
                        x,
                        b,
                    ) && nbrs[x]@[b] == y && !(eg0[x]@[y]->0).1;
                assert(scanned_before(x, b, i, a + 1));
            } else {
                let b = choose|b: int|
                    0 <= b < nbrs[y]@.len() && scanned_before(y, b, i, a) && #[trigger] is_generator_edge(
                        nbrs,
                        parent,
                        y,
                        b,
                    ) && nbrs[y]@[b] == x && (eg0[x]@[y]->0).1;
                assert(scanned_before(y, b, i, a + 1));
            }
        }
    }
}

/// Passing a position that closes no generator edge leaves the table valid.
proof fn lemma_table_skip(
    nbrs: Seq<Vec<usize>>,
    parent: Seq<Option<usize>>,
    eg: Seq<Vec<Option<(usize, bool)>>>,
    ng: nat,
    i: int,
    a: int,
)
    requires
        0 <= i < nbrs.len(),
        0 <= a < nbrs[i]@.len(),
        !is_generator_edge(nbrs, parent, i, a),
        generator_table(nbrs, parent, eg, ng, i, a),
    ensures
        generator_table(nbrs, parent, eg, ng, i, a + 1),
{
    let n = nbrs.len();
    assert forall|x: int, y: int| 0 <= x < n && 0 <= y < n && (#[trigger] eg[x]@[y]) is Some implies {
        &&& (eg[x]@[y]->0).0 < ng
        &&& (exists|b: int|
            0 <= b < nbrs[x]@.len() && scanned_before(x, b, i, a + 1) && #[trigger] is_generator_edge(
                nbrs,
                parent,
                x,
                b,
            ) && nbrs[x]@[b] == y && !(eg[x]@[y]->0).1) || (exists|b: int|
            0 <= b < nbrs[y]@.len() && scanned_before(y, b, i, a + 1) && #[trigger] is_generator_edge(
                nbrs,
                parent,
                y,
                b,
            ) && nbrs[y]@[b] == x && (eg[x]@[y]->0).1)
    } by {
        if exists|b: int|
            0 <= b < nbrs[x]@.len() && scanned_before(x, b, i, a) && #[trigger] is_generator_edge(
                nbrs,
                parent,
                x,
                b,
            ) && nbrs[x]@[b] == y && !(eg[x]@[y]->0).1 {
            let b = choose|b: int|
                0 <= b < nbrs[x]@.len() && scanned_before(x, b, i, a) && #[trigger] is_generator_edge(
                    nbrs,
                    parent,
                    x,
                    b,
                ) && nbrs[x]@[b] == y && !(eg[x]@[y]->0).1;
            assert(scanned_before(x, b, i, a + 1));
        } else {
            let b = choose|b: int|
                0 <= b < nbrs[y]@.len() && scanned_before(y, b, i, a) && #[trigger] is_generator_edge(
                    nbrs,
                    parent,
                    y,
                    b,
                ) && nbrs[y]@[b] == x && (eg[x]@[y]->0).1;
            assert(scanned_before(y, b, i, a + 1));
        }
    }
}

/// The end of node `i`'s neighbours is the start of node `i + 1`'s.
proof fn lemma_table_next_row(
    nbrs: Seq<Vec<usize>>,
    parent: Seq<Option<usize>>,
    eg: Seq<Vec<Option<(usize, bool)>>>,
    ng: nat,
    i: int,
)
    requires
        0 <= i < nbrs.len(),
        generator_table(nbrs, parent, eg, ng, i, nbrs[i]@.len() as int),
    ensures
        generator_table(nbrs, parent, eg, ng, i + 1, 0),
        generators_before(nbrs, parent, i + 1, 0) == generators_before(nbrs, parent, i, nbrs[i]@.len() as int),
{
    let n = nbrs.len();
    let len = nbrs[i]@.len() as int;
    assert forall|x: int, y: int| 0 <= x < n && 0 <= y < n && (#[trigger] eg[x]@[y]) is Some implies {
        &&& (eg[x]@[y]->0).0 < ng
        &&& (exists|b: int|
            0 <= b < nbrs[x]@.len() && scanned_before(x, b, i + 1, 0) && #[trigger] is_generator_edge(
                nbrs,
                parent,
                x,
                b,
            ) && nbrs[x]@[b] == y && !(eg[x]@[y]->0).1) || (exists|b: int|
            0 <= b < nbrs[y]@.len() && scanned_before(y, b, i + 1, 0) && #[trigger] is_generator_edge(
                nbrs,
                parent,
                y,
                b,
            ) && nbrs[y]@[b] == x && (eg[x]@[y]->0).1)
    } by {
        if exists|b: int|
            0 <= b < nbrs[x]@.len() && scanned_before(x, b, i, len) && #[trigger] is_generator_edge(
                nbrs,
                parent,
                x,
                b,
            ) && nbrs[x]@[b] == y && !(eg[x]@[y]->0).1 {
            let b = choose|b: int|
                0 <= b < nbrs[x]@.len() && scanned_before(x, b, i, len) && #[trigger] is_generator_edge(
                    nbrs,
                    parent,
                    x,
                    b,
                ) && nbrs[x]@[b] == y && !(eg[x]@[y]->0).1;
            assert(scanned_before(x, b, i + 1, 0));
        } else {
            let b = choose|b: int|
                0 <= b < nbrs[y]@.len() && scanned_before(y, b, i, len) && #[trigger] is_generator_edge(
                    nbrs,
                    parent,
                    y,
                    b,
                ) && nbrs[y]@[b] == x && (eg[x]@[y]->0).1;
            assert(scanned_before(y, b, i + 1, 0));
        }
    }
    assert forall|x: int, b: int|
        0 <= x < n && 0 <= b < nbrs[x]@.len() && scanned_before(x, b, i + 1, 0) && #[trigger] is_generator_edge(
            nbrs,
            parent,
            x,
            b,
        ) implies eg[x]@[nbrs[x]@[b] as int] == Some((generators_before(nbrs, parent, x, b) as usize, false))
        && eg[nbrs[x]@[b] as int]@[x] == Some((generators_before(nbrs, parent, x, b) as usize, true)) by {
        assert(scanned_before(x, b, i, len));
    }
}

/// The letter of the edge `x → y`: its generator, or nothing for a tree
/// edge or a non-edge.
pub open spec fn edge_word(eg: Seq<Vec<Option<(usize, bool)>>>, x: int, y: int) -> Seq<(usize, bool)> {
    match eg[x]@[y] {
        Some(l) => seq![l],
        None => Seq::empty(),
    }
}

/// Position `(i, a, b)` names the triangle `i < j < k` with `j` the `a`-th
/// neighbour of `i`, `k` the `b`-th neighbour of `j`, and `k` a neighbour of
/// `i`.
pub open spec fn is_triangle(nbrs: Seq<Vec<usize>>, i: int, a: int, b: int) -> bool {
    let j = nbrs[i]@[a] as int;
    let k = nbrs[j]@[b] as int;
    i < j && j < k && nbrs[i]@.contains(k as usize)
}

/// The freely reduced boundary word `∂(i, j, k)` of the triangle at
/// position `(i, a, b)`.
pub open spec fn triangle_word(nbrs: Seq<Vec<usize>>, eg: Seq<Vec<Option<(usize, bool)>>>, i: int, a: int, b: int) -> Seq<(usize, bool)> {
    let j = nbrs[i]@[a] as int;
    let k = nbrs[j]@[b] as int;
    free_reduction(edge_word(eg, i, j) + edge_word(eg, j, k) + edge_word(eg, k, i))
}

/// The signed number of occurrences of generator `g`.
pub open spec fn letter_sum(w: Seq<(usize, bool)>, g: int) -> int
    decreases w.len(),
{
    if w.len() == 0 {
        0
    } else {
        letter_sum(w.drop_last(), g) + if w.last().0 == g {
            if w.last().1 {
                -1int
            } else {
                1int
            }
        } else {
            0int
        }
    }
}

/// The word read additively: the signed count of each of `ng` generators.
pub open spec fn abelianised(w: Seq<(usize, bool)>, ng: nat) -> Seq<i64> {
    Seq::new(ng, |g: int| letter_sum(w, g) as i64)
}

/// Every entry is zero.
pub open spec fn is_zero_vector(v: Seq<i64>) -> bool {
    forall|k: int| 0 <= k < v.len() ==> v[k] == 0
}

/// The relation contributed at position `(i, a, b)`: the boundary word of a
/// triangle, when it does not reduce away.
pub open spec fn triangle_relation(nbrs: Seq<Vec<usize>>, eg: Seq<Vec<Option<(usize, bool)>>>, i: int, a: int, b: int) -> Seq<Seq<(usize, bool)>> {
    if is_triangle(nbrs, i, a, b) && triangle_word(nbrs, eg, i, a, b).len() > 0 {
        seq![triangle_word(nbrs, eg, i, a, b)]
    } else {
        Seq::empty()
    }
}

/// The abelianised relation contributed at position `(i, a, b)`, when it is
/// not zero.
pub open spec fn triangle_column(nbrs: Seq<Vec<usize>>, eg: Seq<Vec<Option<(usize, bool)>>>, ng: nat, i: int, a: int, b: int) -> Seq<Seq<i64>> {
    if is_triangle(nbrs, i, a, b) && triangle_word(nbrs, eg, i, a, b).len() > 0 && !is_zero_vector(
        abelianised(triangle_word(nbrs, eg, i, a, b), ng),
    ) {
        seq![abelianised(triangle_word(nbrs, eg, i, a, b), ng)]
    } else {
        Seq::empty()
    }
}

/// The relations contributed before position `(i, a, b)`, scanning nodes,
/// then their neighbours, then their neighbours' neighbours, in order.
pub open spec fn relations_before(nbrs: Seq<Vec<usize>>, eg: Seq<Vec<Option<(usize, bool)>>>, i: int, a: int, b: int) -> Seq<Seq<(usize, bool)>>
    decreases i, a, b,
{
    if b > 0 {
        relations_before(nbrs, eg, i, a, b - 1) + triangle_relation(nbrs, eg, i, a, b - 1)
    } else if a > 0 {
        relations_before(nbrs, eg, i, a - 1, nbrs[nbrs[i]@[a - 1] as int]@.len() as int)
    } else if i > 0 {
        relations_before(nbrs, eg, i - 1, nbrs[i - 1]@.len() as int, 0)
    } else {
        Seq::empty()
    }
}

/// The abelianised relations contributed before position `(i, a, b)`.
pub open spec fn columns_before(nbrs: Seq<Vec<usize>>, eg: Seq<Vec<Option<(usize, bool)>>>, ng: nat, i: int, a: int, b: int) -> Seq<Seq<i64>>
    decreases i, a, b,
{
    if b > 0 {
        columns_before(nbrs, eg, ng, i, a, b - 1) + triangle_column(nbrs, eg, ng, i, a, b - 1)
    } else if a > 0 {
        columns_before(nbrs, eg, ng, i, a - 1, nbrs[nbrs[i]@[a - 1] as int]@.len() as int)
    } else if i > 0 {
        columns_before(nbrs, eg, ng, i - 1, nbrs[i - 1]@.len() as int, 0)
    } else {
        Seq::empty()
    }
}

/// The relators of the nerve: for each node `i`, each neighbour `j` of `i`
/// and each neighbour `k` of `j`, in list order, the freely reduced boundary
/// word of the triangle `i < j < k` when `k` is also a neighbour of `i` and
/// the word does not reduce away.
pub open spec fn nerve_relations(nbrs: Seq<Vec<usize>>, eg: Seq<Vec<Option<(usize, bool)>>>) -> Seq<Seq<(usize, bool)>> {
    Seq::new(nbrs.len(), |i: int| relations_at_node(nbrs, eg, i, nbrs[i]@.len() as int)).flatten()
}

/// The relators from the first `a` neighbours of node `i`.
pub open spec fn relations_at_node(nbrs: Seq<Vec<usize>>, eg: Seq<Vec<Option<(usize, bool)>>>, i: int, a: int) -> Seq<Seq<(usize, bool)>> {
    Seq::new(a as nat, |x: int| relations_at_edge(nbrs, eg, i, x, nbrs[nbrs[i]@[x] as int]@.len() as int)).flatten()
}

/// The relators through the `a`-th neighbour of node `i`, from the first `b`
/// neighbours of that neighbour.
pub open spec fn relations_at_edge(nbrs: Seq<Vec<usize>>, eg: Seq<Vec<Option<(usize, bool)>>>, i: int, a: int, b: int) -> Seq<Seq<(usize, bool)>> {
    Seq::new(b as nat, |y: int| triangle_relation(nbrs, eg, i, a, y)).flatten()
}

/// The scan so far is the relators of the earlier nodes, then those of the
/// earlier neighbours of node `i`, then those of the current edge.
proof fn lemma_relations_scan(nbrs: Seq<Vec<usize>>, eg: Seq<Vec<Option<(usize, bool)>>>, i: int, a: int, b: int)
    requires
        0 <= i,
        0 <= a,
        0 <= b,
    ensures
        relations_before(nbrs, eg, i, a, b) == Seq::new(i as nat, |x: int| relations_at_node(
            nbrs,
            eg,
            x,
            nbrs[x]@.len() as int,
        )).flatten() + relations_at_node(nbrs, eg, i, a) + relations_at_edge(nbrs, eg, i, a, b),
    decreases i, a, b,
{
    let nodes = Seq::new(i as nat, |x: int| relations_at_node(nbrs, eg, x, nbrs[x]@.len() as int));
    if b > 0 {
        lemma_relations_scan(nbrs, eg, i, a, b - 1);
        let cells = Seq::new((b - 1) as nat, |y: int| triangle_relation(nbrs, eg, i, a, y));
        assert(Seq::new(b as nat, |y: int| triangle_relation(nbrs, eg, i, a, y)) =~= cells.push(
            triangle_relation(nbrs, eg, i, a, b - 1),
        ));
        cells.lemma_flatten_push(triangle_relation(nbrs, eg, i, a, b - 1));
        assert(relations_before(nbrs, eg, i, a, b) =~= nodes.flatten() + relations_at_node(nbrs, eg, i, a)
            + relations_at_edge(nbrs, eg, i, a, b));
    } else if a > 0 {
        let len = nbrs[nbrs[i]@[a - 1] as int]@.len() as int;
        lemma_relations_scan(nbrs, eg, i, a - 1, len);
        let rows = Seq::new((a - 1) as nat, |x: int| relations_at_edge(
            nbrs,
            eg,
            i,
            x,
            nbrs[nbrs[i]@[x] as int]@.len() as int,
        ));
        assert(Seq::new(a as nat, |x: int| relations_at_edge(nbrs, eg, i, x, nbrs[nbrs[i]@[x] as int]@.len() as int))
            =~= rows.push(relations_at_edge(nbrs, eg, i, a - 1, len)));
        rows.lemma_flatten_push(relations_at_edge(nbrs, eg, i, a - 1, len));
        assert(Seq::new(0, |y: int| triangle_relation(nbrs, eg, i, a, y)) =~= Seq::<Seq<Seq<(usize, bool)>>>::empty());
        assert(relations_at_edge(nbrs, eg, i, a, 0) =~= Seq::empty());
        assert(relations_before(nbrs, eg, i, a, b) =~= nodes.flatten() + relations_at_node(nbrs, eg, i, a)
            + relations_at_edge(nbrs, eg, i, a, b));
    } else if i > 0 {
        let len = nbrs[i - 1]@.len() as int;
        lemma_relations_scan(nbrs, eg, i - 1, len, 0);
        let prev = Seq::new((i - 1) as nat, |x: int| relations_at_node(nbrs, eg, x, nbrs[x]@.len() as int));
        assert(nodes =~= prev.push(relations_at_node(nbrs, eg, i - 1, len)));
        prev.lemma_flatten_push(relations_at_node(nbrs, eg, i - 1, len));
        assert(Seq::new(0, |y: int| triangle_relation(nbrs, eg, i - 1, len, y)) =~= Seq::<Seq<Seq<(usize, bool)>>>::empty());
        assert(relations_at_edge(nbrs, eg, i - 1, len, 0) =~= Seq::empty());
        assert(Seq::new(0, |y: int| triangle_relation(nbrs, eg, i, a, y)) =~= Seq::<Seq<Seq<(usize, bool)>>>::empty());
        assert(relations_at_edge(nbrs, eg, i, a, 0) =~= Seq::empty());
        assert(Seq::new(0, |x: int| relations_at_edge(nbrs, eg, i, x, nbrs[nbrs[i]@[x] as int]@.len() as int))
            =~= Seq::<Seq<Seq<(usize, bool)>>>::empty());
        assert(relations_at_node(nbrs, eg, i, 0) =~= Seq::empty());
        assert(relations_before(nbrs, eg, i, a, b) =~= nodes.flatten() + relations_at_node(nbrs, eg, i, a)
            + relations_at_edge(nbrs, eg, i, a, b));
    } else {
        assert(nodes =~= Seq::<Seq<Seq<(usize, bool)>>>::empty());
        assert(Seq::new(0, |y: int| triangle_relation(nbrs, eg, i, a, y)) =~= Seq::<Seq<Seq<(usize, bool)>>>::empty());
        assert(relations_at_edge(nbrs, eg, i, a, 0) =~= Seq::empty());
        assert(Seq::new(0, |x: int| relations_at_edge(nbrs, eg, i, x, nbrs[nbrs[i]@[x] as int]@.len() as int))
            =~= Seq::<Seq<Seq<(usize, bool)>>>::empty());
        assert(relations_at_node(nbrs, eg, i, 0) =~= Seq::empty());
        assert(relations_before(nbrs, eg, i, a, b) =~= nodes.flatten() + relations_at_node(nbrs, eg, i, a)
            + relations_at_edge(nbrs, eg, i, a, b));
    }
}

/// The whole scan gives the relators of the nerve.
pub proof fn lemma_relations_of_nerve(nbrs: Seq<Vec<usize>>, eg: Seq<Vec<Option<(usize, bool)>>>)
    ensures
        relations_before(nbrs, eg, nbrs.len() as int, 0, 0) == nerve_relations(nbrs, eg),
{
    let n = nbrs.len() as int;
    lemma_relations_scan(nbrs, eg, n, 0, 0);
    assert(Seq::new(0, |y: int| triangle_relation(nbrs, eg, n, 0, y)) =~= Seq::<Seq<Seq<(usize, bool)>>>::empty());
    assert(relations_at_edge(nbrs, eg, n, 0, 0) =~= Seq::empty());
    assert(Seq::new(0, |x: int| relations_at_edge(nbrs, eg, n, x, nbrs[nbrs[n]@[x] as int]@.len() as int))
        =~= Seq::<Seq<Seq<(usize, bool)>>>::empty());
    assert(relations_at_node(nbrs, eg, n, 0) =~= Seq::empty());
    assert(relations_before(nbrs, eg, n, 0, 0) =~= nerve_relations(nbrs, eg));
}

/// The letters met walking the node path `p` through the edge table `eg`:
/// each step `p[q] → p[q + 1]` contributes the letter stored for that edge
/// in the direction walked, and an edge without a generator contributes none.
pub open spec fn walk_word(eg: Seq<Vec<Option<(usize, bool)>>>, p: Seq<int>) -> Seq<(usize, bool)>
    decreases p.len(),
{
    if p.len() < 2 {
        Seq::empty()
    } else {
        walk_word(eg, p.drop_last()) + match eg[p[p.len() - 2]]@[p.last()] {
            Some(l) => seq![l],
            None => Seq::<(usize, bool)>::empty(),
        }
    }
}

/// `i < j < k` are nodes of the nerve that pairwise overlap.
pub open spec fn is_nerve_triangle(nbrs: Seq<Vec<usize>>, i: usize, j: usize, k: usize) -> bool {
    &&& i < j < k
    &&& k < nbrs.len()
    &&& nbrs[i as int]@.contains(j)
    &&& nbrs[j as int]@.contains(k)
    &&& nbrs[i as int]@.contains(k)
}

/// A position of the triangle scan that lies inside the neighbour lists.
pub open spec fn scan_position(nbrs: Seq<Vec<usize>>, x: int, p: int, q: int) -> bool {
    &&& 0 <= x < nbrs.len()
    &&& 0 <= p < nbrs[x]@.len()
    &&& 0 <= nbrs[x]@[p] < nbrs.len()
    &&& 0 <= q < nbrs[nbrs[x]@[p] as int]@.len()
}

/// A point the scan may stop at: `(i, a, b)` with `a` within node `i`'s
/// neighbours and `b` within the `a`-th neighbour's, or the end `(n, 0, 0)`.
pub open spec fn scan_point(nbrs: Seq<Vec<usize>>, i: int, a: int, b: int) -> bool {
    &&& 0 <= i <= nbrs.len()
    &&& 0 <= a
    &&& 0 <= b
    &&& i == nbrs.len() ==> a == 0 && b == 0
    &&& i < nbrs.len() ==> a <= nbrs[i]@.len()
    &&& i < nbrs.len() && a == nbrs[i]@.len() ==> b == 0
    &&& i < nbrs.len() && a < nbrs[i]@.len() ==> 0 <= nbrs[i]@[a] < nbrs.len() && b <= nbrs[nbrs[i]@[a] as int]@.len()
}

/// Position `(x, p, q)` comes before point `(i, a, b)` in the scan.
pub open spec fn scan_before(x: int, p: int, q: int, i: int, a: int, b: int) -> bool {
    x < i || (x == i && (p < a || (p == a && q < b)))
}

/// The boundary word of a triangle position is the reduced walk around it.
proof fn lemma_triangle_word_walk(nbrs: Seq<Vec<usize>>, eg: Seq<Vec<Option<(usize, bool)>>>, x: int, p: int, q: int)
    ensures
        triangle_word(nbrs, eg, x, p, q) == free_reduction(
            walk_word(eg, seq![x, nbrs[x]@[p] as int, nbrs[nbrs[x]@[p] as int]@[q] as int, x]),
        ),
{
    let j = nbrs[x]@[p] as int;
    let k = nbrs[j]@[q] as int;
    let w = seq![x, j, k, x];
    assert(w.drop_last() =~= seq![x, j, k]);
    assert(w.drop_last().drop_last() =~= seq![x, j]);
    assert(w.drop_last().drop_last().drop_last() =~= seq![x]);
    assert(walk_word(eg, seq![x]) =~= Seq::<(usize, bool)>::empty());
    assert(walk_word(eg, seq![x, j]) =~= edge_word(eg, x, j));
    assert(walk_word(eg, seq![x, j, k]) =~= edge_word(eg, x, j) + edge_word(eg, j, k));
    assert(walk_word(eg, w) =~= edge_word(eg, x, j) + edge_word(eg, j, k) + edge_word(eg, k, x));
}

/// `w` is the boundary word of some triangle position of the scan.
pub open spec fn is_scanned_triangle_word(nbrs: Seq<Vec<usize>>, eg: Seq<Vec<Option<(usize, bool)>>>, w: Seq<(usize, bool)>) -> bool {
    exists|x: int, p: int, q: int|
        scan_position(nbrs, x, p, q) && is_triangle(nbrs, x, p, q) && w == #[trigger] triangle_word(nbrs, eg, x, p, q)
}

/// Every relator scanned before a point is the word of a triangle position
/// before it.
proof fn lemma_scanned_relators(nbrs: Seq<Vec<usize>>, eg: Seq<Vec<Option<(usize, bool)>>>, i: int, a: int, b: int)
    requires
        valid_neighbors(nbrs),
        scan_point(nbrs, i, a, b),
    ensures
        forall|r: int|
            0 <= r < relations_before(nbrs, eg, i, a, b).len() ==> is_scanned_triangle_word(
                nbrs,
                eg,
                #[trigger] relations_before(nbrs, eg, i, a, b)[r],
            ),
    decreases i, a, b,
{
    let rb = relations_before(nbrs, eg, i, a, b);
    if b > 0 {
        lemma_scanned_relators(nbrs, eg, i, a, b - 1);
        let prev = relations_before(nbrs, eg, i, a, b - 1);
        let tr = triangle_relation(nbrs, eg, i, a, b - 1);
        assert(rb == prev + tr);
        assert forall|r: int| 0 <= r < rb.len() implies is_scanned_triangle_word(nbrs, eg, #[trigger] rb[r]) by {
            if r < prev.len() {
                assert(rb[r] == prev[r]);
                assert(is_scanned_triangle_word(nbrs, eg, prev[r]));
            } else {
                assert(rb[r] == tr[r - prev.len()]);
                assert(scan_position(nbrs, i, a, b - 1));
                assert(rb[r] == triangle_word(nbrs, eg, i, a, b - 1));
            }
        }
    } else if a > 0 {
        assert(0 <= nbrs[i]@[a - 1] < nbrs.len());
        let c = nbrs[nbrs[i]@[a - 1] as int]@.len() as int;
        lemma_scanned_relators(nbrs, eg, i, a - 1, c);
        assert(rb == relations_before(nbrs, eg, i, a - 1, c));
    } else if i > 0 {
        lemma_scanned_relators(nbrs, eg, i - 1, nbrs[i - 1]@.len() as int, 0);
        assert(rb == relations_before(nbrs, eg, i - 1, nbrs[i - 1]@.len() as int, 0));
    } else {
        assert(rb.len() == 0);
    }
}

/// Every nontrivial triangle position before a point has its word among the
/// relators scanned up to that point.
proof fn lemma_scanned_triangles(
    nbrs: Seq<Vec<usize>>,
    eg: Seq<Vec<Option<(usize, bool)>>>,
    i: int,
    a: int,
    b: int,
    x: int,
    p: int,
    q: int,
)
    requires
        valid_neighbors(nbrs),
        scan_point(nbrs, i, a, b),
        scan_position(nbrs, x, p, q),
        scan_before(x, p, q, i, a, b),
        is_triangle(nbrs, x, p, q),
        triangle_word(nbrs, eg, x, p, q).len() > 0,
    ensures
        exists|r: int|
            0 <= r < relations_before(nbrs, eg, i, a, b).len() && #[trigger] relations_before(nbrs, eg, i, a, b)[r]
                == triangle_word(nbrs, eg, x, p, q),
    decreases i, a, b,
{
    let rb = relations_before(nbrs, eg, i, a, b);
    if b > 0 {
        let prev = relations_before(nbrs, eg, i, a, b - 1);
        let tr = triangle_relation(nbrs, eg, i, a, b - 1);
        assert(rb == prev + tr);
        if x == i && p == a && q == b - 1 {
            assert(tr == seq![triangle_word(nbrs, eg, x, p, q)]);
            assert(rb[prev.len() as int] == triangle_word(nbrs, eg, x, p, q));
        } else {
            lemma_scanned_triangles(nbrs, eg, i, a, b - 1, x, p, q);
            let r = choose|r: int| 0 <= r < prev.len() && #[trigger] prev[r] == triangle_word(nbrs, eg, x, p, q);
            assert(rb[r] == prev[r]);
        }
    } else if a > 0 {
        assert(0 <= nbrs[i]@[a - 1] < nbrs.len());
        lemma_scanned_triangles(nbrs, eg, i, a - 1, nbrs[nbrs[i]@[a - 1] as int]@.len() as int, x, p, q);
        assert(rb == relations_before(nbrs, eg, i, a - 1, nbrs[nbrs[i]@[a - 1] as int]@.len() as int));
    } else if i > 0 {
        lemma_scanned_triangles(nbrs, eg, i - 1, nbrs[i - 1]@.len() as int, 0, x, p, q);
        assert(rb == relations_before(nbrs, eg, i - 1, nbrs[i - 1]@.len() as int, 0));
    }
}

/// The boundary word of a triangle position is the reduced walk around a
/// triangle of the nerve.
proof fn lemma_boundary_of_scanned(nbrs: Seq<Vec<usize>>, eg: Seq<Vec<Option<(usize, bool)>>>, w: Seq<(usize, bool)>)
    requires
        valid_neighbors(nbrs),
        is_scanned_triangle_word(nbrs, eg, w),
    ensures
        is_triangle_boundary(nbrs, eg, w),
{
    let (x, p, q) = choose|x: int, p: int, q: int|
        scan_position(nbrs, x, p, q) && is_triangle(nbrs, x, p, q) && w == #[trigger] triangle_word(nbrs, eg, x, p, q);
    let j: usize = nbrs[x]@[p];
    let k: usize = nbrs[j as int]@[q];
    let xu: usize = x as usize;
    assert(x < j);
    assert(xu as int == x);
    lemma_triangle_word_walk(nbrs, eg, x, p, q);
    assert(nbrs[x]@.contains(j)) by {
        assert(nbrs[x]@[p] == j);
    }
    assert(nbrs[j as int]@.contains(k)) by {
        assert(nbrs[j as int]@[q] == k);
    }
    assert(k < nbrs.len());
    assert(is_nerve_triangle(nbrs, xu, j, k));
    assert(w == free_reduction(walk_word(eg, seq![xu as int, j as int, k as int, xu as int])));
}

/// `w` is the freely reduced word of the closed walk `i → j → k → i` around
/// a triangle `i < j < k` of the nerve, each edge read in the direction it
/// is walked.
pub open spec fn is_triangle_boundary(nbrs: Seq<Vec<usize>>, eg: Seq<Vec<Option<(usize, bool)>>>, w: Seq<(usize, bool)>) -> bool {
    exists|i: usize, j: usize, k: usize|
        #[trigger] is_nerve_triangle(nbrs, i, j, k) && w == free_reduction(
            walk_word(eg, seq![i as int, j as int, k as int, i as int]),
        )
}

/// The relators of the nerve's topology are the boundaries of its
/// triangles: every relator is the freely reduced word of the closed walk
/// `i → j → k → i` around a triangle `i < j < k` of the nerve, each edge read
/// in the direction it is walked, and every triangle whose walk does not
/// reduce away gives a relator.
pub proof fn lemma_relators_are_triangle_boundaries(t: NerveTopology, nbrs: Seq<Vec<usize>>)
    requires
        valid_neighbors(nbrs),
        is_topology_of(t, nbrs),
    ensures
        forall|r: int|
            0 <= r < t.relations@.len() ==> is_triangle_boundary(nbrs, t.edge_gen@, (#[trigger] t.relations@[r])@),
        forall|i: usize, j: usize, k: usize|
            is_nerve_triangle(nbrs, i, j, k) && free_reduction(
                walk_word(t.edge_gen@, seq![i as int, j as int, k as int, i as int]),
            ).len() > 0 ==> exists|r: int|
                0 <= r < t.relations@.len() && (#[trigger] t.relations@[r])@ == free_reduction(
                    walk_word(t.edge_gen@, seq![i as int, j as int, k as int, i as int]),
                ),
{
    let n = nbrs.len() as int;
    let eg = t.edge_gen@;
    lemma_relations_of_nerve(nbrs, eg);
    let rels = relations_before(nbrs, eg, n, 0, 0);
    assert(views(t.relations@) == rels);
    assert(scan_point(nbrs, n, 0, 0));
    lemma_scanned_relators(nbrs, eg, n, 0, 0);
    assert forall|r: int| 0 <= r < t.relations@.len() implies is_triangle_boundary(
        nbrs,
        t.edge_gen@,
        (#[trigger] t.relations@[r])@,
    ) by {
        assert(views(t.relations@)[r] == t.relations@[r]@);
        assert(is_scanned_triangle_word(nbrs, eg, rels[r]));
        lemma_boundary_of_scanned(nbrs, eg, rels[r]);
    }
    assert forall|i: usize, j: usize, k: usize|
        is_nerve_triangle(nbrs, i, j, k) && free_reduction(
            walk_word(t.edge_gen@, seq![i as int, j as int, k as int, i as int]),
        ).len() > 0 implies exists|r: int|
        0 <= r < t.relations@.len() && (#[trigger] t.relations@[r])@ == free_reduction(
            walk_word(t.edge_gen@, seq![i as int, j as int, k as int, i as int]),
        ) by {
        let ii = i as int;
        let jj = j as int;
        assert(nbrs[ii]@.contains(j));
        let p = choose|p: int| 0 <= p < nbrs[ii]@.len() && nbrs[ii]@[p] == j;
        assert(nbrs[jj]@.contains(k));
        let q = choose|q: int| 0 <= q < nbrs[jj]@.len() && nbrs[jj]@[q] == k;
        assert(nbrs[ii]@[p] == j);
        assert(nbrs[jj]@[q] == k);
        assert(scan_position(nbrs, ii, p, q));
        assert(is_triangle(nbrs, ii, p, q));
        lemma_triangle_word_walk(nbrs, eg, ii, p, q);
        lemma_scanned_triangles(nbrs, eg, n, 0, 0, ii, p, q);
        let r = choose|r: int| 0 <= r < rels.len() && #[trigger] rels[r] == triangle_word(nbrs, eg, ii, p, q);
        assert(views(t.relations@)[r] == t.relations@[r]@);
    }
}

/// The relation vectors of the nerve: the relators of [`nerve_relations`],
/// in the same order, each read additively over `ng` generators, those that
/// read as zero left out.
pub open spec fn nerve_columns(nbrs: Seq<Vec<usize>>, eg: Seq<Vec<Option<(usize, bool)>>>, ng: nat) -> Seq<Seq<i64>> {
    Seq::new(nbrs.len(), |i: int| columns_at_node(nbrs, eg, ng, i, nbrs[i]@.len() as int)).flatten()
}

/// The relation vectors from the first `a` neighbours of node `i`.
pub open spec fn columns_at_node(nbrs: Seq<Vec<usize>>, eg: Seq<Vec<Option<(usize, bool)>>>, ng: nat, i: int, a: int) -> Seq<Seq<i64>> {
    Seq::new(a as nat, |x: int| columns_at_edge(nbrs, eg, ng, i, x, nbrs[nbrs[i]@[x] as int]@.len() as int)).flatten()
}

/// The relation vectors through the `a`-th neighbour of node `i`, from the
/// first `b` neighbours of that neighbour.
pub open spec fn columns_at_edge(nbrs: Seq<Vec<usize>>, eg: Seq<Vec<Option<(usize, bool)>>>, ng: nat, i: int, a: int, b: int) -> Seq<Seq<i64>> {
    Seq::new(b as nat, |y: int| triangle_column(nbrs, eg, ng, i, a, y)).flatten()
}

/// The scan so far is the relation vectors of the earlier nodes, then those
/// of the earlier neighbours of node `i`, then those of the current edge.
proof fn lemma_columns_scan(nbrs: Seq<Vec<usize>>, eg: Seq<Vec<Option<(usize, bool)>>>, ng: nat, i: int, a: int, b: int)
    requires
        0 <= i,
        0 <= a,
        0 <= b,
    ensures
        columns_before(nbrs, eg, ng, i, a, b) == Seq::new(i as nat, |x: int| columns_at_node(
            nbrs,
            eg,
            ng,
            x,
            nbrs[x]@.len() as int,
        )).flatten() + columns_at_node(nbrs, eg, ng, i, a) + columns_at_edge(nbrs, eg, ng, i, a, b),
    decreases i, a, b,
{
    let nodes = Seq::new(i as nat, |x: int| columns_at_node(nbrs, eg, ng, x, nbrs[x]@.len() as int));
    if b > 0 {
        lemma_columns_scan(nbrs, eg, ng, i, a, b - 1);
        let cells = Seq::new((b - 1) as nat, |y: int| triangle_column(nbrs, eg, ng, i, a, y));
        assert(Seq::new(b as nat, |y: int| triangle_column(nbrs, eg, ng, i, a, y)) =~= cells.push(
            triangle_column(nbrs, eg, ng, i, a, b - 1),
        ));
        cells.lemma_flatten_push(triangle_column(nbrs, eg, ng, i, a, b - 1));
        assert(columns_before(nbrs, eg, ng, i, a, b) =~= nodes.flatten() + columns_at_node(nbrs, eg, ng, i, a)
            + columns_at_edge(nbrs, eg, ng, i, a, b));
    } else if a > 0 {
        let len = nbrs[nbrs[i]@[a - 1] as int]@.len() as int;
        lemma_columns_scan(nbrs, eg, ng, i, a - 1, len);
        let rows = Seq::new((a - 1) as nat, |x: int| columns_at_edge(
            nbrs,
            eg,
            ng,
            i,
            x,
            nbrs[nbrs[i]@[x] as int]@.len() as int,
        ));
        assert(Seq::new(a as nat, |x: int| columns_at_edge(nbrs, eg, ng, i, x, nbrs[nbrs[i]@[x] as int]@.len() as int))
            =~= rows.push(columns_at_edge(nbrs, eg, ng, i, a - 1, len)));
        rows.lemma_flatten_push(columns_at_edge(nbrs, eg, ng, i, a - 1, len));
        assert(Seq::new(0, |y: int| triangle_column(nbrs, eg, ng, i, a, y)) =~= Seq::<Seq<Seq<i64>>>::empty());
        assert(columns_at_edge(nbrs, eg, ng, i, a, 0) =~= Seq::empty());
        assert(columns_before(nbrs, eg, ng, i, a, b) =~= nodes.flatten() + columns_at_node(nbrs, eg, ng, i, a)
            + columns_at_edge(nbrs, eg, ng, i, a, b));
    } else if i > 0 {
        let len = nbrs[i - 1]@.len() as int;
        lemma_columns_scan(nbrs, eg, ng, i - 1, len, 0);
        let prev = Seq::new((i - 1) as nat, |x: int| columns_at_node(nbrs, eg, ng, x, nbrs[x]@.len() as int));
        assert(nodes =~= prev.push(columns_at_node(nbrs, eg, ng, i - 1, len)));
        prev.lemma_flatten_push(columns_at_node(nbrs, eg, ng, i - 1, len));
        assert(Seq::new(0, |y: int| triangle_column(nbrs, eg, ng, i - 1, len, y)) =~= Seq::<Seq<Seq<i64>>>::empty());
        assert(columns_at_edge(nbrs, eg, ng, i - 1, len, 0) =~= Seq::empty());
        assert(Seq::new(0, |y: int| triangle_column(nbrs, eg, ng, i, a, y)) =~= Seq::<Seq<Seq<i64>>>::empty());
        assert(columns_at_edge(nbrs, eg, ng, i, a, 0) =~= Seq::empty());
        assert(Seq::new(0, |x: int| columns_at_edge(nbrs, eg, ng, i, x, nbrs[nbrs[i]@[x] as int]@.len() as int))
            =~= Seq::<Seq<Seq<i64>>>::empty());
        assert(columns_at_node(nbrs, eg, ng, i, 0) =~= Seq::empty());
        assert(columns_before(nbrs, eg, ng, i, a, b) =~= nodes.flatten() + columns_at_node(nbrs, eg, ng, i, a)
            + columns_at_edge(nbrs, eg, ng, i, a, b));
    } else {
        assert(nodes =~= Seq::<Seq<Seq<i64>>>::empty());
        assert(Seq::new(0, |y: int| triangle_column(nbrs, eg, ng, i, a, y)) =~= Seq::<Seq<Seq<i64>>>::empty());
        assert(columns_at_edge(nbrs, eg, ng, i, a, 0) =~= Seq::empty());
        assert(Seq::new(0, |x: int| columns_at_edge(nbrs, eg, ng, i, x, nbrs[nbrs[i]@[x] as int]@.len() as int))
            =~= Seq::<Seq<Seq<i64>>>::empty());
        assert(columns_at_node(nbrs, eg, ng, i, 0) =~= Seq::empty());
        assert(columns_before(nbrs, eg, ng, i, a, b) =~= nodes.flatten() + columns_at_node(nbrs, eg, ng, i, a)
            + columns_at_edge(nbrs, eg, ng, i, a, b));
    }
}

/// The whole scan gives the relation vectors of the nerve.
pub proof fn lemma_columns_of_nerve(nbrs: Seq<Vec<usize>>, eg: Seq<Vec<Option<(usize, bool)>>>, ng: nat)
    ensures
        columns_before(nbrs, eg, ng, nbrs.len() as int, 0, 0) == nerve_columns(nbrs, eg, ng),
{
    let n = nbrs.len() as int;
    lemma_columns_scan(nbrs, eg, ng, n, 0, 0);
    assert(Seq::new(0, |y: int| triangle_column(nbrs, eg, ng, n, 0, y)) =~= Seq::<Seq<Seq<i64>>>::empty());
    assert(columns_at_edge(nbrs, eg, ng, n, 0, 0) =~= Seq::empty());
    assert(Seq::new(0, |x: int| columns_at_edge(nbrs, eg, ng, n, x, nbrs[nbrs[n]@[x] as int]@.len() as int))
        =~= Seq::<Seq<Seq<i64>>>::empty());
    assert(columns_at_node(nbrs, eg, ng, n, 0) =~= Seq::empty());
    assert(columns_before(nbrs, eg, ng, n, 0, 0) =~= nerve_columns(nbrs, eg, ng));
}

/// The views of a list of vectors.
pub open spec fn column_views(cols: Seq<Vec<i64>>) -> Seq<Seq<i64>> {
    Seq::new(cols.len(), |k: int| cols[k]@)
}

/// Free reduction never lengthens a word.
proof fn lemma_free_reduction_len(w: Seq<(usize, bool)>)
    ensures
        free_reduction(w).len() <= w.len(),
    decreases w.len(),
{
    if w.len() > 0 {
        lemma_free_reduction_letters(w.drop_last());
        lemma_free_reduction_len(w.drop_last());
    }
}

/// A signed count is bounded by the word's length.
proof fn lemma_letter_sum_bound(w: Seq<(usize, bool)>, g: int)
    ensures
        -(w.len() as int) <= letter_sum(w, g) <= w.len(),
    decreases w.len(),
{
    if w.len() > 0 {
        lemma_letter_sum_bound(w.drop_last(), g);
    }
}

/// Appends the letter of the edge `x → y`, if it has one.
fn push_edge_letter(eg: &Vec<Vec<Option<(usize, bool)>>>, x: usize, y: usize, word: &mut Vec<(usize, bool)>)
    requires
        x < eg@.len(),
        y < eg@[x as int]@.len(),
    ensures
        final(word)@ == old(word)@ + edge_word(eg@, x as int, y as int),
{
    match eg[x][y] {
        Some(l) => {
            word.push(l);
        },
        None => {},
    }
    assert(word@ =~= old(word)@ + edge_word(eg@, x as int, y as int));
}

/// Whether `x` occurs in `v`.
fn list_contains(v: &Vec<usize>, x: usize) -> (r: bool)
    ensures
        r == v@.contains(x),
{
    let mut k: usize = 0;
    while k < v.len()
        invariant
            k <= v@.len(),
            forall|p: int| 0 <= p < k ==> v@[p] != x,
        decreases v@.len() - k,
    {
        if v[k] == x {
            assert(v@[k as int] == x);
            return true;
        }
        k = k + 1;
    }
    false
}

/// The signed count of each of `ng` generators in a word of at most three
/// letters.
fn abelianise(word: &Vec<(usize, bool)>, ng: usize) -> (col: Vec<i64>)
    requires
        word@.len() <= 3,
        forall|p: int| 0 <= p < word@.len() ==> (#[trigger] word@[p]).0 < ng,
    ensures
        col@ == abelianised(word@, ng as nat),
{
    let mut col: Vec<i64> = Vec::new();
    let mut g: usize = 0;
    while g < ng
        invariant
            g <= ng,
            col@ == Seq::new(g as nat, |k: int| 0i64),
        decreases ng - g,
    {
        col.push(0);
        g = g + 1;
    }
    let mut p: usize = 0;
    while p < word.len()
        invariant
            p <= word@.len(),
            word@.len() <= 3,
            forall|q: int| 0 <= q < word@.len() ==> (#[trigger] word@[q]).0 < ng,
            col@.len() == ng,
            forall|k: int| 0 <= k < ng ==> #[trigger] col@[k] == letter_sum(word@.take(p as int), k),
        decreases word@.len() - p,
    {
        let (g, inverted) = word[p];
        proof {
            assert(word@.take(p + 1).drop_last() =~= word@.take(p as int));
            lemma_letter_sum_bound(word@.take(p as int), g as int);
        }
        let v = col[g];
        col.set(g, if inverted {
            v - 1
        } else {
            v + 1
        });
        p = p + 1;
    }
    assert(word@.take(word@.len() as int) =~= word@);
    assert(col@ =~= abelianised(word@, ng as nat));
    col
}

/// Whether some entry is nonzero.
fn is_nonzero(v: &Vec<i64>) -> (r: bool)
    ensures
        r == !is_zero_vector(v@),
{
    let mut k: usize = 0;
    while k < v.len()
        invariant
            k <= v@.len(),
            forall|p: int| 0 <= p < k ==> v@[p] == 0,
        decreases v@.len() - k,
    {
        if v[k] != 0 {
            return true;
        }
        k = k + 1;
    }
    false
}

/// Everything the nerve's 1- and 2-skeleta determine: the generators of
/// `π₁` (one per non-tree edge of a spanning tree), its relations (one per
/// triangle) and its abelianisation.
pub struct NerveTopology {
    /// One generator per non-tree edge of a breadth-first spanning tree.
    pub n_generators: usize,
    /// `edge_gen[i][j]`: the generator of the non-tree edge `i → j` and
    /// whether it is traversed against its orientation; `None` for tree
    /// edges, which contract to the basepoint, and for non-edges.
    pub edge_gen: Vec<Vec<Option<(usize, bool)>>>,
    /// One relator per triangle: the boundary word, freely reduced.
    pub relations: Vec<Vec<(usize, bool)>>,
    /// `H₁ = π₁ / [π₁, π₁]`, the prefix-deduplication key.
    pub abel: Abelianisation,
    /// The spanning tree: each node's parent.
    pub tree: Ghost<Seq<Option<usize>>>,
}

/// `t` is the topology of the nerve with neighbour lists `nbrs`.
pub open spec fn is_topology_of(t: NerveTopology, nbrs: Seq<Vec<usize>>) -> bool {
    let n = nbrs.len();
    let parent = t.tree@;
    &&& is_spanning_tree(nbrs, parent)
    &&& t.n_generators == generators_before(nbrs, parent, n as int, 0)
    &&& generator_table(nbrs, parent, t.edge_gen@, t.n_generators as nat, n as int, 0)
    &&& views(t.relations@) == nerve_relations(nbrs, t.edge_gen@)
    &&& t.abel.well_formed()
    &&& t.abel.invariants_view().len() == t.n_generators
    &&& t.abel.relations_view() == nerve_columns(nbrs, t.edge_gen@, t.n_generators as nat)
}

/// `parent` is a spanning tree of the component of node `0`: each node's
/// parent is one of its neighbours, the parent links are well founded, and
/// every neighbour of a reached node is reached.
pub open spec fn is_spanning_tree(nbrs: Seq<Vec<usize>>, parent: Seq<Option<usize>>) -> bool {
    let n = nbrs.len();
    &&& parent.len() == n
    &&& parent[0] is None
    &&& forall|v: int|
        0 <= v < n && #[trigger] parent[v] is Some ==> {
            let u = parent[v]->0 as int;
            u < n && v != 0 && nbrs[u]@.contains(v as usize)
        }
    &&& exists|rank: Seq<nat>|
        rank.len() == n && forall|v: int|
            0 <= v < n && #[trigger] parent[v] is Some ==> rank[parent[v]->0 as int] < rank[v]
    &&& forall|u: int, a: int|
        0 <= u < n && reached(parent, u) && 0 <= a < nbrs[u]@.len() ==> reached(
            parent,
            #[trigger] nbrs[u]@[a] as int,
        )
}

/// For the spanning tree `parent`, the generators are too many for `usize`
/// or the abelianisation of the nerve's relation vectors leaves `i64`.
pub open spec fn topology_overflows(nbrs: Seq<Vec<usize>>, parent: Seq<Option<usize>>) -> bool {
    let ng = generators_before(nbrs, parent, nbrs.len() as int, 0);
    ||| ng > usize::MAX
    ||| exists|eg: Seq<Vec<Option<(usize, bool)>>>|
        #[trigger] generator_table(nbrs, parent, eg, ng, nbrs.len() as int, 0) && !abelianisation_fits(
            ng,
            nerve_columns(nbrs, eg, ng),
        )
}

/// Some position `(i, a, b)` is a triangle `i < j < k` of the nerve.
pub open spec fn has_triangle(nbrs: Seq<Vec<usize>>) -> bool {
    exists|i: int, a: int, b: int|
        0 <= i < nbrs.len() && 0 <= a < nbrs[i]@.len() && 0 <= b < nbrs[nbrs[i]@[a] as int]@.len()
            && #[trigger] is_triangle(nbrs, i, a, b)
}

/// The number of neighbour entries before position `(i, a)` of the scan.
pub open spec fn entries_before(nbrs: Seq<Vec<usize>>, i: int, a: int) -> nat
    decreases i, a,
{
    if a > 0 {
        entries_before(nbrs, i, a - 1) + 1
    } else if i > 0 {
        entries_before(nbrs, i - 1, nbrs[i - 1]@.len() as int)
    } else {
        0
    }
}

/// The total length of the neighbour lists.
pub open spec fn total_degree(nbrs: Seq<Vec<usize>>) -> nat {
    entries_before(nbrs, nbrs.len() as int, 0)
}

/// Each generator is a neighbour entry, so there are no more generators
/// than entries.
proof fn lemma_generators_within_entries(nbrs: Seq<Vec<usize>>, parent: Seq<Option<usize>>, i: int, a: int)
    ensures
        generators_before(nbrs, parent, i, a) <= entries_before(nbrs, i, a),
    decreases i, a,
{
    if a > 0 {
        lemma_generators_within_entries(nbrs, parent, i, a - 1);
    } else if i > 0 {
        lemma_generators_within_entries(nbrs, parent, i - 1, nbrs[i - 1]@.len() as int);
    }
}

/// A relation vector is only contributed by a triangle.
proof fn lemma_columns_need_triangle(
    nbrs: Seq<Vec<usize>>,
    eg: Seq<Vec<Option<(usize, bool)>>>,
    ng: nat,
    i: int,
    a: int,
    b: int,
)
    requires
        0 <= i <= nbrs.len(),
        0 <= a,
        0 <= b,
        i < nbrs.len() ==> a <= nbrs[i]@.len(),
        i < nbrs.len() && a < nbrs[i]@.len() ==> b <= nbrs[nbrs[i]@[a] as int]@.len(),
        i == nbrs.len() ==> a == 0 && b == 0,
        b > 0 ==> i < nbrs.len() && a < nbrs[i]@.len(),
        columns_before(nbrs, eg, ng, i, a, b).len() > 0,
    ensures
        has_triangle(nbrs),
    decreases i, a, b,
{
    if b > 0 {
        if columns_before(nbrs, eg, ng, i, a, b - 1).len() > 0 {
            lemma_columns_need_triangle(nbrs, eg, ng, i, a, b - 1);
        } else {
            assert(triangle_column(nbrs, eg, ng, i, a, b - 1).len() > 0);
            assert(is_triangle(nbrs, i, a, b - 1));
        }
    } else if a > 0 {
        lemma_columns_need_triangle(nbrs, eg, ng, i, a - 1, nbrs[nbrs[i]@[a - 1] as int]@.len() as int);
    } else if i > 0 {
        lemma_columns_need_triangle(nbrs, eg, ng, i - 1, nbrs[i - 1]@.len() as int, 0);
    }
}

/// The relators and relation vectors of the nerve, in scan order.
#[verifier::spinoff_prover]
#[verifier::rlimit(100)]
fn scan_triangles(
    neighbors: &Vec<Vec<usize>>,
    parent: &Vec<Option<usize>>,
    eg: &Vec<Vec<Option<(usize, bool)>>>,
    ng: usize,
) -> (r: (Vec<Vec<(usize, bool)>>, Vec<Vec<i64>>))
    requires
        valid_neighbors(neighbors@),
        generator_table(neighbors@, parent@, eg@, ng as nat, neighbors@.len() as int, 0),
    ensures
        views(r.0@) == relations_before(neighbors@, eg@, neighbors@.len() as int, 0, 0),
        column_views(r.1@) == columns_before(neighbors@, eg@, ng as nat, neighbors@.len() as int, 0, 0),
        forall|c: int| 0 <= c < r.1@.len() ==> (#[trigger] r.1@[c])@.len() == ng,
{
    let n = neighbors.len();
    let mut relations: Vec<Vec<(usize, bool)>> = Vec::new();
    let mut columns: Vec<Vec<i64>> = Vec::new();
    let mut i: usize = 0;
    while i < n
        invariant
            n == neighbors@.len(),
            valid_neighbors(neighbors@),
            generator_table(neighbors@, parent@, eg@, ng as nat, n as int, 0),
            i <= n,
            views(relations@) == relations_before(neighbors@, eg@, i as int, 0, 0),
            column_views(columns@) == columns_before(neighbors@, eg@, ng as nat, i as int, 0, 0),
            forall|c: int| 0 <= c < columns@.len() ==> (#[trigger] columns@[c])@.len() == ng,
        decreases n - i,
    {
        let ni = &neighbors[i];
        let mut a: usize = 0;
        while a < ni.len()
            invariant
                n == neighbors@.len(),
                valid_neighbors(neighbors@),
                generator_table(neighbors@, parent@, eg@, ng as nat, n as int, 0),
                i < n,
                ni@ == neighbors@[i as int]@,
                a <= ni@.len(),
                views(relations@) == relations_before(neighbors@, eg@, i as int, a as int, 0),
                column_views(columns@) == columns_before(neighbors@, eg@, ng as nat, i as int, a as int, 0),
                forall|c: int| 0 <= c < columns@.len() ==> (#[trigger] columns@[c])@.len() == ng,
            decreases ni@.len() - a,
        {
            let j = ni[a];
            let nj = &neighbors[j];
            let mut b: usize = 0;
            while b < nj.len()
                invariant
                    n == neighbors@.len(),
                    valid_neighbors(neighbors@),
                    generator_table(neighbors@, parent@, eg@, ng as nat, n as int, 0),
                    i < n,
                    ni@ == neighbors@[i as int]@,
                    a < ni@.len(),
                    j == ni@[a as int],
                    j < n,
                    nj@ == neighbors@[j as int]@,
                    b <= nj@.len(),
                    views(relations@) == relations_before(neighbors@, eg@, i as int, a as int, b as int),
                    column_views(columns@) == columns_before(neighbors@, eg@, ng as nat, i as int, a as int, b as int),
                    forall|c: int| 0 <= c < columns@.len() ==> (#[trigger] columns@[c])@.len() == ng,
                decreases nj@.len() - b,
            {
                let k = nj[b];
                if i < j && j < k && list_contains(ni, k) {
                    let mut word: Vec<(usize, bool)> = Vec::new();
                    push_edge_letter(&eg, i, j, &mut word);
                    push_edge_letter(&eg, j, k, &mut word);
                    push_edge_letter(&eg, k, i, &mut word);
                    let ghost raw = word@;
                    proof {
                        assert forall|p: int| 0 <= p < raw.len() implies (#[trigger] raw[p]).0 < ng by {
                            let (x, y) = if p < edge_word(eg@, i as int, j as int).len() {
                                (i as int, j as int)
                            } else if p < edge_word(eg@, i as int, j as int).len() + edge_word(eg@, j as int, k as int).len() {
                                (j as int, k as int)
                            } else {
                                (k as int, i as int)
                            };
                            assert(eg@[x]@[y] is Some);
                        }
                    }
                    let word = free_reduce(word);
                    proof {
                        lemma_free_reduction_len(raw);
                        lemma_free_reduction_letters(raw);
                        assert forall|p: int| 0 <= p < word@.len() implies (#[trigger] word@[p]).0 < ng by {
                            let m = choose|m: int| 0 <= m < raw.len() && free_reduction(raw)[p] == raw[m];
                            assert(raw[m].0 < ng);
                        }
                    }
                    if word.len() > 0 {
                        let col = abelianise(&word, ng);
                        if is_nonzero(&col) {
                            columns.push(col);
                        }
                        relations.push(word);
                    }
                }
                proof {
                    assert(views(relations@) =~= relations_before(neighbors@, eg@, i as int, a as int, b + 1));
                    assert(column_views(columns@) =~= columns_before(neighbors@, eg@, ng as nat, i as int, a as int, b + 1));
                }
                b = b + 1;
            }
            a = a + 1;
        }
        i = i + 1;
    }
    (relations, columns)
}

/// Builds the topology of the nerve whose 1-skeleton has the given
/// neighbour lists: a breadth-first spanning tree from node `0`, one
/// generator per non-tree edge, one relator per triangle whose boundary does
/// not reduce away, and the abelianisation of the result.
///
/// `None` when the abelianisation's elimination leaves `i64`, or the
/// generator count leaves `usize`; so a nerve without triangles always gets
/// its topology, short of more neighbour entries than `usize` counts.
#[verifier::spinoff_prover]
#[verifier::rlimit(80)]
pub fn build_topology(neighbors: &Vec<Vec<usize>>) -> (r: Option<NerveTopology>)
    requires
        neighbors.len() >= 1,
        valid_neighbors(neighbors@),
    ensures
        r matches Some(t) ==> is_topology_of(t, neighbors@),
        r matches Some(t) ==> forall|q: int|
            0 <= q < t.relations@.len() ==> is_triangle_boundary(neighbors@, t.edge_gen@, (#[trigger] t.relations@[q])@),
        r is None ==> has_triangle(neighbors@) || total_degree(neighbors@) > usize::MAX,
        r is None ==> exists|parent: Seq<Option<usize>>|
            is_spanning_tree(neighbors@, parent) && #[trigger] topology_overflows(neighbors@, parent),
{
    let (parent, rank) = spanning_tree(neighbors);
    proof {
        assert(is_spanning_tree(neighbors@, parent@));
    }
    let (ng, eg) = match number_generators(neighbors, &parent) {
        Some(p) => p,
        None => {
            proof {
                reveal(generator_count);
                lemma_generators_within_entries(neighbors@, parent@, neighbors@.len() as int, 0);
                assert(topology_overflows(neighbors@, parent@));
            }
            return None;
        },
    };
    let (relations, columns) = scan_triangles(neighbors, &parent, &eg, ng);
    proof {
        if columns@.len() > 0 {
            assert(column_views(columns@).len() > 0);
            lemma_columns_need_triangle(neighbors@, eg@, ng as nat, neighbors@.len() as int, 0, 0);
        }
    }
    proof {
        lemma_relations_of_nerve(neighbors@, eg@);
        lemma_columns_of_nerve(neighbors@, eg@, ng as nat);
    }
    let ghost cols = column_views(columns@);
    let abel = match Abelianisation::from_relations(ng, columns) {
        Some(abel) => abel,
        None => {
            proof {
                assert(Seq::new(columns@.len(), |j: int| columns@[j]@) =~= cols);
                assert(generator_table(
                    neighbors@,
                    parent@,
                    eg@,
                    generators_before(neighbors@, parent@, neighbors@.len() as int, 0),
                    neighbors@.len() as int,
                    0,
                ));
                assert(topology_overflows(neighbors@, parent@));
            }
            return None;
        },
    };
    let t = NerveTopology { n_generators: ng, edge_gen: eg, relations, abel, tree: Ghost(parent@) };
    proof {
        assert(is_topology_of(t, neighbors@));
        lemma_relators_are_triangle_boundaries(t, neighbors@);
    }
    Some(t)
}

/// The limits of the geodesic search and of the group computations over a
/// nerve. Each has a default, which an implementor may override.
pub trait NerveComplexParameters {
    /// Hard cap on how many candidate edge-paths are straightened.
    fn max_candidate_paths() -> (r: usize)
        default_ensures
            r == 512,
    {
        512
    }

    /// Cap on heap entries of the search frontier.
    fn max_frontier() -> (r: usize)
        default_ensures
            r == 1024 * 1024,
    {
        1024 * 1024
    }

    /// Cap on local insertions before declaring the charts unusable.
    fn max_rescues() -> (r: usize)
        default_ensures
            r == 64,
    {
        64
    }

    /// Iteration cap for the flow of a polyline with `n` vertices:
    /// `min(64 + 4·n², 100000)`, the square saturating.
    fn max_straightening_iterations(n: usize) -> (r: usize)
        default_ensures
            r == (if 64 + 4 * (n * n) < 100_000 {
                64 + 4 * (n * n)
            } else {
                100_000
            }),
    {
        if n > 160 {
            assert(n * n > 160 * 160) by (nonlinear_arith)
                requires
                    n > 160,
            ;
            return 100_000;
        }
        assert(n * n <= 160 * 160) by (nonlinear_arith)
            requires
                n <= 160,
        ;
        let q = 64 + 4 * (n * n);
        if q < 100_000 {
            q
        } else {
            100_000
        }
    }

    /// Cap on samples per basin comparison.
    fn max_samples() -> (r: usize)
        default_ensures
            r == 64,
    {
        64
    }

    /// Generator count above which the fundamental group is returned
    /// correct but not canonical.
    fn max_canonical_generators() -> (r: usize)
        default_ensures
            r == 7,
    {
        7
    }

    /// Sweeps of the discrete geodesic flow applied to a prefix before it is
    /// compared for basin membership.
    fn prefix_smoothing_sweeps() -> (r: usize)
        default_ensures
            r == 2,
    {
        2
    }

    /// Cap on basins reported per homotopy class.
    fn max_basins_per_class() -> (r: usize)
        default_ensures
            r == 8,
    {
        8
    }
}

/// The largest generator count that canonicalisation accepts: beyond it the
/// inversion mask `1 << n` leaves `u32`.
pub const CANONICAL_LIMIT: usize = 31;

/// `π₁` of the nerve, Tietze-simplified; canonicalised (its relators
/// relabelled and sorted into the least form) when at most
/// `max_canonical_generators` generators survive, and no more than
/// [`CANONICAL_LIMIT`].
///
/// Simplification never lowers the deficiency: generators minus relators.
/// No two relators returned are the same relation up to rotation and
/// inversion.
pub fn fundamental_group(topology: &NerveTopology, max_canonical_generators: usize) -> (r: FundamentalGroupPresentation)
    requires
        relators_within(topology.relations@, topology.n_generators as nat),
    ensures
        r.n_generators <= topology.n_generators,
        r.n_generators + topology.relations@.len() >= topology.n_generators + r.relations@.len(),
        tietze_derivable(
            topology.n_generators as nat,
            views(topology.relations@),
            r.n_generators as nat,
            views(r.relations@),
        ),
        relators_within(r.relations@, r.n_generators as nat),
        r.n_generators <= max_canonical_generators && r.n_generators <= CANONICAL_LIMIT ==> forall|a: int, b: int|
            0 <= a < b < r.relations@.len() ==> !word_lt(r.relations@[b]@, r.relations@[a]@),
        r.n_generators <= max_canonical_generators && r.n_generators <= CANONICAL_LIMIT ==> forall|k: int|
            0 <= k < r.relations@.len() ==> canonical_form(#[trigger] r.relations@[k]@) == r.relations@[k]@,
        r.n_generators <= max_canonical_generators && r.n_generators <= CANONICAL_LIMIT ==> exists|s: Seq<
            Seq<(usize, bool)>,
        >|
            #[trigger] tietze_derivable(topology.n_generators as nat, views(topology.relations@), r.n_generators as nat, s)
                && is_candidate(s, r.n_generators as nat, views(r.relations@)) && forall|perm: Seq<usize>, mask: u32|
                perm.len() == r.n_generators && all_below(perm, r.n_generators as nat) && is_injective(perm) && mask
                    < (1u32 << (r.n_generators as u32)) ==> !relators_lt(
                    #[trigger] canonical_relabelling(s, perm, mask),
                    views(r.relations@),
                ),
        forall|k: int| 0 <= k < r.relations@.len() ==> is_cyclically_reduced(#[trigger] r.relations@[k]@)
            && no_single_occurrence(r.relations@[k]@),
        !(r.n_generators <= max_canonical_generators && r.n_generators <= CANONICAL_LIMIT) ==> forall|k: int|
            0 <= k < r.relations@.len() ==> is_simplified_relator(#[trigger] r.relations@[k]@),
        pairwise_unrelated(views(r.relations@)),
{
    proof {
        assert forall|k: int, i: int|
            0 <= k < topology.relations@.len() && 0 <= i < topology.relations@[k]@.len() implies (
            #[trigger] topology.relations@[k]@[i]).0 < topology.n_generators by {
            assert(topology.relations@[k]@[i] == topology.relations@[k]@[i]);
        }
    }
    let simplified = tietze_simplify(topology.n_generators, &topology.relations);
    if simplified.n_generators > max_canonical_generators || simplified.n_generators > CANONICAL_LIMIT {
        return simplified;
    }
    proof {
        assert forall|m: int| 0 <= m < simplified.relations@.len() implies is_cyclically_reduced(
            #[trigger] simplified.relations@[m]@,
        ) && no_single_occurrence(simplified.relations@[m]@) by {
            assert(is_simplified_relator(simplified.relations@[m]@));
        }
    }
    let (n_generators, relations) = canonicalize_presentation(simplified.n_generators, &simplified.relations);
    proof {
        assert(tietze_derivable(
            topology.n_generators as nat,
            views(topology.relations@),
            n_generators as nat,
            views(simplified.relations@),
        ));
        lemma_derivable_trans(
            topology.n_generators as nat,
            views(topology.relations@),
            simplified.n_generators as nat,
            views(simplified.relations@),
            n_generators as nat,
            views(relations@),
        );
        let input = views(simplified.relations@);
        let n = n_generators as nat;
        let (perm, mask) = choose|perm: Seq<usize>, mask: u32|
            perm.len() == n && all_below(perm, n) && is_injective(perm) && mask < (1u32 << (n as u32)) && views(relations@)
                == #[trigger] canonical_relabelling(input, perm, mask);
        assert forall|k: int| 0 <= k < input.len() implies (#[trigger] input[k]).len() > 0 && letters_below(
            input[k],
            perm.len(),
        ) by {
            assert(input[k] == simplified.relations@[k]@);
        }
        lemma_relabelling_unrelated(input, perm, mask);
    }
    FundamentalGroupPresentation { n_generators, relations }
}

/// A distinct valley of the length functional: one geodesic from `p` to `q`
/// that is a strict local minimum of length among nearby paths.
pub struct Basin<P, F> {
    /// The converged geodesic, as a polyline whose vertices lie on it.
    pub path: Vec<P>,
    /// Its exact arc length.
    pub length: F,
    /// The edge-path through the nerve that descended into this basin.
    pub witness: Vec<usize>,
}

/// How a geodesic search ended.
#[derive(Clone, Copy, PartialEq, Eq)]
pub enum StraighteningResult {
    Success,
    Stalled(usize),
    ArithmeticFloor,
    NotConverged,
    NotConnected,
    MaxRescues,
}

/// What a returned geodesic can claim.
#[derive(Clone, Copy, PartialEq, Eq)]
pub struct GeodesicCertificate {
    /// An overestimation bound was asserted.
    pub bound_asserted: bool,
    /// The search ended by clearing its ceiling, not by exhausting a cap.
    pub search_exhaustive: bool,
    /// Every candidate examined straightened.
    pub straightening_result: StraighteningResult,
}

impl GeodesicCertificate {
    /// The geodesic is globally shortest: a bound was asserted, the search
    /// was exhaustive and every candidate straightened.
    pub fn is_global(&self) -> (r: bool)
        ensures
            r == (self.bound_asserted && self.search_exhaustive && self.straightening_result
                is Success),
    {
        self.bound_asserted && self.search_exhaustive && match self.straightening_result {
            StraighteningResult::Success => true,
            _ => false,
        }
    }
}

/// A geodesic with its length and what it can claim.
pub struct Geodesic<P, F> {
    pub path: Vec<P>,
    pub length: F,
    pub certificate: GeodesicCertificate,
}

/// A polyline with its cumulative arc length.
pub struct ArcPoly<P, F> {
    pub pts: Vec<P>,
    /// `cum[i]` is the arc length from `pts[0]` to `pts[i]`.
    pub cum: Vec<F>,
}

impl<P, F: CMonoid + Copy> ArcPoly<P, F> {
    /// The total arc length: the last cumulative length, zero when empty.
    pub fn total(&self) -> (r: F)
        ensures
            r == (if self.cum@.len() > 0 {
                self.cum@.last()
            } else {
                F::zero_spec()
            }),
    {
        if self.cum.len() > 0 {
            self.cum[self.cum.len() - 1]
        } else {
            F::zero()
        }
    }
}

/// The prefix `tip` leads through, from the root: the nodes of its entry
/// and of its ancestors, root first.
pub open spec fn prefix_path(entries: Seq<(u32, Option<u32>)>, tip: int) -> Seq<usize>
    decreases tip,
{
    if 0 <= tip < entries.len() {
        match entries[tip].1 {
            Some(p) => if p < tip {
                prefix_path(entries, p as int).push(entries[tip].0 as usize)
            } else {
                seq![entries[tip].0 as usize]
            },
            None => seq![entries[tip].0 as usize],
        }
    } else {
        Seq::empty()
    }
}

/// The prefixes of a search, stored as a tree of `(node, parent)` entries;
/// every parent precedes its child.
pub struct Arena {
    entries: Vec<(u32, Option<u32>)>,
}

impl Arena {
    /// The entries, in the order they were pushed.
    pub closed spec fn view_entries(self) -> Seq<(u32, Option<u32>)> {
        self.entries@
    }

    /// Every parent precedes its child.
    pub open spec fn well_formed(self) -> bool {
        forall|t: int|
            0 <= t < self.view_entries().len() && (#[trigger] self.view_entries()[t]).1 is Some
                ==> (self.view_entries()[t].1->0 as int) < t
    }

    /// An empty arena.
    pub fn new() -> (r: Self)
        ensures
            r.view_entries() == Seq::<(u32, Option<u32>)>::empty(),
            r.well_formed(),
    {
        Arena { entries: Vec::new() }
    }

    /// Records the prefix that extends `parent` (or starts) at `node`, and
    /// returns its tip.
    pub fn push(&mut self, node: usize, parent: Option<u32>) -> (tip: u32)
        requires
            old(self).well_formed(),
            old(self).view_entries().len() < u32::MAX,
            parent matches Some(p) ==> (p as int) < old(self).view_entries().len(),
        ensures
            final(self).well_formed(),
            final(self).view_entries() == old(self).view_entries().push((node as u32, parent)),
            tip as int == old(self).view_entries().len(),
    {
        self.entries.push((node as u32, parent));
        (self.entries.len() - 1) as u32
    }

    /// The number of prefixes recorded.
    pub fn len(&self) -> (r: usize)
        ensures
            r == self.view_entries().len(),
    {
        self.entries.len()
    }

    /// The node at the end of the prefix `tip`.
    pub fn node(&self, tip: u32) -> (r: usize)
        requires
            (tip as int) < self.view_entries().len(),
        ensures
            r == self.view_entries()[tip as int].0 as usize,
    {
        self.entries[tip as usize].0 as usize
    }

    /// Whether the prefix `tip` passes through `v`.
    pub fn contains(&self, tip: u32, v: usize) -> (r: bool)
        requires
            self.well_formed(),
            (tip as int) < self.view_entries().len(),
        ensures
            r == prefix_path(self.view_entries(), tip as int).contains(v),
    {
        let mut t = tip;
        loop
            invariant
                self.well_formed(),
                (t as int) < self.view_entries().len(),
                prefix_path(self.view_entries(), tip as int).contains(v) == prefix_path(
                    self.view_entries(),
                    t as int,
                ).contains(v),
            decreases t,
        {
            let (node, parent) = self.entries[t as usize];
            let ghost here = prefix_path(self.view_entries(), t as int);
            proof {
                assert(here.last() == node as usize);
            }
            if node as usize == v {
                assert(here[here.len() - 1] == v);
                return true;
            }
            match parent {
                Some(p) => {
                    proof {
                        assert(here == prefix_path(self.view_entries(), p as int).push(node as usize));
                        assert forall|x: usize| here.contains(x) == prefix_path(self.view_entries(), p as int).contains(x)
                            || x == node as usize by {
                            let pp = prefix_path(self.view_entries(), p as int);
                            if pp.contains(x) {
                                let k = choose|k: int| 0 <= k < pp.len() && pp[k] == x;
                                assert(here[k] == x);
                            }
                            if here.contains(x) && x != node as usize {
                                let k = choose|k: int| 0 <= k < here.len() && here[k] == x;
                                assert(k < pp.len());
                                assert(pp[k] == x);
                            }
                        }
                    }
                    t = p;
                },
                None => {
                    assert(here == seq![node as usize]);
                    assert(!here.contains(v)) by {
                        if here.contains(v) {
                            let k = choose|k: int| 0 <= k < here.len() && here[k] == v;
                            assert(k == 0);
                        }
                    }
                    return false;
                },
            }
        }
    }

    /// The nodes of the prefix `tip`, from the root.
    pub fn path(&self, tip: u32) -> (r: Vec<usize>)
        requires
            self.well_formed(),
            (tip as int) < self.view_entries().len(),
        ensures
            r@ == prefix_path(self.view_entries(), tip as int),
    {
        let mut rev: Vec<usize> = Vec::new();
        let mut t = tip;
        loop
            invariant_except_break
                prefix_path(self.view_entries(), tip as int) == prefix_path(self.view_entries(), t as int)
                    + rev@.reverse(),
            invariant
                self.well_formed(),
                (t as int) < self.view_entries().len(),
            ensures
                prefix_path(self.view_entries(), tip as int) == rev@.reverse(),
            decreases t,
        {
            let (node, parent) = self.entries[t as usize];
            let ghost prev = rev@;
            rev.push(node as usize);
            proof {
                assert(rev@.reverse() =~= seq![node as usize] + prev.reverse());
            }
            match parent {
                Some(p) => {
                    proof {
                        assert(prefix_path(self.view_entries(), t as int) == prefix_path(
                            self.view_entries(),
                            p as int,
                        ).push(node as usize));
                        assert(prefix_path(self.view_entries(), p as int).push(node as usize) + prev.reverse()
                            =~= prefix_path(self.view_entries(), p as int) + (seq![node as usize] + prev.reverse()));
                    }
                    t = p;
                },
                None => {
                    proof {
                        assert(prefix_path(self.view_entries(), t as int) == seq![node as usize]);
                        assert(prefix_path(self.view_entries(), tip as int) =~= rev@.reverse());
                    }
                    break;
                },
            }
        }
        let mut out: Vec<usize> = Vec::new();
        let mut k: usize = rev.len();
        while k > 0
            invariant
                k <= rev@.len(),
                out@ == rev@.reverse().take((rev@.len() - k) as int),
            decreases k,
        {
            k = k - 1;
            out.push(rev[k]);
            assert(rev@.reverse().take((rev@.len() - k) as int) =~= rev@.reverse().take(
                (rev@.len() - k - 1) as int,
            ).push(rev@[k as int]));
        }
        assert(rev@.reverse().take(rev@.len() as int) =~= rev@.reverse());
        out
    }
}

/// The edge a transition tag encodes: generator `tag / 2`, inverted when
/// `tag` is odd.
pub open spec fn tag_edge(tag: u32) -> Option<(usize, bool)> {
    Some(((tag / 2) as usize, tag % 2 == 1))
}

/// Whether two keys are equal.
fn keys_equal(a: &Vec<i64>, b: &Vec<i64>) -> (r: bool)
    ensures
        r == (a@ == b@),
{
    if a.len() != b.len() {
        return false;
    }
    let mut i: usize = 0;
    while i < a.len()
        invariant
            i <= a@.len(),
            a@.len() == b@.len(),
            forall|k: int| 0 <= k < i ==> a@[k] == b@[k],
        decreases a@.len() - i,
    {
        if a[i] != b[i] {
            return false;
        }
        i = i + 1;
    }
    assert(a@ =~= b@);
    true
}

/// Interns `H₁` keys as `u32`s and memoizes the action of the generators on
/// them: extending a prefix by an edge is a translation of its key.
pub struct Keys<'a> {
    abel: &'a Abelianisation,
    tab: Vec<Vec<i64>>,
    /// `(key, generator·2 + inverted, key)`.
    trans: Vec<(u32, u32, u32)>,
}

impl<'a> Keys<'a> {
    /// The abelianisation the keys belong to.
    pub closed spec fn abelianisation(self) -> Abelianisation {
        *self.abel
    }

    /// The interned keys, by id.
    pub closed spec fn table(self) -> Seq<Seq<i64>> {
        Seq::new(self.tab@.len(), |k: int| self.tab@[k]@)
    }

    /// The table is nonempty, starts with the identity, and every memoized
    /// transition is the extension of its source key by its edge.
    pub closed spec fn well_formed(self) -> bool {
        &&& self.abel.well_formed()
        &&& self.tab@.len() >= 1
        &&& self.tab@[0]@ == Seq::new(self.abel.live_view().len(), |l: int| 0i64)
        &&& forall|e: int|
            0 <= e < self.trans@.len() ==> {
                let (k, tag, next) = #[trigger] self.trans@[e];
                &&& (k as int) < self.tab@.len()
                &&& (next as int) < self.tab@.len()
                &&& self.tab@[next as int]@ == self.abel.extended(self.tab@[k as int]@, tag_edge(tag))
            }
    }

    /// A table holding only the identity key.
    pub fn new(abel: &'a Abelianisation) -> (r: Self)
        requires
            abel.well_formed(),
        ensures
            r.well_formed(),
            r.abelianisation() == *abel,
            r.table() == seq![Seq::new(abel.live_view().len(), |l: int| 0i64)],
    {
        let id = abel.identity();
        let mut tab: Vec<Vec<i64>> = Vec::new();
        tab.push(id);
        let r = Keys { abel, tab, trans: Vec::new() };
        assert(r.table() =~= seq![Seq::new(abel.live_view().len(), |l: int| 0i64)]);
        r
    }

    /// The id of key `k`, interning it if it is new.
    pub fn intern(&mut self, k: Vec<i64>) -> (id: u32)
        requires
            old(self).well_formed(),
            old(self).table().len() < u32::MAX,
        ensures
            final(self).well_formed(),
            final(self).abelianisation() == old(self).abelianisation(),
            final(self).table() == old(self).table() || final(self).table() == old(self).table().push(k@),
            (id as int) < final(self).table().len(),
            final(self).table()[id as int] == k@,
            old(self).table().contains(k@) ==> final(self).table() == old(self).table(),
    {
        let mut i: usize = 0;
        while i < self.tab.len()
            invariant
                self.well_formed(),
                *self == *old(self),
                i <= self.tab@.len(),
                self.tab@.len() < u32::MAX,
                forall|q: int| 0 <= q < i ==> self.tab@[q]@ != k@,
            decreases self.tab@.len() - i,
        {
            if keys_equal(&self.tab[i], &k) {
                proof {
                    assert(self.table()[i as int] == k@);
                }
                return i as u32;
            }
            i = i + 1;
        }
        proof {
            assert(!self.table().contains(k@)) by {
                if self.table().contains(k@) {
                    let q = choose|q: int| 0 <= q < self.table().len() && self.table()[q] == k@;
                    assert(self.tab@[q]@ == k@);
                }
            }
        }
        let id = self.tab.len() as u32;
        let ghost before = self.table();
        self.tab.push(k);
        proof {
            assert(self.table() =~= before.push(self.tab@[id as int]@));
        }
        id
    }

    /// The id of the key of `prefix · e`, for a prefix with key id `key`;
    /// `None` for tree edges, which leave the key unchanged.
    pub fn step(&mut self, key: u32, edge: Option<(usize, bool)>) -> (next: u32)
        requires
            old(self).well_formed(),
            (key as int) < old(self).table().len(),
            old(self).table().len() < u32::MAX,
            old(self).abelianisation().can_extend(old(self).table()[key as int], edge),
            edge matches Some((g, inv)) ==> g < 0x8000_0000,
        ensures
            final(self).well_formed(),
            final(self).abelianisation() == old(self).abelianisation(),
            final(self).table() == old(self).table() || final(self).table().drop_last() == old(self).table(),
            (next as int) < final(self).table().len(),
            final(self).table()[next as int] == old(self).abelianisation().extended(
                old(self).table()[key as int],
                edge,
            ),
    {
        let (g, inverted) = match edge {
            None => return key,
            Some(e) => e,
        };
        let tag: u32 = (g as u32) * 2 + if inverted {
            1
        } else {
            0
        };
        proof {
            assert(tag_edge(tag) == edge);
        }
        let mut e: usize = 0;
        while e < self.trans.len()
            invariant
                self.well_formed(),
                (key as int) < self.tab@.len(),
                tag_edge(tag) == edge,
                e <= self.trans@.len(),
            decreases self.trans@.len() - e,
        {
            let (k, t, next) = self.trans[e];
            if k == key && t == tag {
                return next;
            }
            e = e + 1;
        }
        let extended = self.abel.extend(&self.tab[key as usize], edge);
        let ghost before = self.table();
        let next = self.intern(extended);
        proof {
            if self.table() != before {
                assert(self.table().drop_last() =~= before);
            }
            assert(self.table()[key as int] == before[key as int]);
        }
        let ghost old_trans = self.trans@;
        self.trans.push((key, tag, next));
        proof {
            assert forall|e: int| 0 <= e < self.trans@.len() implies {
                let (k, tag, next) = #[trigger] self.trans@[e];
                &&& (k as int) < self.tab@.len()
                &&& (next as int) < self.tab@.len()
                &&& self.tab@[next as int]@ == self.abel.extended(self.tab@[k as int]@, tag_edge(tag))
            } by {
                if e < self.trans@.len() - 1 {
                    assert(self.trans@[e] == old_trans[e]);
                } else {
                    assert(self.table()[next as int] == self.tab@[next as int]@);
                    assert(self.table()[key as int] == self.tab@[key as int]@);
                }
            }
        }
        next
    }

    /// The number of interned keys.
    pub fn len(&self) -> (r: usize)
        ensures
            r == self.table().len(),
    {
        self.tab.len()
    }

    /// [`Self::step`] where its conditions hold: `key` is an id, the table
    /// has room for one more id, the generator fits a tag and the extension
    /// stays within `i64`. `None`, with the table unchanged, otherwise.
    pub fn try_step(&mut self, key: u32, edge: Option<(usize, bool)>) -> (r: Option<u32>)
        requires
            old(self).well_formed(),
        ensures
            final(self).well_formed(),
            final(self).abelianisation() == old(self).abelianisation(),
            r is Some <==> {
                &&& (key as int) < old(self).table().len()
                &&& old(self).table().len() < u32::MAX
                &&& old(self).abelianisation().can_extend(old(self).table()[key as int], edge)
                &&& edge matches Some((g, inv)) ==> g < 0x8000_0000
            },
            r is None ==> final(self).table() == old(self).table(),
            r matches Some(next) ==> {
                &&& final(self).table() == old(self).table() || final(self).table().drop_last() == old(self).table()
                &&& (next as int) < final(self).table().len()
                &&& final(self).table()[next as int] == old(self).abelianisation().extended(
                    old(self).table()[key as int],
                    edge,
                )
            },
    {
        if key as usize >= self.tab.len() || self.tab.len() >= 0xffff_ffff {
            return None;
        }
        if let Some((g, _)) = edge {
            if g >= 0x8000_0000 {
                return None;
            }
        }
        proof {
            assert(self.table()[key as int] == self.tab@[key as int]@);
        }
        if !self.abel.check_extend(&self.tab[key as usize], edge) {
            return None;
        }
        Some(self.step(key, edge))
    }

    /// The key with id `id`.
    pub fn key(&self, id: u32) -> (r: Vec<i64>)
        requires
            (id as int) < self.table().len(),
        ensures
            r@ == self.table()[id as int],
    {
        let row = &self.tab[id as usize];
        let mut out: Vec<i64> = Vec::new();
        let mut k: usize = 0;
        while k < row.len()
            invariant
                k <= row@.len(),
                out@ == row@.take(k as int),
            decreases row@.len() - k,
        {
            out.push(row[k]);
            assert(row@.take(k + 1) =~= row@.take(k as int).push(row@[k as int]));
            k = k + 1;
        }
        assert(row@.take(row@.len() as int) =~= row@);
        out
    }
}

} // verus!
