//! Connectivity of finite undirected graphs whose nodes are numbered from 0.
use vstd::prelude::*;

verus! {

/// A non-empty sequence of nodes in which each node is related to the next.
pub open spec fn is_walk(rel: spec_fn(int, int) -> bool, p: Seq<int>) -> bool {
    p.len() > 0 && forall|i: int| 0 <= i < p.len() - 1 ==> rel(#[trigger] p[i], p[i + 1])
}

/// There is a walk from `a` to `b`.
pub open spec fn joined(rel: spec_fn(int, int) -> bool, a: int, b: int) -> bool {
    exists|p: Seq<int>| is_walk(rel, p) && p[0] == a && #[trigger] p[p.len() - 1] == b
}

/// The relation holds in both directions or in none.
pub open spec fn symmetric(rel: spec_fn(int, int) -> bool) -> bool {
    forall|x: int, y: int| #[trigger] rel(x, y) ==> rel(y, x)
}

/// The relation that a list of arcs stands for: two nodes are related when
/// an arc joins them, in either direction.
pub open spec fn arcs_rel(arcs: Seq<(usize, usize)>) -> spec_fn(int, int) -> bool {
    |a: int, b: int|
        exists|k: int|
            0 <= k < arcs.len() && (((#[trigger] arcs[k]).0 == a && arcs[k].1 == b) || (arcs[k].0
                == b && arcs[k].1 == a))
}

/// Every node is joined to itself.
pub proof fn lemma_joined_refl(rel: spec_fn(int, int) -> bool, a: int)
    ensures
        joined(rel, a, a),
{
    let p = seq![a];
    assert(is_walk(rel, p));
    assert(p[p.len() - 1] == a);
}

/// Related nodes are joined.
pub proof fn lemma_joined_step(rel: spec_fn(int, int) -> bool, a: int, b: int)
    requires
        rel(a, b),
    ensures
        joined(rel, a, b),
{
    let p = seq![a, b];
    assert(is_walk(rel, p));
    assert(p[p.len() - 1] == b);
}

/// A walk can be followed by another that starts where it ends.
pub proof fn lemma_joined_trans(rel: spec_fn(int, int) -> bool, a: int, b: int, c: int)
    requires
        joined(rel, a, b),
        joined(rel, b, c),
    ensures
        joined(rel, a, c),
{
    let p = choose|p: Seq<int>| is_walk(rel, p) && p[0] == a && #[trigger] p[p.len() - 1] == b;
    let q = choose|q: Seq<int>| is_walk(rel, q) && q[0] == b && #[trigger] q[q.len() - 1] == c;
    let r = p + q.subrange(1, q.len() as int);
    assert forall|i: int| 0 <= i < r.len() - 1 implies rel(#[trigger] r[i], r[i + 1]) by {
        if i < p.len() - 1 {
            assert(rel(p[i], p[i + 1]));
        } else {
            let j = i - p.len() + 1;
            assert(rel(q[j], q[j + 1]));
            assert(r[i] == q[j]);
            assert(r[i + 1] == q[j + 1]);
        }
    }
    assert(is_walk(rel, r));
    assert(r[0] == a);
    assert(r[r.len() - 1] == c);
}

/// Under a symmetric relation a walk can be taken backwards.
pub proof fn lemma_joined_sym(rel: spec_fn(int, int) -> bool, a: int, b: int)
    requires
        symmetric(rel),
        joined(rel, a, b),
    ensures
        joined(rel, b, a),
{
    let p = choose|p: Seq<int>| is_walk(rel, p) && p[0] == a && #[trigger] p[p.len() - 1] == b;
    let n = p.len() as int;
    let r = Seq::new(p.len(), |i: int| p[n - 1 - i]);
    assert forall|i: int| 0 <= i < r.len() - 1 implies rel(#[trigger] r[i], r[i + 1]) by {
        let j = n - 2 - i;
        assert(rel(p[j], p[j + 1]));
    }
    assert(is_walk(rel, r));
    assert(r[0] == b);
    assert(r[r.len() - 1] == a);
}

/// A walk under a relation is a walk under every relation that holds
/// wherever the first does.
pub proof fn lemma_joined_mono(
    rel: spec_fn(int, int) -> bool,
    wider: spec_fn(int, int) -> bool,
    a: int,
    b: int,
)
    requires
        forall|x: int, y: int| #[trigger] rel(x, y) ==> wider(x, y),
        joined(rel, a, b),
    ensures
        joined(wider, a, b),
{
    let p = choose|p: Seq<int>| is_walk(rel, p) && p[0] == a && #[trigger] p[p.len() - 1] == b;
    assert forall|i: int| 0 <= i < p.len() - 1 implies wider(#[trigger] p[i], p[i + 1]) by {
        assert(rel(p[i], p[i + 1]));
    }
    assert(is_walk(wider, p));
    assert(p[p.len() - 1] == b);
}

proof fn lemma_walk_stable(
    rel: spec_fn(int, int) -> bool,
    f: spec_fn(int) -> int,
    p: Seq<int>,
    i: int,
)
    requires
        forall|x: int, y: int| #[trigger] rel(x, y) ==> f(x) == f(y),
        is_walk(rel, p),
        0 <= i < p.len(),
    ensures
        f(p[i]) == f(p[0]),
    decreases i,
{
    if i > 0 {
        lemma_walk_stable(rel, f, p, i - 1);
        assert(rel(p[i - 1], p[i - 1 + 1]));
    }
}

/// A function that agrees on related nodes agrees on joined nodes.
pub proof fn lemma_joined_stable(
    rel: spec_fn(int, int) -> bool,
    f: spec_fn(int) -> int,
    a: int,
    b: int,
)
    requires
        forall|x: int, y: int| #[trigger] rel(x, y) ==> f(x) == f(y),
        joined(rel, a, b),
    ensures
        f(a) == f(b),
{
    let p = choose|p: Seq<int>| is_walk(rel, p) && p[0] == a && #[trigger] p[p.len() - 1] == b;
    lemma_walk_stable(rel, f, p, p.len() - 1);
}

/// The sum of the numbers of a sequence.
pub open spec fn total(s: Seq<usize>) -> int
    decreases s.len(),
{
    if s.len() == 0 {
        0
    } else {
        total(s.drop_last()) + s.last()
    }
}

proof fn lemma_total_nonneg(s: Seq<usize>)
    ensures
        total(s) >= 0,
    decreases s.len(),
{
    if s.len() > 0 {
        lemma_total_nonneg(s.drop_last());
    }
}

proof fn lemma_total_update(s: Seq<usize>, i: int, v: usize)
    requires
        0 <= i < s.len(),
    ensures
        total(s.update(i, v)) == total(s) - s[i] + v,
    decreases s.len(),
{
    if i == s.len() - 1 {
        assert(s.update(i, v).drop_last() =~= s.drop_last());
    } else {
        assert(s.update(i, v).drop_last() =~= s.drop_last().update(i, v));
        lemma_total_update(s.drop_last(), i, v);
    }
}

/// What `components` promises of its result: the label of a node is the
/// smallest node joined to it.
pub open spec fn is_labelling(n: int, rel: spec_fn(int, int) -> bool, label: Seq<usize>) -> bool {
    &&& label.len() == n
    &&& forall|i: int| 0 <= i < n ==> (#[trigger] label[i]) <= i
    &&& forall|i: int| 0 <= i < n ==> joined(rel, i, #[trigger] label[i] as int)
    &&& forall|i: int, j: int|
        #![trigger label[i], label[j]]
        0 <= i < n && 0 <= j < n ==> ((label[i] == label[j]) <==> joined(rel, i, j))
}

/// Labels the nodes `0..n` of the graph with arcs `arcs` by component: two
/// nodes get the same label exactly when a walk joins them, and the label of
/// a node is the smallest node of its component.
pub fn components(n: usize, arcs: &Vec<(usize, usize)>) -> (label: Vec<usize>)
    requires
        forall|k: int| 0 <= k < arcs@.len() ==> (#[trigger] arcs@[k]).0 < n && arcs@[k].1 < n,
    ensures
        is_labelling(n as int, arcs_rel(arcs@), label@),
{
    let ghost rel = arcs_rel(arcs@);
    let mut label: Vec<usize> = Vec::new();
    let mut i: usize = 0;
    while i < n
        invariant
            i <= n,
            label@.len() == i,
            forall|k: int| 0 <= k < i ==> label@[k] == k,
        decreases n - i,
    {
        label.push(i);
        i += 1;
    }
    proof {
        assert forall|k: int| 0 <= k < n implies joined(rel, k, #[trigger] label@[k] as int) by {
            lemma_joined_refl(rel, k);
        }
        lemma_total_nonneg(label@);
    }
    let mut changed = true;
    while changed
        invariant
            rel == arcs_rel(arcs@),
            forall|k: int| 0 <= k < arcs@.len() ==> (#[trigger] arcs@[k]).0 < n && arcs@[k].1 < n,
            label@.len() == n,
            forall|k: int| 0 <= k < n ==> (#[trigger] label@[k]) <= k,
            forall|k: int| 0 <= k < n ==> joined(rel, k, #[trigger] label@[k] as int),
            !changed ==> forall|k: int|
                0 <= k < arcs@.len() ==> label@[(#[trigger] arcs@[k]).0 as int]
                    == label@[arcs@[k].1 as int],
            total(label@) >= 0,
        decreases total(label@), (if changed { 1int } else { 0int }),
    {
        changed = false;
        let ghost start = label@;
        let mut k: usize = 0;
        while k < arcs.len()
            invariant
                rel == arcs_rel(arcs@),
                forall|k: int|
                    0 <= k < arcs@.len() ==> (#[trigger] arcs@[k]).0 < n && arcs@[k].1 < n,
                k <= arcs@.len(),
                label@.len() == n,
                forall|k: int| 0 <= k < n ==> (#[trigger] label@[k]) <= k,
                forall|k: int| 0 <= k < n ==> joined(rel, k, #[trigger] label@[k] as int),
                total(label@) <= total(start),
                total(label@) >= 0,
                changed ==> total(label@) < total(start),
                !changed ==> forall|j: int|
                    0 <= j < k ==> label@[(#[trigger] arcs@[j]).0 as int]
                        == label@[arcs@[j].1 as int],
            decreases arcs@.len() - k,
        {
            let a = arcs[k].0;
            let b = arcs[k].1;
            let la = label[a];
            let lb = label[b];
            proof {
                assert(rel(a as int, b as int));
                assert(rel(b as int, a as int));
                lemma_joined_step(rel, a as int, b as int);
                lemma_joined_step(rel, b as int, a as int);
            }
            if la < lb {
                proof {
                    lemma_total_update(label@, b as int, la);
                    lemma_total_nonneg(label@.update(b as int, la));
                    lemma_joined_trans(rel, b as int, a as int, la as int);
                }
                label.set(b, la);
                changed = true;
            } else if lb < la {
                proof {
                    lemma_total_update(label@, a as int, lb);
                    lemma_total_nonneg(label@.update(a as int, lb));
                    lemma_joined_trans(rel, a as int, b as int, lb as int);
                }
                label.set(a, lb);
                changed = true;
            }
            k += 1;
        }
    }
    proof {
        assert(symmetric(rel));
        let f = |x: int| if 0 <= x < n { label@[x] as int } else { -1 };
        assert forall|x: int, y: int| #[trigger] rel(x, y) implies f(x) == f(y) by {
            let k = choose|k: int|
                0 <= k < arcs@.len() && (((#[trigger] arcs@[k]).0 == x && arcs@[k].1 == y) || (
                arcs@[k].0 == y && arcs@[k].1 == x));
            assert(label@[arcs@[k].0 as int] == label@[arcs@[k].1 as int]);
        }
        assert forall|i: int, j: int|
            #![trigger label@[i], label@[j]]
            0 <= i < n && 0 <= j < n implies ((label@[i] == label@[j]) <==> joined(rel, i, j)) by {
            if label@[i] == label@[j] {
                lemma_joined_sym(rel, j, label@[j] as int);
                lemma_joined_trans(rel, i, label@[i] as int, j);
            }
            if joined(rel, i, j) {
                lemma_joined_stable(rel, f, i, j);
            }
        }
    }
    label
}

} // verus!
