//! The free boundary of a shell: the edges that only one face passes, put
//! together into wires.
use vstd::prelude::*;
use crate::edge::{Edge, EdgeModel};
use crate::shell::{edge_views, faces_edges, Shell};
use crate::wire::{is_chain, Wire};

verus! {

/// How many of the first `n` edges are handles of the edge `id`.
pub open spec fn passes<P, C>(es: Seq<EdgeModel<P, C>>, id: u64, n: nat) -> nat
    decreases n,
{
    if n == 0 {
        0
    } else {
        passes(es, id, (n - 1) as nat) + if es[n - 1].id == id {
            1nat
        } else {
            0nat
        }
    }
}

/// Those of the first `n` edges that are the only handle of their edge, in
/// order.
pub open spec fn free_edges<P, C>(es: Seq<EdgeModel<P, C>>, n: nat) -> Seq<EdgeModel<P, C>>
    decreases n,
{
    if n == 0 {
        Seq::empty()
    } else if passes(es, es[n - 1].id, es.len()) == 1 {
        free_edges(es, (n - 1) as nat).push(es[n - 1])
    } else {
        free_edges(es, (n - 1) as nat)
    }
}

/// `i` is among the first `n` entries of `order`.
pub open spec fn placed(order: Seq<int>, n: int, i: int) -> bool {
    exists|p: int| 0 <= p < n && p < order.len() && #[trigger] order[p] == i
}

/// The wires are edges of `free`, none twice, taken in the order `order`
/// and cut into wires at `cuts`. Each wire begins with the first edge that
/// no earlier wire has, and no edge of a later wire starts where an earlier
/// wire ends.
pub open spec fn split_part<P, C>(
    free: Seq<EdgeModel<P, C>>,
    wires: Seq<Seq<EdgeModel<P, C>>>,
    order: Seq<int>,
    cuts: Seq<int>,
) -> bool {
    &&& cuts.len() == wires.len() + 1
    &&& cuts[0] == 0
    &&& cuts[wires.len() as int] == order.len()
    &&& order.len() <= free.len()
    &&& forall|j: int| 0 <= j < wires.len() ==> 0 <= (#[trigger] cuts[j]) < cuts[j + 1] <= order.len()
    &&& forall|j: int|
        0 <= j < wires.len() ==> #[trigger] wires[j] == Seq::new(
            (cuts[j + 1] - cuts[j]) as nat,
            |i: int| free[order[cuts[j] + i]],
        )
    &&& forall|p: int| 0 <= p < order.len() ==> 0 <= (#[trigger] order[p]) < free.len()
    &&& forall|p: int, q: int|
        0 <= p < q < order.len() ==> (#[trigger] order[p]) != (#[trigger] order[q])
    &&& forall|j: int, i: int|
        0 <= j < wires.len() && 0 <= i < order[cuts[j]] ==> #[trigger] placed(order, cuts[j], i)
    &&& forall|j: int, p: int|
        0 <= j < wires.len() && cuts[j + 1] <= p < order.len() ==> free[#[trigger] order[p]].front().id
            != free[order[#[trigger] cuts[j + 1] - 1]].back().id
}

/// The wires are the edges `free`, each once, taken in the order `order`
/// and cut into wires at `cuts`. Each wire begins with the first edge that
/// no earlier wire has, and no edge of a later wire starts where an earlier
/// wire ends.
pub open spec fn split_ok<P, C>(
    free: Seq<EdgeModel<P, C>>,
    wires: Seq<Seq<EdgeModel<P, C>>>,
    order: Seq<int>,
    cuts: Seq<int>,
) -> bool {
    &&& split_part(free, wires, order, cuts)
    &&& forall|i: int| 0 <= i < free.len() ==> #[trigger] placed(order, order.len() as int, i)
}

/// The wires are a splitting of the edges `free` into wires.
pub open spec fn is_split<P, C>(free: Seq<EdgeModel<P, C>>, wires: Seq<Seq<EdgeModel<P, C>>>) -> bool {
    exists|order: Seq<int>, cuts: Seq<int>| #[trigger] split_ok(free, wires, order, cuts)
}

/// How many of the first `n` flags are not set.
pub open spec fn unset(flags: Seq<bool>, n: nat) -> nat
    decreases n,
{
    if n == 0 {
        0
    } else {
        unset(flags, (n - 1) as nat) + if flags[n - 1] {
            0nat
        } else {
            1nat
        }
    }
}

proof fn lemma_unset_bound(flags: Seq<bool>, n: nat)
    requires
        n <= flags.len(),
    ensures
        unset(flags, n) <= n,
        (forall|k: int| 0 <= k < n ==> !flags[k]) ==> unset(flags, n) == n,
    decreases n,
{
    if n > 0 {
        lemma_unset_bound(flags, (n - 1) as nat);
    }
}

proof fn lemma_unset_update(flags: Seq<bool>, i: int, n: nat)
    requires
        0 <= i < flags.len(),
        n <= flags.len(),
        !flags[i],
    ensures
        unset(flags.update(i, true), n) == unset(flags, n) - if i < n {
            1int
        } else {
            0int
        },
    decreases n,
{
    if n > 0 {
        lemma_unset_update(flags, i, (n - 1) as nat);
    }
}

/// The wire views of a vector.
pub open spec fn views<P, C>(ws: Seq<Wire<P, C>>) -> Seq<Seq<EdgeModel<P, C>>> {
    Seq::new(ws.len(), |j: int| ws[j]@)
}

/// Counts the handles of the edge `id` among the edges.
fn count_passes<P, C>(es: &Vec<Edge<P, C>>, id: u64) -> (n: usize)
    ensures
        n == passes(edge_views(es@), id, es@.len()),
{
    let mut n: usize = 0;
    let mut k: usize = 0;
    while k < es.len()
        invariant
            k <= es@.len(),
            n == passes(edge_views(es@), id, k as nat),
            n <= k,
        decreases es@.len() - k,
    {
        assert(edge_views(es@)[k as int] == es@[k as int]@);
        if es[k].id() == id {
            n += 1;
        }
        k += 1;
    }
    n
}

/// `order` lists positions below `m`, none twice, and the flags tell of
/// each position whether it is listed.
pub open spec fn tracks(used: Seq<bool>, order: Seq<int>, m: int) -> bool {
    &&& used.len() == m
    &&& forall|p: int| 0 <= p < order.len() ==> 0 <= (#[trigger] order[p]) < m
    &&& forall|p: int, q: int|
        0 <= p < q < order.len() ==> (#[trigger] order[p]) != (#[trigger] order[q])
    &&& forall|k: int| 0 <= k < m ==> (used[k] <==> #[trigger] placed(order, order.len() as int, k))
}

/// Listing one more position, and setting its flag, keeps the flags and
/// the list in step.
proof fn lemma_take(used: Seq<bool>, order: Seq<int>, m: int, h: int)
    requires
        tracks(used, order, m),
        0 <= h < m,
        !used[h],
    ensures
        tracks(used.update(h, true), order.push(h), m),
{
    let used1 = used.update(h, true);
    let order1 = order.push(h);
    let n = order.len() as int;
    assert forall|p: int| 0 <= p < order1.len() implies 0 <= (#[trigger] order1[p]) < m by {
        if p < n {
            assert(order1[p] == order[p]);
        }
    }
    assert forall|p: int, q: int| 0 <= p < q < order1.len() implies (#[trigger] order1[p]) != (
    #[trigger] order1[q]) by {
        if q == n {
            if order1[p] == h {
                assert(order[p] == h);
                assert(placed(order, n, h));
            }
        } else {
            assert(order1[p] == order[p]);
            assert(order1[q] == order[q]);
        }
    }
    assert forall|k: int| 0 <= k < m implies (used1[k] <==> #[trigger] placed(
        order1,
        order1.len() as int,
        k,
    )) by {
        if placed(order, n, k) {
            let p = choose|p: int| 0 <= p < n && p < order.len() && #[trigger] order[p] == k;
            assert(order1[p] == k);
        }
        if k == h {
            assert(order1[n] == k);
        }
        if placed(order1, order1.len() as int, k) {
            let p = choose|p: int|
                0 <= p < order1.len() && p < order1.len() && #[trigger] order1[p] == k;
            if p < n {
                assert(order[p] == k);
            }
        }
    }
}

/// A wire that is finished is one more wire of the splitting.
proof fn lemma_wire_done<P, C>(
    f: Seq<EdgeModel<P, C>>,
    ws: Seq<Seq<EdgeModel<P, C>>>,
    order0: Seq<int>,
    cuts: Seq<int>,
    order: Seq<int>,
    wire: Seq<EdgeModel<P, C>>,
    ends: Seq<u64>,
)
    requires
        split_part(f, ws, order0, cuts),
        order0.len() < order.len(),
        order.len() <= f.len(),
        order.subrange(0, order0.len() as int) == order0,
        forall|p: int| 0 <= p < order.len() ==> 0 <= (#[trigger] order[p]) < f.len(),
        forall|p: int, q: int|
            0 <= p < q < order.len() ==> (#[trigger] order[p]) != (#[trigger] order[q]),
        wire == Seq::new((order.len() - order0.len()) as nat, |i: int| f[order[order0.len() + i]]),
        forall|i: int|
            0 <= i < order[order0.len() as int] ==> #[trigger] placed(order0, order0.len() as int, i),
        ends.len() == ws.len(),
        forall|j: int| 0 <= j < ws.len() ==> #[trigger] ends[j] == f[order0[cuts[j + 1] - 1]].back().id,
        forall|j: int, p: int|
            0 <= j < ws.len() && order0.len() <= p < order.len() ==> f[#[trigger] order[p]].front().id
                != #[trigger] ends[j],
    ensures
        split_part(f, ws.push(wire), order, cuts.push(order.len() as int)),
{
    let start = order0.len() as int;
    let ws1 = ws.push(wire);
    let cuts1 = cuts.push(order.len() as int);
    let n = ws1.len() as int;
    assert forall|p: int| 0 <= p < start implies #[trigger] order[p] == order0[p] by {
        assert(order.subrange(0, start)[p] == order[p]);
    }
    assert(cuts[ws.len() as int] == start);
    assert forall|j: int| 0 <= j < n implies 0 <= (#[trigger] cuts1[j]) < cuts1[j + 1]
        <= order.len() by {
        assert(cuts1[j] == cuts[j]);
        if j < n - 1 {
            assert(cuts1[j + 1] == cuts[j + 1]);
            assert(0 <= cuts[j] < cuts[j + 1] <= order0.len());
        }
    }
    assert forall|j: int| 0 <= j < n implies #[trigger] ws1[j] == Seq::new(
        (cuts1[j + 1] - cuts1[j]) as nat,
        |i: int| f[order[cuts1[j] + i]],
    ) by {
        assert(cuts1[j] == cuts[j]);
        if j < n - 1 {
            assert(ws1[j] == ws[j]);
            assert(cuts1[j + 1] == cuts[j + 1]);
            assert(0 <= cuts[j] < cuts[j + 1] <= order0.len());
            assert(ws[j] =~= Seq::new(
                (cuts1[j + 1] - cuts1[j]) as nat,
                |i: int| f[order[cuts1[j] + i]],
            ));
        } else {
            assert(ws1[j] =~= Seq::new(
                (cuts1[j + 1] - cuts1[j]) as nat,
                |i: int| f[order[cuts1[j] + i]],
            ));
        }
    }
    assert forall|j: int, i: int| 0 <= j < n && 0 <= i < order[cuts1[j]] implies #[trigger] placed(
        order,
        cuts1[j],
        i,
    ) by {
        assert(cuts1[j] == cuts[j]);
        if j < n - 1 {
            assert(0 <= cuts[j] < cuts[j + 1] <= order0.len());
            assert(order[cuts[j]] == order0[cuts[j]]);
            assert(placed(order0, cuts[j], i));
            let p = choose|p: int| 0 <= p < cuts[j] && p < order0.len() && #[trigger] order0[p] == i;
            assert(order[p] == i);
        } else {
            assert(placed(order0, start, i));
            let p = choose|p: int| 0 <= p < start && p < order0.len() && #[trigger] order0[p] == i;
            assert(order[p] == i);
        }
    }
    assert forall|j: int, p: int| 0 <= j < n && cuts1[j + 1] <= p < order.len() implies f[
    #[trigger] order[p]].front().id != f[order[#[trigger] cuts1[j + 1] - 1]].back().id by {
        if j < n - 1 {
            assert(cuts1[j + 1] == cuts[j + 1]);
            assert(0 <= cuts[j] < cuts[j + 1] <= order0.len());
            assert(order[cuts[j + 1] - 1] == order0[cuts[j + 1] - 1]);
            assert(ends[j] == f[order0[cuts[j + 1] - 1]].back().id);
            if p < start {
                assert(order[p] == order0[p]);
                assert(f[order0[p]].front().id != f[order0[cuts[j + 1] - 1]].back().id);
            } else {
                assert(f[order[p]].front().id != ends[j]);
            }
        }
    }
}

/// Puts edges together into wires: each wire begins with the first edge
/// that no earlier wire has, and goes on with the first edge not yet taken
/// that starts where it ends, as long as there is one.
pub fn chain_up<P, C>(free: &Vec<Edge<P, C>>) -> (wires: Vec<Wire<P, C>>)
    ensures
        is_split(edge_views(free@), views(wires@)),
{
    chain_with_places(free).0
}

/// The wires are the edges at the places `places`, wire by wire.
pub open spec fn picked_from<P, C>(
    free: Seq<EdgeModel<P, C>>,
    wires: Seq<Seq<EdgeModel<P, C>>>,
    places: Seq<Vec<usize>>,
) -> bool {
    &&& places.len() == wires.len()
    &&& forall|j: int|
        0 <= j < wires.len() ==> (#[trigger] places[j])@.len() == wires[j].len()
    &&& forall|j: int, i: int|
        0 <= j < wires.len() && 0 <= i < wires[j].len() ==> (#[trigger] places[j]@[i]) < free.len()
            && wires[j][i] == free[places[j]@[i] as int]
}

/// Puts edges together into wires, as `chain_up` does, and tells of every
/// edge of every wire at which place among the edges it was.
#[verifier::rlimit(80)]
pub fn chain_with_places<P, C>(free: &Vec<Edge<P, C>>) -> (out: (Vec<Wire<P, C>>, Vec<Vec<usize>>))
    ensures
        is_split(edge_views(free@), views(out.0@)),
        picked_from(edge_views(free@), views(out.0@), out.1@),
        forall|j: int| 0 <= j < out.0@.len() ==> is_chain(#[trigger] views(out.0@)[j]),
{
    let ghost f = edge_views(free@);
    let m = free.len();
    let mut used: Vec<bool> = Vec::new();
    let mut i: usize = 0;
    while i < m
        invariant
            i <= m,
            used@.len() == i,
            forall|k: int| 0 <= k < i ==> !used@[k],
        decreases m - i,
    {
        used.push(false);
        i += 1;
    }
    let ghost mut order: Seq<int> = Seq::empty();
    let ghost mut cuts: Seq<int> = seq![0int];
    let ghost mut ends: Seq<u64> = Seq::empty();
    let mut wires: Vec<Wire<P, C>> = Vec::new();
    let mut places: Vec<Vec<usize>> = Vec::new();
    let mut s: usize = 0;
    assert(views(wires@) =~= Seq::<Seq<EdgeModel<P, C>>>::empty());
    proof {
        lemma_unset_bound(used@, m as nat);
    }
    while s < m
        invariant
            m == free@.len(),
            f == edge_views(free@),
            s <= m,
            forall|k: int| 0 <= k < s ==> used@[k],
            tracks(used@, order, m as int),
            unset(used@, m as nat) + order.len() == m,
            split_part(f, views(wires@), order, cuts),
            picked_from(f, views(wires@), places@),
            forall|j: int| 0 <= j < wires@.len() ==> is_chain(#[trigger] views(wires@)[j]),
            ends.len() == wires@.len(),
            forall|j: int|
                0 <= j < wires@.len() ==> #[trigger] ends[j] == f[order[cuts[j + 1] - 1]].back().id,
            forall|j: int, k: int|
                0 <= j < wires@.len() && 0 <= k < m && !used@[k] ==> (#[trigger] f[k]).front().id
                    != #[trigger] ends[j],
        decreases m - s,
    {
        if !used[s] {
            let ghost start = order.len() as int;
            let ghost order0 = order;
            let ghost ws0 = views(wires@);
            let ghost count = wires@.len();
            let mut edges: Vec<Edge<P, C>> = Vec::new();
            let mut picks: Vec<usize> = Vec::new();
            edges.push(free[s].clone());
            picks.push(s);
            proof {
                lemma_unset_update(used@, s as int, m as nat);
                lemma_take(used@, order, m as int, s as int);
                assert forall|i: int| 0 <= i < s implies #[trigger] placed(
                    order0,
                    order0.len() as int,
                    i,
                ) by {
                    assert(used@[i]);
                }
                order = order.push(s as int);
                assert(order.subrange(0, start) =~= order0);
                assert(f[s as int] == free@[s as int]@);
                assert(edge_views(edges@) =~= Seq::new(
                    (order.len() - start) as nat,
                    |i: int| f[order[start + i]],
                ));
            }
            used.set(s, true);
            let mut cursor = free[s].back().id();
            let mut going = true;
            while going
                invariant
                    m == free@.len(),
                    f == edge_views(free@),
                    s < m,
                    start == order0.len(),
                    start < order.len(),
                    order.subrange(0, start) == order0,
                    order[start] == s,
                    forall|k: int| 0 <= k <= s ==> used@[k],
                    tracks(used@, order, m as int),
                    unset(used@, m as nat) + order.len() == m,
                    picks@.len() == edges@.len(),
                    forall|i: int|
                        0 <= i < picks@.len() ==> (#[trigger] picks@[i]) < m && edge_views(edges@)[i]
                            == f[picks@[i] as int],
                    edge_views(edges@) == Seq::new(
                        (order.len() - start) as nat,
                        |i: int| f[order[start + i]],
                    ),
                    is_chain(edge_views(edges@)),
                    cursor == f[order[order.len() - 1]].back().id,
                    !going ==> forall|k: int|
                        0 <= k < m && !used@[k] ==> (#[trigger] f[k]).front().id != cursor,
                    ends.len() == count,
                    forall|j: int, k: int|
                        0 <= j < count && 0 <= k < m && !used@[k] ==> (#[trigger] f[k]).front().id
                            != #[trigger] ends[j],
                    forall|j: int, p: int|
                        0 <= j < count && start <= p < order.len() ==> f[#[trigger] order[p]].front().id
                            != #[trigger] ends[j],
                decreases unset(used@, m as nat), (if going { 1int } else { 0int }),
            {
                let mut hit: Option<usize> = None;
                let mut j: usize = 0;
                while j < m && hit.is_none()
                    invariant
                        m == free@.len(),
                        f == edge_views(free@),
                        used@.len() == m,
                        j <= m,
                        hit is None ==> forall|k: int|
                            0 <= k < j && !used@[k] ==> (#[trigger] f[k]).front().id != cursor,
                        hit matches Some(h) ==> h < m && !used@[h as int] && f[h as int].front().id
                            == cursor,
                    decreases m - j,
                {
                    assert(f[j as int] == free@[j as int]@);
                    if !used[j] && free[j].front().id() == cursor {
                        hit = Some(j);
                    }
                    j += 1;
                }
                match hit {
                    None => {
                        going = false;
                    },
                    Some(h) => {
                        let ghost before_edges = edge_views(edges@);
                        let ghost before_order = order;
                        let ghost before_picks = picks@;
                        edges.push(free[h].clone());
                        picks.push(h);
                        proof {
                            assert forall|i: int| 0 <= i < picks@.len() implies (
                            #[trigger] picks@[i]) < m && edge_views(edges@)[i]
                                == f[picks@[i] as int] by {
                                if i < before_picks.len() {
                                    assert(picks@[i] == before_picks[i]);
                                    assert(edge_views(edges@)[i] == before_edges[i]);
                                } else {
                                    assert(edge_views(edges@)[i] == free@[h as int]@);
                                    assert(f[h as int] == free@[h as int]@);
                                }
                            }
                            lemma_unset_update(used@, h as int, m as nat);
                            lemma_take(used@, order, m as int, h as int);
                            order = order.push(h as int);
                            assert(f[h as int] == free@[h as int]@);
                            assert(edge_views(edges@) =~= before_edges.push(f[h as int]));
                            assert forall|p: int| 0 <= p < before_order.len() implies #[trigger] order[p]
                                == before_order[p] by {}
                            assert(edge_views(edges@) =~= Seq::new(
                                (order.len() - start) as nat,
                                |i: int| f[order[start + i]],
                            ));
                            assert(order.subrange(0, start) =~= order0);
                            let es = edge_views(edges@);
                            assert forall|k: int| 0 <= k < es.len() - 1 implies (
                            #[trigger] es[k]).back().id == es[k + 1].front().id by {
                                assert(es[k] == before_edges[k]);
                                if k + 1 < before_edges.len() {
                                    assert(before_edges[k].back().id == before_edges[k
                                        + 1].front().id);
                                    assert(es[k + 1] == before_edges[k + 1]);
                                } else {
                                    assert(before_edges[k] == f[before_order[start + k]]);
                                }
                            }
                        }
                        used.set(h, true);
                        cursor = free[h].back().id();
                    },
                }
            }
            let wire = Wire::from_chain(edges);
            let ghost w = wire@;
            let ghost places0 = places@;
            wires.push(wire);
            places.push(picks);
            proof {
                assert(views(wires@) =~= ws0.push(w));
                assert forall|j: int| 0 <= j < wires@.len() implies is_chain(
                    #[trigger] views(wires@)[j],
                ) by {
                    if j < count {
                        assert(views(wires@)[j] == ws0[j]);
                    }
                }
                assert forall|j: int| 0 <= j < wires@.len() implies (#[trigger] places@[j])@.len()
                    == views(wires@)[j].len() by {
                    if j < count {
                        assert(places@[j] == places0[j]);
                        assert(views(wires@)[j] == ws0[j]);
                    }
                }
                assert forall|j: int, i: int|
                    0 <= j < wires@.len() && 0 <= i < views(wires@)[j].len() implies (
                #[trigger] places@[j]@[i]) < f.len() && views(wires@)[j][i]
                    == f[places@[j]@[i] as int] by {
                    if j < count {
                        assert(places@[j] == places0[j]);
                        assert(views(wires@)[j] == ws0[j]);
                    }
                }
                assert(tracks(used@, order, m as int));
                lemma_unset_bound(used@, m as nat);
                lemma_wire_done(f, ws0, order0, cuts, order, w, ends);
                let old_cuts = cuts;
                let old_ends = ends;
                cuts = cuts.push(order.len() as int);
                ends = ends.push(cursor);
                assert forall|p: int| 0 <= p < start implies #[trigger] order[p] == order0[p] by {
                    assert(order.subrange(0, start)[p] == order[p]);
                }
                assert forall|j: int| 0 <= j < wires@.len() implies #[trigger] ends[j] == f[order[cuts[j
                    + 1] - 1]].back().id by {
                    if j < count {
                        assert(ends[j] == old_ends[j]);
                        assert(cuts[j + 1] == old_cuts[j + 1]);
                        assert(0 <= old_cuts[j] < old_cuts[j + 1] <= order0.len());
                    }
                }
                assert forall|j: int, k: int|
                    0 <= j < wires@.len() && 0 <= k < m && !used@[k] implies (
                #[trigger] f[k]).front().id != #[trigger] ends[j] by {
                    if j < count {
                        assert(ends[j] == old_ends[j]);
                    }
                }
            }
        }
        s += 1;
    }
    proof {
        assert forall|i: int| 0 <= i < f.len() implies #[trigger] placed(
            order,
            order.len() as int,
            i,
        ) by {
            assert(used@[i]);
        }
        assert(split_ok(f, views(wires@), order, cuts));
    }
    (wires, places)
}

impl<P, C, S> Shell<P, C, S> {
    /// The free boundary of the shell: the edges that the boundaries of
    /// its faces pass only once, put together into wires. Each wire begins
    /// with the first free edge that no earlier wire has, and no edge of a
    /// later wire starts where an earlier wire ends.
    pub fn extract_boundaries(&self) -> (wires: Vec<Wire<P, C>>)
        ensures
            is_split(free_edges(faces_edges(self@), faces_edges(self@).len()), views(wires@)),
    {
        let es = self.edge_iter();
        let ghost e = edge_views(es@);
        let mut free: Vec<Edge<P, C>> = Vec::new();
        let mut k: usize = 0;
        while k < es.len()
            invariant
                k <= es@.len(),
                e == edge_views(es@),
                edge_views(free@) == free_edges(e, k as nat),
            decreases es@.len() - k,
        {
            assert(e[k as int] == es@[k as int]@);
            let ghost before = edge_views(free@);
            if count_passes(&es, es[k].id()) == 1 {
                free.push(es[k].clone());
                assert(edge_views(free@) =~= before.push(e[k as int]));
            }
            k += 1;
        }
        chain_up(&free)
    }
}

} // verus!
