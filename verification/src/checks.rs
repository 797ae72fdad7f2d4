//! Tests at run time of what the copying and sweeping operations ask of
//! their input.
use vstd::prelude::*;
use crate::edge::{Edge, EdgeModel};
use crate::face::{wire_views, Face, FaceModel};
use crate::mapping::{coherent, face_cost, faces_cost, shell_scope, wire_scope, wires_cost, wires_scope};
use crate::shell::{edge_views, face_views, Shell};
use crate::wire::Wire;

verus! {

/// Whether handles of one edge have the same ends.
pub fn edges_coherent<P, C>(es: &Vec<Edge<P, C>>) -> (b: bool)
    ensures
        b == coherent(wire_scope(edge_views(es@))),
{
    let ghost w = edge_views(es@);
    let ghost scope = wire_scope(w);
    let n = es.len();
    let mut i: usize = 0;
    while i < n
        invariant
            n == es@.len(),
            i <= n,
            w == edge_views(es@),
            scope == wire_scope(w),
            forall|a: int, b: int|
                0 <= a < i && 0 <= b < n && (#[trigger] w[a]).id == (#[trigger] w[b]).id
                    ==> w[a].start.id == w[b].start.id && w[a].end.id == w[b].end.id,
        decreases n - i,
    {
        let mut j: usize = 0;
        while j < n
            invariant
                n == es@.len(),
                i < n,
                j <= n,
                w == edge_views(es@),
                scope == wire_scope(w),
                forall|b: int|
                    0 <= b < j && w[i as int].id == (#[trigger] w[b]).id ==> w[i as int].start.id
                        == w[b].start.id && w[i as int].end.id == w[b].end.id,
            decreases n - j,
        {
            assert(w[i as int] == es@[i as int]@);
            assert(w[j as int] == es@[j as int]@);
            if es[i].id() == es[j].id() && (es[i].absolute_front().id()
                != es[j].absolute_front().id() || es[i].absolute_back().id()
                != es[j].absolute_back().id()) {
                assert(scope(w[i as int]) && scope(w[j as int]));
                return false;
            }
            j += 1;
        }
        i += 1;
    }
    proof {
        assert forall|x: EdgeModel<P, C>, y: EdgeModel<P, C>|
            #![trigger scope(x), scope(y)]
            scope(x) && scope(y) && x.id == y.id implies x.start.id == y.start.id && x.end.id
            == y.end.id by {
            let a = choose|a: int| 0 <= a < w.len() && #[trigger] w[a] == x;
            let b = choose|b: int| 0 <= b < w.len() && #[trigger] w[b] == y;
            assert(w[a].id == w[b].id);
        }
    }
    true
}

impl<P, C> Wire<P, C> {
    /// Whether handles of one edge have the same ends.
    pub fn is_coherent(&self) -> (b: bool)
        ensures
            b == coherent(wire_scope(self@)),
    {
        let es = self.edges();
        assert(edge_views(es@) =~= self@);
        edges_coherent(es)
    }
}

/// The edges of the wires as they were given, wire by wire.
fn stored_edges<P, C>(ws: &Vec<Wire<P, C>>, out: &mut Vec<Edge<P, C>>)
    ensures
        forall|x: EdgeModel<P, C>|
            #[trigger] wire_scope(edge_views(final(out)@))(x) <==> (wire_scope(edge_views(old(out)@))(
                x,
            ) || wires_scope(wire_views(ws@))(x)),
{
    let ghost b = wire_views(ws@);
    let ghost before = edge_views(out@);
    let mut w: usize = 0;
    while w < ws.len()
        invariant
            w <= ws@.len(),
            b == wire_views(ws@),
            forall|i: int|
                0 <= i < edge_views(out@).len() ==> wire_scope(before)(
                    #[trigger] edge_views(out@)[i],
                ) || wires_scope(b)(edge_views(out@)[i]),
            forall|i: int| 0 <= i < before.len() ==> wire_scope(edge_views(out@))(#[trigger] before[i]),
            forall|v: int, k: int|
                0 <= v < w && 0 <= k < b[v].len() ==> wire_scope(edge_views(out@))(
                    #[trigger] b[v][k],
                ),
        decreases ws@.len() - w,
    {
        let es = ws[w].edges();
        assert(b[w as int] == ws@[w as int]@);
        let ghost wire = b[w as int];
        let mut k: usize = 0;
        while k < es.len()
            invariant
                k <= es@.len(),
                w < ws@.len(),
                b == wire_views(ws@),
                wire == b[w as int],
                es@.len() == wire.len(),
                forall|i: int| 0 <= i < es@.len() ==> (#[trigger] es@[i])@ == wire[i],
                forall|i: int|
                    0 <= i < edge_views(out@).len() ==> wire_scope(before)(
                        #[trigger] edge_views(out@)[i],
                    ) || wires_scope(b)(edge_views(out@)[i]),
                forall|i: int|
                    0 <= i < before.len() ==> wire_scope(edge_views(out@))(#[trigger] before[i]),
                forall|v: int, k: int|
                    0 <= v < w && 0 <= k < b[v].len() ==> wire_scope(edge_views(out@))(
                        #[trigger] b[v][k],
                    ),
                forall|i: int| 0 <= i < k ==> wire_scope(edge_views(out@))(#[trigger] wire[i]),
            decreases es@.len() - k,
        {
            let ghost prior = edge_views(out@);
            out.push(es[k].clone());
            proof {
                let now = edge_views(out@);
                assert(now =~= prior.push(wire[k as int]));
                assert forall|x: EdgeModel<P, C>| #[trigger] wire_scope(prior)(x) implies wire_scope(now)(x) by {
                    let i = choose|i: int| 0 <= i < prior.len() && #[trigger] prior[i] == x;
                    assert(now[i] == x);
                }
                assert(now[prior.len() as int] == wire[k as int]);
                assert forall|i: int| 0 <= i < now.len() implies wire_scope(before)(#[trigger] now[i])
                    || wires_scope(b)(now[i]) by {
                    if i < prior.len() {
                        assert(now[i] == prior[i]);
                    } else {
                        assert(b[w as int][k as int] == now[i]);
                    }
                }
            }
            k += 1;
        }
        w += 1;
    }
    proof {
        let now = edge_views(out@);
        assert forall|x: EdgeModel<P, C>| #[trigger] wire_scope(now)(x) <==> (wire_scope(before)(x)
            || wires_scope(b)(x)) by {
            if wire_scope(now)(x) {
                let i = choose|i: int| 0 <= i < now.len() && #[trigger] now[i] == x;
                assert(wire_scope(before)(now[i]) || wires_scope(b)(now[i]));
            }
            if wire_scope(before)(x) {
                let i = choose|i: int| 0 <= i < before.len() && #[trigger] before[i] == x;
                assert(wire_scope(now)(before[i]));
            }
            if wires_scope(b)(x) {
                let (v, k) = choose|v: int, k: int|
                    0 <= v < b.len() && 0 <= k < b[v].len() && #[trigger] b[v][k] == x;
                assert(wire_scope(now)(b[v][k]));
            }
        }
    }
}

/// Sets of handles with the same members are coherent together.
proof fn lemma_coherent_same<P, C>(
    a: spec_fn(EdgeModel<P, C>) -> bool,
    b: spec_fn(EdgeModel<P, C>) -> bool,
)
    requires
        forall|x: EdgeModel<P, C>| #[trigger] a(x) <==> b(x),
    ensures
        coherent(a) == coherent(b),
{
    if coherent(a) {
        assert forall|x: EdgeModel<P, C>, y: EdgeModel<P, C>|
            #![trigger b(x), b(y)]
            b(x) && b(y) && x.id == y.id implies x.start.id == y.start.id && x.end.id
            == y.end.id by {
            assert(a(x) && a(y));
        }
    }
    if coherent(b) {
        assert forall|x: EdgeModel<P, C>, y: EdgeModel<P, C>|
            #![trigger a(x), a(y)]
            a(x) && a(y) && x.id == y.id implies x.start.id == y.start.id && x.end.id
            == y.end.id by {
            assert(b(x) && b(y));
        }
    }
}

impl<P, C, S> Face<P, C, S> {
    /// Whether handles of one edge have the same ends.
    pub fn is_coherent(&self) -> (b: bool)
        ensures
            b == coherent(wires_scope(self@.boundaries)),
    {
        let mut es: Vec<Edge<P, C>> = Vec::new();
        stored_edges(self.absolute_boundaries(), &mut es);
        proof {
            let scope = wire_scope(edge_views(es@));
            let empty = wire_scope(edge_views(Seq::<Edge<P, C>>::empty()));
            assert forall|x: EdgeModel<P, C>| #[trigger] scope(x) <==> wires_scope(
                self@.boundaries,
            )(x) by {
                assert(!empty(x));
            }
            lemma_coherent_same(scope, wires_scope(self@.boundaries));
        }
        edges_coherent(&es)
    }

    /// How many identities a copy of the face can need, if the number can
    /// be held.
    pub fn copy_cost(&self) -> (c: Option<u64>)
        ensures
            c matches Some(n) ==> n == face_cost(self@),
            c is None ==> face_cost(self@) > u64::MAX,
    {
        let ws = self.absolute_boundaries();
        let ghost b = self@.boundaries;
        let mut total: u64 = 1;
        let mut w: usize = 0;
        while w < ws.len()
            invariant
                w <= ws@.len(),
                wire_views(ws@) == b,
                b == self@.boundaries,
                total == 1 + wires_cost(b, w as nat),
            decreases ws@.len() - w,
        {
            assert(b[w as int] == ws@[w as int]@);
            let len = ws[w].len();
            proof {
                crate::mapping::lemma_wires_cost_mono(b, (w + 1) as nat, b.len());
            }
            let len64: u64 = len as u64;
            assert(wires_cost(b, (w + 1) as nat) == wires_cost(b, w as nat) + 3 * len);
            if len64 > u64::MAX / 3 {
                return None;
            }
            let part: u64 = 3 * len64;
            if total > u64::MAX - part {
                return None;
            }
            total = total + part;
            w += 1;
        }
        Some(total)
    }
}

impl<P, C, S> Shell<P, C, S> {
    /// Whether handles of one edge have the same ends.
    pub fn is_coherent(&self) -> (b: bool)
        ensures
            b == coherent(shell_scope(self@)),
    {
        let faces = self.faces();
        let ghost s = self@;
        let mut es: Vec<Edge<P, C>> = Vec::new();
        let mut f: usize = 0;
        while f < faces.len()
            invariant
                f <= faces@.len(),
                s == self@,
                face_views(faces@) == s,
                forall|x: EdgeModel<P, C>|
                    #[trigger] wire_scope(edge_views(es@))(x) <==> shell_scope(s.subrange(0, f as int))(
                        x,
                    ),
            decreases faces@.len() - f,
        {
            let ghost before = wire_scope(edge_views(es@));
            assert(s[f as int] == faces@[f as int]@);
            stored_edges(faces[f].absolute_boundaries(), &mut es);
            proof {
                let now = wire_scope(edge_views(es@));
                let s0 = s.subrange(0, f as int);
                let s1 = s.subrange(0, f + 1);
                let here = wires_scope(s[f as int].boundaries);
                assert forall|x: EdgeModel<P, C>| #[trigger] now(x) <==> shell_scope(s1)(x) by {
                    assert(before(x) <==> shell_scope(s0)(x));
                    if shell_scope(s0)(x) {
                        let (g, w, k) = choose|g: int, w: int, k: int|
                            0 <= g < s0.len() && 0 <= w < s0[g].boundaries.len() && 0 <= k
                                < s0[g].boundaries[w].len() && #[trigger] s0[g].boundaries[w][k]
                                == x;
                        assert(s1[g].boundaries[w][k] == x);
                    }
                    if here(x) {
                        let (w, k) = choose|w: int, k: int|
                            0 <= w < s[f as int].boundaries.len() && 0 <= k
                                < s[f as int].boundaries[w].len()
                                && #[trigger] s[f as int].boundaries[w][k] == x;
                        assert(s1[f as int].boundaries[w][k] == x);
                    }
                    if shell_scope(s1)(x) {
                        let (g, w, k) = choose|g: int, w: int, k: int|
                            0 <= g < s1.len() && 0 <= w < s1[g].boundaries.len() && 0 <= k
                                < s1[g].boundaries[w].len() && #[trigger] s1[g].boundaries[w][k]
                                == x;
                        if g < f {
                            assert(s0[g].boundaries[w][k] == x);
                        } else {
                            assert(s[f as int].boundaries[w][k] == x);
                        }
                    }
                }
            }
            f += 1;
        }
        proof {
            assert(s.subrange(0, faces@.len() as int) =~= s);
            lemma_coherent_same(wire_scope(edge_views(es@)), shell_scope(s));
        }
        edges_coherent(&es)
    }

    /// How many identities a copy of the shell can need, if the number can
    /// be held.
    pub fn copy_cost(&self) -> (c: Option<u64>)
        ensures
            c matches Some(n) ==> n == faces_cost(self@, self@.len()),
            c is None ==> faces_cost(self@, self@.len()) > u64::MAX,
    {
        let faces = self.faces();
        let ghost s = self@;
        let mut total: u64 = 0;
        let mut f: usize = 0;
        while f < faces.len()
            invariant
                f <= faces@.len(),
                s == self@,
                face_views(faces@) == s,
                total == faces_cost(s, f as nat),
            decreases faces@.len() - f,
        {
            assert(s[f as int] == faces@[f as int]@);
            proof {
                crate::mapping::lemma_faces_cost_mono(s, (f + 1) as nat, s.len());
            }
            match faces[f].copy_cost() {
                None => {
                    return None;
                },
                Some(part) => {
                    if total > u64::MAX - part {
                        return None;
                    }
                    total = total + part;
                },
            }
            f += 1;
        }
        Some(total)
    }
}

} // verus!
