//! The sweep of a face: the solid between the face and a copy of it.
use vstd::prelude::*;
use crate::edge::EdgeModel;
use crate::errors::Error;
use crate::face::{wire_views, Face, FaceModel};
use crate::ident::IdSource;
use crate::mapping::{
    coherent, face_fits, is_face_copy, lemma_wires_cost_mono, tables_ok, wire_fits, wires_cost,
    wires_scope, Tables,
};
use crate::shell::{concat, face_views, Shell};
use crate::solid::{shell_views, Solid};
use crate::sweep::{
    connect_wires, is_band, lemma_concat_push, lemma_facts_matched, lemma_fits_facts,
    lemma_fits_inverse, solid_of,
};
use crate::wire::{inverse_of, Wire};

verus! {

/// `shell` is what becomes of the face `x` when it is swept: the face
/// from its other side, then band by band the faces between its boundary
/// wires and those of the copy `top`, each wire as the face sees it, and at
/// last the copy. The identities of the copy lie below the first mark, and
/// those of each band between two marks.
pub open spec fn face_sweep_ok<P, C, S>(
    x: FaceModel<P, C, S>,
    top: FaceModel<P, C, S>,
    bands: Seq<Seq<FaceModel<P, C, S>>>,
    marks: Seq<nat>,
    shell: Seq<FaceModel<P, C, S>>,
    vrel: spec_fn(P, P) -> bool,
    crel: spec_fn(C, C) -> bool,
    frel: spec_fn(S, S) -> bool,
    prel: spec_fn(P, P, C) -> bool,
    srel: spec_fn(C, C, S) -> bool,
    base: nat,
) -> bool {
    &&& bands.len() == x.boundaries.len()
    &&& marks.len() == x.boundaries.len() + 1
    &&& is_face_copy(x, top, vrel, crel, frel, base, marks[0])
    &&& forall|w: int|
        0 <= w < x.boundaries.len() ==> is_band(
            x.oriented_boundaries()[w],
            top.oriented_boundaries()[w],
            #[trigger] bands[w],
            prel,
            srel,
            marks[w],
            marks[w + 1],
        )
    &&& shell == seq![x.inverse()] + concat(bands, bands.len()) + seq![top]
}

/// `res` is what `Solid::try_new` answers to the one shell that becomes of
/// the face `x` when it is swept, with identities from `base` on.
pub open spec fn is_face_sweep<P, C, S>(
    x: FaceModel<P, C, S>,
    res: Result<Solid<P, C, S>, Error>,
    vrel: spec_fn(P, P) -> bool,
    crel: spec_fn(C, C) -> bool,
    frel: spec_fn(S, S) -> bool,
    prel: spec_fn(P, P, C) -> bool,
    srel: spec_fn(C, C, S) -> bool,
    base: nat,
) -> bool {
    exists|
        top: FaceModel<P, C, S>,
        bands: Seq<Seq<FaceModel<P, C, S>>>,
        marks: Seq<nat>,
        shell: Seq<FaceModel<P, C, S>>,
    |
        #[trigger] face_sweep_ok(x, top, bands, marks, shell, vrel, crel, frel, prel, srel, base)
            && solid_of(res, seq![shell])
}

/// The boundary wires of a face and of a copy of it, as the faces see
/// them, fit the tables wire by wire, and what holds of the edges of the
/// wires as they were given holds of them as the face sees them.
proof fn lemma_seen_wires<P, C, S>(
    x: FaceModel<P, C, S>,
    y: FaceModel<P, C, S>,
    t: Tables<P, C>,
    frel: spec_fn(S, S) -> bool,
    base: nat,
)
    requires
        face_fits(x, y, t, frel),
    ensures
        x.oriented_boundaries().len() == x.boundaries.len(),
        y.oriented_boundaries().len() == x.boundaries.len(),
        forall|w: int|
            0 <= w < x.boundaries.len() ==> wire_fits(
                #[trigger] x.oriented_boundaries()[w],
                y.oriented_boundaries()[w],
                t,
            ) && x.oriented_boundaries()[w].len() == x.boundaries[w].len(),
{
    let b0 = x.oriented_boundaries();
    let b1 = y.oriented_boundaries();
    assert forall|w: int| 0 <= w < x.boundaries.len() implies wire_fits(#[trigger] b0[w], b1[w], t)
        && b0[w].len() == x.boundaries[w].len() by {
        assert(wire_fits(x.boundaries[w], y.boundaries[w], t));
        if !x.forward {
            lemma_fits_inverse(x.boundaries[w], y.boundaries[w], t);
        }
    }
}

/// The wires `b1` are what the tables make of the wires `b0`; the tables
/// give every old vertex its own new one, with an identity from `base` up
/// to `mid`.
#[verifier::opaque]
pub open spec fn bands_ready<P, C>(
    b0: Seq<Seq<EdgeModel<P, C>>>,
    b1: Seq<Seq<EdgeModel<P, C>>>,
    t: Tables<P, C>,
    base: nat,
    mid: nat,
) -> bool {
    &&& b0.len() == b1.len()
    &&& crate::mapping::one_to_one(t)
    &&& forall|id: u64| #[trigger] t.vertex.contains_key(id) ==> base <= t.vertex[id].id < mid
    &&& forall|w: int|
        0 <= w < b0.len() ==> wire_fits(#[trigger] b0[w], b1[w], t)
}

/// The bands between the wires `lower` and the wires `upper`, wire by
/// wire, one after the other.
pub(crate) fn bands_between<P, C, S, CP: Fn(&P, &P) -> C, CE: Fn(&C, &C) -> S>(
    ids: &mut IdSource,
    lower: &Vec<Wire<P, C>>,
    upper: &Vec<Wire<P, C>>,
    connect_points: &CP,
    connect_curves: &CE,
    Ghost(t): Ghost<Tables<P, C>>,
    Ghost(base): Ghost<nat>,
    Ghost(mid): Ghost<nat>,
) -> (out: (Shell<P, C, S>, Ghost<Seq<Seq<FaceModel<P, C, S>>>>, Ghost<Seq<nat>>))
    requires
        bands_ready(wire_views(lower@), wire_views(upper@), t, base, mid),
        forall|a: P, b: P| connect_points.requires((&a, &b)),
        forall|c: C, d: C| connect_curves.requires((&c, &d)),
        old(ids).remaining() >= wires_cost(wire_views(lower@), lower@.len()),
    ensures
        old(ids).issued() <= final(ids).issued() <= old(ids).issued() + wires_cost(
            wire_views(lower@),
            lower@.len(),
        ),
        out.1@.len() == lower@.len(),
        out.2@.len() == lower@.len() + 1,
        out.2@[0] == old(ids).issued(),
        forall|w: int|
            0 <= w < lower@.len() ==> is_band(
                wire_views(lower@)[w],
                wire_views(upper@)[w],
                #[trigger] out.1@[w],
                |a: P, b: P, c: C| connect_points.ensures((&a, &b), c),
                |c: C, d: C, s: S| connect_curves.ensures((&c, &d), s),
                out.2@[w],
                out.2@[w + 1],
            ),
        out.0@ == concat(out.1@, lower@.len()),
{
    let ghost prel = |a: P, b: P, c: C| connect_points.ensures((&a, &b), c);
    let ghost srel = |c: C, d: C, s: S| connect_curves.ensures((&c, &d), s);
    let ghost b0 = wire_views(lower@);
    let ghost b1 = wire_views(upper@);
    let ghost start = ids.issued();
    proof {
        reveal(bands_ready);
    }
    let n = lower.len();
    let mut shell: Shell<P, C, S> = Shell::new();
    let ghost mut bands: Seq<Seq<FaceModel<P, C, S>>> = Seq::empty();
    let ghost mut marks: Seq<nat> = seq![start];
    let mut w: usize = 0;
    assert(shell@ =~= concat(bands, 0));
    while w < n
        invariant
            n == lower@.len(),
            n == upper@.len(),
            w <= n,
            b0 == wire_views(lower@),
            b1 == wire_views(upper@),
            start == old(ids).issued(),
            old(ids).remaining() >= wires_cost(b0, n as nat),
            start <= ids.issued() <= start + wires_cost(b0, w as nat),
            crate::mapping::one_to_one(t),
            forall|id: u64| #[trigger] t.vertex.contains_key(id) ==> base <= t.vertex[id].id < mid,
            forall|w: int|
                0 <= w < n ==> wire_fits(#[trigger] b0[w], b1[w], t),
            forall|a: P, b: P| connect_points.requires((&a, &b)),
            forall|c: C, d: C| connect_curves.requires((&c, &d)),
            prel == (|a: P, b: P, c: C| connect_points.ensures((&a, &b), c)),
            srel == (|c: C, d: C, s: S| connect_curves.ensures((&c, &d), s)),
            bands.len() == w,
            marks.len() == w + 1,
            marks[0] == start,
            marks[w as int] == ids.issued(),
            forall|k: int|
                0 <= k < w ==> is_band(
                    b0[k],
                    b1[k],
                    #[trigger] bands[k],
                    prel,
                    srel,
                    marks[k],
                    marks[k + 1],
                ),
            shell@ == concat(bands, w as nat),
        decreases n - w,
    {
        proof {
            lemma_wires_cost_mono(b0, (w + 1) as nat, n as nat);
            assert(b0[w as int] == lower@[w as int]@);
            assert(b1[w as int] == upper@[w as int]@);
            assert(wire_fits(b0[w as int], b1[w as int], t));
            lemma_fits_facts(b0[w as int], b1[w as int], t, base, mid);
            lemma_facts_matched(b0[w as int], b1[w as int], base, mid);
        }
        let faces = connect_wires(ids, &lower[w], &upper[w], connect_points, connect_curves);
        let band = Shell::from_faces(faces);
        proof {
            let old_bands = bands;
            let old_marks = marks;
            bands = bands.push(band@);
            marks = marks.push(ids.issued());
            assert forall|k: int| 0 <= k < w + 1 implies is_band(
                b0[k],
                b1[k],
                #[trigger] bands[k],
                prel,
                srel,
                marks[k],
                marks[k + 1],
            ) by {
                if k < w {
                    assert(bands[k] == old_bands[k]);
                    assert(marks[k] == old_marks[k]);
                    assert(marks[k + 1] == old_marks[k + 1]);
                }
            }
            lemma_concat_push(old_bands, band@);
        }
        shell.extend(band);
        w += 1;
    }
    (shell, Ghost(bands), Ghost(marks))
}

/// Tables under which a copy of a face fits the face, boundary wire by
/// boundary wire as the faces see them.
proof fn lemma_copy_ready<P, C, S>(
    x: FaceModel<P, C, S>,
    y: FaceModel<P, C, S>,
    vrel: spec_fn(P, P) -> bool,
    crel: spec_fn(C, C) -> bool,
    frel: spec_fn(S, S) -> bool,
    base: nat,
    mid: nat,
) -> (t: Tables<P, C>)
    requires
        is_face_copy(x, y, vrel, crel, frel, base, mid),
    ensures
        bands_ready(x.oriented_boundaries(), y.oriented_boundaries(), t, base, mid),
        x.oriented_boundaries().len() == x.boundaries.len(),
        wires_cost(x.oriented_boundaries(), x.boundaries.len()) == wires_cost(
            x.boundaries,
            x.boundaries.len(),
        ),
{
    let t = choose|t: Tables<P, C>| #[trigger]
        face_fits(x, y, t, frel) && tables_ok(t, wires_scope(x.boundaries), vrel, crel, base, mid);
    lemma_seen_wires(x, y, t, frel, base);
    lemma_cost_by_length(x.oriented_boundaries(), x.boundaries, x.boundaries.len());
    reveal(bands_ready);
    t
}

/// The cost of wires depends on their lengths alone.
proof fn lemma_cost_by_length<P, C>(
    a: Seq<Seq<EdgeModel<P, C>>>,
    b: Seq<Seq<EdgeModel<P, C>>>,
    n: nat,
)
    requires
        n <= a.len(),
        n <= b.len(),
        forall|w: int| 0 <= w < n ==> (#[trigger] a[w]).len() == b[w].len(),
    ensures
        wires_cost(a, n) == wires_cost(b, n),
    decreases n,
{
    if n > 0 {
        lemma_cost_by_length(a, b, (n - 1) as nat);
    }
}

impl<P, C, S> Face<P, C, S> {
    /// The solid between the face and a copy of it: the shell of the face
    /// from its other side, the bands between its boundary wires and those
    /// of the copy, and the copy, if the shell can bound a solid. Otherwise
    /// its fault.
    #[verifier::rlimit(100)]
    #[verifier::spinoff_prover]
    pub fn sweep<
        FP: Fn(&P) -> P,
        FC: Fn(&C) -> C,
        FS: Fn(&S) -> S,
        CP: Fn(&P, &P) -> C,
        CE: Fn(&C, &C) -> S,
    >(
        &self,
        ids: &mut IdSource,
        point_mapping: &FP,
        curve_mapping: &FC,
        surface_mapping: &FS,
        connect_points: &CP,
        connect_curves: &CE,
    ) -> (res: Result<Solid<P, C, S>, Error>)
        requires
            old(ids).remaining() >= 1 + 2 * wires_cost(self@.boundaries, self@.boundaries.len()),
            coherent(wires_scope(self@.boundaries)),
            forall|p: P| point_mapping.requires((&p,)),
            forall|c: C| curve_mapping.requires((&c,)),
            forall|s: S| surface_mapping.requires((&s,)),
            forall|a: P, b: P| connect_points.requires((&a, &b)),
            forall|c: C, d: C| connect_curves.requires((&c, &d)),
        ensures
            old(ids).issued() <= final(ids).issued() <= old(ids).issued() + 1 + 2 * wires_cost(
                self@.boundaries,
                self@.boundaries.len(),
            ),
            is_face_sweep(
                self@,
                res,
                |p: P, q: P| point_mapping.ensures((&p,), q),
                |c: C, d: C| curve_mapping.ensures((&c,), d),
                |s: S, u: S| surface_mapping.ensures((&s,), u),
                |a: P, b: P, c: C| connect_points.ensures((&a, &b), c),
                |c: C, d: C, s: S| connect_curves.ensures((&c, &d), s),
                old(ids).issued(),
            ),
    {
        let ghost vrel = |p: P, q: P| point_mapping.ensures((&p,), q);
        let ghost crel = |c: C, d: C| curve_mapping.ensures((&c,), d);
        let ghost frel = |s: S, u: S| surface_mapping.ensures((&s,), u);
        let ghost prel = |a: P, b: P, c: C| connect_points.ensures((&a, &b), c);
        let ghost srel = |c: C, d: C, s: S| connect_curves.ensures((&c, &d), s);
        let ghost base = ids.issued();
        let ghost x = self@;
        let top = self.mapped(ids, point_mapping, curve_mapping, surface_mapping);
        let ghost mid = ids.issued();
        let ghost y = top@;
        assert(is_face_copy(x, y, vrel, crel, frel, base, mid));
        let ghost t = lemma_copy_ready(x, y, vrel, crel, frel, base, mid);
        let lower = self.boundaries();
        let upper = top.boundaries();
        let (bands_shell, Ghost(bands), Ghost(marks)) = bands_between(
            ids,
            &lower,
            &upper,
            connect_points,
            connect_curves,
            Ghost(t),
            Ghost(base),
            Ghost(mid),
        );
        let mut shell: Shell<P, C, S> = Shell::new();
        shell.push(self.inverse());
        shell.extend(bands_shell);
        shell.push(top);
        let ghost whole = shell@;
        proof {
            assert(whole =~= seq![x.inverse()] + concat(bands, bands.len()) + seq![y]);
            assert(face_sweep_ok(x, y, bands, marks, whole, vrel, crel, frel, prel, srel, base));
        }
        let mut shells: Vec<Shell<P, C, S>> = Vec::new();
        shells.push(shell);
        assert(shell_views(shells@) =~= seq![whole]);
        let res = Solid::try_new(shells);
        proof {
            assert(solid_of(res, seq![whole]));
        }
        res
    }
}

} // verus!
