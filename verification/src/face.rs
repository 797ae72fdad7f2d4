//! Faces: a surface bounded by closed wires.
use std::sync::Arc;
use vstd::prelude::*;
use crate::edge::EdgeModel;
use crate::errors::Error;
use crate::ident::IdSource;
use crate::vertex::share;
use crate::wire::{
    inverse_of, is_chain, is_closed, is_simple, lemma_inverse_chain, lemma_inverse_closed_simple,
    Wire,
};

verus! {

/// The identity of a face.
pub type FaceID = u64;

/// What a face handle is: the identity of the face, its boundary wires as
/// they were given, the surface, and whether the handle looks along the
/// surface's normal or against it.
pub struct FaceModel<P, C, S> {
    pub id: FaceID,
    pub boundaries: Seq<Seq<EdgeModel<P, C>>>,
    pub forward: bool,
    pub surface: S,
}

/// A closed simple chain.
pub open spec fn is_loop<P, C>(w: Seq<EdgeModel<P, C>>) -> bool {
    is_chain(w) && is_closed(w) && is_simple(w)
}

/// A closed chain.
pub open spec fn is_ring<P, C>(w: Seq<EdgeModel<P, C>>) -> bool {
    is_chain(w) && is_closed(w)
}

/// Every wire is a closed chain.
pub open spec fn all_rings<P, C>(b: Seq<Seq<EdgeModel<P, C>>>) -> bool {
    forall|w: int| 0 <= w < b.len() ==> is_ring(#[trigger] b[w])
}

/// Every wire is a closed simple chain.
pub open spec fn all_loops<P, C>(b: Seq<Seq<EdgeModel<P, C>>>) -> bool {
    forall|w: int| 0 <= w < b.len() ==> is_loop(#[trigger] b[w])
}

/// The wires before `w` are closed and simple.
pub open spec fn loops_before<P, C>(b: Seq<Seq<EdgeModel<P, C>>>, w: int) -> bool {
    forall|v: int| 0 <= v < w ==> is_closed(#[trigger] b[v]) && is_simple(b[v])
}

/// What a constructor of faces answers to given wires: the complaint about
/// the first wire that is not closed or not simple, if there is one.
pub open spec fn boundary_fault<P, C>(b: Seq<Seq<EdgeModel<P, C>>>) -> Option<Error> {
    if exists|w: int| 0 <= w < b.len() && loops_before(b, w) && !is_closed(#[trigger] b[w]) {
        Some(Error::NotClosedWire)
    } else if exists|w: int|
        0 <= w < b.len() && loops_before(b, w) && is_closed(#[trigger] b[w]) && !is_simple(b[w]) {
        Some(Error::NotSimpleWire)
    } else {
        None
    }
}

/// The wires, each run backwards.
pub open spec fn inverse_wires<P, C>(b: Seq<Seq<EdgeModel<P, C>>>) -> Seq<Seq<EdgeModel<P, C>>> {
    Seq::new(b.len(), |w: int| inverse_of(b[w]))
}

impl<P, C, S> FaceModel<P, C, S> {
    /// The boundary wires as the handle sees them: as they were given if
    /// it looks along the normal, each run backwards if it looks against it.
    pub open spec fn oriented_boundaries(self) -> Seq<Seq<EdgeModel<P, C>>> {
        if self.forward {
            self.boundaries
        } else {
            inverse_wires(self.boundaries)
        }
    }

    /// The same face, looked at from the other side.
    pub open spec fn inverse(self) -> FaceModel<P, C, S> {
        FaceModel { forward: !self.forward, ..self }
    }
}

/// The views of the wires of a vector.
pub open spec fn wire_views<P, C>(ws: Seq<Wire<P, C>>) -> Seq<Seq<EdgeModel<P, C>>> {
    Seq::new(ws.len(), |w: int| ws[w]@)
}

/// A handle to a face. Clones and inverses of a handle are the same face
/// and share its surface.
pub struct Face<P, C, S> {
    id: FaceID,
    boundaries: Vec<Wire<P, C>>,
    forward: bool,
    surface: Arc<S>,
}

impl<P, C, S> View for Face<P, C, S> {
    type V = FaceModel<P, C, S>;

    closed spec fn view(&self) -> FaceModel<P, C, S> {
        FaceModel {
            id: self.id,
            boundaries: wire_views(self.boundaries@),
            forward: self.forward,
            surface: *self.surface,
        }
    }
}

/// A copy of the wires.
pub fn clone_wires<P, C>(ws: &Vec<Wire<P, C>>) -> (res: Vec<Wire<P, C>>)
    ensures
        wire_views(res@) == wire_views(ws@),
{
    let mut res: Vec<Wire<P, C>> = Vec::new();
    let mut k: usize = 0;
    while k < ws.len()
        invariant
            k <= ws@.len(),
            res@.len() == k,
            forall|i: int| 0 <= i < k ==> (#[trigger] res@[i])@ == ws@[i]@,
        decreases ws@.len() - k,
    {
        res.push(ws[k].clone());
        k += 1;
    }
    assert(wire_views(res@) =~= wire_views(ws@));
    res
}

impl<P, C, S> Clone for Face<P, C, S> {
    fn clone(&self) -> (res: Self)
        ensures
            res@ == self@,
    {
        proof {
            use_type_invariant(self);
        }
        Face {
            id: self.id,
            boundaries: clone_wires(&self.boundaries),
            forward: self.forward,
            surface: share(&self.surface),
        }
    }
}

impl<P, C, S> Face<P, C, S> {
    /// What every face satisfies: each boundary wire is a closed chain.
    /// The constructors that test their wires give faces whose boundaries
    /// are simple as well; `new_unchecked` and the sweeps may give a face
    /// of which a boundary passes a vertex twice.
    #[verifier::type_invariant]
    pub open spec fn wf(self) -> bool {
        all_rings(self@.boundaries)
    }

    /// A new face on `surface` bounded by `boundaries`, looking along the
    /// normal, unless some wire is not closed or not simple: then the
    /// complaint about the first such wire.
    pub fn try_new(ids: &mut IdSource, boundaries: Vec<Wire<P, C>>, surface: S) -> (res: Result<
        Face<P, C, S>,
        Error,
    >)
        requires
            old(ids).remaining() >= 1,
        ensures
            match boundary_fault(wire_views(boundaries@)) {
                Some(e) => res == Err::<Face<P, C, S>, Error>(e) && final(ids).issued() == old(
                    ids,
                ).issued(),
                None => res is Ok && res->Ok_0@ == (FaceModel {
                    id: old(ids).issued() as u64,
                    boundaries: wire_views(boundaries@),
                    forward: true,
                    surface,
                }) && final(ids).issued() == old(ids).issued() + 1,
            },
            res is Ok ==> all_loops(wire_views(boundaries@)),
    {
        let ghost b = wire_views(boundaries@);
        let mut w: usize = 0;
        while w < boundaries.len()
            invariant
                w <= boundaries@.len(),
                b == wire_views(boundaries@),
                forall|v: int| 0 <= v < w ==> is_loop(#[trigger] b[v]),
            decreases boundaries@.len() - w,
        {
            let wire = &boundaries[w];
            proof {
                use_type_invariant(wire);
                assert(b[w as int] == wire@);
            }
            if !wire.is_closed() {
                assert(loops_before(b, w as int) && !is_closed(b[w as int]));
                return Err(Error::NotClosedWire);
            }
            if !wire.is_simple() {
                proof {
                    assert(loops_before(b, w as int) && is_closed(b[w as int]) && !is_simple(
                        b[w as int],
                    ));
                    assert forall|v: int|
                        0 <= v < b.len() && loops_before(b, v) implies is_closed(#[trigger] b[v]) by {
                        if v > w {
                            assert(is_simple(b[w as int]));
                        }
                    }
                }
                return Err(Error::NotSimpleWire);
            }
            w += 1;
        }
        Ok(Face { id: ids.fresh(), boundaries, forward: true, surface: Arc::new(surface) })
    }

    /// A new face on `surface` bounded by `boundaries`, looking along the
    /// normal.
    pub fn new(ids: &mut IdSource, boundaries: Vec<Wire<P, C>>, surface: S) -> (f: Face<P, C, S>)
        requires
            old(ids).remaining() >= 1,
            all_loops(wire_views(boundaries@)),
        ensures
            f@ == (FaceModel {
                id: old(ids).issued() as u64,
                boundaries: wire_views(boundaries@),
                forward: true,
                surface,
            }),
            final(ids).issued() == old(ids).issued() + 1,
    {
        Face { id: ids.fresh(), boundaries, forward: true, surface: Arc::new(surface) }
    }

    /// As `new`, without the test whether the wires are simple: a wire of
    /// the face may pass a vertex twice. That every wire is closed is for
    /// the caller to prove.
    pub fn new_unchecked(ids: &mut IdSource, boundaries: Vec<Wire<P, C>>, surface: S) -> (f: Face<
        P,
        C,
        S,
    >)
        requires
            old(ids).remaining() >= 1,
            all_rings(wire_views(boundaries@)),
        ensures
            f@ == (FaceModel {
                id: old(ids).issued() as u64,
                boundaries: wire_views(boundaries@),
                forward: true,
                surface,
            }),
            final(ids).issued() == old(ids).issued() + 1,
    {
        Face { id: ids.fresh(), boundaries, forward: true, surface: Arc::new(surface) }
    }

    /// Whether every boundary wire is simple: none passes a vertex twice.
    pub fn is_simple(&self) -> (b: bool)
        ensures
            b == all_loops(self@.boundaries),
    {
        proof {
            use_type_invariant(self);
        }
        let mut w: usize = 0;
        while w < self.boundaries.len()
            invariant
                w <= self.boundaries@.len(),
                all_rings(self@.boundaries),
                forall|v: int| 0 <= v < w ==> is_loop(#[trigger] self@.boundaries[v]),
            decreases self.boundaries@.len() - w,
        {
            assert(self@.boundaries[w as int] == self.boundaries@[w as int]@);
            if !self.boundaries[w].is_simple() {
                assert(!is_loop(self@.boundaries[w as int]));
                return false;
            }
            assert(is_ring(self@.boundaries[w as int]));
            w += 1;
        }
        true
    }

    /// As `new`.
    pub fn debug_new(ids: &mut IdSource, boundaries: Vec<Wire<P, C>>, surface: S) -> (f: Face<
        P,
        C,
        S,
    >)
        requires
            old(ids).remaining() >= 1,
            all_loops(wire_views(boundaries@)),
        ensures
            f@ == (FaceModel {
                id: old(ids).issued() as u64,
                boundaries: wire_views(boundaries@),
                forward: true,
                surface,
            }),
            final(ids).issued() == old(ids).issued() + 1,
    {
        Face::new(ids, boundaries, surface)
    }

    /// The identity of the face.
    pub fn id(&self) -> (id: FaceID)
        ensures
            id == self@.id,
    {
        self.id
    }

    /// Whether the handle looks along the surface's normal.
    pub fn orientation(&self) -> (b: bool)
        ensures
            b == self@.forward,
    {
        self.forward
    }

    /// The surface of the face.
    pub fn surface(&self) -> (s: &S)
        ensures
            *s == self@.surface,
    {
        &*self.surface
    }

    /// Whether the two handles are the same face, from whichever side.
    pub fn is_same(&self, other: &Face<P, C, S>) -> (b: bool)
        ensures
            b == (self@.id == other@.id),
    {
        self.id == other.id
    }

    /// The boundary wires as they were given, whichever way the handle
    /// looks. Each is a closed chain.
    pub fn absolute_boundaries(&self) -> (ws: &Vec<Wire<P, C>>)
        ensures
            wire_views(ws@) == self@.boundaries,
            all_rings(self@.boundaries),
    {
        proof {
            use_type_invariant(self);
        }
        &self.boundaries
    }

    /// The boundary wires as the handle sees them. Each is a closed chain,
    /// and simple if the wires of the face are.
    pub fn boundaries(&self) -> (ws: Vec<Wire<P, C>>)
        ensures
            wire_views(ws@) == self@.oriented_boundaries(),
            all_rings(self@.oriented_boundaries()),
            all_loops(self@.boundaries) ==> all_loops(self@.oriented_boundaries()),
    {
        proof {
            use_type_invariant(self);
            lemma_inverse_wires_rings(self@.boundaries);
            if all_loops(self@.boundaries) {
                lemma_inverse_wires_loops(self@.boundaries);
            }
        }
        if self.forward {
            clone_wires(&self.boundaries)
        } else {
            let mut ws: Vec<Wire<P, C>> = Vec::new();
            let mut k: usize = 0;
            while k < self.boundaries.len()
                invariant
                    k <= self.boundaries@.len(),
                    ws@.len() == k,
                    forall|i: int|
                        0 <= i < k ==> (#[trigger] ws@[i])@ == inverse_of(self.boundaries@[i]@),
                decreases self.boundaries@.len() - k,
            {
                ws.push(self.boundaries[k].inverse());
                k += 1;
            }
            assert(wire_views(ws@) =~= inverse_wires(self@.boundaries));
            ws
        }
    }

    /// The same face with another surface: identity, boundaries and side
    /// are kept.
    pub fn with_surface<T>(&self, surface: T) -> (f: Face<P, C, T>)
        ensures
            f@ == (FaceModel {
                id: self@.id,
                boundaries: self@.boundaries,
                forward: self@.forward,
                surface,
            }),
    {
        proof {
            use_type_invariant(self);
        }
        Face {
            id: self.id,
            boundaries: clone_wires(&self.boundaries),
            forward: self.forward,
            surface: Arc::new(surface),
        }
    }

    /// The same face with other boundaries, if each of them is closed and
    /// simple: identity, surface and side are kept.
    pub fn with_boundaries(&self, boundaries: Vec<Wire<P, C>>) -> (res: Option<Face<P, C, S>>)
        ensures
            res is Some <==> all_loops(wire_views(boundaries@)),
            res is Some ==> res->Some_0@ == (FaceModel {
                boundaries: wire_views(boundaries@),
                ..self@
            }),
    {
        let ghost b = wire_views(boundaries@);
        let mut w: usize = 0;
        while w < boundaries.len()
            invariant
                w <= boundaries@.len(),
                b == wire_views(boundaries@),
                forall|v: int| 0 <= v < w ==> is_loop(#[trigger] b[v]),
            decreases boundaries@.len() - w,
        {
            let wire = &boundaries[w];
            proof {
                use_type_invariant(wire);
                assert(b[w as int] == wire@);
            }
            if !wire.is_closed() || !wire.is_simple() {
                assert(!is_loop(b[w as int]));
                return None;
            }
            w += 1;
        }
        Some(Face { id: self.id, boundaries, forward: self.forward, surface: share(&self.surface) })
    }

    /// The same face, looked at from the other side.
    pub fn inverse(&self) -> (f: Face<P, C, S>)
        ensures
            f@ == self@.inverse(),
    {
        let mut f = self.clone();
        f.invert();
        f
    }

    /// Turns the handle to the other side.
    pub fn invert(&mut self)
        ensures
            final(self)@ == old(self)@.inverse(),
    {
        proof {
            use_type_invariant(&*self);
        }
        self.forward = !self.forward;
    }
}

/// Wires that are closed chains are so when run backwards.
pub proof fn lemma_inverse_wires_rings<P, C>(b: Seq<Seq<EdgeModel<P, C>>>)
    requires
        all_rings(b),
    ensures
        all_rings(inverse_wires(b)),
{
    assert forall|w: int| 0 <= w < b.len() implies is_ring(#[trigger] inverse_wires(b)[w]) by {
        assert(is_ring(b[w]));
        lemma_inverse_chain(b[w]);
        let r = inverse_of(b[w]);
        let n = b[w].len() as int;
        assert(r[n - 1].back() == b[w][0].front());
        assert(r[0].front() == b[w][n - 1].back());
    }
}

/// Wires that are closed simple chains are so when run backwards.
pub proof fn lemma_inverse_wires_loops<P, C>(b: Seq<Seq<EdgeModel<P, C>>>)
    requires
        all_loops(b),
    ensures
        all_loops(inverse_wires(b)),
{
    assert forall|w: int| 0 <= w < b.len() implies is_loop(#[trigger] inverse_wires(b)[w]) by {
        assert(is_loop(b[w]));
        lemma_inverse_chain(b[w]);
        lemma_inverse_closed_simple(b[w]);
    }
}

} // verus!
