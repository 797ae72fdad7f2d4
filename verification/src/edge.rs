//! Edges: a curve between two vertices, with an identity and a direction.
use std::sync::Arc;
use vstd::prelude::*;
use crate::errors::Error;
use crate::ident::IdSource;
use crate::vertex::{share, Vertex, VertexModel};

verus! {

/// The identity of an edge.
pub type EdgeID = u64;

/// What an edge handle is: the identity of the edge, the vertices at which
/// its curve starts and ends, the curve, and whether the handle runs along
/// the curve or against it.
pub struct EdgeModel<P, C> {
    pub id: EdgeID,
    pub start: VertexModel<P>,
    pub end: VertexModel<P>,
    pub forward: bool,
    pub curve: C,
}

impl<P, C> EdgeModel<P, C> {
    /// The vertex at which the handle starts.
    pub open spec fn front(self) -> VertexModel<P> {
        if self.forward {
            self.start
        } else {
            self.end
        }
    }

    /// The vertex at which the handle ends.
    pub open spec fn back(self) -> VertexModel<P> {
        if self.forward {
            self.end
        } else {
            self.start
        }
    }

    /// The same edge, run the other way.
    pub open spec fn inverse(self) -> EdgeModel<P, C> {
        EdgeModel { forward: !self.forward, ..self }
    }
}

/// A handle to an edge. Clones and inverses of a handle are the same edge
/// and share its curve.
pub struct Edge<P, C> {
    id: EdgeID,
    start: Vertex<P>,
    end: Vertex<P>,
    forward: bool,
    curve: Arc<C>,
}

impl<P, C> View for Edge<P, C> {
    type V = EdgeModel<P, C>;

    closed spec fn view(&self) -> EdgeModel<P, C> {
        EdgeModel {
            id: self.id,
            start: self.start@,
            end: self.end@,
            forward: self.forward,
            curve: *self.curve,
        }
    }
}

impl<P, C> Clone for Edge<P, C> {
    fn clone(&self) -> (res: Self)
        ensures
            res == *self,
    {
        Edge {
            id: self.id,
            start: self.start.clone(),
            end: self.end.clone(),
            forward: self.forward,
            curve: share(&self.curve),
        }
    }
}

impl<P, C> Edge<P, C> {
    /// A new forward edge from `front` to `back` along `curve`, unless the
    /// two are the same vertex and `is_closed` denies that the curve is
    /// closed.
    pub fn try_new_if_closed<F: Fn(&C) -> bool>(
        ids: &mut IdSource,
        front: &Vertex<P>,
        back: &Vertex<P>,
        curve: C,
        is_closed: &F,
    ) -> (res: Result<Edge<P, C>, Error>)
        requires
            old(ids).remaining() >= 1,
            is_closed.requires((&curve,)),
        ensures
            front@.id != back@.id ==> res is Ok,
            res is Err ==> res == Err::<Edge<P, C>, Error>(Error::SameVertex) && front@.id
                == back@.id && is_closed.ensures((&curve,), false) && final(ids).issued() == old(
                ids,
            ).issued(),
            res is Ok ==> res->Ok_0@ == (EdgeModel {
                id: old(ids).issued() as u64,
                start: front@,
                end: back@,
                forward: true,
                curve,
            }) && final(ids).issued() == old(ids).issued() + 1 && (front@.id == back@.id
                ==> is_closed.ensures((&curve,), true)),
    {
        if front.is_same(back) && !is_closed(&curve) {
            Err(Error::SameVertex)
        } else {
            Ok(Edge::new_unchecked(ids, front, back, curve))
        }
    }

    /// A new forward edge from `front` to `back` along `curve`, unless the
    /// two are the same vertex: for curves of which it cannot be asked
    /// whether they are closed.
    pub fn try_new(ids: &mut IdSource, front: &Vertex<P>, back: &Vertex<P>, curve: C) -> (res:
        Result<Edge<P, C>, Error>)
        requires
            old(ids).remaining() >= 1,
        ensures
            front@.id == back@.id ==> res == Err::<Edge<P, C>, Error>(Error::SameVertex)
                && final(ids).issued() == old(ids).issued(),
            front@.id != back@.id ==> res is Ok && res->Ok_0@ == (EdgeModel {
                id: old(ids).issued() as u64,
                start: front@,
                end: back@,
                forward: true,
                curve,
            }) && final(ids).issued() == old(ids).issued() + 1,
    {
        if front.is_same(back) {
            Err(Error::SameVertex)
        } else {
            Ok(Edge::new_unchecked(ids, front, back, curve))
        }
    }

    /// A new forward edge from `front` to `back` along `curve`.
    pub fn new(ids: &mut IdSource, front: &Vertex<P>, back: &Vertex<P>, curve: C) -> (e: Edge<P, C>)
        requires
            old(ids).remaining() >= 1,
            front@.id != back@.id,
        ensures
            e@ == (EdgeModel {
                id: old(ids).issued() as u64,
                start: front@,
                end: back@,
                forward: true,
                curve,
            }),
            final(ids).issued() == old(ids).issued() + 1,
    {
        Edge::new_unchecked(ids, front, back, curve)
    }

    /// A new forward edge from `front` to `back` along `curve`, whatever the
    /// two vertices are. Where they are the same vertex the caller vouches
    /// that the curve is closed.
    pub fn new_unchecked(ids: &mut IdSource, front: &Vertex<P>, back: &Vertex<P>, curve: C) -> (e:
        Edge<P, C>)
        requires
            old(ids).remaining() >= 1,
        ensures
            e@ == (EdgeModel {
                id: old(ids).issued() as u64,
                start: front@,
                end: back@,
                forward: true,
                curve,
            }),
            final(ids).issued() == old(ids).issued() + 1,
    {
        Edge {
            id: ids.fresh(),
            start: front.clone(),
            end: back.clone(),
            forward: true,
            curve: Arc::new(curve),
        }
    }

    /// As `new`: the condition that `new` asks for is asked for here as well.
    pub fn debug_new(ids: &mut IdSource, front: &Vertex<P>, back: &Vertex<P>, curve: C) -> (e: Edge<
        P,
        C,
    >)
        requires
            old(ids).remaining() >= 1,
            front@.id != back@.id,
        ensures
            e@ == (EdgeModel {
                id: old(ids).issued() as u64,
                start: front@,
                end: back@,
                forward: true,
                curve,
            }),
            final(ids).issued() == old(ids).issued() + 1,
    {
        Edge::new_unchecked(ids, front, back, curve)
    }

    /// The identity of the edge.
    pub fn id(&self) -> (id: EdgeID)
        ensures
            id == self@.id,
    {
        self.id
    }

    /// Whether the handle runs along the curve.
    pub fn orientation(&self) -> (b: bool)
        ensures
            b == self@.forward,
    {
        self.forward
    }

    /// The vertex at which the handle starts.
    pub fn front(&self) -> (v: &Vertex<P>)
        ensures
            v@ == self@.front(),
    {
        if self.forward {
            &self.start
        } else {
            &self.end
        }
    }

    /// The vertex at which the handle ends.
    pub fn back(&self) -> (v: &Vertex<P>)
        ensures
            v@ == self@.back(),
    {
        if self.forward {
            &self.end
        } else {
            &self.start
        }
    }

    /// The vertex at which the curve starts.
    pub fn absolute_front(&self) -> (v: &Vertex<P>)
        ensures
            v@ == self@.start,
    {
        &self.start
    }

    /// The vertex at which the curve ends.
    pub fn absolute_back(&self) -> (v: &Vertex<P>)
        ensures
            v@ == self@.end,
    {
        &self.end
    }

    /// The curve of the edge.
    pub fn curve(&self) -> (c: &C)
        ensures
            *c == self@.curve,
    {
        &*self.curve
    }

    /// Whether the two handles are the same edge, in whichever direction.
    pub fn is_same(&self, other: &Edge<P, C>) -> (b: bool)
        ensures
            b == (self@.id == other@.id),
    {
        self.id == other.id
    }

    /// The same edge, run the other way.
    pub fn inverse(&self) -> (e: Edge<P, C>)
        ensures
            e@ == self@.inverse(),
    {
        Edge {
            id: self.id,
            start: self.start.clone(),
            end: self.end.clone(),
            forward: !self.forward,
            curve: share(&self.curve),
        }
    }

    /// Turns the handle round.
    pub fn invert(&mut self)
        ensures
            final(self)@ == old(self)@.inverse(),
    {
        self.forward = !self.forward;
    }

    /// A new forward edge between `front` and `back`, whose curve is
    /// `curve_mapping` of this one's, if there is such a curve.
    pub fn try_mapped_between<Q, D, F: Fn(&C) -> Option<D>>(
        &self,
        ids: &mut IdSource,
        front: &Vertex<Q>,
        back: &Vertex<Q>,
        curve_mapping: &F,
    ) -> (e: Option<Edge<Q, D>>)
        requires
            old(ids).remaining() >= 1,
            curve_mapping.requires((&self@.curve,)),
        ensures
            match e {
                Some(e) => e@.id as nat == old(ids).issued() && e@.start == front@ && e@.end
                    == back@ && e@.forward && curve_mapping.ensures(
                    (&self@.curve,),
                    Some(e@.curve),
                ) && final(ids).issued() == old(ids).issued() + 1,
                None => curve_mapping.ensures((&self@.curve,), None::<D>) && final(ids).issued()
                    == old(ids).issued(),
            },
    {
        match curve_mapping(&*self.curve) {
            Some(curve) => Some(Edge::new_unchecked(ids, front, back, curve)),
            None => None,
        }
    }

    /// A new forward edge between `front` and `back`, whose curve is
    /// `curve_mapping` of this one's.
    pub fn mapped_between<Q, D, F: Fn(&C) -> D>(
        &self,
        ids: &mut IdSource,
        front: &Vertex<Q>,
        back: &Vertex<Q>,
        curve_mapping: &F,
    ) -> (e: Edge<Q, D>)
        requires
            old(ids).remaining() >= 1,
            curve_mapping.requires((&self@.curve,)),
        ensures
            e@.id as nat == old(ids).issued(),
            e@.start == front@,
            e@.end == back@,
            e@.forward,
            curve_mapping.ensures((&self@.curve,), e@.curve),
            final(ids).issued() == old(ids).issued() + 1,
    {
        let curve = curve_mapping(&*self.curve);
        Edge::new_unchecked(ids, front, back, curve)
    }

    /// A new edge with new end vertices: points and curve are the images of
    /// this one's, and the direction is kept. An edge from a vertex to
    /// itself stays one.
    pub fn mapped<Q, D, FP: Fn(&P) -> Q, FC: Fn(&C) -> D>(
        &self,
        ids: &mut IdSource,
        point_mapping: &FP,
        curve_mapping: &FC,
    ) -> (e: Edge<Q, D>)
        requires
            old(ids).remaining() >= 3,
            point_mapping.requires((&self@.start.point,)),
            point_mapping.requires((&self@.end.point,)),
            curve_mapping.requires((&self@.curve,)),
        ensures
            e@.forward == self@.forward,
            point_mapping.ensures((&self@.start.point,), e@.start.point),
            self@.start.id != self@.end.id ==> point_mapping.ensures(
                (&self@.end.point,),
                e@.end.point,
            ),
            curve_mapping.ensures((&self@.curve,), e@.curve),
            (self@.start.id == self@.end.id) == (e@.start.id == e@.end.id),
            self@.start.id == self@.end.id ==> e@.start == e@.end,
            e@.start.id as nat == old(ids).issued(),
            self@.start.id != self@.end.id ==> e@.end.id as nat == old(ids).issued() + 1 && e@.id as nat
                == old(ids).issued() + 2 && final(ids).issued() == old(ids).issued() + 3,
            self@.start.id == self@.end.id ==> e@.id as nat == old(ids).issued() + 1
                && final(ids).issued() == old(ids).issued() + 2,
    {
        let v0 = self.start.mapped(ids, point_mapping);
        if self.start.is_same(&self.end) {
            let mut e = self.mapped_between(ids, &v0, &v0, curve_mapping);
            e.forward = self.forward;
            e
        } else {
            let v1 = self.end.mapped(ids, point_mapping);
            let mut e = self.mapped_between(ids, &v0, &v1, curve_mapping);
            e.forward = self.forward;
            e
        }
    }
}

} // verus!
