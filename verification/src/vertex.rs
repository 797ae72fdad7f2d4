//! Vertices: a point with an identity.
use std::sync::Arc;
use vstd::prelude::*;
use crate::ident::IdSource;

verus! {

/// The identity of a vertex.
pub type VertexID = u64;

/// What a vertex is: its identity and its point.
pub struct VertexModel<P> {
    pub id: VertexID,
    pub point: P,
}

/// A handle to a vertex. Clones of a handle are the same vertex and share
/// its point.
pub struct Vertex<P> {
    id: VertexID,
    point: Arc<P>,
}

/// `Arc::clone`: another pointer to the same allocation, hence to the same
/// value.
#[verifier::external_body]
pub(crate) fn share<T>(a: &Arc<T>) -> (res: Arc<T>)
    ensures
        res == *a,
{
    a.clone()
}

impl<P> View for Vertex<P> {
    type V = VertexModel<P>;

    closed spec fn view(&self) -> VertexModel<P> {
        VertexModel { id: self.id, point: *self.point }
    }
}

impl<P> Clone for Vertex<P> {
    fn clone(&self) -> (res: Self)
        ensures
            res == *self,
    {
        Vertex { id: self.id, point: share(&self.point) }
    }
}

impl<P> Vertex<P> {
    /// A new vertex at `point`, with an identity never handed out before.
    pub fn new(ids: &mut IdSource, point: P) -> (v: Vertex<P>)
        requires
            old(ids).remaining() >= 1,
        ensures
            v@.id as nat == old(ids).issued(),
            v@.point == point,
            final(ids).issued() == old(ids).issued() + 1,
    {
        Vertex { id: ids.fresh(), point: Arc::new(point) }
    }

    /// One new vertex for each point, in order.
    pub fn news(ids: &mut IdSource, points: Vec<P>) -> (vs: Vec<Vertex<P>>)
        requires
            old(ids).remaining() >= points.len(),
        ensures
            vs.len() == points.len(),
            forall|i: int|
                0 <= i < vs.len() ==> (#[trigger] vs[i])@.id as nat == old(ids).issued() + i
                    && vs[i]@.point == points[i],
            final(ids).issued() == old(ids).issued() + points.len(),
    {
        let mut vs: Vec<Vertex<P>> = Vec::new();
        let mut points = points;
        let ghost all = points@;
        // Taken from the back, so that each point is moved out of the vector.
        let mut rev: Vec<P> = Vec::new();
        while points.len() > 0
            invariant
                points@.len() + rev@.len() == all.len(),
                forall|i: int| 0 <= i < points@.len() ==> points@[i] == all[i],
                forall|i: int|
                    0 <= i < rev@.len() ==> #[trigger] rev@[i] == all[all.len() - 1 - i],
            decreases points.len(),
        {
            let p = points.pop().unwrap();
            rev.push(p);
        }
        while rev.len() > 0
            invariant
                rev@.len() + vs@.len() == all.len(),
                forall|i: int|
                    0 <= i < rev@.len() ==> #[trigger] rev@[i] == all[all.len() - 1 - i],
                forall|i: int|
                    0 <= i < vs@.len() ==> (#[trigger] vs@[i])@.id as nat == old(ids).issued() + i
                        && vs@[i]@.point == all[i],
                ids.issued() == old(ids).issued() + vs@.len(),
                old(ids).remaining() >= all.len(),
            decreases rev.len(),
        {
            let p = rev.pop().unwrap();
            let v = Vertex::new(ids, p);
            vs.push(v);
        }
        vs
    }

    /// The identity of the vertex.
    pub fn id(&self) -> (id: VertexID)
        ensures
            id == self@.id,
    {
        self.id
    }

    /// The point of the vertex.
    pub fn point(&self) -> (p: &P)
        ensures
            *p == self@.point,
    {
        &*self.point
    }

    /// Whether the two handles are the same vertex.
    pub fn is_same(&self, other: &Vertex<P>) -> (b: bool)
        ensures
            b == (self@.id == other@.id),
    {
        self.id == other.id
    }

    /// A new vertex whose point is `point_mapping` of this one's, if there
    /// is such a point.
    pub fn try_mapped<Q, F: Fn(&P) -> Option<Q>>(&self, ids: &mut IdSource, point_mapping: &F) -> (v:
        Option<Vertex<Q>>)
        requires
            old(ids).remaining() >= 1,
            point_mapping.requires((&self@.point,)),
        ensures
            match v {
                Some(v) => v@.id as nat == old(ids).issued() && point_mapping.ensures(
                    (&self@.point,),
                    Some(v@.point),
                ) && final(ids).issued() == old(ids).issued() + 1,
                None => point_mapping.ensures((&self@.point,), None::<Q>) && final(ids).issued()
                    == old(ids).issued(),
            },
    {
        match point_mapping(&*self.point) {
            Some(q) => Some(Vertex::new(ids, q)),
            None => None,
        }
    }

    /// A new vertex whose point is `point_mapping` of this one's.
    pub fn mapped<Q, F: Fn(&P) -> Q>(&self, ids: &mut IdSource, point_mapping: &F) -> (v: Vertex<Q>)
        requires
            old(ids).remaining() >= 1,
            point_mapping.requires((&self@.point,)),
        ensures
            v@.id as nat == old(ids).issued(),
            point_mapping.ensures((&self@.point,), v@.point),
            final(ids).issued() == old(ids).issued() + 1,
    {
        let q = point_mapping(&*self.point);
        Vertex::new(ids, q)
    }
}

} // verus!
