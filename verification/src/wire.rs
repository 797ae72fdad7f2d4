//! Wires: edges laid end to end.
use vstd::prelude::*;
use crate::edge::{Edge, EdgeModel};
use crate::vertex::Vertex;

verus! {

/// Each edge ends at the vertex at which the next one starts.
pub open spec fn is_chain<P, C>(s: Seq<EdgeModel<P, C>>) -> bool {
    forall|k: int| 0 <= k < s.len() - 1 ==> (#[trigger] s[k]).back().id == s[k + 1].front().id
}

/// The sequence is not empty and its last edge ends where its first starts.
pub open spec fn is_closed<P, C>(s: Seq<EdgeModel<P, C>>) -> bool {
    s.len() > 0 && s[s.len() - 1].back().id == s[0].front().id
}

/// No two edges of the sequence start at the same vertex.
pub open spec fn is_simple<P, C>(s: Seq<EdgeModel<P, C>>) -> bool {
    forall|i: int, j: int|
        0 <= i < j < s.len() ==> (#[trigger] s[i]).front().id != (#[trigger] s[j]).front().id
}

/// The same edges in the opposite order, each run the other way.
pub open spec fn inverse_of<P, C>(s: Seq<EdgeModel<P, C>>) -> Seq<EdgeModel<P, C>> {
    Seq::new(s.len(), |k: int| s[s.len() - 1 - k].inverse())
}

/// Running a chain backwards gives a chain.
pub proof fn lemma_inverse_chain<P, C>(s: Seq<EdgeModel<P, C>>)
    requires
        is_chain(s),
    ensures
        is_chain(inverse_of(s)),
        inverse_of(s).len() == s.len(),
{
    let r = inverse_of(s);
    assert forall|k: int| 0 <= k < r.len() - 1 implies (#[trigger] r[k]).back().id == r[k
        + 1].front().id by {
        let j = s.len() - 2 - k;
        assert(s[j].back().id == s[j + 1].front().id);
    }
}

/// Running a sequence backwards twice gives the sequence.
pub proof fn lemma_inverse_twice<P, C>(s: Seq<EdgeModel<P, C>>)
    ensures
        inverse_of(inverse_of(s)) == s,
{
    assert(inverse_of(inverse_of(s)) =~= s);
}

/// Running a closed simple chain backwards gives a closed simple chain.
pub proof fn lemma_inverse_closed_simple<P, C>(s: Seq<EdgeModel<P, C>>)
    requires
        is_chain(s),
        is_closed(s),
        is_simple(s),
    ensures
        is_closed(inverse_of(s)),
        is_simple(inverse_of(s)),
{
    let r = inverse_of(s);
    let n = s.len() as int;
    // The start of the k-th edge backwards is the end of edge n-1-k, which
    // is the start of the edge after it, cyclically.
    assert forall|i: int, j: int| 0 <= i < j < r.len() implies (#[trigger] r[i]).front().id != (
    #[trigger] r[j]).front().id by {
        let a = n - 1 - i;
        let b = n - 1 - j;
        assert(r[i].front() == s[a].back());
        assert(r[j].front() == s[b].back());
        // b < a
        if a == n - 1 {
            assert(s[a].back().id == s[0].front().id);
            assert(s[b].back().id == s[b + 1].front().id);
            assert(s[0].front().id != s[b + 1].front().id);
        } else {
            assert(s[a].back().id == s[a + 1].front().id);
            assert(s[b].back().id == s[b + 1].front().id);
            assert(s[b + 1].front().id != s[a + 1].front().id);
        }
    }
    assert(r[n - 1].back() == s[0].front());
    assert(r[0].front() == s[n - 1].back());
}

/// An ordered sequence of edge handles in which each edge ends at the vertex
/// at which the next one starts.
pub struct Wire<P, C> {
    edges: Vec<Edge<P, C>>,
}

impl<P, C> View for Wire<P, C> {
    type V = Seq<EdgeModel<P, C>>;

    closed spec fn view(&self) -> Seq<EdgeModel<P, C>> {
        Seq::new(self.edges@.len(), |k: int| self.edges@[k]@)
    }
}

impl<P, C> Clone for Wire<P, C> {
    fn clone(&self) -> (res: Self)
        ensures
            res@ == self@,
    {
        proof {
            use_type_invariant(self);
        }
        let mut edges: Vec<Edge<P, C>> = Vec::new();
        let mut k: usize = 0;
        while k < self.edges.len()
            invariant
                k <= self.edges@.len(),
                edges@.len() == k,
                forall|i: int| 0 <= i < k ==> edges@[i] == self.edges@[i],
            decreases self.edges@.len() - k,
        {
            edges.push(self.edges[k].clone());
            k += 1;
        }
        assert(Seq::new(edges@.len(), |k: int| edges@[k]@) =~= self@);
        Wire { edges }
    }
}

impl<P, C> Wire<P, C> {
    /// What every wire satisfies: it is a chain.
    #[verifier::type_invariant]
    pub open spec fn wf(self) -> bool {
        is_chain(self@)
    }

    /// The wire without edges.
    pub fn new() -> (w: Wire<P, C>)
        ensures
            w@.len() == 0,
    {
        Wire { edges: Vec::new() }
    }

    /// The number of edges.
    pub fn len(&self) -> (n: usize)
        ensures
            n == self@.len(),
    {
        self.edges.len()
    }

    /// Whether the wire has no edge.
    pub fn is_empty(&self) -> (b: bool)
        ensures
            b == (self@.len() == 0),
    {
        self.edges.len() == 0
    }

    /// The edges in order.
    pub fn edges(&self) -> (es: &Vec<Edge<P, C>>)
        ensures
            es@.len() == self@.len(),
            forall|k: int| 0 <= k < es@.len() ==> (#[trigger] es@[k])@ == self@[k],
            is_chain(self@),
    {
        proof {
            use_type_invariant(self);
        }
        &self.edges
    }

    /// The edge at position `k`.
    pub fn edge(&self, k: usize) -> (e: &Edge<P, C>)
        requires
            k < self@.len(),
        ensures
            e@ == self@[k as int],
    {
        &self.edges[k]
    }

    /// The first edge, if there is one.
    pub fn front_edge(&self) -> (e: Option<&Edge<P, C>>)
        ensures
            self@.len() == 0 ==> e is None,
            self@.len() > 0 ==> e is Some && e->Some_0@ == self@[0],
    {
        if self.edges.len() == 0 {
            None
        } else {
            Some(&self.edges[0])
        }
    }

    /// The last edge, if there is one.
    pub fn back_edge(&self) -> (e: Option<&Edge<P, C>>)
        ensures
            self@.len() == 0 ==> e is None,
            self@.len() > 0 ==> e is Some && e->Some_0@ == self@[self@.len() - 1],
    {
        if self.edges.len() == 0 {
            None
        } else {
            Some(&self.edges[self.edges.len() - 1])
        }
    }

    /// The vertex at which the wire starts, if it has an edge.
    pub fn front_vertex(&self) -> (v: Option<&Vertex<P>>)
        ensures
            self@.len() == 0 ==> v is None,
            self@.len() > 0 ==> v is Some && v->Some_0@ == self@[0].front(),
    {
        if self.edges.len() == 0 {
            None
        } else {
            Some(self.edges[0].front())
        }
    }

    /// The vertex at which the wire ends, if it has an edge.
    pub fn back_vertex(&self) -> (v: Option<&Vertex<P>>)
        ensures
            self@.len() == 0 ==> v is None,
            self@.len() > 0 ==> v is Some && v->Some_0@ == self@[self@.len() - 1].back(),
    {
        if self.edges.len() == 0 {
            None
        } else {
            Some(self.edges[self.edges.len() - 1].back())
        }
    }

    /// Appends `edge` if it starts where the wire ends, or if the wire is
    /// empty. Otherwise the wire is left as it is and `false` is returned.
    pub fn push_back(&mut self, edge: Edge<P, C>) -> (accepted: bool)
        ensures
            accepted == (old(self)@.len() == 0 || old(self)@[old(self)@.len() - 1].back().id
                == edge@.front().id),
            accepted ==> final(self)@ == old(self)@.push(edge@),
            !accepted ==> final(self)@ == old(self)@,
    {
        proof {
            use_type_invariant(&*self);
        }
        let n = self.edges.len();
        if n == 0 || self.edges[n - 1].back().id() == edge.front().id() {
            let ghost before = self@;
            let mut taken = Wire::new();
            std::mem::swap(self, &mut taken);
            let mut edges = taken.edges;
            edges.push(edge);
            assert(Seq::new(edges@.len(), |k: int| edges@[k]@) =~= before.push(edge@));
            *self = Wire { edges };
            true
        } else {
            false
        }
    }

    /// Prepends `edge` if it ends where the wire starts, or if the wire is
    /// empty. Otherwise the wire is left as it is and `false` is returned.
    pub fn push_front(&mut self, edge: Edge<P, C>) -> (accepted: bool)
        ensures
            accepted == (old(self)@.len() == 0 || edge@.back().id == old(self)@[0].front().id),
            accepted ==> final(self)@ == seq![edge@] + old(self)@,
            !accepted ==> final(self)@ == old(self)@,
    {
        proof {
            use_type_invariant(&*self);
        }
        let n = self.edges.len();
        if n == 0 || edge.back().id() == self.edges[0].front().id() {
            let ghost before = self@;
            let mut taken = Wire::new();
            std::mem::swap(self, &mut taken);
            let mut edges = taken.edges;
            edges.insert(0, edge);
            let ghost after = Seq::new(edges@.len(), |k: int| edges@[k]@);
            assert(after =~= seq![edge@] + before);
            assert forall|k: int| 0 <= k < after.len() - 1 implies (#[trigger] after[k]).back().id
                == after[k + 1].front().id by {
                if k > 0 {
                    assert(before[k - 1].back().id == before[k].front().id);
                }
            }
            *self = Wire { edges };
            true
        } else {
            false
        }
    }

    /// The wire of the given edges in the given order, if they form a chain.
    pub fn from_edges(edges: Vec<Edge<P, C>>) -> (w: Option<Wire<P, C>>)
        ensures
            (w is Some) == is_chain(Seq::new(edges@.len(), |k: int| edges@[k]@)),
            w is Some ==> w->Some_0@ == Seq::new(edges@.len(), |k: int| edges@[k]@),
    {
        let ghost s = Seq::new(edges@.len(), |k: int| edges@[k]@);
        let mut k: usize = 1;
        while k < edges.len()
            invariant
                1 <= k,
                s == Seq::new(edges@.len(), |k: int| edges@[k]@),
                forall|i: int| 0 <= i < k - 1 && i < s.len() - 1 ==> (#[trigger] s[i]).back().id
                    == s[i + 1].front().id,
            decreases edges@.len() - k,
        {
            if edges[k - 1].back().id() != edges[k].front().id() {
                assert(s[k - 1].back().id != s[k - 1 + 1].front().id);
                return None;
            }
            k += 1;
        }
        Some(Wire { edges })
    }

    /// The wire of the given edges in the given order, without any test at
    /// run time: that they form a chain is for the caller to prove.
    pub fn from_chain(edges: Vec<Edge<P, C>>) -> (w: Wire<P, C>)
        requires
            is_chain(Seq::new(edges@.len(), |k: int| edges@[k]@)),
        ensures
            w@ == Seq::new(edges@.len(), |k: int| edges@[k]@),
    {
        Wire { edges }
    }

    /// Whether the wire has an edge and ends where it starts.
    pub fn is_closed(&self) -> (b: bool)
        ensures
            b == is_closed(self@),
    {
        let n = self.edges.len();
        n > 0 && self.edges[n - 1].back().id() == self.edges[0].front().id()
    }

    /// Whether no two edges of the wire start at the same vertex.
    pub fn is_simple(&self) -> (b: bool)
        ensures
            b == is_simple(self@),
    {
        let n = self.edges.len();
        let mut j: usize = 0;
        while j < n
            invariant
                n == self.edges@.len(),
                j <= n,
                forall|a: int, b: int|
                    0 <= a < b < j ==> (#[trigger] self@[a]).front().id != (
                    #[trigger] self@[b]).front().id,
            decreases n - j,
        {
            let id = self.edges[j].front().id();
            let mut i: usize = 0;
            while i < j
                invariant
                    n == self.edges@.len(),
                    i <= j < n,
                    id == self@[j as int].front().id,
                    forall|a: int| 0 <= a < i ==> (#[trigger] self@[a]).front().id != id,
                decreases j - i,
            {
                if self.edges[i].front().id() == id {
                    assert(self@[i as int].front().id == self@[j as int].front().id);
                    return false;
                }
                i += 1;
            }
            j += 1;
        }
        true
    }

    /// The same edges in the opposite order, each run the other way.
    pub fn inverse(&self) -> (w: Wire<P, C>)
        ensures
            w@ == inverse_of(self@),
    {
        proof {
            use_type_invariant(self);
            lemma_inverse_chain(self@);
        }
        let n = self.edges.len();
        let mut edges: Vec<Edge<P, C>> = Vec::new();
        let mut k: usize = 0;
        while k < n
            invariant
                n == self.edges@.len(),
                k <= n,
                edges@.len() == k,
                forall|i: int| 0 <= i < k ==> (#[trigger] edges@[i])@ == self@[n - 1 - i].inverse(),
            decreases n - k,
        {
            edges.push(self.edges[n - 1 - k].inverse());
            k += 1;
        }
        assert(Seq::new(edges@.len(), |k: int| edges@[k]@) =~= inverse_of(self@));
        Wire { edges }
    }

    /// Turns the wire round.
    pub fn invert(&mut self)
        ensures
            final(self)@ == inverse_of(old(self)@),
    {
        let w = self.inverse();
        *self = w;
    }
}

} // verus!
