//! Solids: what closed shells bound.
use vstd::prelude::*;
use crate::edge::{Edge, EdgeModel};
use crate::errors::Error;
use crate::face::{Face, FaceModel};
use crate::shell::{
    concat, edge_views, face_views, faces_edges, is_connected, is_manifold, is_watertight, uses_of,
    Shell, ShellCondition,
};
use crate::vertex::Vertex;

verus! {

/// What disqualifies a shell from bounding a solid, if anything does: that
/// it has no face, else that it is not connected, else that some edge is not
/// passed exactly once in each direction, else that some vertex is singular.
pub open spec fn shell_fault<P, C, S>(s: Seq<FaceModel<P, C, S>>) -> Option<Error> {
    if s.len() == 0 {
        Some(Error::EmptyShell)
    } else if !is_connected(s) {
        Some(Error::NotConnected)
    } else if !is_watertight(uses_of(s)) {
        Some(Error::NotClosedShell)
    } else if !is_manifold(uses_of(s)) {
        Some(Error::NotManifold)
    } else {
        None
    }
}

/// The shell can bound a solid: it has a face, is connected, passes every
/// edge exactly once in each direction and has no singular vertex.
pub open spec fn is_boundary<P, C, S>(s: Seq<FaceModel<P, C, S>>) -> bool {
    &&& s.len() > 0
    &&& is_connected(s)
    &&& is_watertight(uses_of(s))
    &&& is_manifold(uses_of(s))
}

/// Every shell can bound a solid.
pub open spec fn all_boundaries<P, C, S>(b: Seq<Seq<FaceModel<P, C, S>>>) -> bool {
    forall|i: int| 0 <= i < b.len() ==> is_boundary(#[trigger] b[i])
}

/// The fault of the first of the first `n` shells that has one.
pub open spec fn first_fault<P, C, S>(b: Seq<Seq<FaceModel<P, C, S>>>, n: nat) -> Option<Error>
    decreases n,
{
    if n == 0 {
        None
    } else {
        match first_fault(b, (n - 1) as nat) {
            Some(e) => Some(e),
            None => shell_fault(b[n - 1]),
        }
    }
}

/// The first `n` shells are without fault exactly when each of them can
/// bound a solid.
pub proof fn lemma_first_fault<P, C, S>(b: Seq<Seq<FaceModel<P, C, S>>>, n: nat)
    requires
        n <= b.len(),
    ensures
        first_fault(b, n) is None <==> forall|i: int| 0 <= i < n ==> is_boundary(#[trigger] b[i]),
    decreases n,
{
    if n > 0 {
        lemma_first_fault(b, (n - 1) as nat);
        if first_fault(b, n) is None {
            assert(shell_fault(b[n - 1]) is None);
        } else if first_fault(b, (n - 1) as nat) is None {
            assert(!is_boundary(b[n - 1]));
        }
    }
}

/// The shells of a vector as a sequence of what they are.
pub open spec fn shell_views<P, C, S>(ss: Seq<Shell<P, C, S>>) -> Seq<Seq<FaceModel<P, C, S>>> {
    Seq::new(ss.len(), |i: int| ss[i]@)
}

/// Tests whether a shell can bound a solid, and says why if it cannot.
pub fn check_boundary<P, C, S>(shell: &Shell<P, C, S>) -> (fault: Option<Error>)
    ensures
        fault == shell_fault(shell@),
{
    if shell.is_empty() {
        Some(Error::EmptyShell)
    } else if !shell.is_connected() {
        Some(Error::NotConnected)
    } else if shell.shell_condition() != ShellCondition::Closed {
        Some(Error::NotClosedShell)
    } else if !(shell.singular_vertices().len() == 0) {
        Some(Error::NotManifold)
    } else {
        None
    }
}

/// Tests shell by shell whether each can bound a solid, and gives the
/// fault of the first that cannot.
pub fn check_boundaries<P, C, S>(boundaries: &Vec<Shell<P, C, S>>) -> (fault: Option<Error>)
    ensures
        fault == first_fault(shell_views(boundaries@), boundaries@.len() as nat),
        fault is None <==> all_boundaries(shell_views(boundaries@)),
{
    let ghost b = shell_views(boundaries@);
    let mut i: usize = 0;
    while i < boundaries.len()
        invariant
            i <= boundaries@.len(),
            b == shell_views(boundaries@),
            first_fault(b, i as nat) is None,
        decreases boundaries@.len() - i,
    {
        let fault = check_boundary(&boundaries[i]);
        assert(b[i as int] == boundaries@[i as int]@);
        if fault.is_some() {
            proof {
                lemma_first_fault_stays(b, (i + 1) as nat, boundaries@.len() as nat);
                lemma_first_fault(b, boundaries@.len() as nat);
            }
            return fault;
        }
        i += 1;
    }
    proof {
        lemma_first_fault(b, boundaries@.len() as nat);
    }
    None
}

/// A fault found among the first `m` shells is the fault found among the
/// first `n`, for every later `n`.
pub proof fn lemma_first_fault_stays<P, C, S>(b: Seq<Seq<FaceModel<P, C, S>>>, m: nat, n: nat)
    requires
        m <= n,
        first_fault(b, m) is Some,
    ensures
        first_fault(b, n) == first_fault(b, m),
    decreases n,
{
    if m < n {
        lemma_first_fault_stays(b, m, (n - 1) as nat);
    }
}

/// A solid, given by the shells that bound it.
pub struct Solid<P, C, S> {
    boundaries: Vec<Shell<P, C, S>>,
}

impl<P, C, S> View for Solid<P, C, S> {
    type V = Seq<Seq<FaceModel<P, C, S>>>;

    closed spec fn view(&self) -> Seq<Seq<FaceModel<P, C, S>>> {
        shell_views(self.boundaries@)
    }
}

/// A copy of the shells.
pub fn clone_shells<P, C, S>(ss: &Vec<Shell<P, C, S>>) -> (res: Vec<Shell<P, C, S>>)
    ensures
        shell_views(res@) == shell_views(ss@),
{
    let mut res: Vec<Shell<P, C, S>> = Vec::new();
    let mut k: usize = 0;
    while k < ss.len()
        invariant
            k <= ss@.len(),
            res@.len() == k,
            forall|i: int| 0 <= i < k ==> (#[trigger] res@[i])@ == ss@[i]@,
        decreases ss@.len() - k,
    {
        res.push(ss[k].clone());
        k += 1;
    }
    assert(shell_views(res@) =~= shell_views(ss@));
    res
}

impl<P, C, S> Clone for Solid<P, C, S> {
    fn clone(&self) -> (res: Self)
        ensures
            res@ == self@,
    {
        proof {
            use_type_invariant(self);
        }
        Solid { boundaries: clone_shells(&self.boundaries) }
    }
}

impl<P, C, S> Solid<P, C, S> {
    /// What every solid satisfies: each of its shells has a face, is
    /// connected, passes every edge exactly once in each direction and has
    /// no singular vertex.
    #[verifier::type_invariant]
    pub open spec fn wf(self) -> bool {
        all_boundaries(self@)
    }

    /// The solid bounded by `boundaries`.
    pub fn new(boundaries: Vec<Shell<P, C, S>>) -> (solid: Solid<P, C, S>)
        requires
            all_boundaries(shell_views(boundaries@)),
        ensures
            solid@ == shell_views(boundaries@),
    {
        Solid { boundaries }
    }

    /// The solid bounded by `boundaries`, unless one of the shells cannot
    /// bound a solid: then the fault of the first such shell.
    pub fn try_new(boundaries: Vec<Shell<P, C, S>>) -> (res: Result<Solid<P, C, S>, Error>)
        ensures
            match first_fault(shell_views(boundaries@), boundaries@.len() as nat) {
                Some(e) => res == Err::<Solid<P, C, S>, Error>(e),
                None => res is Ok && res->Ok_0@ == shell_views(boundaries@),
            },
            res is Ok <==> all_boundaries(shell_views(boundaries@)),
    {
        match check_boundaries(&boundaries) {
            Some(e) => Err(e),
            None => Ok(Solid { boundaries }),
        }
    }

    /// As `new`, and without any test at run time: that every shell can
    /// bound a solid is for the caller to prove.
    pub fn new_unchecked(boundaries: Vec<Shell<P, C, S>>) -> (solid: Solid<P, C, S>)
        requires
            all_boundaries(shell_views(boundaries@)),
        ensures
            solid@ == shell_views(boundaries@),
    {
        Solid { boundaries }
    }

    /// As `new`.
    pub fn debug_new(boundaries: Vec<Shell<P, C, S>>) -> (solid: Solid<P, C, S>)
        requires
            all_boundaries(shell_views(boundaries@)),
        ensures
            solid@ == shell_views(boundaries@),
    {
        Solid { boundaries }
    }

    /// The shells that bound the solid. Each has a face, is connected,
    /// passes every edge exactly once in each direction and has no singular
    /// vertex.
    pub fn boundaries(&self) -> (shells: &Vec<Shell<P, C, S>>)
        ensures
            shell_views(shells@) == self@,
            all_boundaries(self@),
    {
        proof {
            use_type_invariant(self);
        }
        &self.boundaries
    }

    /// The shells that bound the solid.
    pub fn into_boundaries(self) -> (shells: Vec<Shell<P, C, S>>)
        ensures
            shell_views(shells@) == self@,
            all_boundaries(self@),
    {
        proof {
            use_type_invariant(&self);
        }
        self.boundaries
    }

    /// The faces of the solid, shell by shell.
    pub fn face_iter(&self) -> (fs: Vec<&Face<P, C, S>>)
        ensures
            Seq::new(fs@.len(), |k: int| fs@[k]@) == concat(self@, self@.len()),
    {
        let mut fs: Vec<&Face<P, C, S>> = Vec::new();
        let mut i: usize = 0;
        while i < self.boundaries.len()
            invariant
                i <= self.boundaries@.len(),
                Seq::new(fs@.len(), |k: int| fs@[k]@) == concat(self@, i as nat),
            decreases self.boundaries@.len() - i,
        {
            let faces = self.boundaries[i].faces();
            let ghost base = Seq::new(fs@.len(), |k: int| fs@[k]@);
            let ghost shell = self@[i as int];
            assert(shell == face_views(faces@));
            let mut k: usize = 0;
            while k < faces.len()
                invariant
                    k <= faces@.len(),
                    shell == face_views(faces@),
                    Seq::new(fs@.len(), |k: int| fs@[k]@) == base + shell.subrange(0, k as int),
                decreases faces@.len() - k,
            {
                let ghost before = Seq::new(fs@.len(), |k: int| fs@[k]@);
                fs.push(&faces[k]);
                assert(face_views(faces@)[k as int] == faces@[k as int]@);
                assert(Seq::new(fs@.len(), |k: int| fs@[k]@) =~= before.push(shell[k as int]));
                assert(Seq::new(fs@.len(), |k: int| fs@[k]@) =~= base + shell.subrange(0, k + 1));
                k += 1;
            }
            assert(shell.subrange(0, faces@.len() as int) =~= shell);
            i += 1;
        }
        fs
    }

    /// The edges of the solid as its faces see them: shell by shell, face
    /// by face, wire by wire.
    pub fn edge_iter(&self) -> (es: Vec<Edge<P, C>>)
        ensures
            edge_views(es@) == solid_edges(self@),
    {
        let ghost per_shell = Seq::new(self@.len(), |i: int| faces_edges(self@[i]));
        let mut es: Vec<Edge<P, C>> = Vec::new();
        let mut i: usize = 0;
        while i < self.boundaries.len()
            invariant
                i <= self.boundaries@.len(),
                per_shell == Seq::new(self@.len(), |i: int| faces_edges(self@[i])),
                edge_views(es@) == concat(per_shell, i as nat),
            decreases self.boundaries@.len() - i,
        {
            let mut part = self.boundaries[i].edge_iter();
            let ghost base = edge_views(es@);
            let ghost added = edge_views(part@);
            assert(added == per_shell[i as int]);
            es.append(&mut part);
            assert(edge_views(es@) =~= base + added);
            i += 1;
        }
        es
    }

    /// The vertex at which each edge of `edge_iter` starts, in that order.
    pub fn vertex_iter(&self) -> (vs: Vec<Vertex<P>>)
        ensures
            vs@.len() == solid_edges(self@).len(),
            forall|k: int| 0 <= k < vs@.len() ==> (#[trigger] vs@[k])@ == solid_edges(self@)[k].front(),
    {
        let es = self.edge_iter();
        let mut vs: Vec<Vertex<P>> = Vec::new();
        let mut k: usize = 0;
        while k < es.len()
            invariant
                k <= es@.len(),
                vs@.len() == k,
                edge_views(es@) == solid_edges(self@),
                forall|i: int| 0 <= i < k ==> (#[trigger] vs@[i])@ == solid_edges(self@)[i].front(),
            decreases es@.len() - k,
        {
            assert(edge_views(es@)[k as int] == es@[k as int]@);
            vs.push(es[k].front().clone());
            k += 1;
        }
        assert(edge_views(es@).len() == es@.len());
        vs
    }
}

/// The edges of the shells as their faces see them, shell by shell.
pub open spec fn solid_edges<P, C, S>(b: Seq<Seq<FaceModel<P, C, S>>>) -> Seq<EdgeModel<P, C>> {
    concat(Seq::new(b.len(), |i: int| faces_edges(b[i])), b.len())
}

} // verus!
