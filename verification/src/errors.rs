//! Why a construction is refused.
use vstd::prelude::*;

verus! {

/// The reasons for which a topological constructor rejects its input.
#[derive(Clone, Copy, Debug, PartialEq, Eq, Structural)]
pub enum Error {
    /// The two ends of an edge are the same vertex.
    SameVertex,
    /// A boundary wire of a face does not return to where it starts.
    NotClosedWire,
    /// A boundary wire of a face passes through a vertex more than once.
    NotSimpleWire,
    /// A boundary shell of a solid has no face.
    EmptyShell,
    /// A boundary shell of a solid falls into several components.
    NotConnected,
    /// A boundary shell of a solid has an edge that is not used exactly once
    /// in each direction.
    NotClosedShell,
    /// A boundary shell of a solid has a singular vertex.
    NotManifold,
}

impl Error {
    /// The message that describes the error.
    pub fn message(&self) -> (text: &'static str)
        ensures
            text@.len() > 0,
    {
        match self {
            Error::SameVertex => {
                proof { reveal_strlit("Two same vertices cannot construct an edge."); }
                "Two same vertices cannot construct an edge."
            },
            Error::NotClosedWire => {
                proof { reveal_strlit("This wire is not closed."); }
                "This wire is not closed."
            },
            Error::NotSimpleWire => {
                proof { reveal_strlit("This wire is not simple."); }
                "This wire is not simple."
            },
            Error::EmptyShell => {
                proof { reveal_strlit("This shell is empty."); }
                "This shell is empty."
            },
            Error::NotConnected => {
                proof { reveal_strlit("This shell is not connected."); }
                "This shell is not connected."
            },
            Error::NotClosedShell => {
                proof { reveal_strlit("This shell is not oriented and closed."); }
                "This shell is not oriented and closed."
            },
            Error::NotManifold => {
                proof { reveal_strlit("This shell is not a manifold."); }
                "This shell is not a manifold."
            },
        }
    }
}

} // verus!
