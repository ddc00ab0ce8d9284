//! Location descriptors: structured, network-wide names for resources.
//!
//! A location is a number of hops up towards the coordinator chain followed
//! by an ordered path of typed segments down. Equality is structural,
//! segment by segment, never referential.

use vstd::prelude::*;

verus! {

/// One typed path segment of a location descriptor.
#[derive(Clone, Copy, PartialEq, Eq, Structural, Debug)]
pub enum Junction {
    /// A sibling or child chain, by its network-wide chain index.
    Parachain(u32),
    /// A module (pallet) instance on the chain reached so far.
    PalletInstance(u8),
    /// A numeric index inside the module reached so far.
    GeneralIndex(u128),
}

/// The ordered interior path of a location, at most three segments deep.
#[derive(Clone, Copy, PartialEq, Eq, Structural, Debug)]
pub enum Interior {
    /// No interior path: the location names a chain itself.
    Here,
    /// One segment.
    X1(Junction),
    /// Two segments, outermost first.
    X2(Junction, Junction),
    /// Three segments, outermost first.
    X3(Junction, Junction, Junction),
}

/// A network-wide descriptor of a resource: `parents` hops up, then the
/// interior path down.
#[derive(Clone, Copy, PartialEq, Eq, Structural, Debug)]
pub struct Location {
    /// How many hops up towards the coordinator chain.
    pub parents: u8,
    /// The path down from the chain reached after the hops up.
    pub interior: Interior,
}

impl Location {
    /// The location of the observing chain itself.
    pub open spec fn here_spec() -> Location {
        Location { parents: 0, interior: Interior::Here }
    }

    /// The fixed sentinel location: the parent (coordinator) chain.
    pub open spec fn parent_spec() -> Location {
        Location { parents: 1, interior: Interior::Here }
    }

    /// The location of the observing chain itself.
    pub fn here() -> (r: Location)
        ensures
            r == Location::here_spec(),
    {
        Location { parents: 0, interior: Interior::Here }
    }

    /// The fixed sentinel location denoting the parent chain.
    pub fn parent() -> (r: Location)
        ensures
            r == Location::parent_spec(),
    {
        Location { parents: 1, interior: Interior::Here }
    }

    /// A location one hop up and then down the given interior path.
    pub fn from_parent(interior: Interior) -> (r: Location)
        ensures
            r == (Location { parents: 1, interior }),
    {
        Location { parents: 1, interior }
    }
}

} // verus!
