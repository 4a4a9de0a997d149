use vstd::prelude::*;
use crate::types::{Node, Relation, Way};

verus! {

/// Penalties of a map graph's profile by tag value; `default` applies to
/// values without a penalty of their own.
#[derive(Debug, Clone, PartialEq, Eq, Default)]
pub struct ProfilePenalties {
    pub default: i64,
    pub penalties: Vec<(String, i64)>,
}

/// The profile a map graph is routed by: the tag key whose values carry
/// penalties, and the vehicle type whose access tags decide which ways stay.
#[derive(Debug, Clone, PartialEq, Eq, Default)]
pub struct Profile {
    pub key: String,
    pub penalties: ProfilePenalties,
    pub vehicle_type: Option<String>,
}

/// A map graph as read from OpenStreetMap: its nodes, ways and relations,
/// each element standing for itself under its own id, and the profile it is
/// routed by.
#[derive(Debug, Clone)]
pub struct OsmGraph {
    pub nodes: Vec<Node>,
    pub ways: Vec<Way>,
    pub relations: Vec<Relation>,
    pub profile: Option<Profile>,
}

impl OsmGraph {
    /// An empty graph without a profile.
    pub fn new() -> (g: OsmGraph)
        ensures
            g.nodes@.len() == 0,
            g.ways@.len() == 0,
            g.relations@.len() == 0,
            g.profile is None,
    {
        OsmGraph { nodes: Vec::new(), ways: Vec::new(), relations: Vec::new(), profile: None }
    }

    /// Sets the profile the graph is routed by.
    pub fn set_profile(&mut self, profile: Profile)
        ensures
            final(self).profile == Some(profile),
            final(self).nodes@ == old(self).nodes@,
            final(self).ways@ == old(self).ways@,
            final(self).relations@ == old(self).relations@,
    {
        self.profile = Some(profile);
    }
}

} // verus!
