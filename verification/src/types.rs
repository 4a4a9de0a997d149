use vstd::prelude::*;

verus! {

/// An OpenStreetMap node. Its coordinates are the bit patterns of the 64-bit
/// floats they were read as.
#[derive(Debug, Clone, PartialEq, Eq)]
pub struct Node {
    pub id: i64,
    pub lat_bits: u64,
    pub lon_bits: u64,
    pub tags: Vec<(String, String)>,
}

/// An OpenStreetMap way: an ordered list of node references.
#[derive(Debug, Clone, PartialEq, Eq)]
pub struct Way {
    pub id: i64,
    pub node_refs: Vec<i64>,
    pub tags: Vec<(String, String)>,
}

/// A member of an OpenStreetMap relation.
#[derive(Debug, Clone, PartialEq, Eq)]
pub struct RelationMember {
    pub member_type: String,
    pub ref_id: i64,
    pub role: String,
}

/// An OpenStreetMap relation.
#[derive(Debug, Clone, PartialEq, Eq)]
pub struct Relation {
    pub id: i64,
    pub members: Vec<RelationMember>,
    pub tags: Vec<(String, String)>,
}

/// Penalties of a profile by tag value; each penalty is the bit pattern of a
/// 64-bit float. `default` applies to values without their own penalty.
#[derive(Debug, Clone, PartialEq, Eq, Default)]
pub struct ProfilePenalties {
    pub default: Option<u32>,
    pub penalties: Vec<(String, u64)>,
}

/// A routing profile: the tag key whose values carry penalties, and the tags
/// that grant access, set one-way travel, or exempt from restrictions.
#[derive(Debug, Clone, PartialEq, Eq)]
pub struct Profile {
    pub id: String,
    pub key: String,
    pub penalties: ProfilePenalties,
    pub access_tags: Vec<String>,
    pub oneway_tags: Vec<String>,
    pub except_tags: Vec<String>,
}

/// Where and how to query the Overpass API.
#[derive(Debug, Clone, PartialEq, Eq, Hash)]
pub struct OverpassOptions {
    pub query: String,
    pub server: String,
    pub retries: u32,
    pub retry_delay: u64,
}

/// Where and how to download a protobuf extract.
#[derive(Debug, Clone, PartialEq, Eq, Hash)]
pub struct ProtobufOptions {
    pub url: String,
    pub retries: u32,
    pub retry_delay: u64,
}

/// How to load a graph: the cache file, its lifetime, the profiles to build
/// and the data source.
#[derive(Debug, Clone, PartialEq, Eq)]
pub struct LoadOptions {
    pub file_path: String,
    pub ttl_days: u64,
    pub profiles: Vec<Profile>,
    pub overpass: Option<OverpassOptions>,
    pub protobuf: Option<ProtobufOptions>,
}

/// The value of the last tag with key `key`.
pub open spec fn tag_value(tags: Seq<(String, String)>, key: Seq<char>) -> Option<Seq<char>>
    decreases tags.len(),
{
    if tags.len() == 0 {
        None
    } else if tags.last().0@ == key {
        Some(tags.last().1@)
    } else {
        tag_value(tags.drop_last(), key)
    }
}

/// Looks up the value of tag `key`; a later tag with the same key wins.
pub fn get_tag<'a>(tags: &'a Vec<(String, String)>, key: &str) -> (r: Option<&'a String>)
    ensures
        match r {
            Some(v) => tag_value(tags@, key@) == Some(v@),
            None => tag_value(tags@, key@) is None,
        },
{
    let mut i = tags.len();
    assert(tags@.subrange(0, i as int) == tags@);
    while i > 0
        invariant
            i <= tags@.len(),
            tag_value(tags@, key@) == tag_value(tags@.subrange(0, i as int), key@),
        decreases i,
    {
        let t = &tags[i - 1];
        proof {
            assert(tags@.subrange(0, i as int).drop_last() == tags@.subrange(0, i - 1));
        }
        if crate::text::str_eq(t.0.as_str(), key) {
            return Some(&t.1);
        }
        i = i - 1;
    }
    None
}

} // verus!
