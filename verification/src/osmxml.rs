use vstd::prelude::*;
use std::collections::HashMap;
use crate::errors::{owned, GraphError};
use crate::text::{chars_of, str_eq};
use crate::types::{Relation, RelationMember, Way};
use xml::reader::XmlEvent;

verus! {

broadcast use vstd::std_specs::hash::group_hash_axioms;

/// An event of an XML document, as the OSM reader uses it: an element's
/// start with its name and attributes, an element's end, anything else,
/// or the reader's failure with its message.
#[derive(Debug)]
pub enum XmlItem {
    Start(String, Vec<(String, String)>),
    End(String),
    Other,
    Failure(String),
}

/// An XML event by its text.
pub enum ItemText {
    Start(Seq<char>, Seq<(Seq<char>, Seq<char>)>),
    End(Seq<char>),
    Other,
    Failure(Seq<char>),
}

/// A tag or attribute list by its text.
pub open spec fn pairs_text(p: Seq<(String, String)>) -> Seq<(Seq<char>, Seq<char>)> {
    p.map_values(|t: (String, String)| (t.0@, t.1@))
}

/// An XML event by its text.
pub open spec fn item_text(i: XmlItem) -> ItemText {
    match i {
        XmlItem::Start(n, a) => ItemText::Start(n@, pairs_text(a@)),
        XmlItem::End(n) => ItemText::End(n@),
        XmlItem::Other => ItemText::Other,
        XmlItem::Failure(m) => ItemText::Failure(m@),
    }
}

/// The events that the XML reader yields for a document, up to its end or
/// to its first failure.
pub uninterp spec fn xml_events(text: Seq<char>) -> Seq<ItemText>;

/// The events of an XML document, by `xml::reader::EventReader`, up to the
/// document's end or the reader's first error: starts and ends of elements
/// with their local names and attributes (local name, value), every other
/// event as `Other`, an error as `Failure` with the error's text.
#[verifier::external_body]
fn read_xml_events(text: &str) -> (r: Vec<XmlItem>)
    ensures
        r@.map_values(|i: XmlItem| item_text(i)) == xml_events(text@),
{
    xml::reader::EventReader::new(text.as_bytes()).into_iter().map(|ev| match ev {
        Ok(XmlEvent::StartElement { name, attributes, .. }) => XmlItem::Start(
            name.local_name,
            attributes.into_iter().map(|a| (a.name.local_name, a.value)).collect(),
        ),
        Ok(XmlEvent::EndElement { name }) => XmlItem::End(name.local_name),
        Ok(_) => XmlItem::Other,
        Err(e) => XmlItem::Failure(e.to_string()),
    }).collect()
}

/// An ASCII digit.
pub open spec fn is_digit(c: char) -> bool {
    '0' <= c && c <= '9'
}

/// The number that a string of digits writes in decimal.
pub open spec fn digits_value(s: Seq<char>) -> int
    decreases s.len(),
{
    if s.len() == 0 {
        0
    } else {
        digits_value(s.drop_last()) * 10 + (s.last() as int - '0' as int)
    }
}

/// A text without its leading sign, if it has one.
pub open spec fn unsigned_part(s: Seq<char>) -> Seq<char> {
    if s.len() > 0 && (s[0] == '-' || s[0] == '+') {
        s.drop_first()
    } else {
        s
    }
}

/// Every character is an ASCII digit.
pub open spec fn all_digits(s: Seq<char>) -> bool {
    forall|i: int| 0 <= i < s.len() ==> is_digit(#[trigger] s[i])
}

/// The `i64` that a text writes in decimal, with an optional sign, as
/// `str::parse::<i64>` reads it: at least one digit, nothing else, and a
/// value in range.
pub open spec fn decimal_i64(s: Seq<char>) -> Option<i64> {
    let neg = s.len() > 0 && s[0] == '-';
    let body = unsigned_part(s);
    let v = if neg { -digits_value(body) } else { digits_value(body) };
    if body.len() > 0 && all_digits(body) && i64::MIN <= v && v <= i64::MAX {
        Some(v as i64)
    } else {
        None
    }
}

/// Digit strings do not read smaller when they grow, and never read below 0.
proof fn lemma_digits_grow(s: Seq<char>, i: int, j: int)
    requires
        0 <= i <= j <= s.len(),
        forall|k: int| 0 <= k < s.len() ==> is_digit(#[trigger] s[k]),
    ensures
        0 <= digits_value(s.take(i)) <= digits_value(s.take(j)),
    decreases j,
{
    if j > 0 {
        assert(s.take(j).drop_last() == s.take(j - 1));
        assert(s.take(j).last() == s[j - 1]);
        assert(is_digit(s[j - 1]));
        if i < j {
            lemma_digits_grow(s, i, j - 1);
        } else {
            lemma_digits_grow(s, j - 1, j - 1);
        }
    } else {
        assert(s.take(0).len() == 0);
    }
}

/// The number of digits in a row in `s` from position `i` on.
pub open spec fn digit_run(s: Seq<char>, i: int) -> nat
    decreases s.len() - i,
{
    if 0 <= i < s.len() && is_digit(s[i]) {
        1 + digit_run(s, i + 1)
    } else {
        0
    }
}

/// `s` spells a word, each letter in the case of `lower` or of `upper`.
pub open spec fn spells(s: Seq<char>, lower: Seq<char>, upper: Seq<char>) -> bool {
    &&& s.len() == lower.len()
    &&& s.len() == upper.len()
    &&& forall|i: int| 0 <= i < s.len() ==> s[i] == lower[i] || s[i] == upper[i]
}

/// A decimal number as `str::parse::<f64>` reads one: digits with at most
/// one point among them and at least one digit, then perhaps an exponent:
/// `e` or `E`, an optional sign and at least one digit.
pub open spec fn decimal_number_text(t: Seq<char>) -> bool {
    let a = digit_run(t, 0) as int;
    let point = a < t.len() && t[a] == '.';
    let b = if point {
        digit_run(t, a + 1) as int
    } else {
        0
    };
    let m = if point {
        a + 1 + b
    } else {
        a
    };
    let e1 = if m + 1 < t.len() && (t[m + 1] == '+' || t[m + 1] == '-') {
        m + 2
    } else {
        m + 1
    };
    &&& a + b > 0
    &&& m == t.len() || ((t[m] == 'e' || t[m] == 'E') && digit_run(t, e1) > 0 && e1 + digit_run(t, e1) == t.len())
}

/// A text that `str::parse::<f64>` reads: an optional sign, then `inf`,
/// `infinity` or `nan` in any case, or a decimal number.
pub open spec fn float_text(s: Seq<char>) -> bool {
    let t = unsigned_part(s);
    ||| spells(t, "inf"@, "INF"@)
    ||| spells(t, "infinity"@, "INFINITY"@)
    ||| spells(t, "nan"@, "NAN"@)
    ||| decimal_number_text(t)
}

/// The number of digits in a row in `t` from position `i` on.
fn count_digit_run(t: &Vec<char>, i: usize) -> (r: usize)
    requires
        i <= t@.len(),
    ensures
        r == digit_run(t@, i as int),
        i + r <= t@.len(),
{
    let mut j = i;
    loop
        invariant
            i <= j <= t@.len(),
            digit_run(t@, i as int) == (j - i) + digit_run(t@, j as int),
        ensures
            i <= j <= t@.len(),
            digit_run(t@, i as int) == j - i,
        decreases t@.len() - j,
    {
        if j >= t.len() {
            break;
        }
        let c = t[j];
        if !('0' <= c && c <= '9') {
            break;
        }
        j = j + 1;
    }
    j - i
}

/// Whether `t` spells a word in the letter cases of `lower` and `upper`.
fn spells_word(t: &Vec<char>, lower: &str, upper: &str) -> (r: bool)
    ensures
        r == spells(t@, lower@, upper@),
{
    let lo = chars_of(lower);
    let up = chars_of(upper);
    if t.len() != lo.len() || t.len() != up.len() {
        return false;
    }
    let mut i: usize = 0;
    while i < t.len()
        invariant
            lo@ == lower@,
            up@ == upper@,
            t@.len() == lo@.len(),
            t@.len() == up@.len(),
            i <= t@.len(),
            forall|k: int| 0 <= k < i ==> t@[k] == lo@[k] || t@[k] == up@[k],
        decreases t@.len() - i,
    {
        if t[i] != lo[i] && t[i] != up[i] {
            return false;
        }
        i = i + 1;
    }
    true
}

/// Whether `str::parse::<f64>` reads `s`.
pub fn is_float_text(s: &str) -> (r: bool)
    ensures
        r == float_text(s@),
{
    proof {
        reveal_strlit("inf");
        reveal_strlit("INF");
        reveal_strlit("infinity");
        reveal_strlit("INFINITY");
        reveal_strlit("nan");
        reveal_strlit("NAN");
    }
    let cs = chars_of(s);
    let n = cs.len();
    let start: usize = if n > 0 && (cs[0] == '-' || cs[0] == '+') {
        1
    } else {
        0
    };
    let mut t: Vec<char> = Vec::new();
    let mut k: usize = start;
    while k < n
        invariant
            cs@ == s@,
            n == cs@.len(),
            start <= k <= n,
            t@ == cs@.subrange(start as int, k as int),
        decreases n - k,
    {
        t.push(cs[k]);
        k = k + 1;
    }
    assert(t@ == unsigned_part(s@));
    if spells_word(&t, "inf", "INF") || spells_word(&t, "infinity", "INFINITY") || spells_word(&t, "nan", "NAN") {
        return true;
    }
    let len = t.len();
    let a = count_digit_run(&t, 0);
    let point = a < len && t[a] == '.';
    let b = if point {
        count_digit_run(&t, a + 1)
    } else {
        0
    };
    let m = if point {
        a + 1 + b
    } else {
        a
    };
    if a + b == 0 {
        return false;
    }
    if m == len {
        return true;
    }
    if !(t[m] == 'e' || t[m] == 'E') {
        return false;
    }
    let e1 = if m + 1 < len && (t[m + 1] == '+' || t[m + 1] == '-') {
        m + 2
    } else {
        m + 1
    };
    let d = count_digit_run(&t, e1);
    d > 0 && e1 + d == len
}

/// `s` read as a decimal `i64`, as `str::parse::<i64>` reads it.
fn parse_i64(s: &str) -> (r: Option<i64>)
    ensures
        r == decimal_i64(s@),
{
    let cs = chars_of(s);
    let n = cs.len();
    let neg = n > 0 && cs[0] == '-';
    let start: usize = if n > 0 && (cs[0] == '-' || cs[0] == '+') {
        1
    } else {
        0
    };
    let ghost body = unsigned_part(s@);
    assert(body == s@.subrange(start as int, n as int));
    if start >= n {
        return None;
    }
    let limit: u64 = 9223372036854775808;
    let mut acc: u64 = 0;
    let mut i: usize = start;
    while i < n
        invariant
            cs@ == s@,
            n == cs@.len(),
            start <= i <= n,
            body == s@.subrange(start as int, n as int),
            body == unsigned_part(s@),
            neg == (s@.len() > 0 && s@[0] == '-'),
            forall|k: int| 0 <= k < i - start ==> is_digit(#[trigger] body[k]),
            acc == digits_value(body.take(i - start)),
            acc <= limit,
            limit == 9223372036854775808u64,
        decreases n - i,
    {
        let c = cs[i];
        assert(c == body[i - start]);
        if !('0' <= c && c <= '9') {
            assert(!is_digit(body[i - start]));
            assert(!all_digits(body));
            return None;
        }
        let d: u64 = (c as u32 - '0' as u32) as u64;
        let ghost k = i - start;
        assert(body.take(k + 1).drop_last() == body.take(k));
        assert(body.take(k + 1).last() == c);
        assert(digits_value(body.take(k + 1)) == acc * 10 + d);
        let next = match acc.checked_mul(10) {
            Some(t) => match t.checked_add(d) {
                Some(v) => if v <= limit {
                    Some(v)
                } else {
                    None
                },
                None => None,
            },
            None => None,
        };
        match next {
            Some(v) => {
                acc = v;
            },
            None => {
                proof {
                    assert(acc * 10 + d > limit);
                    if all_digits(body) {
                        lemma_digits_grow(body, k + 1, body.len() as int);
                        assert(body.take(body.len() as int) == body);
                        assert(digits_value(body) > limit);
                    }
                }
                return None;
            },
        }
        i = i + 1;
    }
    proof {
        assert(body.take(n - start) == body);
    }
    if neg {
        if acc == limit {
            Some(i64::MIN)
        } else {
            Some(-(acc as i64))
        }
    } else if acc <= 9223372036854775807 {
        Some(acc as i64)
    } else {
        None
    }
}

/// A node as read from OSM XML: its id, its coordinates as written, and
/// its tags.
#[derive(Debug, Clone)]
pub struct RawNode {
    pub id: i64,
    pub lat: String,
    pub lon: String,
    pub tags: Vec<(String, String)>,
}

/// A node by its text.
#[verifier::ext_equal]
pub struct NodeText {
    pub id: i64,
    pub lat: Seq<char>,
    pub lon: Seq<char>,
    pub tags: Seq<(Seq<char>, Seq<char>)>,
}

/// A way by its text.
#[verifier::ext_equal]
pub struct WayText {
    pub id: i64,
    pub refs: Seq<i64>,
    pub tags: Seq<(Seq<char>, Seq<char>)>,
}

/// A relation by its text: members as type, reference and role.
#[verifier::ext_equal]
pub struct RelationText {
    pub id: i64,
    pub members: Seq<(Seq<char>, i64, Seq<char>)>,
    pub tags: Seq<(Seq<char>, Seq<char>)>,
}

pub open spec fn node_text(n: RawNode) -> NodeText {
    NodeText { id: n.id, lat: n.lat@, lon: n.lon@, tags: pairs_text(n.tags@) }
}

pub open spec fn way_text(w: Way) -> WayText {
    WayText { id: w.id, refs: w.node_refs@, tags: pairs_text(w.tags@) }
}

pub open spec fn relation_text(r: Relation) -> RelationText {
    RelationText {
        id: r.id,
        members: r.members@.map_values(|m: RelationMember| (m.member_type@, m.ref_id, m.role@)),
        tags: pairs_text(r.tags@),
    }
}

/// What reading has gathered: the finished elements by id, and the element
/// being read.
#[verifier::ext_equal]
pub struct ReadState {
    pub nodes: Map<i64, NodeText>,
    pub ways: Map<i64, WayText>,
    pub relations: Map<i64, RelationText>,
    pub node: Option<NodeText>,
    pub way: Option<WayText>,
    pub relation: Option<RelationText>,
}

/// Why reading failed: the XML reader's failure, or bad OSM data.
pub enum ReadError {
    Xml(Seq<char>),
    Data(Seq<char>),
}

/// The value of the first attribute called `name`.
pub open spec fn attr(attrs: Seq<(Seq<char>, Seq<char>)>, name: Seq<char>) -> Option<Seq<char>>
    decreases attrs.len(),
{
    if attrs.len() == 0 {
        None
    } else if attrs[0].0 == name {
        Some(attrs[0].1)
    } else {
        attr(attrs.drop_first(), name)
    }
}

/// The message for an attribute that is missing or invalid.
pub open spec fn attr_message(name: Seq<char>, feature: Seq<char>) -> Seq<char> {
    "Attribute '"@ + name + "' missing or invalid for "@ + feature
}

/// An attribute read as a decimal `i64`.
pub open spec fn int_attr(attrs: Seq<(Seq<char>, Seq<char>)>, name: Seq<char>, feature: Seq<char>) -> Result<i64, ReadError> {
    match attr(attrs, name) {
        Some(v) => match decimal_i64(v) {
            Some(x) => Ok(x),
            None => Err(ReadError::Data(attr_message(name, feature))),
        },
        None => Err(ReadError::Data(attr_message(name, feature))),
    }
}

/// An attribute's value, or the empty text where it is missing.
pub open spec fn attr_or_empty(attrs: Seq<(Seq<char>, Seq<char>)>, name: Seq<char>) -> Seq<char> {
    match attr(attrs, name) {
        Some(v) => v,
        None => Seq::empty(),
    }
}

/// Reading one element start.
pub open spec fn start_step(s: ReadState, name: Seq<char>, a: Seq<(Seq<char>, Seq<char>)>) -> Result<ReadState, ReadError> {
    if name == "node"@ {
        match int_attr(a, "id"@, "Node ID"@) {
            Err(e) => Err(e),
            Ok(id) => match (attr(a, "lat"@), attr(a, "lon"@)) {
                (Some(lat), Some(lon)) if float_text(lat) && float_text(lon) => Ok(
                    ReadState { node: Some(NodeText { id, lat, lon, tags: Seq::empty() }), ..s },
                ),
                (Some(lat), _) if float_text(lat) => Err(ReadError::Data(attr_message("lon"@, "Node lon"@))),
                _ => Err(ReadError::Data(attr_message("lat"@, "Node lat"@))),
            },
        }
    } else if name == "way"@ {
        match int_attr(a, "id"@, "Way ID"@) {
            Err(e) => Err(e),
            Ok(id) => Ok(ReadState { way: Some(WayText { id, refs: Seq::empty(), tags: Seq::empty() }), ..s }),
        }
    } else if name == "relation"@ {
        match int_attr(a, "id"@, "Relation ID"@) {
            Err(e) => Err(e),
            Ok(id) => Ok(ReadState { relation: Some(RelationText { id, members: Seq::empty(), tags: Seq::empty() }), ..s }),
        }
    } else if name == "tag"@ {
        let t = (attr_or_empty(a, "k"@), attr_or_empty(a, "v"@));
        match (s.node, s.way, s.relation) {
            (Some(n), _, _) => Ok(ReadState { node: Some(NodeText { tags: n.tags.push(t), ..n }), ..s }),
            (None, Some(w), _) => Ok(ReadState { way: Some(WayText { tags: w.tags.push(t), ..w }), ..s }),
            (None, None, Some(r)) => Ok(ReadState { relation: Some(RelationText { tags: r.tags.push(t), ..r }), ..s }),
            (None, None, None) => Ok(s),
        }
    } else if name == "nd"@ {
        match s.way {
            Some(w) => match int_attr(a, "ref"@, "Way nd ref"@) {
                Err(e) => Err(e),
                Ok(x) => Ok(ReadState { way: Some(WayText { refs: w.refs.push(x), ..w }), ..s }),
            },
            None => Ok(s),
        }
    } else if name == "member"@ {
        match s.relation {
            Some(r) => match int_attr(a, "ref"@, "Relation member ref"@) {
                Err(e) => Err(e),
                Ok(x) => Ok(ReadState {
                    relation: Some(RelationText { members: r.members.push((attr_or_empty(a, "type"@), x, attr_or_empty(a, "role"@))), ..r }),
                    ..s
                }),
            },
            None => Ok(s),
        }
    } else {
        Ok(s)
    }
}

/// Reading one element end: a finished node, way or relation is kept under
/// its id, replacing an earlier one with that id.
pub open spec fn end_step(s: ReadState, name: Seq<char>) -> ReadState {
    if name == "node"@ {
        match s.node {
            Some(n) => ReadState { nodes: s.nodes.insert(n.id, n), node: None, ..s },
            None => s,
        }
    } else if name == "way"@ {
        match s.way {
            Some(w) => ReadState { ways: s.ways.insert(w.id, w), way: None, ..s },
            None => s,
        }
    } else if name == "relation"@ {
        match s.relation {
            Some(r) => ReadState { relations: s.relations.insert(r.id, r), relation: None, ..s },
            None => s,
        }
    } else {
        s
    }
}

/// Reading one event.
pub open spec fn read_step(s: ReadState, item: ItemText) -> Result<ReadState, ReadError> {
    match item {
        ItemText::Start(name, a) => start_step(s, name, a),
        ItemText::End(name) => Ok(end_step(s, name)),
        ItemText::Other => Ok(s),
        ItemText::Failure(m) => Err(ReadError::Xml(m)),
    }
}

/// Nothing read yet.
pub open spec fn empty_state() -> ReadState {
    ReadState {
        nodes: Map::empty(),
        ways: Map::empty(),
        relations: Map::empty(),
        node: None,
        way: None,
        relation: None,
    }
}

/// Reading a sequence of events from the start; the first failure stops it.
pub open spec fn read_all(items: Seq<ItemText>) -> Result<ReadState, ReadError>
    decreases items.len(),
{
    if items.len() == 0 {
        Ok(empty_state())
    } else {
        match read_all(items.drop_last()) {
            Ok(s) => read_step(s, items.last()),
            Err(e) => Err(e),
        }
    }
}

/// A `tag` start inside the element being read (a node, else a way, else a
/// relation) adds the pair of its `k` and `v` attributes, key first, to that
/// element's tags, and changes nothing else.
pub proof fn lemma_tag_key_first(s: ReadState, a: Seq<(Seq<char>, Seq<char>)>, k: Seq<char>, v: Seq<char>)
    requires
        attr(a, "k"@) == Some(k),
        attr(a, "v"@) == Some(v),
    ensures
        s.node matches Some(n) ==> read_step(s, ItemText::Start("tag"@, a)) == Ok::<ReadState, ReadError>(
            ReadState { node: Some(NodeText { tags: n.tags.push((k, v)), ..n }), ..s },
        ),
        (s.node is None && s.way is Some) ==> read_step(s, ItemText::Start("tag"@, a)) == Ok::<ReadState, ReadError>(
            ReadState { way: Some(WayText { tags: s.way->0.tags.push((k, v)), ..s.way->0 }), ..s },
        ),
        (s.node is None && s.way is None && s.relation is Some) ==> read_step(s, ItemText::Start("tag"@, a)) == Ok::<
            ReadState,
            ReadError,
        >(ReadState { relation: Some(RelationText { tags: s.relation->0.tags.push((k, v)), ..s.relation->0 }), ..s }),
{
    reveal_strlit("tag");
    reveal_strlit("node");
    reveal_strlit("way");
    reveal_strlit("relation");
    assert("tag"@ != "node"@ && "tag"@ != "way"@ && "tag"@ != "relation"@) by {
        assert("tag"@.len() != "node"@.len());
        assert("tag"@[0] != "way"@[0]);
        assert("tag"@.len() != "relation"@.len());
    }
}

/// A document holding one way, with id `id` written as `id_text`, that holds
/// one tag with key `k` and value `v`, reads as that way with the tag
/// `(k, v)` and no node references.
pub proof fn lemma_one_tagged_way(id_text: Seq<char>, id: i64, k: Seq<char>, v: Seq<char>)
    requires
        decimal_i64(id_text) == Some(id),
    ensures
        ({
            let events = seq![
                ItemText::Start("way"@, seq![("id"@, id_text)]),
                ItemText::Start("tag"@, seq![("k"@, k), ("v"@, v)]),
                ItemText::End("tag"@),
                ItemText::End("way"@),
            ];
            read_all(events) matches Ok(st) && st.ways.contains_key(id) && st.ways[id].tags == seq![(k, v)]
                && st.ways[id].refs.len() == 0
        }),
{
    reveal_strlit("tag");
    reveal_strlit("node");
    reveal_strlit("way");
    reveal_strlit("relation");
    reveal_strlit("id");
    reveal_strlit("k");
    reveal_strlit("v");
    let events = seq![
        ItemText::Start("way"@, seq![("id"@, id_text)]),
        ItemText::Start("tag"@, seq![("k"@, k), ("v"@, v)]),
        ItemText::End("tag"@),
        ItemText::End("way"@),
    ];
    assert("way"@ != "node"@) by {
        assert("way"@.len() != "node"@.len());
    }
    assert("k"@ != "v"@) by {
        assert("k"@[0] != "v"@[0]);
    }
    let a1 = seq![("id"@, id_text)];
    assert(attr(a1, "id"@) == Some(id_text));
    let s1 = ReadState { way: Some(WayText { id, refs: Seq::empty(), tags: Seq::empty() }), ..empty_state() };
    assert(events.take(1).drop_last() =~= Seq::<ItemText>::empty());
    assert(read_all(events.take(1).drop_last()) == Ok::<ReadState, ReadError>(empty_state()));
    assert(events.take(1).last() == ItemText::Start("way"@, a1));
    assert(int_attr(a1, "id"@, "Way ID"@) == Ok::<i64, ReadError>(id));
    assert(start_step(empty_state(), "way"@, a1) == Ok::<ReadState, ReadError>(s1));
    assert(read_all(events.take(1)) == Ok::<ReadState, ReadError>(s1));
    let a2 = seq![("k"@, k), ("v"@, v)];
    assert(attr(a2, "k"@) == Some(k));
    assert(a2.drop_first() =~= seq![("v"@, v)]);
    assert(attr(seq![("v"@, v)], "v"@) == Some(v));
    assert(attr(a2, "v"@) == Some(v));
    lemma_tag_key_first(s1, a2, k, v);
    let s2 = ReadState { way: Some(WayText { id, refs: Seq::empty(), tags: seq![(k, v)] }), ..empty_state() };
    assert(Seq::<(Seq<char>, Seq<char>)>::empty().push((k, v)) =~= seq![(k, v)]);
    assert(events.take(2).drop_last() =~= events.take(1));
    assert(read_all(events.take(2)) == Ok::<ReadState, ReadError>(s2));
    assert("tag"@ != "way"@ && "tag"@ != "node"@ && "tag"@ != "relation"@) by {
        assert("tag"@[0] != "way"@[0]);
        assert("tag"@.len() != "node"@.len());
        assert("tag"@.len() != "relation"@.len());
    }
    assert(events.take(3).drop_last() =~= events.take(2));
    assert(read_all(events.take(3)) == Ok::<ReadState, ReadError>(s2));
    assert(events.take(4).drop_last() =~= events.take(3));
    assert(events.take(4) =~= events);
}

/// The nodes, ways and relations of an OSM XML document, by id.
pub struct OsmElements {
    pub nodes: HashMap<i64, RawNode>,
    pub ways: HashMap<i64, Way>,
    pub relations: HashMap<i64, Relation>,
}

pub open spec fn opt_node_text(o: Option<RawNode>) -> Option<NodeText> {
    match o {
        Some(n) => Some(node_text(n)),
        None => None,
    }
}

pub open spec fn opt_way_text(o: Option<Way>) -> Option<WayText> {
    match o {
        Some(w) => Some(way_text(w)),
        None => None,
    }
}

pub open spec fn opt_relation_text(o: Option<Relation>) -> Option<RelationText> {
    match o {
        Some(r) => Some(relation_text(r)),
        None => None,
    }
}

/// The finished elements read are those of the state.
pub open spec fn elements_match(
    nodes: Map<i64, RawNode>,
    ways: Map<i64, Way>,
    rels: Map<i64, Relation>,
    s: ReadState,
) -> bool {
    &&& forall|k: i64| #[trigger] nodes.contains_key(k) <==> s.nodes.contains_key(k)
    &&& forall|k: i64| #[trigger] nodes.contains_key(k) ==> node_text(nodes[k]) == s.nodes[k]
    &&& forall|k: i64| #[trigger] ways.contains_key(k) <==> s.ways.contains_key(k)
    &&& forall|k: i64| #[trigger] ways.contains_key(k) ==> way_text(ways[k]) == s.ways[k]
    &&& forall|k: i64| #[trigger] rels.contains_key(k) <==> s.relations.contains_key(k)
    &&& forall|k: i64| #[trigger] rels.contains_key(k) ==> relation_text(rels[k]) == s.relations[k]
}

/// The value of the first attribute called `name`.
fn get_attribute<'a>(attrs: &'a Vec<(String, String)>, name: &str) -> (r: Option<&'a String>)
    ensures
        match r {
            Some(v) => attr(pairs_text(attrs@), name@) == Some(v@),
            None => attr(pairs_text(attrs@), name@) is None,
        },
{
    let ghost a = pairs_text(attrs@);
    let mut i: usize = 0;
    assert(a.subrange(0, a.len() as int) == a);
    while i < attrs.len()
        invariant
            a == pairs_text(attrs@),
            i <= attrs@.len(),
            attr(a, name@) == attr(a.subrange(i as int, a.len() as int), name@),
        decreases attrs@.len() - i,
    {
        let ghost rest = a.subrange(i as int, a.len() as int);
        assert(rest[0] == a[i as int]);
        assert(rest.drop_first() == a.subrange(i + 1, a.len() as int));
        if str_eq(attrs[i].0.as_str(), name) {
            return Some(&attrs[i].1);
        }
        i = i + 1;
    }
    None
}

/// An attribute's value, or the empty text where it is missing.
fn attribute_or_empty(attrs: &Vec<(String, String)>, name: &str) -> (r: String)
    ensures
        r@ == attr_or_empty(pairs_text(attrs@), name@),
{
    match get_attribute(attrs, name) {
        Some(v) => owned(v.as_str()),
        None => String::new(),
    }
}

/// An attribute read as a decimal `i64`.
fn parse_int_attribute(attrs: &Vec<(String, String)>, name: &str, feature: &str) -> (r: Result<i64, GraphError>)
    ensures
        match (r, int_attr(pairs_text(attrs@), name@, feature@)) {
            (Ok(x), Ok(y)) => x == y,
            (Err(GraphError::InvalidOsmData(m)), Err(ReadError::Data(mv))) => m@ == mv,
            _ => false,
        },
{
    proof {
        reveal_strlit("Attribute '");
        reveal_strlit("' missing or invalid for ");
    }
    if let Some(v) = get_attribute(attrs, name) {
        if let Some(x) = parse_i64(v.as_str()) {
            return Ok(x);
        }
    }
    let mut msg = owned("Attribute '");
    msg.append(name);
    msg.append("' missing or invalid for ");
    msg.append(feature);
    Err(GraphError::InvalidOsmData(msg))
}

/// The first attribute called `attribute_name`, read as a decimal `i64`;
/// where it is missing or does not read, an error with `error_message`.
pub fn parse_attribute(attributes: &Vec<(String, String)>, attribute_name: &str, error_message: &str) -> (r: Result<
    i64,
    GraphError,
>)
    ensures
        match attr(pairs_text(attributes@), attribute_name@) {
            Some(v) if decimal_i64(v) is Some => r == Ok::<i64, GraphError>(decimal_i64(v)->0),
            _ => r matches Err(GraphError::InvalidOsmData(m)) && m@ == error_message@,
        },
{
    if let Some(v) = get_attribute(attributes, attribute_name) {
        if let Some(x) = parse_i64(v.as_str()) {
            return Ok(x);
        }
    }
    Err(GraphError::InvalidOsmData(owned(error_message)))
}

/// The elements read so far, and the element being read.
struct Reader {
    nodes: HashMap<i64, RawNode>,
    ways: HashMap<i64, Way>,
    relations: HashMap<i64, Relation>,
    node: Option<RawNode>,
    way: Option<Way>,
    relation: Option<Relation>,
}

impl Reader {
    /// The reader holds what the state describes.
    spec fn matches(&self, s: ReadState) -> bool {
        &&& elements_match(self.nodes@, self.ways@, self.relations@, s)
        &&& opt_node_text(self.node) == s.node
        &&& opt_way_text(self.way) == s.way
        &&& opt_relation_text(self.relation) == s.relation
    }

    /// Reads an element's start.
    fn start(&mut self, name: &str, attrs: &Vec<(String, String)>, Ghost(s0): Ghost<ReadState>) -> (r: Result<(), GraphError>)
        requires
            old(self).matches(s0),
        ensures
            match (r, start_step(s0, name@, pairs_text(attrs@))) {
                (Ok(()), Ok(s1)) => final(self).matches(s1),
                (Err(GraphError::InvalidOsmData(m)), Err(ReadError::Data(mv))) => m@ == mv,
                _ => false,
            },
    {
        proof {
            reveal_strlit("node");
            reveal_strlit("way");
            reveal_strlit("relation");
            reveal_strlit("tag");
            reveal_strlit("nd");
            reveal_strlit("member");
            reveal_strlit("Attribute '");
            reveal_strlit("' missing or invalid for ");
            reveal_strlit("lat");
            reveal_strlit("lon");
            reveal_strlit("Node lat");
            reveal_strlit("Node lon");
        }
        let ghost a = pairs_text(attrs@);
        if str_eq(name, "node") {
            let id = match parse_int_attribute(attrs, "id", "Node ID") {
                Ok(x) => x,
                Err(e) => {
                    return Err(e);
                },
            };
            let lat = match get_attribute(attrs, "lat") {
                Some(v) if is_float_text(v.as_str()) => owned(v.as_str()),
                _ => {
                    let mut msg = owned("Attribute '");
                    msg.append("lat");
                    msg.append("' missing or invalid for ");
                    msg.append("Node lat");
                    return Err(GraphError::InvalidOsmData(msg));
                },
            };
            let lon = match get_attribute(attrs, "lon") {
                Some(v) if is_float_text(v.as_str()) => owned(v.as_str()),
                _ => {
                    let mut msg = owned("Attribute '");
                    msg.append("lon");
                    msg.append("' missing or invalid for ");
                    msg.append("Node lon");
                    return Err(GraphError::InvalidOsmData(msg));
                },
            };
            self.node = Some(RawNode { id, lat, lon, tags: Vec::new() });
            proof {
                let s1 = start_step(s0, name@, a)->Ok_0;
                assert(opt_node_text(self.node) =~~= s1.node);
            }
            Ok(())
        } else if str_eq(name, "way") {
            let id = match parse_int_attribute(attrs, "id", "Way ID") {
                Ok(x) => x,
                Err(e) => {
                    return Err(e);
                },
            };
            self.way = Some(Way { id, node_refs: Vec::new(), tags: Vec::new() });
            proof {
                let s1 = start_step(s0, name@, a)->Ok_0;
                assert(opt_way_text(self.way) =~~= s1.way);
            }
            Ok(())
        } else if str_eq(name, "relation") {
            let id = match parse_int_attribute(attrs, "id", "Relation ID") {
                Ok(x) => x,
                Err(e) => {
                    return Err(e);
                },
            };
            self.relation = Some(Relation { id, members: Vec::new(), tags: Vec::new() });
            proof {
                let s1 = start_step(s0, name@, a)->Ok_0;
                assert(opt_relation_text(self.relation) =~~= s1.relation);
            }
            Ok(())
        } else if str_eq(name, "tag") {
            let k = attribute_or_empty(attrs, "k");
            let v = attribute_or_empty(attrs, "v");
            let ghost t = (k@, v@);
            if let Some(n) = &mut self.node {
                let ghost tags0 = n.tags@;
                n.tags.push((k, v));
                proof {
                    assert(pairs_text(n.tags@) =~= pairs_text(tags0).push(t));
                }
            } else if let Some(w) = &mut self.way {
                let ghost tags0 = w.tags@;
                w.tags.push((k, v));
                proof {
                    assert(pairs_text(w.tags@) =~= pairs_text(tags0).push(t));
                }
            } else if let Some(r) = &mut self.relation {
                let ghost tags0 = r.tags@;
                r.tags.push((k, v));
                proof {
                    assert(pairs_text(r.tags@) =~= pairs_text(tags0).push(t));
                }
            }
            proof {
                let s1 = start_step(s0, name@, a)->Ok_0;
                assert(opt_node_text(self.node) =~~= s1.node);
                assert(opt_way_text(self.way) =~~= s1.way);
                assert(opt_relation_text(self.relation) =~~= s1.relation);
            }
            Ok(())
        } else if str_eq(name, "nd") {
            if let Some(w) = &mut self.way {
                let x = match parse_int_attribute(attrs, "ref", "Way nd ref") {
                    Ok(x) => x,
                    Err(e) => {
                        return Err(e);
                    },
                };
                w.node_refs.push(x);
                proof {
                    let s1 = start_step(s0, name@, a)->Ok_0;
                    assert(opt_way_text(self.way) =~~= s1.way);
                }
            }
            Ok(())
        } else if str_eq(name, "member") {
            if let Some(r) = &mut self.relation {
                let member_type = attribute_or_empty(attrs, "type");
                let x = match parse_int_attribute(attrs, "ref", "Relation member ref") {
                    Ok(x) => x,
                    Err(e) => {
                        return Err(e);
                    },
                };
                let role = attribute_or_empty(attrs, "role");
                let ghost m0 = r.members@;
                let ghost mt = (member_type@, x, role@);
                r.members.push(RelationMember { member_type, ref_id: x, role });
                proof {
                    assert(r.members@.map_values(|m: RelationMember| (m.member_type@, m.ref_id, m.role@))
                        =~= m0.map_values(|m: RelationMember| (m.member_type@, m.ref_id, m.role@)).push(mt));
                    let s1 = start_step(s0, name@, a)->Ok_0;
                    assert(opt_relation_text(self.relation) =~~= s1.relation);
                }
            }
            Ok(())
        } else {
            Ok(())
        }
    }

    /// Reads an element's end.
    fn end(&mut self, name: &str, Ghost(s0): Ghost<ReadState>)
        requires
            old(self).matches(s0),
        ensures
            final(self).matches(end_step(s0, name@)),
    {
        proof {
            reveal_strlit("node");
            reveal_strlit("way");
            reveal_strlit("relation");
        }
        if str_eq(name, "node") {
            if let Some(n) = self.node.take() {
                let ghost nt = node_text(n);
                let ghost m0 = self.nodes@;
                self.nodes.insert(n.id, n);
                proof {
                    let s1 = end_step(s0, name@);
                    assert forall|k: i64| #[trigger] self.nodes@.contains_key(k) implies node_text(self.nodes@[k]) == s1.nodes[k] by {
                        if k != nt.id {
                            assert(m0.contains_key(k));
                        }
                    }
                }
            }
        } else if str_eq(name, "way") {
            if let Some(w) = self.way.take() {
                let ghost wt = way_text(w);
                let ghost m0 = self.ways@;
                self.ways.insert(w.id, w);
                proof {
                    let s1 = end_step(s0, name@);
                    assert forall|k: i64| #[trigger] self.ways@.contains_key(k) implies way_text(self.ways@[k]) == s1.ways[k] by {
                        if k != wt.id {
                            assert(m0.contains_key(k));
                        }
                    }
                }
            }
        } else if str_eq(name, "relation") {
            if let Some(r) = self.relation.take() {
                let ghost rt = relation_text(r);
                let ghost m0 = self.relations@;
                self.relations.insert(r.id, r);
                proof {
                    let s1 = end_step(s0, name@);
                    assert forall|k: i64| #[trigger] self.relations@.contains_key(k) implies relation_text(self.relations@[k]) == s1.relations[k] by {
                        if k != rt.id {
                            assert(m0.contains_key(k));
                        }
                    }
                }
            }
        }
    }
}

/// A failure stops reading: later events change nothing.
proof fn lemma_failure_stays(texts: Seq<ItemText>, k: int)
    requires
        0 <= k <= texts.len(),
        read_all(texts.subrange(0, k)) is Err,
    ensures
        read_all(texts) == read_all(texts.subrange(0, k)),
    decreases texts.len() - k,
{
    if k < texts.len() {
        assert(texts.subrange(0, k + 1).drop_last() == texts.subrange(0, k));
        lemma_failure_stays(texts, k + 1);
    } else {
        assert(texts.subrange(0, k) == texts);
    }
}

/// Reads the nodes, ways and relations of an OSM XML document, each kept
/// under its id (a later element replaces an earlier one with the same id);
/// the coordinates of nodes are kept as written. Fails on the XML reader's
/// first error, or on an element whose id, node reference or member
/// reference is missing or not a decimal `i64`, or on a node without `lat`
/// or `lon`; whichever comes first.
pub fn read_osm_xml(xml_data: &str) -> (r: Result<OsmElements, GraphError>)
    ensures
        match (r, read_all(xml_events(xml_data@))) {
            (Ok(el), Ok(s)) => elements_match(el.nodes@, el.ways@, el.relations@, s),
            (Err(GraphError::XmlParsing(m)), Err(ReadError::Xml(mv))) => m@ == mv,
            (Err(GraphError::InvalidOsmData(m)), Err(ReadError::Data(mv))) => m@ == mv,
            _ => false,
        },
{
    let items = read_xml_events(xml_data);
    read_osm_events(items)
}

/// The nodes, ways and relations that a list of XML events describes, as
/// `read_osm_xml` reads them from the events of a document.
pub fn read_osm_events(items: Vec<XmlItem>) -> (r: Result<OsmElements, GraphError>)
    ensures
        match (r, read_all(items@.map_values(|i: XmlItem| item_text(i)))) {
            (Ok(el), Ok(s)) => elements_match(el.nodes@, el.ways@, el.relations@, s),
            (Err(GraphError::XmlParsing(m)), Err(ReadError::Xml(mv))) => m@ == mv,
            (Err(GraphError::InvalidOsmData(m)), Err(ReadError::Data(mv))) => m@ == mv,
            _ => false,
        },
{
    let ghost texts = items@.map_values(|i: XmlItem| item_text(i));
    let mut rd = Reader {
        nodes: HashMap::new(),
        ways: HashMap::new(),
        relations: HashMap::new(),
        node: None,
        way: None,
        relation: None,
    };
    let ghost mut st = empty_state();
    assert(rd.matches(st));
    let ghost all = items@;
    for item in it: items
        invariant
            all == it.seq(),
            texts == all.map_values(|i: XmlItem| item_text(i)),
            read_all(texts.subrange(0, it.index() as int)) == Ok::<ReadState, ReadError>(st),
            rd.matches(st),
    {
        let ghost k = it.index();
        proof {
            assert(texts.subrange(0, k + 1).drop_last() == texts.subrange(0, k as int));
            assert(texts.subrange(0, k + 1).last() == item_text(item));
        }
        match item {
            XmlItem::Start(name, attrs) => {
                match rd.start(name.as_str(), &attrs, Ghost(st)) {
                    Ok(()) => {
                        proof {
                            st = start_step(st, name@, pairs_text(attrs@))->Ok_0;
                        }
                    },
                    Err(e) => {
                        proof {
                            lemma_failure_stays(texts, k + 1);
                        }
                        return Err(e);
                    },
                }
            },
            XmlItem::End(name) => {
                rd.end(name.as_str(), Ghost(st));
                proof {
                    st = end_step(st, name@);
                }
            },
            XmlItem::Other => {},
            XmlItem::Failure(m) => {
                proof {
                    lemma_failure_stays(texts, k + 1);
                }
                return Err(GraphError::XmlParsing(m));
            },
        }
    }
    proof {
        assert(texts.subrange(0, texts.len() as int) == texts);
    }
    Ok(OsmElements { nodes: rd.nodes, ways: rd.ways, relations: rd.relations })
}

} // verus!
