use vstd::prelude::*;
use crate::builder::{
    access_verdict, all_distinct, forbids, id_of, interned_tags, lemma_id_of, lookup, names_profile,
    oneway_direction, penalty_usable, permits, tag_str, tags_numbered, way_direction, way_penalty, way_usable_under,
    InternedProfile, Penalty,
};
use crate::types::{tag_value, Profile, Way};

verus! {

/// Whether the access tags `keys` let a way with tags `tags` through: any
/// granting value does; else any denying value keeps it out; else it is open.
pub open spec fn access_allowed(keys: Seq<String>, tags: Seq<(String, String)>, denied: bool) -> bool
    decreases keys.len(),
{
    if keys.len() == 0 {
        !denied
    } else {
        match tag_value(tags, keys[0]@) {
            Some(v) => if permits(v) {
                true
            } else {
                access_allowed(keys.drop_first(), tags, denied || forbids(v))
            },
            None => access_allowed(keys.drop_first(), tags, denied),
        }
    }
}

/// Travel directions that the one-way tags `keys` allow, forward and backward:
/// the first of them that the way sets with a known value decides.
pub open spec fn oneway_allowed(keys: Seq<String>, tags: Seq<(String, String)>) -> (bool, bool)
    decreases keys.len(),
{
    if keys.len() == 0 {
        (true, true)
    } else {
        match tag_value(tags, keys[0]@) {
            Some(s) => if s == "yes"@ || s == "true"@ || s == "1"@ {
                (true, false)
            } else if s == "reverse"@ || s == "-1"@ {
                (false, true)
            } else if s == "no"@ {
                (true, true)
            } else {
                oneway_allowed(keys.drop_first(), tags)
            },
            None => oneway_allowed(keys.drop_first(), tags),
        }
    }
}

/// Travel directions of a way under a profile: roundabouts are one-way
/// forward; else the profile's one-way tags decide.
pub open spec fn directions_of(p: Profile, tags: Seq<(String, String)>) -> (bool, bool) {
    let j = tag_value(tags, "junction"@);
    if j == Some("roundabout"@) || j == Some("circular"@) {
        (true, false)
    } else {
        oneway_allowed(p.oneway_tags@, tags)
    }
}

/// The penalty the profile lists last for value `v`, as float bits.
pub open spec fn listed_penalty(ps: Seq<(String, u64)>, v: Seq<char>) -> Option<u64>
    decreases ps.len(),
{
    if ps.len() == 0 {
        None
    } else if ps.last().0@ == v {
        Some(ps.last().1)
    } else {
        listed_penalty(ps.drop_last(), v)
    }
}

/// The penalty of a way under a profile: none when its access tags keep it
/// out; else the one the profile lists for its value of the profile's key,
/// or the default.
pub open spec fn penalty_of_way(p: Profile, tags: Seq<(String, String)>) -> Option<Penalty> {
    if !access_allowed(p.access_tags@, tags, false) {
        None
    } else {
        let listed = match tag_value(tags, p.key@) {
            Some(v) => listed_penalty(p.penalties.penalties@, v),
            None => None,
        };
        match listed {
            Some(b) => Some(Penalty::Listed(b)),
            None => match p.penalties.default {
                Some(d) => Some(Penalty::Default(d)),
                None => None,
            },
        }
    }
}

/// A way can be travelled under a profile: a penalty that makes it
/// travellable, and some direction open.
pub open spec fn travellable(p: Profile, w: Way) -> bool {
    let dir = directions_of(p, w.tags@);
    penalty_of_way(p, w.tags@) matches Some(pen) && penalty_usable(pen) && (dir.0 || dir.1)
}

/// Looking a tag up by its key's number finds the number of the value that
/// looking it up by the key finds.
proof fn lemma_lookup_named(st: Seq<Seq<char>>, tags: Seq<(String, String)>, key: Seq<char>)
    requires
        all_distinct(st),
        st.len() <= u32::MAX,
        st.contains(key),
        forall|t: int| 0 <= t < tags.len() ==> st.contains((#[trigger] tags[t]).0@) && st.contains(tags[t].1@),
    ensures
        lookup(interned_tags(st, tags), id_of(st, key)) == match tag_value(tags, key) {
            Some(v) => Some(id_of(st, v)),
            None => None::<u32>,
        },
    decreases tags.len(),
{
    if tags.len() > 0 {
        let rest = tags.drop_last();
        assert forall|t: int| 0 <= t < rest.len() implies st.contains((#[trigger] rest[t]).0@) && st.contains(rest[t].1@) by {
            assert(rest[t] == tags[t]);
        }
        lemma_lookup_named(st, rest, key);
        assert(interned_tags(st, tags).drop_last() =~= interned_tags(st, rest));
        let last = tags.last();
        assert(st.contains(tags[tags.len() - 1].0@));
        let ia = choose|i: int| 0 <= i < st.len() && st[i] == last.0@;
        let ik = choose|i: int| 0 <= i < st.len() && st[i] == key;
        lemma_id_of(st, ia);
        lemma_id_of(st, ik);
        assert(interned_tags(st, tags).last().0 == id_of(st, last.0@));
    }
}

/// A profile number that names string `s` is the number of `s`.
proof fn lemma_named_id(st: Seq<Seq<char>>, k: u32, s: Seq<char>)
    requires
        all_distinct(st),
        st.len() <= u32::MAX,
        k < st.len(),
        st[k as int] == s,
    ensures
        st.contains(s),
        id_of(st, s) == k,
{
    lemma_id_of(st, k as int);
}

proof fn lemma_access_named(
    st: Seq<Seq<char>>,
    keys: Seq<u32>,
    names: Seq<String>,
    tags: Seq<(String, String)>,
    denied: bool,
)
    requires
        all_distinct(st),
        st.len() <= u32::MAX,
        keys.len() == names.len(),
        forall|i: int| 0 <= i < keys.len() ==> (#[trigger] keys[i]) < st.len() && st[keys[i] as int] == names[i]@,
        forall|t: int| 0 <= t < tags.len() ==> st.contains((#[trigger] tags[t]).0@) && st.contains(tags[t].1@),
    ensures
        access_verdict(st, keys, interned_tags(st, tags), denied) == access_allowed(names, tags, denied),
    decreases keys.len(),
{
    if keys.len() > 0 {
        lemma_named_id(st, keys[0], names[0]@);
        lemma_lookup_named(st, tags, names[0]@);
        assert forall|i: int| 0 <= i < keys.drop_first().len() implies (#[trigger] keys.drop_first()[i]) < st.len()
            && st[keys.drop_first()[i] as int] == names.drop_first()[i]@ by {
            assert(keys.drop_first()[i] == keys[i + 1]);
            assert(names.drop_first()[i] == names[i + 1]);
        }
        lemma_access_named(st, keys.drop_first(), names.drop_first(), tags, true);
        lemma_access_named(st, keys.drop_first(), names.drop_first(), tags, false);
        lemma_access_named(st, keys.drop_first(), names.drop_first(), tags, denied);
        match tag_value(tags, names[0]@) {
            Some(v) => {
                lemma_tag_value_in(tags, names[0]@);
                let vv = v;
                assert(st.contains(vv));
                let iv = choose|i: int| 0 <= i < st.len() && st[i] == vv;
                lemma_id_of(st, iv);
            },
            None => {},
        }
    }
}

proof fn lemma_oneway_named(st: Seq<Seq<char>>, keys: Seq<u32>, names: Seq<String>, tags: Seq<(String, String)>)
    requires
        all_distinct(st),
        st.len() <= u32::MAX,
        keys.len() == names.len(),
        forall|i: int| 0 <= i < keys.len() ==> (#[trigger] keys[i]) < st.len() && st[keys[i] as int] == names[i]@,
        forall|t: int| 0 <= t < tags.len() ==> st.contains((#[trigger] tags[t]).0@) && st.contains(tags[t].1@),
    ensures
        oneway_direction(st, keys, interned_tags(st, tags)) == oneway_allowed(names, tags),
    decreases keys.len(),
{
    if keys.len() > 0 {
        lemma_named_id(st, keys[0], names[0]@);
        lemma_lookup_named(st, tags, names[0]@);
        assert forall|i: int| 0 <= i < keys.drop_first().len() implies (#[trigger] keys.drop_first()[i]) < st.len()
            && st[keys.drop_first()[i] as int] == names.drop_first()[i]@ by {
            assert(keys.drop_first()[i] == keys[i + 1]);
            assert(names.drop_first()[i] == names[i + 1]);
        }
        lemma_oneway_named(st, keys.drop_first(), names.drop_first(), tags);
        match tag_value(tags, names[0]@) {
            Some(v) => {
                lemma_tag_value_in(tags, names[0]@);
                let iv = choose|i: int| 0 <= i < st.len() && st[i] == v;
                lemma_id_of(st, iv);
            },
            None => {},
        }
    }
}

/// A value that a tag lookup finds is the value of one of the tags.
proof fn lemma_tag_value_in(tags: Seq<(String, String)>, key: Seq<char>)
    ensures
        tag_value(tags, key) matches Some(v) ==> exists|t: int| 0 <= t < tags.len() && (#[trigger] tags[t]).1@ == v,
        (forall|t: int| 0 <= t < tags.len() ==> (#[trigger] tags[t]).0@ != key) ==> tag_value(tags, key) is None,
    decreases tags.len(),
{
    if tags.len() > 0 {
        lemma_tag_value_in(tags.drop_last(), key);
        if tag_value(tags, key) is Some && tags.last().0@ != key {
            let v = tag_value(tags, key)->0;
            let t = choose|t: int| 0 <= t < tags.drop_last().len() && (#[trigger] tags.drop_last()[t]).1@ == v;
            assert(tags[t] == tags.drop_last()[t]);
        }
        if tag_value(tags, key) is Some && tags.last().0@ == key {
            assert(tags[tags.len() - 1] == tags.last());
        }
        if forall|t: int| 0 <= t < tags.len() ==> (#[trigger] tags[t]).0@ != key {
            assert forall|t: int| 0 <= t < tags.drop_last().len() implies (#[trigger] tags.drop_last()[t]).0@ != key by {
                assert(tags.drop_last()[t] == tags[t]);
            }
            assert(tags[tags.len() - 1] == tags.last());
        }
    }
}

proof fn lemma_listed_named(st: Seq<Seq<char>>, pens: Seq<(u32, u64)>, named: Seq<(String, u64)>, v: Seq<char>)
    requires
        all_distinct(st),
        st.len() <= u32::MAX,
        st.contains(v),
        pens.len() == named.len(),
        forall|i: int| 0 <= i < pens.len() ==> (#[trigger] pens[i]).0 < st.len() && st[pens[i].0 as int] == named[i].0@
            && pens[i].1 == named[i].1,
    ensures
        lookup(pens, id_of(st, v)) == listed_penalty(named, v),
    decreases pens.len(),
{
    if pens.len() > 0 {
        assert forall|i: int| 0 <= i < pens.drop_last().len() implies (#[trigger] pens.drop_last()[i]).0 < st.len()
            && st[pens.drop_last()[i].0 as int] == named.drop_last()[i].0@ && pens.drop_last()[i].1
            == named.drop_last()[i].1 by {
            assert(pens.drop_last()[i] == pens[i]);
            assert(named.drop_last()[i] == named[i]);
        }
        lemma_listed_named(st, pens.drop_last(), named.drop_last(), v);
        let l = pens.len() - 1;
        assert(pens.last() == pens[l] && named.last() == named[l]);
        lemma_id_of(st, pens[l].0 as int);
        let iv = choose|i: int| 0 <= i < st.len() && st[i] == v;
        lemma_id_of(st, iv);
    }
}

/// Under strings that name the profile, with the way's tags among them, the
/// verdict taken on numbers is the verdict taken on the strings themselves.
pub proof fn lemma_verdict_by_names(st: Seq<Seq<char>>, prof: InternedProfile, p: Profile, w: Way)
    requires
        all_distinct(st),
        st.len() <= u32::MAX,
        names_profile(st, prof, p),
        tags_numbered(st, w),
    ensures
        way_usable_under(st, prof, w) == travellable(p, w),
        way_penalty(st, prof.key, prof.penalties@, prof.default_penalty, prof.access_tags@, interned_tags(st, w.tags@))
            == penalty_of_way(p, w.tags@),
{
    let tags = w.tags@;
    let it = interned_tags(st, tags);
    assert forall|t: int| 0 <= t < tags.len() implies st.contains((#[trigger] tags[t]).0@) && st.contains(tags[t].1@) by {
    }
    lemma_access_named(st, prof.access_tags@, p.access_tags@, tags, false);
    lemma_oneway_named(st, prof.oneway_tags@, p.oneway_tags@, tags);
    lemma_named_id(st, prof.key, p.key@);
    lemma_lookup_named(st, tags, p.key@);
    match tag_value(tags, p.key@) {
        Some(v) => {
            lemma_tag_value_in(tags, p.key@);
            lemma_listed_named(st, prof.penalties@, p.penalties.penalties@, v);
        },
        None => {},
    }
    if st.contains("junction"@) {
        lemma_lookup_named(st, tags, "junction"@);
        match tag_value(tags, "junction"@) {
            Some(v) => {
                lemma_tag_value_in(tags, "junction"@);
                let iv = choose|i: int| 0 <= i < st.len() && st[i] == v;
                lemma_id_of(st, iv);
            },
            None => {},
        }
    } else {
        lemma_tag_value_in(tags, "junction"@);
        assert forall|t: int| 0 <= t < tags.len() implies (#[trigger] tags[t]).0@ != "junction"@ by {
            assert(st.contains(tags[t].0@));
        }
    }
    assert(tag_str(st, it, "junction"@) == tag_value(tags, "junction"@));
    assert(way_direction(st, prof.oneway_tags@, it) == directions_of(p, tags));
    assert(way_penalty(st, prof.key, prof.penalties@, prof.default_penalty, prof.access_tags@, it) == penalty_of_way(
        p,
        tags,
    ));
}

} // verus!
