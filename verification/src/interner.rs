use vstd::prelude::*;
use std::collections::HashMap;
use crate::text::chars_of;

verus! {

broadcast use vstd::std_specs::hash::group_hash_axioms;

/// FNV-1a over the code points of a string.
pub open spec fn str_hash(s: Seq<char>) -> u64
    decreases s.len(),
{
    if s.len() == 0 {
        0xcbf2_9ce4_8422_2325
    } else {
        vstd::wrapping::u64_specs::wrapping_mul(
            str_hash(s.drop_last()) ^ (s.last() as u64),
            0x0000_0100_0000_01b3,
        )
    }
}

pub fn hash_str(s: &str) -> (h: u64)
    ensures
        h == str_hash(s@),
{
    let cs = chars_of(s);
    let mut h: u64 = 0xcbf2_9ce4_8422_2325;
    let mut i: usize = 0;
    while i < cs.len()
        invariant
            cs@ == s@,
            i <= cs@.len(),
            h == str_hash(cs@.subrange(0, i as int)),
        decreases cs@.len() - i,
    {
        proof {
            assert(cs@.subrange(0, i + 1).drop_last() == cs@.subrange(0, i as int));
        }
        h = (h ^ (cs[i] as u64)).wrapping_mul(0x0000_0100_0000_01b3);
        i = i + 1;
    }
    assert(cs@.subrange(0, cs@.len() as int) == cs@);
    h
}

/// Gives each distinct string a small number, in order of first appearance.
pub struct StringInterner {
    vec: Vec<String>,
    buckets: HashMap<u64, Vec<u32>>,
}

impl StringInterner {
    /// The interned strings, by number.
    pub closed spec fn strings(&self) -> Seq<Seq<char>> {
        self.vec@.map_values(|s: String| s@)
    }

    /// Strings are distinct and every one is filed under its hash.
    pub closed spec fn wf(&self) -> bool {
        &&& self.vec@.len() <= u32::MAX
        &&& forall|i: int, j: int|
            0 <= i < j < self.vec@.len() ==> (#[trigger] self.vec@[i])@ != (#[trigger] self.vec@[j])@
        &&& forall|i: int|
            0 <= i < self.vec@.len() ==> self.buckets@.contains_key(str_hash((#[trigger] self.vec@[i])@))
                && self.buckets@[str_hash(self.vec@[i]@)]@.contains(i as u32)
        &&& forall|h: u64, k: int|
            #![trigger self.buckets@[h]@[k]]
            self.buckets@.contains_key(h) && 0 <= k < self.buckets@[h]@.len() ==> {
                let j = self.buckets@[h]@[k] as int;
                0 <= j < self.vec@.len() && str_hash(self.vec@[j]@) == h
            }
    }

    /// Each interned string has one number.
    pub proof fn lemma_unique(&self, i: int, j: int)
        requires
            self.wf(),
            0 <= i < self.strings().len(),
            0 <= j < self.strings().len(),
            self.strings()[i] == self.strings()[j],
        ensures
            i == j,
    {
        if i < j {
            assert(self.vec@[i]@ != self.vec@[j]@);
        }
        if j < i {
            assert(self.vec@[j]@ != self.vec@[i]@);
        }
    }

    /// The string with number `i`.
    pub fn string_at(&self, i: u32) -> (r: &String)
        requires
            i < self.strings().len(),
        ensures
            r@ == self.strings()[i as int],
    {
        &self.vec[i as usize]
    }

    /// The interned strings, by number.
    pub fn into_strings(self) -> (v: Vec<String>)
        ensures
            v@.len() == self.strings().len(),
            forall|i: int| 0 <= i < v@.len() ==> (#[trigger] v@[i])@ == self.strings()[i],
    {
        self.vec
    }

    /// The interned strings are distinct.
    pub proof fn lemma_distinct(&self)
        requires
            self.wf(),
        ensures
            self.strings().len() <= u32::MAX,
            forall|i: int, j: int|
                0 <= i < j < self.strings().len() ==> (#[trigger] self.strings()[i]) != (#[trigger] self.strings()[j]),
    {
        assert forall|i: int, j: int|
            0 <= i < j < self.strings().len() implies (#[trigger] self.strings()[i]) != (#[trigger] self.strings()[j]) by {
            assert(self.vec@[i]@ != self.vec@[j]@);
        }
    }

    /// An interner without strings.
    pub fn new() -> (r: Self)
        ensures
            r.wf(),
            r.strings().len() == 0,
    {
        StringInterner { vec: Vec::new(), buckets: HashMap::new() }
    }

    /// Number of interned strings.
    pub fn len(&self) -> (n: usize)
        ensures
            n == self.strings().len(),
    {
        self.vec.len()
    }

    /// The number of `s`, if it has one.
    pub fn get(&self, s: &str) -> (r: Option<u32>)
        requires
            self.wf(),
        ensures
            match r {
                Some(i) => i < self.strings().len() && self.strings()[i as int] == s@,
                None => !self.strings().contains(s@),
            },
    {
        let h = hash_str(s);
        match self.buckets.get(&h) {
            None => {
                proof {
                    if self.strings().contains(s@) {
                        let i = choose|i: int| 0 <= i < self.strings().len() && self.strings()[i] == s@;
                        assert(self.vec@[i]@ == s@);
                        assert(self.buckets@.contains_key(str_hash(self.vec@[i]@)));
                    }
                }
                None
            },
            Some(b) => {
                let mut k: usize = 0;
                while k < b.len()
                    invariant
                        self.wf(),
                        h == str_hash(s@),
                        self.buckets@.contains_key(h),
                        b@ == self.buckets@[h]@,
                        k <= b@.len(),
                        forall|x: int| 0 <= x < k ==> self.vec@[b@[x] as int]@ != s@,
                    decreases b@.len() - k,
                {
                    let j = b[k];
                    assert(self.buckets@[h]@[k as int] == j);
                    if self.vec[j as usize] == crate::errors::owned(s) {
                        return Some(j);
                    }
                    k = k + 1;
                }
                proof {
                    if self.strings().contains(s@) {
                        let i = choose|i: int| 0 <= i < self.strings().len() && self.strings()[i] == s@;
                        assert(self.vec@[i]@ == s@);
                        assert(self.buckets@[h]@.contains(i as u32));
                        let x = choose|x: int| 0 <= x < b@.len() && b@[x] == i as u32;
                    }
                }
                None
            },
        }
    }

    /// The number of `s`, giving it the next free number when it has none.
    pub fn intern(&mut self, s: &str) -> (id: u32)
        requires
            old(self).wf(),
            old(self).strings().len() < u32::MAX,
        ensures
            final(self).wf(),
            id < final(self).strings().len(),
            final(self).strings()[id as int] == s@,
            old(self).strings().contains(s@) ==> final(self).strings() == old(self).strings(),
            !old(self).strings().contains(s@) ==> final(self).strings() == old(self).strings().push(s@)
                && id == old(self).strings().len(),
    {
        match self.get(s) {
            Some(id) => id,
            None => {
                let id = self.vec.len() as u32;
                let h = hash_str(s);
                let ghost old_vec = self.vec@;
                let ghost old_buckets = self.buckets@;
                let mut b: Vec<u32> = match self.buckets.get(&h) {
                    Some(v) => v.clone(),
                    None => Vec::new(),
                };
                let ghost old_b = b@;
                b.push(id);
                self.buckets.insert(h, b);
                self.vec.push(crate::errors::owned(s));
                proof {
                    assert(self.strings() == old(self).strings().push(s@));
                    assert forall|i: int, j: int|
                        0 <= i < j < self.vec@.len() implies (#[trigger] self.vec@[i])@ != (#[trigger] self.vec@[j])@ by {
                        if j == old_vec.len() {
                            assert(old(self).strings()[i] == old_vec[i]@);
                        }
                    }
                    assert forall|i: int|
                        0 <= i < self.vec@.len() implies self.buckets@.contains_key(str_hash((#[trigger] self.vec@[i])@))
                            && self.buckets@[str_hash(self.vec@[i]@)]@.contains(i as u32) by {
                        if i < old_vec.len() {
                            let hi = str_hash(old_vec[i]@);
                            assert(old_buckets[hi]@.contains(i as u32));
                            if hi == h {
                                let x = choose|x: int| 0 <= x < old_b.len() && old_b[x] == i as u32;
                                assert(b@[x] == i as u32);
                            }
                        } else {
                            assert(b@[old_b.len() as int] == id);
                        }
                    }
                    assert forall|hh: u64, k: int|
                        #![trigger self.buckets@[hh]@[k]]
                        self.buckets@.contains_key(hh) && 0 <= k < self.buckets@[hh]@.len() implies {
                        let j = self.buckets@[hh]@[k] as int;
                        0 <= j < self.vec@.len() && str_hash(self.vec@[j]@) == hh
                    } by {
                        if hh == h && k < old_b.len() {
                            assert(old_buckets[h]@[k] == b@[k]);
                        }
                    }
                }
                id
            },
        }
    }
}

} // verus!
