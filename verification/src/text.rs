use vstd::prelude::*;

verus! {

broadcast use vstd::string::group_string_axioms;

/// The characters of a string, in order.
pub fn chars_of(s: &str) -> (v: Vec<char>)
    ensures
        v@ == s@,
{
    let mut v: Vec<char> = Vec::new();
    for c in it: s.chars()
        invariant
            it.seq() == s@,
            v@ == it.seq().take(it.index() as int),
    {
        v.push(c);
    }
    v
}


/// Whether two strings hold the same characters.
pub fn str_eq(a: &str, b: &str) -> (r: bool)
    ensures
        r == (a@ == b@),
{
    let x = chars_of(a);
    let y = chars_of(b);
    if x.len() != y.len() {
        return false;
    }
    let mut i: usize = 0;
    while i < x.len()
        invariant
            x@ == a@,
            y@ == b@,
            x@.len() == y@.len(),
            i <= x@.len(),
            forall|j: int| 0 <= j < i ==> x@[j] == y@[j],
        decreases x@.len() - i,
    {
        if x[i] != y[i] {
            return false;
        }
        i = i + 1;
    }
    assert(x@ == y@);
    true
}

/// Whether `s` begins with `p`.
pub fn starts_with(s: &str, p: &str) -> (r: bool)
    ensures
        r == (p@.len() <= s@.len() && s@.subrange(0, p@.len() as int) == p@),
{
    let x = chars_of(s);
    let y = chars_of(p);
    if y.len() > x.len() {
        return false;
    }
    let mut i: usize = 0;
    while i < y.len()
        invariant
            x@ == s@,
            y@ == p@,
            y@.len() <= x@.len(),
            i <= y@.len(),
            forall|j: int| 0 <= j < i ==> x@[j] == y@[j],
        decreases y@.len() - i,
    {
        if x[i] != y[i] {
            assert(s@.subrange(0, p@.len() as int)[i as int] != p@[i as int]);
            return false;
        }
        i = i + 1;
    }
    assert(s@.subrange(0, p@.len() as int) == p@);
    true
}

/// Unicode's White_Space property, which `char::is_whitespace` reads: tab
/// to carriage return, space, next line, no-break space, ogham space mark,
/// the spaces from en quad to hair space, line and paragraph separator,
/// narrow no-break space, medium mathematical space and ideographic space.
pub open spec fn is_white(c: char) -> bool {
    let u = c as int;
    ||| 0x09 <= u <= 0x0D
    ||| u == 0x20
    ||| u == 0x85
    ||| u == 0xA0
    ||| u == 0x1680
    ||| 0x2000 <= u <= 0x200A
    ||| u == 0x2028
    ||| u == 0x2029
    ||| u == 0x202F
    ||| u == 0x205F
    ||| u == 0x3000
}

/// Whether `c` is white space.
fn char_is_whitespace(c: char) -> (r: bool)
    ensures
        r == is_white(c),
{
    let u = c as u32;
    (0x09 <= u && u <= 0x0D) || u == 0x20 || u == 0x85 || u == 0xA0 || u == 0x1680 || (0x2000 <= u && u
        <= 0x200A) || u == 0x2028 || u == 0x2029 || u == 0x202F || u == 0x205F || u == 0x3000
}

/// `s` without white space at either end, as `str::trim` leaves it.
pub open spec fn trimmed(s: Seq<char>) -> Seq<char>
    decreases s.len(),
{
    if s.len() == 0 {
        s
    } else if is_white(s[0]) {
        trimmed(s.drop_first())
    } else if is_white(s.last()) {
        trimmed(s.drop_last())
    } else {
        s
    }
}

/// The pieces of `s` between semicolons, as `str::split(';')` yields them.
pub open spec fn split_semicolons(s: Seq<char>) -> Seq<Seq<char>>
    decreases s.len(),
{
    if s.len() == 0 {
        seq![s]
    } else if s.last() == ';' {
        split_semicolons(s.drop_last()).push(Seq::empty())
    } else {
        let pieces = split_semicolons(s.drop_last());
        pieces.update(pieces.len() - 1, pieces.last().push(s.last()))
    }
}

proof fn lemma_split_nonempty(s: Seq<char>)
    ensures
        split_semicolons(s).len() >= 1,
    decreases s.len(),
{
    if s.len() > 0 {
        lemma_split_nonempty(s.drop_last());
    }
}

/// Bounds `[a, b)` of `cs[lo..hi]` without white space at either end.
fn trim_range(cs: &Vec<char>, lo: usize, hi: usize) -> (r: (usize, usize))
    requires
        lo <= hi <= cs@.len(),
    ensures
        lo <= r.0 <= r.1 <= hi,
        cs@.subrange(r.0 as int, r.1 as int) == trimmed(cs@.subrange(lo as int, hi as int)),
{
    let mut a = lo;
    let mut b = hi;
    while a < b && char_is_whitespace(cs[a])
        invariant
            lo <= a <= b <= hi <= cs@.len(),
            b == hi,
            trimmed(cs@.subrange(a as int, b as int)) == trimmed(cs@.subrange(lo as int, hi as int)),
        decreases b - a,
    {
        proof {
            assert(cs@.subrange(a as int, b as int).drop_first() == cs@.subrange(a + 1, b as int));
        }
        a = a + 1;
    }
    while a < b && char_is_whitespace(cs[b - 1])
        invariant
            lo <= a <= b <= hi <= cs@.len(),
            a < b ==> !is_white(cs@[a as int]),
            trimmed(cs@.subrange(a as int, b as int)) == trimmed(cs@.subrange(lo as int, hi as int)),
        decreases b - a,
    {
        proof {
            let t = cs@.subrange(a as int, b as int);
            assert(t.drop_last() == cs@.subrange(a as int, b - 1));
            assert(t[0] == cs@[a as int]);
        }
        b = b - 1;
    }
    proof {
        let t = cs@.subrange(a as int, b as int);
        if t.len() > 0 {
            assert(t[0] == cs@[a as int]);
            assert(t.last() == cs@[b - 1]);
        }
    }
    (a, b)
}

/// Where the pieces of `s` between semicolons lie, each trimmed, in order.
pub fn trimmed_pieces(s: &str) -> (r: Vec<(usize, usize)>)
    ensures
        r@.len() == split_semicolons(s@).len(),
        forall|i: int| 0 <= i < r@.len() ==> {
            let (a, b) = #[trigger] r@[i];
            a <= b <= s@.len() && s@.subrange(a as int, b as int) == trimmed(split_semicolons(s@)[i])
        },
{
    let cs = chars_of(s);
    let mut out: Vec<(usize, usize)> = Vec::new();
    let mut start: usize = 0;
    let mut i: usize = 0;
    while i < cs.len()
        invariant
            cs@ == s@,
            start <= i <= cs@.len(),
            out@.len() + 1 == split_semicolons(cs@.subrange(0, i as int)).len(),
            split_semicolons(cs@.subrange(0, i as int)).last() == cs@.subrange(start as int, i as int),
            forall|k: int| 0 <= k < out@.len() ==> {
                let (a, b) = #[trigger] out@[k];
                a <= b <= cs@.len() && cs@.subrange(a as int, b as int) == trimmed(
                    split_semicolons(cs@.subrange(0, i as int))[k],
                )
            },
        decreases cs@.len() - i,
    {
        let ghost pre = cs@.subrange(0, i as int);
        let ghost next = cs@.subrange(0, i + 1);
        proof {
            assert(next.drop_last() == pre);
            assert(next.last() == cs@[i as int]);
            lemma_split_nonempty(pre);
        }
        if cs[i] == ';' {
            let r = trim_range(&cs, start, i);
            out.push(r);
            start = i + 1;
            proof {
                assert(split_semicolons(next) == split_semicolons(pre).push(Seq::empty()));
                assert forall|k: int| 0 <= k < out@.len() implies {
                    let (a, b) = #[trigger] out@[k];
                    a <= b <= cs@.len() && cs@.subrange(a as int, b as int) == trimmed(
                        split_semicolons(next)[k],
                    )
                } by {
                    if k < out@.len() - 1 {
                        assert(split_semicolons(next)[k] == split_semicolons(pre)[k]);
                    }
                }
                assert(cs@.subrange(start as int, i + 1).len() == 0);
            }
        } else {
            proof {
                let pieces = split_semicolons(pre);
                assert(split_semicolons(next) == pieces.update(pieces.len() - 1, pieces.last().push(cs@[i as int])));
                assert(cs@.subrange(start as int, i + 1) == cs@.subrange(start as int, i as int).push(cs@[i as int]));
                assert forall|k: int| 0 <= k < out@.len() implies {
                    let (a, b) = #[trigger] out@[k];
                    a <= b <= cs@.len() && cs@.subrange(a as int, b as int) == trimmed(
                        split_semicolons(next)[k],
                    )
                } by {
                    assert(split_semicolons(next)[k] == split_semicolons(pre)[k]);
                }
            }
        }
        i = i + 1;
    }
    let r = trim_range(&cs, start, cs.len());
    out.push(r);
    proof {
        assert(cs@.subrange(0, cs@.len() as int) == cs@);
        lemma_split_nonempty(cs@);
    }
    out
}

/// Where the pieces of `s` between semicolons lie, in order.
pub fn split_pieces(s: &str) -> (r: Vec<(usize, usize)>)
    ensures
        r@.len() == split_semicolons(s@).len(),
        forall|i: int| 0 <= i < r@.len() ==> {
            let (a, b) = #[trigger] r@[i];
            a <= b <= s@.len() && s@.subrange(a as int, b as int) == split_semicolons(s@)[i]
        },
{
    let cs = chars_of(s);
    let mut out: Vec<(usize, usize)> = Vec::new();
    let mut start: usize = 0;
    let mut i: usize = 0;
    while i < cs.len()
        invariant
            cs@ == s@,
            start <= i <= cs@.len(),
            out@.len() + 1 == split_semicolons(cs@.subrange(0, i as int)).len(),
            split_semicolons(cs@.subrange(0, i as int)).last() == cs@.subrange(start as int, i as int),
            forall|k: int| 0 <= k < out@.len() ==> {
                let (a, b) = #[trigger] out@[k];
                a <= b <= cs@.len() && cs@.subrange(a as int, b as int) == split_semicolons(cs@.subrange(0, i as int))[k]
            },
        decreases cs@.len() - i,
    {
        let ghost pre = cs@.subrange(0, i as int);
        let ghost next = cs@.subrange(0, i + 1);
        proof {
            assert(next.drop_last() == pre);
            assert(next.last() == cs@[i as int]);
            lemma_split_nonempty(pre);
        }
        if cs[i] == ';' {
            let r = (start, i);
            out.push(r);
            start = i + 1;
            proof {
                assert(split_semicolons(next) == split_semicolons(pre).push(Seq::empty()));
                assert forall|k: int| 0 <= k < out@.len() implies {
                    let (a, b) = #[trigger] out@[k];
                    a <= b <= cs@.len() && cs@.subrange(a as int, b as int) == split_semicolons(next)[k]
                } by {
                    if k < out@.len() - 1 {
                        assert(split_semicolons(next)[k] == split_semicolons(pre)[k]);
                    }
                }
                assert(cs@.subrange(start as int, i + 1).len() == 0);
            }
        } else {
            proof {
                let pieces = split_semicolons(pre);
                assert(split_semicolons(next) == pieces.update(pieces.len() - 1, pieces.last().push(cs@[i as int])));
                assert(cs@.subrange(start as int, i + 1) == cs@.subrange(start as int, i as int).push(cs@[i as int]));
                assert forall|k: int| 0 <= k < out@.len() implies {
                    let (a, b) = #[trigger] out@[k];
                    a <= b <= cs@.len() && cs@.subrange(a as int, b as int) == split_semicolons(next)[k]
                } by {
                    assert(split_semicolons(next)[k] == split_semicolons(pre)[k]);
                }
            }
        }
        i = i + 1;
    }
    let r = (start, cs.len());
    out.push(r);
    proof {
        assert(cs@.subrange(0, cs@.len() as int) == cs@);
        lemma_split_nonempty(cs@);
    }
    out
}

/// A distinct sequence whose elements all occur in `t` is no longer than `t`.
pub proof fn lemma_distinct_within<A>(s: Seq<A>, t: Seq<A>)
    requires
        s.no_duplicates(),
        forall|i: int| 0 <= i < s.len() ==> t.contains(#[trigger] s[i]),
    ensures
        s.len() <= t.len(),
{
    s.unique_seq_to_set();
    t.lemma_cardinality_of_set();
    assert(s.to_set().subset_of(t.to_set()));
    vstd::set_lib::lemma_len_subset(s.to_set(), t.to_set());
}

/// Edit distance between the prefix of `a` of length `i` and the prefix of
/// `b` of length `j`: the least number of single-character insertions,
/// deletions and substitutions that turn one into the other.
pub open spec fn edit_distance(a: Seq<char>, b: Seq<char>, i: nat, j: nat) -> nat
    decreases i + j,
{
    if i == 0 {
        j
    } else if j == 0 {
        i
    } else {
        let del = edit_distance(a, b, (i - 1) as nat, j) + 1;
        let ins = edit_distance(a, b, i, (j - 1) as nat) + 1;
        let sub = edit_distance(a, b, (i - 1) as nat, (j - 1) as nat) + (if a[i - 1] == b[j
            - 1] {
            0nat
        } else {
            1nat
        });
        min3(del, ins, sub)
    }
}

pub open spec fn min3(x: nat, y: nat, z: nat) -> nat {
    let m = if x <= y {
        x
    } else {
        y
    };
    if m <= z {
        m
    } else {
        z
    }
}

/// Levenshtein distance of two whole sequences.
pub open spec fn levenshtein(a: Seq<char>, b: Seq<char>) -> nat {
    edit_distance(a, b, a.len(), b.len())
}

/// The distance of two prefixes never exceeds the longer prefix.
pub proof fn lemma_edit_distance_bound(a: Seq<char>, b: Seq<char>, i: nat, j: nat)
    ensures
        edit_distance(a, b, i, j) <= if i <= j {
            j
        } else {
            i
        },
    decreases i + j,
{
    if i > 0 && j > 0 {
        lemma_edit_distance_bound(a, b, (i - 1) as nat, (j - 1) as nat);
    }
}

/// Edit distance does not depend on which prefix comes first.
pub proof fn lemma_edit_distance_symmetric(a: Seq<char>, b: Seq<char>, i: nat, j: nat)
    ensures
        edit_distance(a, b, i, j) == edit_distance(b, a, j, i),
    decreases i + j,
{
    if i > 0 && j > 0 {
        lemma_edit_distance_symmetric(a, b, (i - 1) as nat, j);
        lemma_edit_distance_symmetric(a, b, i, (j - 1) as nat);
        lemma_edit_distance_symmetric(a, b, (i - 1) as nat, (j - 1) as nat);
    }
}

/// The Levenshtein distance is symmetric, is zero from a string to itself,
/// and never exceeds the longer string's length, so that one minus the
/// distance over the longer length is a ratio between 0 and 1.
pub proof fn lemma_levenshtein_laws(a: Seq<char>, b: Seq<char>)
    ensures
        levenshtein(a, b) == levenshtein(b, a),
        levenshtein(a, a) == 0,
        levenshtein(a, b) <= if a.len() <= b.len() { b.len() } else { a.len() },
{
    lemma_edit_distance_symmetric(a, b, a.len(), b.len());
    lemma_edit_distance_bound(a, b, a.len(), b.len());
    lemma_edit_distance_self(a, a.len());
}

/// A prefix is at distance zero from itself.
pub proof fn lemma_edit_distance_self(a: Seq<char>, i: nat)
    requires
        i <= a.len(),
    ensures
        edit_distance(a, a, i, i) == 0,
    decreases i,
{
    if i > 0 {
        lemma_edit_distance_self(a, (i - 1) as nat);
    }
}

/// Levenshtein distance between two strings, counted in characters.
pub fn levenshtein_distance(a: &str, b: &str) -> (d: usize)
    requires
        a@.len() < usize::MAX,
        b@.len() < usize::MAX,
    ensures
        d == levenshtein(a@, b@),
{
    let a_chars = chars_of(a);
    let b_chars = chars_of(b);
    let m = a_chars.len();
    let n = b_chars.len();
    if m == 0 {
        return n;
    }
    if n == 0 {
        return m;
    }
    let ghost sa = a@;
    let ghost sb = b@;
    let mut prev: Vec<usize> = Vec::new();
    let mut k: usize = 0;
    while k <= n
        invariant
            k <= n + 1,
            n == sb.len(),
            n < usize::MAX,
            prev@.len() == k,
            forall|x: int| 0 <= x < k ==> #[trigger] prev@[x] == x,
        decreases n + 1 - k,
    {
        prev.push(k);
        k = k + 1;
    }
    let mut curr: Vec<usize> = Vec::new();
    let mut k: usize = 0;
    while k <= n
        invariant
            k <= n + 1,
            n < usize::MAX,
            curr@.len() == k,
        decreases n + 1 - k,
    {
        curr.push(0);
        k = k + 1;
    }
    assert forall|x: int| 0 <= x <= n implies #[trigger] prev@[x] == edit_distance(
        sa,
        sb,
        0,
        x as nat,
    ) by {}
    let mut i: usize = 1;
    while i <= m
        invariant
            1 <= i <= m + 1,
            m == sa.len(),
            n == sb.len(),
            m < usize::MAX,
            n < usize::MAX,
            n >= 1,
            a_chars@ == sa,
            b_chars@ == sb,
            prev@.len() == n + 1,
            curr@.len() == n + 1,
            forall|x: int| 0 <= x <= n ==> #[trigger] prev@[x] == edit_distance(
                sa,
                sb,
                (i - 1) as nat,
                x as nat,
            ),
        decreases m + 1 - i,
    {
        curr.set(0, i);
        let mut j: usize = 1;
        while j <= n
            invariant
                1 <= i <= m,
                1 <= j <= n + 1,
                m == sa.len(),
                n == sb.len(),
                m < usize::MAX,
                n < usize::MAX,
                a_chars@ == sa,
                b_chars@ == sb,
                prev@.len() == n + 1,
                curr@.len() == n + 1,
                forall|x: int| 0 <= x <= n ==> #[trigger] prev@[x] == edit_distance(
                    sa,
                    sb,
                    (i - 1) as nat,
                    x as nat,
                ),
                forall|x: int| 0 <= x < j ==> #[trigger] curr@[x] == edit_distance(
                    sa,
                    sb,
                    i as nat,
                    x as nat,
                ),
            decreases n + 1 - j,
        {
            proof {
                lemma_edit_distance_bound(sa, sb, i as nat, (j - 1) as nat);
                lemma_edit_distance_bound(sa, sb, (i - 1) as nat, j as nat);
                lemma_edit_distance_bound(sa, sb, (i - 1) as nat, (j - 1) as nat);
            }
            let cost: usize = if a_chars[i - 1] == b_chars[j - 1] {
                0
            } else {
                1
            };
            let left = curr[j - 1] + 1;
            let up = prev[j] + 1;
            let diag = prev[j - 1] + cost;
            let m1 = if left <= up {
                left
            } else {
                up
            };
            let v = if m1 <= diag {
                m1
            } else {
                diag
            };
            curr.set(j, v);
            j = j + 1;
        }
        std::mem::swap(&mut prev, &mut curr);
        i = i + 1;
    }
    prev[n]
}

} // verus!
