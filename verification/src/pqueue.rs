use vstd::prelude::*;
use vstd::multiset::Multiset;

verus! {

broadcast use vstd::seq_lib::group_to_multiset_ensures, vstd::multiset::group_multiset_properties;

/// An order in which entries leave a queue: a total preorder.
pub trait QueueOrder: Copy + Sized {
    /// `a` leaves no later than `b`.
    spec fn first(a: Self, b: Self) -> bool;

    proof fn lemma_total(a: Self, b: Self)
        ensures
            Self::first(a, b) || Self::first(b, a),
    ;

    proof fn lemma_trans(a: Self, b: Self, c: Self)
        requires
            Self::first(a, b),
            Self::first(b, c),
        ensures
            Self::first(a, c),
    ;

    fn first_exec(a: &Self, b: &Self) -> (r: bool)
        ensures
            r == Self::first(*a, *b),
    ;
}

pub open spec fn before<T: QueueOrder>(a: T, b: T) -> bool {
    T::first(a, b)
}

fn before_exec<T: QueueOrder>(a: &T, b: &T) -> (r: bool)
    ensures
        r == before(*a, *b),
{
    T::first_exec(a, b)
}

pub open spec fn parent_of(i: int) -> int {
    (i - 1) / 2
}

/// A binary heap of entries: one that leaves first is always at the root.
pub struct MinHeap<T> {
    data: Vec<T>,
}

impl<T: QueueOrder> MinHeap<T> {
    /// The entries held.
    pub closed spec fn view(&self) -> Multiset<T> {
        self.data@.to_multiset()
    }

    pub closed spec fn wf(&self) -> bool {
        heap_ordered(self.data@)
    }

    pub fn new() -> (h: Self)
        ensures
            h.wf(),
            h@ =~= Multiset::empty(),
    {
        MinHeap { data: Vec::new() }
    }

    pub fn len(&self) -> (n: usize)
        ensures
            n == self@.len(),
    {
        self.data.len()
    }

    pub fn push(&mut self, s: T)
        requires
            old(self).wf(),
        ensures
            final(self).wf(),
            final(self)@ =~= old(self)@.insert(s),
    {
        let ghost d0 = self.data@;
        self.data.push(s);
        let mut k = self.data.len() - 1;
        assert(heap_except_up(self.data@, k as int)) by {
            assert(self.data@ == d0.push(s));
        }
        while k > 0
            invariant
                0 <= k < self.data@.len(),
                heap_except_up(self.data@, k as int),
                self.data@.to_multiset() =~= d0.to_multiset().insert(s),
            ensures
                heap_ordered(self.data@),
                self.data@.to_multiset() =~= d0.to_multiset().insert(s),
            decreases k,
        {
            let p = (k - 1) / 2;
            if before_exec(&self.data[p], &self.data[k]) {
                proof {
                    lemma_up_done(self.data@, k as int);
                }
                break;
            }
            let ghost prior = self.data@;
            let a = self.data[p];
            let b = self.data[k];
            self.data.set(p, b);
            self.data.set(k, a);
            proof {
                lemma_swap_multiset(prior, p as int, k as int);
                lemma_up_step(prior, k as int);
            }
            k = p;
        }
    }

    pub fn pop(&mut self) -> (r: Option<T>)
        requires
            old(self).wf(),
        ensures
            final(self).wf(),
            match r {
                None => old(self)@.len() == 0 && final(self)@ == old(self)@,
                Some(x) => old(self)@.count(x) > 0 && final(self)@ =~= old(self)@.remove(x)
                    && forall|y: T| #[trigger] old(self)@.count(y) > 0 ==> before(x, y),
            },
    {
        let n = self.data.len();
        if n == 0 {
            return None;
        }
        let ghost d0 = self.data@;
        proof {
            lemma_root_before(d0);
        }
        let top = self.data[0];
        let last = self.data.pop().unwrap();
        assert(d0.drop_last() == self.data@);
        proof {
            assert(d0 == self.data@.push(last));
        }
        if self.data.len() == 0 {
            assert(d0 =~= seq![top]);
            return Some(top);
        }
        let ghost d1 = self.data@;
        self.data.set(0, last);
        proof {
            lemma_remove_root_multiset(d0);
            lemma_down_start(d0);
        }
        let len = self.data.len();
        let mut k: usize = 0;
        loop
            invariant
                len == self.data@.len(),
                0 <= k < len,
                heap_except_down(self.data@, k as int),
                self.data@.to_multiset() =~= d0.to_multiset().remove(top),
            ensures
                heap_ordered(self.data@),
                self.data@.to_multiset() =~= d0.to_multiset().remove(top),
            decreases len - k,
        {
            if k >= len / 2 {
                proof {
                    lemma_down_done(self.data@, k as int);
                }
                break;
            }
            let l = 2 * k + 1;
            let r = 2 * k + 2;
            let mut c = l;
            if r < len && !before_exec(&self.data[l], &self.data[r]) {
                c = r;
            }
            proof {
                lemma_before_total(self.data@[l as int], self.data@[l as int]);
                if r < len {
                    lemma_before_total(self.data@[l as int], self.data@[r as int]);
                    lemma_before_total(self.data@[r as int], self.data@[r as int]);
                }
            }
            if before_exec(&self.data[k], &self.data[c]) {
                proof {
                    lemma_before_trans(self.data@[k as int], self.data@[c as int], self.data@[l as int]);
                    if r < len {
                        lemma_before_trans(self.data@[k as int], self.data@[c as int], self.data@[r as int]);
                    }
                    lemma_down_done(self.data@, k as int);
                }
                break;
            }
            let ghost prior = self.data@;
            let a = self.data[k];
            let b = self.data[c];
            self.data.set(k, b);
            self.data.set(c, a);
            proof {
                lemma_swap_multiset(prior, k as int, c as int);
                lemma_down_step(prior, k as int, c as int);
            }
            k = c;
        }
        Some(top)
    }
}

/// Every entry costs no more than its children.
pub open spec fn heap_ordered<T: QueueOrder>(s: Seq<T>) -> bool {
    forall|i: int| 0 < i < s.len() ==> #[trigger] before(s[parent_of(i)], s[i])
}

/// Heap order holds except between `k` and its parent, and the parent of `k`
/// costs no more than the children of `k`.
pub open spec fn heap_except_up<T: QueueOrder>(s: Seq<T>, k: int) -> bool {
    &&& forall|i: int| 0 < i < s.len() && i != k ==> #[trigger] before(s[parent_of(i)], s[i])
    &&& forall|i: int|
        0 < i < s.len() && parent_of(i) == k && k > 0 ==> #[trigger] before(s[parent_of(k)], s[i])
}

/// Heap order holds except between `k` and its children, and the parent of
/// `k` costs no more than the children of `k`.
pub open spec fn heap_except_down<T: QueueOrder>(s: Seq<T>, k: int) -> bool {
    &&& forall|i: int| 0 < i < s.len() && parent_of(i) != k ==> #[trigger] before(s[parent_of(i)], s[i])
    &&& forall|i: int|
        0 < i < s.len() && parent_of(i) == k && k > 0 ==> #[trigger] before(s[parent_of(k)], s[i])
}

proof fn lemma_before_total<T: QueueOrder>(a: T, b: T)
    ensures
        before(a, b) || before(b, a),
{
    T::lemma_total(a, b);
}

proof fn lemma_before_trans<T: QueueOrder>(a: T, b: T, c: T)
    requires
        before(a, b),
        before(b, c),
    ensures
        before(a, c),
{
    T::lemma_trans(a, b, c);
}

proof fn lemma_swap_multiset<T: QueueOrder>(s: Seq<T>, i: int, j: int)
    requires
        0 <= i < s.len(),
        0 <= j < s.len(),
    ensures
        s.update(i, s[j]).update(j, s[i]).to_multiset() =~= s.to_multiset(),
{
    let t = s.update(i, s[j]);
    assert(t[j] == s[j]);
}

proof fn lemma_up_done<T: QueueOrder>(s: Seq<T>, k: int)
    requires
        0 <= k < s.len(),
        heap_except_up(s, k),
        k > 0 ==> before(s[parent_of(k)], s[k]),
    ensures
        heap_ordered(s),
{
    assert forall|i: int| 0 < i < s.len() implies #[trigger] before(s[parent_of(i)], s[i]) by {
        if i == k {
        }
    }
}

proof fn lemma_up_step<T: QueueOrder>(s: Seq<T>, k: int)
    requires
        0 < k < s.len(),
        heap_except_up(s, k),
        !before(s[parent_of(k)], s[k]),
    ensures
        heap_except_up(s.update(parent_of(k), s[k]).update(k, s[parent_of(k)]), parent_of(k)),
{
    let p = parent_of(k);
    let t = s.update(p, s[k]).update(k, s[p]);
    lemma_before_total(s[p], s[k]);
    assert forall|i: int| 0 < i < t.len() && i != p implies #[trigger] before(t[parent_of(i)], t[i]) by {
        if i == k {
        } else if parent_of(i) == k {
            assert(before(s[p], s[i]));
            lemma_before_trans(s[k], s[p], s[i]);
        } else if parent_of(i) == p {
            lemma_before_trans(s[k], s[p], s[i]);
        } else if i != k {
            if p > 0 && parent_of(i) == p {
            }
        }
    }
    assert forall|i: int| 0 < i < t.len() && parent_of(i) == p && p > 0 implies #[trigger] before(
        t[parent_of(p)],
        t[i],
    ) by {
        assert(before(s[parent_of(p)], s[p]));
        if i == k {
        } else {
            assert(before(s[p], s[i]));
            lemma_before_trans(s[parent_of(p)], s[p], s[i]);
        }
    }
}

proof fn lemma_root_before<T: QueueOrder>(s: Seq<T>)
    requires
        heap_ordered(s),
        s.len() > 0,
    ensures
        forall|y: T| #[trigger] s.to_multiset().count(y) > 0 ==> before(s[0], y),
{
    assert forall|y: T| #[trigger] s.to_multiset().count(y) > 0 implies before(s[0], y) by {
        assert(s.contains(y));
        let i = choose|i: int| 0 <= i < s.len() && s[i] == y;
        lemma_root_before_index(s, i);
    }
}

proof fn lemma_root_before_index<T: QueueOrder>(s: Seq<T>, i: int)
    requires
        heap_ordered(s),
        0 <= i < s.len(),
    ensures
        before(s[0], s[i]),
    decreases i,
{
    if i > 0 {
        lemma_root_before_index(s, parent_of(i));
        lemma_before_trans(s[0], s[parent_of(i)], s[i]);
    } else {
        lemma_before_total(s[0], s[0]);
    }
}

proof fn lemma_remove_root_multiset<T: QueueOrder>(d0: Seq<T>)
    requires
        d0.len() >= 2,
    ensures
        d0.drop_last().update(0, d0.last()).to_multiset() =~= d0.to_multiset().remove(d0[0]),
{
    let d1 = d0.drop_last();
    assert(d0 == d1.push(d0.last()));
    assert(d1.to_multiset().insert(d0.last()) =~= d0.to_multiset());
}

proof fn lemma_down_start<T: QueueOrder>(d0: Seq<T>)
    requires
        d0.len() >= 2,
        heap_ordered(d0),
    ensures
        heap_except_down(d0.drop_last().update(0, d0.last()), 0),
{
    let t = d0.drop_last().update(0, d0.last());
    assert forall|i: int| 0 < i < t.len() && parent_of(i) != 0 implies #[trigger] before(t[parent_of(i)], t[i]) by {
        assert(before(d0[parent_of(i)], d0[i]));
    }
}

proof fn lemma_down_done<T: QueueOrder>(s: Seq<T>, k: int)
    requires
        0 <= k < s.len(),
        heap_except_down(s, k),
        2 * k + 1 < s.len() ==> before(s[k], s[2 * k + 1]),
        2 * k + 2 < s.len() ==> before(s[k], s[2 * k + 2]),
    ensures
        heap_ordered(s),
{
    assert forall|i: int| 0 < i < s.len() implies #[trigger] before(s[parent_of(i)], s[i]) by {
        if parent_of(i) == k {
            assert(i == 2 * k + 1 || i == 2 * k + 2);
        }
    }
}

proof fn lemma_down_step<T: QueueOrder>(s: Seq<T>, k: int, c: int)
    requires
        0 <= k < s.len(),
        c == 2 * k + 1 || c == 2 * k + 2,
        c < s.len(),
        heap_except_down(s, k),
        !before(s[k], s[c]),
        2 * k + 1 < s.len() ==> before(s[c], s[2 * k + 1]),
        2 * k + 2 < s.len() ==> before(s[c], s[2 * k + 2]),
    ensures
        heap_except_down(s.update(k, s[c]).update(c, s[k]), c),
{
    let t = s.update(k, s[c]).update(c, s[k]);
    lemma_before_total(s[k], s[c]);
    assert(parent_of(c) == k);
    assert forall|i: int| 0 < i < t.len() && parent_of(i) != c implies #[trigger] before(t[parent_of(i)], t[i]) by {
        if i == c {
        } else if parent_of(i) == k {
            assert(i == 2 * k + 1 || i == 2 * k + 2);
        } else if i == k {
            assert(before(s[parent_of(k)], s[c]));
        } else {
        }
    }
    assert forall|i: int| 0 < i < t.len() && parent_of(i) == c && c > 0 implies #[trigger] before(
        t[parent_of(c)],
        t[i],
    ) by {
        assert(before(s[c], s[i]));
    }
}

} // verus!
