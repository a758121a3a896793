//! A set of texts that is walked in the order of its texts.
use vstd::prelude::*;

use crate::text::{copy_chars, less, precedes, precedes_irreflexive, precedes_total,
    precedes_transitive, same, texts, to_chars, to_text, views};

verus! {

/// Each text stands before the ones that follow it.
pub open spec fn ascending(s: Seq<Seq<char>>) -> bool {
    forall|i: int, j: int| #![trigger s[i], s[j]] 0 <= i < j < s.len() ==> precedes(s[i], s[j])
}

/// An ascending list holds no text twice.
pub proof fn ascending_unique(s: Seq<Seq<char>>)
    requires
        ascending(s),
    ensures
        s.no_duplicates(),
{
    assert forall|i: int, j: int| 0 <= i < s.len() && 0 <= j < s.len() && i != j implies s[i]
        != s[j] by {
        precedes_irreflexive(s[i]);
        if i < j {
            assert(precedes(s[i], s[j]));
        } else {
            assert(precedes(s[j], s[i]));
        }
    }
}

/// There is one ascending list of a given set: two that hold the same texts are equal.
pub proof fn ascending_of_a_set_is_unique(a: Seq<Seq<char>>, b: Seq<Seq<char>>)
    requires
        ascending(a),
        ascending(b),
        a.to_set() == b.to_set(),
    ensures
        a == b,
    decreases a.len(),
{
    ascending_unique(a);
    ascending_unique(b);
    a.unique_seq_to_set();
    b.unique_seq_to_set();
    if a.len() == 0 {
        assert(a =~= b);
    } else {
        let la = a.last();
        let lb = b.last();
        assert(a.to_set().contains(la));
        assert(b.to_set().contains(lb));
        assert(a.contains(lb) && b.contains(la));
        let i = choose|i: int| 0 <= i < a.len() && a[i] == lb;
        let j = choose|j: int| 0 <= j < b.len() && b[j] == la;
        precedes_irreflexive(la);
        if la != lb {
            assert(precedes(a[i], a[a.len() - 1]));
            assert(precedes(b[j], b[b.len() - 1]));
            precedes_transitive(la, lb, la);
            assert(false);
        }
        let pa = a.drop_last();
        let pb = b.drop_last();
        assert(pa.to_set() =~= pb.to_set()) by {
            assert forall|x: Seq<char>| pa.to_set().contains(x) implies pb.to_set().contains(x) by {
                let k = choose|k: int| 0 <= k < pa.len() && pa[k] == x;
                assert(a[k] == x && x != la);
                assert(a.to_set().contains(x));
                assert(b.contains(x));
                let m = choose|m: int| 0 <= m < b.len() && b[m] == x;
                assert(pb[m] == x);
            }
            assert forall|x: Seq<char>| pb.to_set().contains(x) implies pa.to_set().contains(x) by {
                let k = choose|k: int| 0 <= k < pb.len() && pb[k] == x;
                assert(b[k] == x && x != lb);
                assert(b.to_set().contains(x));
                assert(a.contains(x));
                let m = choose|m: int| 0 <= m < a.len() && a[m] == x;
                assert(pa[m] == x);
            }
        }
        ascending_of_a_set_is_unique(pa, pb);
        assert(a =~= pa.push(la));
        assert(b =~= pb.push(lb));
    }
}

/// The texts of a set in ascending order.
pub open spec fn sorted(s: Set<Seq<char>>) -> Seq<Seq<char>> {
    choose|q: Seq<Seq<char>>| ascending(q) && q.to_set() == s
}

/// The ascending list that holds the texts of a set is its sorted list.
pub proof fn sorted_is(q: Seq<Seq<char>>)
    requires
        ascending(q),
    ensures
        sorted(q.to_set()) == q,
{
    let other = sorted(q.to_set());
    assert(ascending(q) && q.to_set() == q.to_set());
    ascending_of_a_set_is_unique(other, q);
}

// Behind all other texts of a set stands one of them.
proof fn last_text(s: Set<Seq<char>>) -> (last: Seq<char>)
    requires
        s.finite(),
        s.len() > 0,
    ensures
        s.contains(last),
        forall|t: Seq<char>| s.contains(t) && t != last ==> #[trigger] precedes(t, last),
    decreases s.len(),
{
    let first = s.choose();
    let rest = s.remove(first);
    if rest.len() == 0 {
        assert(rest =~= Set::empty());
        assert forall|t: Seq<char>| s.contains(t) && t != first implies #[trigger] precedes(
            t,
            first,
        ) by {
            assert(rest.contains(t));
        }
        first
    } else {
        let other = last_text(rest);
        precedes_total(other, first);
        if precedes(other, first) {
            assert forall|t: Seq<char>| s.contains(t) && t != first implies #[trigger] precedes(
                t,
                first,
            ) by {
                assert(rest.contains(t));
                if t != other {
                    precedes_transitive(t, other, first);
                }
            }
            first
        } else {
            assert forall|t: Seq<char>| s.contains(t) && t != other implies #[trigger] precedes(
                t,
                other,
            ) by {
                if t != first {
                    assert(rest.contains(t));
                }
            }
            other
        }
    }
}

/// A finite set has a sorted list, which holds each of its texts once.
pub proof fn finite_sets_are_sorted(s: Set<Seq<char>>)
    requires
        s.finite(),
    ensures
        ascending(sorted(s)),
        sorted(s).to_set() == s,
        sorted(s).len() == s.len(),
    decreases s.len(),
{
    let q = if s.len() == 0 {
        assert(s =~= Set::empty());
        Seq::<Seq<char>>::empty()
    } else {
        let last = last_text(s);
        let rest = s.remove(last);
        finite_sets_are_sorted(rest);
        sorted(rest).push(last)
    };
    if s.len() > 0 {
        let rest = s.remove(q.last());
        let front = sorted(rest);
        assert forall|i: int, j: int| #![trigger q[i], q[j]] 0 <= i < j < q.len() implies precedes(
            q[i],
            q[j],
        ) by {
            if j < front.len() {
                assert(precedes(front[i], front[j]));
            } else {
                assert(front.to_set().contains(front[i]));
                assert(rest.contains(q[i]));
            }
        }
        assert forall|t: Seq<char>| q.to_set().contains(t) == s.contains(t) by {
            if q.contains(t) {
                let k = choose|k: int| 0 <= k < q.len() && q[k] == t;
                if k < front.len() {
                    assert(front.to_set().contains(front[k]));
                }
            }
            if rest.contains(t) {
                assert(front.to_set().contains(t));
                let k = choose|k: int| 0 <= k < front.len() && front[k] == t;
                assert(q[k] == t);
            }
            assert(q[q.len() - 1] == q.last());
        }
    }
    assert(q.to_set() =~= s);
    sorted_is(q);
    ascending_unique(q);
    q.unique_seq_to_set();
}

/// A set of texts, kept in ascending order.
pub struct TextSet {
    pub items: Vec<Vec<char>>,
}

impl View for TextSet {
    type V = Set<Seq<char>>;

    open spec fn view(&self) -> Set<Seq<char>> {
        views(self.items@).to_set()
    }
}

impl TextSet {
    pub open spec fn wf(&self) -> bool {
        ascending(views(self.items@))
    }

    pub fn new() -> (r: TextSet)
        ensures
            r.wf(),
            r@ == Set::<Seq<char>>::empty(),
            r.items@.len() == 0,
    {
        let r = TextSet { items: Vec::new() };
        assert(r@ =~= Set::empty());
        r
    }

    pub fn len(&self) -> (r: usize)
        requires
            self.wf(),
        ensures
            r == self@.len(),
            r == self.items@.len(),
            self@.finite(),
    {
        proof {
            ascending_unique(views(self.items@));
            views(self.items@).unique_seq_to_set();
        }
        self.items.len()
    }

    /// The number of texts that stand before `t`.
    pub fn rank(&self, t: &[char]) -> (r: usize)
        requires
            self.wf(),
        ensures
            r <= self.items.len(),
            forall|i: int| 0 <= i < r ==> precedes(#[trigger] views(self.items@)[i], t@),
            forall|i: int|
                r <= i < self.items.len() ==> !precedes(#[trigger] views(self.items@)[i], t@),
    {
        let ghost all = views(self.items@);
        let mut low: usize = 0;
        let mut high: usize = self.items.len();
        while low < high
            invariant
                self.wf(),
                all == views(self.items@),
                low <= high <= self.items.len(),
                forall|i: int| 0 <= i < low ==> precedes(#[trigger] all[i], t@),
                forall|i: int| high <= i < all.len() ==> !precedes(#[trigger] all[i], t@),
            decreases high - low,
        {
            let mid: usize = low + (high - low) / 2;
            assert(all[mid as int] == self.items[mid as int]@);
            if less(&self.items[mid], t) {
                assert forall|i: int| 0 <= i < mid + 1 implies precedes(#[trigger] all[i], t@) by {
                    if i < mid {
                        assert(precedes(all[i], all[mid as int]));
                        precedes_transitive(all[i], all[mid as int], t@);
                    }
                }
                low = mid + 1;
            } else {
                assert forall|i: int| mid <= i < all.len() implies !precedes(#[trigger] all[i], t@) by {
                    if i > mid && precedes(all[i], t@) {
                        assert(precedes(all[mid as int], all[i]));
                        precedes_transitive(all[mid as int], all[i], t@);
                    }
                }
                high = mid;
            }
        }
        low
    }

    pub fn contains(&self, t: &[char]) -> (r: bool)
        requires
            self.wf(),
        ensures
            r == self@.contains(t@),
    {
        let at: usize = self.rank(t);
        let ghost all = views(self.items@);
        if at < self.items.len() && same(&self.items[at], t) {
            assert(all[at as int] == t@);
            true
        } else {
            assert(!self@.contains(t@)) by {
                if all.contains(t@) {
                    let k = choose|k: int| 0 <= k < all.len() && all[k] == t@;
                    precedes_irreflexive(t@);
                    assert(!precedes(all[k], t@));
                    assert(k >= at);
                    assert(k > at);
                    assert(precedes(all[at as int], all[k]));
                    assert(!precedes(all[at as int], t@));
                }
            }
            false
        }
    }

    pub fn insert(&mut self, t: &[char])
        requires
            old(self).wf(),
        ensures
            final(self).wf(),
            final(self)@ == old(self)@.insert(t@),
    {
        let present = self.contains(t);
        let ghost before = views(self.items@);
        if present {
            assert(self@ =~= old(self)@.insert(t@));
            return;
        }
        let at: usize = self.rank(t);
        self.items.insert(at, copy_chars(t));
        let ghost after = views(self.items@);
        proof {
            assert(after =~= before.insert(at as int, t@));
            assert forall|i: int, j: int| #![trigger after[i], after[j]] 0 <= i < j < after.len() implies
                precedes(after[i], after[j]) by {
                let pi = if i < at { i } else { i - 1 };
                let pj = if j < at { j } else { j - 1 };
                if i == at {
                    assert(after[j] == before[pj]);
                    precedes_total(before[pj], t@);
                    if before[pj] == t@ {
                        assert(before.contains(t@));
                        assert(old(self)@.contains(t@));
                    }
                } else if j == at {
                    assert(after[i] == before[pi]);
                } else {
                    assert(after[i] == before[pi]);
                    assert(after[j] == before[pj]);
                    assert(precedes(before[pi], before[pj]));
                }
            }
            assert(self@ =~= old(self)@.insert(t@)) by {
                assert forall|x: Seq<char>| self@.contains(x) == old(self)@.insert(t@).contains(x) by {
                    if after.contains(x) {
                        let k = choose|k: int| 0 <= k < after.len() && after[k] == x;
                        if k < at {
                            assert(before[k] == x);
                        } else if k > at {
                            assert(before[k - 1] == x);
                        }
                    }
                    if before.contains(x) {
                        let k = choose|k: int| 0 <= k < before.len() && before[k] == x;
                        if k < at {
                            assert(after[k] == x);
                        } else {
                            assert(after[k + 1] == x);
                        }
                    }
                    assert(after[at as int] == t@);
                }
            }
        }
    }

    pub fn remove(&mut self, t: &[char])
        requires
            old(self).wf(),
        ensures
            final(self).wf(),
            final(self)@ == old(self)@.remove(t@),
    {
        let at: usize = self.rank(t);
        let ghost before = views(self.items@);
        if at < self.items.len() && same(&self.items[at], t) {
            let _gone = self.items.remove(at);
            let ghost after = views(self.items@);
            proof {
                assert(after =~= before.remove(at as int));
                assert(before[at as int] == t@);
                ascending_unique(before);
                assert forall|i: int, j: int| #![trigger after[i], after[j]] 0 <= i < j < after.len() implies
                    precedes(after[i], after[j]) by {
                    let pi = if i < at { i } else { i + 1 };
                    let pj = if j < at { j } else { j + 1 };
                    assert(after[i] == before[pi]);
                    assert(after[j] == before[pj]);
                    assert(precedes(before[pi], before[pj]));
                }
                assert forall|x: Seq<char>| self@.contains(x) == old(self)@.remove(t@).contains(x) by {
                    if after.contains(x) {
                        let k = choose|k: int| 0 <= k < after.len() && after[k] == x;
                        if k < at {
                            assert(before[k] == x);
                        } else {
                            assert(before[k + 1] == x);
                        }
                    }
                    if before.contains(x) && x != t@ {
                        let k = choose|k: int| 0 <= k < before.len() && before[k] == x;
                        if k < at {
                            assert(after[k] == x);
                        } else {
                            assert(k != at);
                            assert(after[k - 1] == x);
                        }
                    }
                }
                assert(self@ =~= old(self)@.remove(t@));
            }
        } else {
            proof {
                assert(!before.contains(t@)) by {
                    if before.contains(t@) {
                        let k = choose|k: int| 0 <= k < before.len() && before[k] == t@;
                        precedes_irreflexive(t@);
                        assert(!precedes(before[k], t@));
                        assert(precedes(before[at as int], before[k]));
                    }
                }
                assert(self@ =~= old(self)@.remove(t@));
            }
        }
    }
}

impl TextSet {
    /// A set of the same texts.
    pub fn copied(&self) -> (r: TextSet)
        requires
            self.wf(),
        ensures
            r.wf(),
            r@ == self@,
    {
        let mut r = TextSet::new();
        let ghost all = views(self.items@);
        let mut i: usize = 0;
        while i < self.items.len()
            invariant
                i <= self.items.len(),
                all == views(self.items@),
                views(r.items@) == all.take(i as int),
            decreases self.items.len() - i,
        {
            let ghost before = views(r.items@);
            let one = copy_chars(&self.items[i]);
            r.items.push(one);
            assert(views(r.items@) =~= before.push(one@));
            i = i + 1;
            assert(views(r.items@) =~= all.take(i as int));
        }
        assert(all.take(i as int) =~= all);
        r
    }

    /// Whether two sets hold the same texts.
    pub fn same_as(&self, other: &TextSet) -> (r: bool)
        requires
            self.wf(),
            other.wf(),
        ensures
            r == (self@ == other@),
    {
        let ghost a = views(self.items@);
        let ghost b = views(other.items@);
        proof {
            if self@ == other@ {
                ascending_of_a_set_is_unique(a, b);
            }
        }
        if self.items.len() != other.items.len() {
            assert(a.len() != b.len());
            return false;
        }
        let mut i: usize = 0;
        while i < self.items.len()
            invariant
                i <= self.items.len(),
                self.items@.len() == other.items@.len(),
                a == views(self.items@),
                b == views(other.items@),
                self@ == other@ ==> a == b,
                forall|k: int| 0 <= k < i ==> a[k] == b[k],
            decreases self.items.len() - i,
        {
            assert(a[i as int] == self.items[i as int]@ && b[i as int] == other.items[i as int]@);
            if !same(&self.items[i], &other.items[i]) {
                return false;
            }
            i = i + 1;
        }
        assert(a =~= b);
        true
    }

    /// The texts in ascending order.
    pub fn to_list(&self) -> (r: Vec<String>)
        requires
            self.wf(),
        ensures
            texts(r@) == sorted(self@),
            texts(r@).to_set() == self@,
    {
        let ghost all = views(self.items@);
        proof {
            sorted_is(all);
        }
        let mut out: Vec<String> = Vec::new();
        let mut i: usize = 0;
        while i < self.items.len()
            invariant
                i <= self.items.len(),
                all == views(self.items@),
                texts(out@) == all.take(i as int),
            decreases self.items.len() - i,
        {
            let ghost before = texts(out@);
            let one = to_text(&self.items[i]);
            out.push(one);
            assert(texts(out@) =~= before.push(one@));
            i = i + 1;
            assert(texts(out@) =~= all.take(i as int));
        }
        assert(all.take(i as int) =~= all);
        out
    }

    /// The set of the texts of a list.
    pub fn from_list(list: &[String]) -> (r: TextSet)
        ensures
            r.wf(),
            r@ == texts(list@).to_set(),
    {
        let ghost all = texts(list@);
        let mut r = TextSet::new();
        let mut i: usize = 0;
        assert(r@ =~= all.take(0).to_set());
        while i < list.len()
            invariant
                i <= list.len(),
                all == texts(list@),
                r.wf(),
                r@ == all.take(i as int).to_set(),
            decreases list.len() - i,
        {
            let chars = to_chars(list[i].as_str());
            r.insert(&chars);
            proof {
                pushed_to_set(all, i as int);
                assert(all[i as int] == chars@);
            }
            i = i + 1;
        }
        assert(all.take(i as int) =~= all);
        r
    }
}

/// The texts of a longer prefix are those of the shorter one and the next text.
pub proof fn pushed_to_set(list: Seq<Seq<char>>, i: int)
    requires
        0 <= i < list.len(),
    ensures
        list.take(i + 1).to_set() == list.take(i).to_set().insert(list[i]),
{
    let before = list.take(i);
    let next = list.take(i + 1);
    assert forall|t: Seq<char>| next.to_set().contains(t) == before.to_set().insert(
        list[i],
    ).contains(t) by {
        if next.contains(t) {
            let k = choose|k: int| 0 <= k < next.len() && next[k] == t;
            if k < before.len() {
                assert(before[k] == t);
            }
        }
        if before.contains(t) {
            let k = choose|k: int| 0 <= k < before.len() && before[k] == t;
            assert(next[k] == t);
        }
        assert(next[i] == list[i]);
    }
    assert(next.to_set() =~= before.to_set().insert(list[i]));
}

/// The texts of a list are finitely many.
pub proof fn finite_lists_are_finite_sets(list: Seq<Seq<char>>)
    ensures
        list.to_set().finite(),
{
    vstd::seq_lib::seq_to_set_is_finite(list);
}

} // verus!
