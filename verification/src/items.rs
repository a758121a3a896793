//! Lists of configured items that are told apart by a key.
use vstd::prelude::*;

verus! {

/// An item of a configured table: it has a value, a key, and can be copied.
pub trait Item: View + Sized {
    type Key;

    spec fn key(value: Self::V) -> Self::Key;

    fn duplicate(&self) -> (r: Self)
        ensures
            r@ == self@,
    ;

    fn equal(&self, other: &Self) -> (r: bool)
        ensures
            r == (self@ == other@),
    ;

    fn same_key(&self, other: &Self) -> (r: bool)
        ensures
            r == (Self::key(self@) == Self::key(other@)),
    ;
}

pub open spec fn item_views<T: View>(list: Seq<T>) -> Seq<T::V> {
    Seq::new(list.len(), |i: int| list[i]@)
}

pub fn copy_items<T: Item>(list: &[T]) -> (r: Vec<T>)
    ensures
        item_views(r@) == item_views(list@),
{
    let ghost all = item_views(list@);
    let mut out: Vec<T> = Vec::new();
    append_items(&mut out, list);
    assert(item_views(out@) =~= all);
    out
}

pub fn append_items<T: Item>(out: &mut Vec<T>, list: &[T])
    ensures
        item_views(final(out)@) == item_views(old(out)@) + item_views(list@),
{
    let ghost start = item_views(out@);
    let ghost all = item_views(list@);
    let mut i: usize = 0;
    assert(start + all.take(0) =~= start);
    while i < list.len()
        invariant
            i <= list.len(),
            start == item_views(old(out)@),
            all == item_views(list@),
            item_views(out@) == start + all.take(i as int),
        decreases list.len() - i,
    {
        let ghost before = item_views(out@);
        let one = list[i].duplicate();
        out.push(one);
        assert(item_views(out@) =~= before.push(one@));
        i = i + 1;
        assert(item_views(out@) =~= start + all.take(i as int));
    }
    assert(all.take(i as int) =~= all);
}

pub fn same_items<T: Item>(a: &[T], b: &[T]) -> (r: bool)
    ensures
        r == (item_views(a@) == item_views(b@)),
{
    let ghost x = item_views(a@);
    let ghost y = item_views(b@);
    if a.len() != b.len() {
        assert(x.len() != y.len());
        return false;
    }
    let mut i: usize = 0;
    while i < a.len()
        invariant
            i <= a.len(),
            a@.len() == b@.len(),
            x == item_views(a@),
            y == item_views(b@),
            forall|k: int| 0 <= k < i ==> x[k] == y[k],
        decreases a.len() - i,
    {
        assert(x[i as int] == a@[i as int]@ && y[i as int] == b@[i as int]@);
        if !a[i].equal(&b[i]) {
            return false;
        }
        i = i + 1;
    }
    assert(x =~= y);
    true
}

/// The position of the first item with the key.
pub open spec fn find_key<T: Item>(list: Seq<T::V>, key: T::Key) -> Option<int>
    decreases list.len(),
{
    if list.len() == 0 {
        None
    } else {
        match find_key::<T>(list.drop_last(), key) {
            Some(i) => Some(i),
            None => if T::key(list.last()) == key {
                Some(list.len() - 1)
            } else {
                None
            },
        }
    }
}

proof fn find_key_stays<T: Item>(list: Seq<T::V>, key: T::Key, i: int)
    requires
        0 <= i < list.len(),
        find_key::<T>(list.take(i + 1), key) == Some(i),
    ensures
        find_key::<T>(list, key) == Some(i),
    decreases list.len(),
{
    if list.len() == i + 1 {
        assert(list.take(i + 1) =~= list);
    } else {
        assert(list.drop_last().take(i + 1) =~= list.take(i + 1));
        find_key_stays::<T>(list.drop_last(), key, i);
    }
}

/// What is found has the key and is the first to have it; what is not found is absent.
pub proof fn find_key_is_exact<T: Item>(list: Seq<T::V>, key: T::Key)
    ensures
        match find_key::<T>(list, key) {
            Some(i) => {
                &&& 0 <= i < list.len()
                &&& T::key(list[i]) == key
                &&& forall|k: int| 0 <= k < i ==> T::key(#[trigger] list[k]) != key
            },
            None => forall|i: int| 0 <= i < list.len() ==> T::key(#[trigger] list[i]) != key,
        },
    decreases list.len(),
{
    if list.len() > 0 {
        let front = list.drop_last();
        find_key_is_exact::<T>(front, key);
        assert forall|i: int| 0 <= i < front.len() implies #[trigger] list[i] == front[i] by {}
    }
}

/// The position of the first of the first `count` items with the key of the given one.
fn position_of<T: Item>(list: &[T], count: usize, item: &T) -> (r: Option<usize>)
    requires
        count <= list@.len(),
    ensures
        match find_key::<T>(item_views(list@).take(count as int), T::key(item@)) {
            Some(i) => r is Some && r->0 == i && 0 <= i < count,
            None => r is None,
        },
{
    let ghost all = item_views(list@);
    let ghost part = all.take(count as int);
    let mut i: usize = 0;
    while i < count
        invariant
            i <= count <= list@.len(),
            all == item_views(list@),
            part == all.take(count as int),
            find_key::<T>(part.take(i as int), T::key(item@)) is None,
        decreases count - i,
    {
        let ghost next = part.take(i as int + 1);
        assert(next.drop_last() =~= part.take(i as int));
        assert(next.last() == list@[i as int]@);
        if list[i].same_key(item) {
            proof {
                find_key_stays::<T>(part, T::key(item@), i as int);
            }
            return Some(i);
        }
        i = i + 1;
    }
    assert(part.take(i as int) =~= part);
    None
}

/// The position of the first item whose key stood before it.
pub open spec fn first_repeat<T: Item>(list: Seq<T::V>) -> Option<int>
    decreases list.len(),
{
    if list.len() == 0 {
        None
    } else {
        match first_repeat::<T>(list.drop_last()) {
            Some(i) => Some(i),
            None => if find_key::<T>(list.drop_last(), T::key(list.last())) is Some {
                Some(list.len() - 1)
            } else {
                None
            },
        }
    }
}

proof fn first_repeat_stays<T: Item>(list: Seq<T::V>, i: int)
    requires
        0 <= i < list.len(),
        first_repeat::<T>(list.take(i + 1)) == Some(i),
    ensures
        first_repeat::<T>(list) == Some(i),
    decreases list.len(),
{
    if list.len() == i + 1 {
        assert(list.take(i + 1) =~= list);
    } else {
        assert(list.drop_last().take(i + 1) =~= list.take(i + 1));
        first_repeat_stays::<T>(list.drop_last(), i);
    }
}

/// Finds the first item whose key stood before it.
pub fn find_repeat<T: Item>(list: &[T]) -> (r: Option<usize>)
    ensures
        match first_repeat::<T>(item_views(list@)) {
            Some(i) => r is Some && r->0 == i && 0 <= i < list@.len(),
            None => r is None,
        },
{
    let ghost all = item_views(list@);
    let mut i: usize = 0;
    while i < list.len()
        invariant
            i <= list.len(),
            all == item_views(list@),
            first_repeat::<T>(all.take(i as int)) is None,
        decreases list.len() - i,
    {
        let ghost next = all.take(i as int + 1);
        assert(next.drop_last() =~= all.take(i as int));
        assert(next.last() == list@[i as int]@);
        if position_of(list, i, &list[i]).is_some() {
            proof {
                first_repeat_stays::<T>(all, i as int);
            }
            return Some(i);
        }
        i = i + 1;
    }
    assert(all.take(i as int) =~= all);
    None
}

/// The list with one item put in: in place of the first with its key, or at the end.
pub open spec fn with_item<T: Item>(list: Seq<T::V>, item: T::V) -> Seq<T::V> {
    match find_key::<T>(list, T::key(item)) {
        Some(i) => list.update(i, item),
        None => list.push(item),
    }
}

/// The list with several items put in, one after the other.
pub open spec fn upserted<T: Item>(list: Seq<T::V>, updates: Seq<T::V>) -> Seq<T::V>
    decreases updates.len(),
{
    if updates.len() == 0 {
        list
    } else {
        with_item::<T>(upserted::<T>(list, updates.drop_last()), updates.last())
    }
}

/// Puts several items into a copy of the list.
pub fn upsert_items<T: Item>(list: &[T], updates: &[T]) -> (r: Vec<T>)
    ensures
        item_views(r@) == upserted::<T>(item_views(list@), item_views(updates@)),
{
    let ghost start = item_views(list@);
    let ghost all = item_views(updates@);
    let mut out = copy_items(list);
    let mut i: usize = 0;
    assert(all.take(0) =~= Seq::<T::V>::empty());
    while i < updates.len()
        invariant
            i <= updates.len(),
            start == item_views(list@),
            all == item_views(updates@),
            item_views(out@) == upserted::<T>(start, all.take(i as int)),
        decreases updates.len() - i,
    {
        let ghost next = all.take(i as int + 1);
        assert(next.drop_last() =~= all.take(i as int));
        assert(next.last() == updates@[i as int]@);
        let ghost before = item_views(out@);
        let one = updates[i].duplicate();
        assert(before.take(out@.len() as int) =~= before);
        match position_of(&out, out.len(), &updates[i]) {
            Some(at) => {
                out.set(at, one);
                assert(item_views(out@) =~= before.update(at as int, one@));
            },
            None => {
                out.push(one);
                assert(item_views(out@) =~= before.push(one@));
            },
        }
        i = i + 1;
    }
    assert(all.take(i as int) =~= all);
    out
}

/// The items that are not gone, in order.
pub open spec fn kept<V>(list: Seq<V>, gone: spec_fn(V) -> bool) -> Seq<V>
    decreases list.len(),
{
    if list.len() == 0 {
        Seq::empty()
    } else {
        let rest = kept(list.drop_last(), gone);
        if gone(list.last()) {
            rest
        } else {
            rest.push(list.last())
        }
    }
}

/// Whether the list loses an item.
pub open spec fn loses<V>(list: Seq<V>, gone: spec_fn(V) -> bool) -> bool {
    kept(list, gone).len() != list.len()
}

/// Copies the items that are not marked as gone.
pub(crate) fn keep_items<T: Item>(list: &[T], marks: &[bool], Ghost(gone): Ghost<spec_fn(T::V) -> bool>) -> (r:
    Vec<T>)
    requires
        marks@.len() == list@.len(),
        forall|i: int| 0 <= i < list@.len() ==> #[trigger] marks@[i] == gone(list@[i]@),
    ensures
        item_views(r@) == kept(item_views(list@), gone),
{
    let ghost all = item_views(list@);
    let mut out: Vec<T> = Vec::new();
    let mut i: usize = 0;
    assert(item_views(out@) =~= Seq::<T::V>::empty());
    while i < list.len()
        invariant
            i <= list.len(),
            marks@.len() == list@.len(),
            forall|i: int| 0 <= i < list@.len() ==> #[trigger] marks@[i] == gone(list@[i]@),
            all == item_views(list@),
            item_views(out@) == kept(all.take(i as int), gone),
        decreases list.len() - i,
    {
        let ghost next = all.take(i as int + 1);
        assert(next.drop_last() =~= all.take(i as int));
        assert(next.last() == list@[i as int]@);
        if !marks[i] {
            let ghost before = item_views(out@);
            let one = list[i].duplicate();
            out.push(one);
            assert(item_views(out@) =~= before.push(one@));
        }
        i = i + 1;
    }
    assert(all.take(i as int) =~= all);
    out
}

// ---- laws ----------------------------------------------------------------------------

/// An item that was put in is found under its key, and no other key is touched.
pub proof fn upserts_are_found<T: Item>(list: Seq<T::V>, item: T::V, other: T::Key)
    ensures
        ({
            let after = with_item::<T>(list, item);
            let at = find_key::<T>(after, T::key(item));
            &&& at is Some
            &&& after[at->0] == item
            &&& other != T::key(item) ==> find_key::<T>(after, other) == find_key::<T>(list, other)
            &&& other != T::key(item) && find_key::<T>(list, other) is Some
                ==> after[find_key::<T>(list, other)->0] == list[find_key::<T>(list, other)->0]
        }),
{
    let after = with_item::<T>(list, item);
    let key = T::key(item);
    find_key_is_exact::<T>(list, key);
    find_key_is_exact::<T>(after, key);
    find_key_is_exact::<T>(list, other);
    find_key_is_exact::<T>(after, other);
    let place = match find_key::<T>(list, key) {
        Some(i) => i,
        None => list.len() as int,
    };
    assert(after[place] == item);
    assert(forall|k: int| 0 <= k < list.len() && k != place ==> #[trigger] after[k] == list[k]);
    let at = find_key::<T>(after, key);
    if at is None {
        assert(T::key(after[place]) != key);
    } else if at->0 < place {
        assert(T::key(list[at->0]) != key);
    } else if at->0 > place {
        assert(T::key(after[place]) != key);
    }
    if other != key {
        match (find_key::<T>(list, other), find_key::<T>(after, other)) {
            (Some(i), Some(k)) => {
                assert(i != place && k != place);
                if i < k {
                    assert(T::key(after[i]) != other);
                } else if k < i {
                    assert(T::key(list[k]) != other);
                }
            },
            (Some(i), None) => {
                assert(i != place);
                assert(T::key(after[i]) != other);
            },
            (None, Some(k)) => {
                assert(k != place);
                assert(T::key(list[k]) != other);
            },
            (None, None) => {},
        }
    }
}

/// Updates leave the items with other keys where they are.
pub proof fn upserts_leave_the_others<T: Item>(list: Seq<T::V>, updates: Seq<T::V>, i: int)
    requires
        0 <= i < list.len(),
        forall|k: int| 0 <= k < updates.len() ==> T::key(#[trigger] updates[k]) != T::key(list[i]),
    ensures
        upserted::<T>(list, updates).len() >= list.len(),
        upserted::<T>(list, updates)[i] == list[i],
    decreases updates.len(),
{
    if updates.len() > 0 {
        let front = updates.drop_last();
        assert forall|k: int| 0 <= k < front.len() implies T::key(#[trigger] front[k]) != T::key(
            list[i],
        ) by {
            assert(front[k] == updates[k]);
        }
        upserts_leave_the_others::<T>(list, front, i);
        let before = upserted::<T>(list, front);
        let item = updates.last();
        assert(T::key(updates[updates.len() - 1]) != T::key(list[i]));
        find_key_is_exact::<T>(before, T::key(item));
    }
}

/// What is kept is what is not gone.
pub proof fn kept_are_not_gone<V>(list: Seq<V>, gone: spec_fn(V) -> bool)
    ensures
        kept(list, gone).len() <= list.len(),
        forall|i: int|
            0 <= i < kept(list, gone).len() ==> !gone(#[trigger] kept(list, gone)[i])
                && list.contains(kept(list, gone)[i]),
        forall|i: int|
            0 <= i < list.len() && !gone(#[trigger] list[i]) ==> kept(list, gone).contains(list[i]),
    decreases list.len(),
{
    if list.len() > 0 {
        let front = list.drop_last();
        kept_are_not_gone(front, gone);
        let rest = kept(front, gone);
        let all = kept(list, gone);
        assert(list.contains(list.last())) by {
            assert(list[list.len() - 1] == list.last());
        }
        assert forall|i: int| 0 <= i < all.len() implies !gone(#[trigger] all[i]) && list.contains(
            all[i],
        ) by {
            if i < rest.len() {
                assert(all[i] == rest[i]);
                assert(front.contains(rest[i]));
                let k = choose|k: int| 0 <= k < front.len() && front[k] == rest[i];
                assert(list[k] == all[i]);
            }
        }
        assert forall|i: int| 0 <= i < list.len() && !gone(#[trigger] list[i]) implies all.contains(
            list[i],
        ) by {
            if i < front.len() {
                assert(front[i] == list[i]);
                assert(rest.contains(front[i]));
                let k = choose|k: int| 0 <= k < rest.len() && rest[k] == front[i];
                assert(all[k] == list[i]);
            } else {
                assert(all[all.len() - 1] == list[i]);
            }
        }
    }
}

/// Of several updates with one key the last is in force: it is found under its key, whatever the
/// list held there.
pub proof fn the_last_update_counts<T: Item>(list: Seq<T::V>, updates: Seq<T::V>, k: int)
    requires
        0 <= k < updates.len(),
        forall|j: int| k < j < updates.len() ==> T::key(#[trigger] updates[j]) != T::key(updates[k]),
    ensures
        upserted::<T>(list, updates).contains(updates[k]),
        ({
            let after = upserted::<T>(list, updates);
            let at = find_key::<T>(after, T::key(updates[k]));
            at is Some && 0 <= at->0 < after.len() && after[at->0] == updates[k]
        }),
    decreases updates.len(),
{
    let front = updates.drop_last();
    let before = upserted::<T>(list, front);
    let after = upserted::<T>(list, updates);
    let key = T::key(updates[k]);
    upserts_are_found::<T>(before, updates.last(), key);
    if k < front.len() {
        assert(front[k] == updates[k]);
        assert forall|j: int| k < j < front.len() implies T::key(#[trigger] front[j]) != T::key(
            front[k],
        ) by {
            assert(front[j] == updates[j]);
        }
        the_last_update_counts::<T>(list, front, k);
        assert(T::key(updates[updates.len() - 1]) != key);
    }
    find_key_is_exact::<T>(after, key);
}

/// Where no key is repeated, all keys differ.
pub proof fn keys_without_repeats_differ<T: Item>(list: Seq<T::V>, i: int, k: int)
    requires
        0 <= i < k < list.len(),
        first_repeat::<T>(list) is None,
    ensures
        T::key(list[i]) != T::key(list[k]),
    decreases list.len(),
{
    let front = list.drop_last();
    if k < front.len() {
        keys_without_repeats_differ::<T>(front, i, k);
    } else {
        find_key_is_exact::<T>(front, T::key(list[k]));
        assert(front[i] == list[i]);
    }
}

/// Two items with the same key are a repeat.
pub proof fn repeated_keys_are_found<T: Item>(list: Seq<T::V>, i: int, k: int)
    requires
        0 <= i < k < list.len(),
        T::key(list[i]) == T::key(list[k]),
    ensures
        first_repeat::<T>(list) is Some,
{
    if first_repeat::<T>(list) is None {
        keys_without_repeats_differ::<T>(list, i, k);
    }
}

/// Each update without a repeated key is in the list, and the items with other keys stay where
/// they are.
pub proof fn updates_are_in_the_list<T: Item>(list: Seq<T::V>, updates: Seq<T::V>, k: int)
    requires
        0 <= k < updates.len(),
        first_repeat::<T>(updates) is None,
    ensures
        upserted::<T>(list, updates).contains(updates[k]),
{
    assert forall|j: int| k < j < updates.len() implies T::key(#[trigger] updates[j]) != T::key(
        updates[k],
    ) by {
        keys_without_repeats_differ::<T>(updates, k, j);
    }
    the_last_update_counts::<T>(list, updates, k);
}

/// A list that loses nothing holds nothing that is to go.
pub proof fn lists_lose_what_goes<V>(list: Seq<V>, gone: spec_fn(V) -> bool)
    ensures
        loses(list, gone) <==> exists|i: int| 0 <= i < list.len() && gone(#[trigger] list[i]),
    decreases list.len(),
{
    kept_are_not_gone(list, gone);
    if list.len() > 0 {
        let front = list.drop_last();
        kept_are_not_gone(front, gone);
        lists_lose_what_goes(front, gone);
        if loses(front, gone) {
            let i = choose|i: int| 0 <= i < front.len() && gone(#[trigger] front[i]);
            assert(gone(list[i]));
        }
        if gone(list.last()) {
            assert(gone(list[list.len() - 1]));
        }
        if exists|i: int| 0 <= i < list.len() && gone(#[trigger] list[i]) {
            let i = choose|i: int| 0 <= i < list.len() && gone(#[trigger] list[i]);
            if i < front.len() {
                assert(gone(front[i]));
            }
        }
    }
}

} // verus!
