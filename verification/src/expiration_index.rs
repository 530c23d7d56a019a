use std::collections::BTreeMap;
use vstd::prelude::*;
use vstd::std_specs::btree::{increasing_seq, key_obeys_cmp_spec};
use vstd::std_specs::cmp::OrdSpec;
use vstd::std_specs::iter::IteratorSpec;
use crate::date_time::DateTimeAsMicroseconds;

verus! {

/// Tells whether two items of an expiration index stand for the same thing,
/// so that one can be taken out by showing the other.
pub trait ExpirationItemsAreSame<T: Clone> {
    spec fn same_as(&self, other_one: &T) -> bool;

    fn are_same(&self, other_one: &T) -> (r: bool)
        ensures
            r == self.same_as(other_one),
    ;
}

impl ExpirationItemsAreSame<String> for String {
    /// Two texts are the same where they are equal.
    open spec fn same_as(&self, other_one: &String) -> bool {
        self@ == other_one@
    }

    fn are_same(&self, other_one: &String) -> (r: bool) {
        *self == *other_one
    }
}

/// The items that expire, kept under their instants. Read in the order
/// of the instants, and under one instant in the order in which they
/// came, they are the sequence `items`, of which the contracts speak.
pub struct ExpirationIndex<T: Clone + ExpirationItemsAreSame<T>> {
    pub index: BTreeMap<i64, Vec<T>>,
    pub amount: usize,
    pub items: Ghost<Seq<(i64, T)>>,
}

/// The instants ascend.
pub open spec fn moments_ascend<T>(e: Seq<(i64, T)>) -> bool {
    forall|i: int, j: int| 0 <= i < j < e.len() ==> (#[trigger] e[i]).0 <= (#[trigger] e[j]).0
}

/// The first place from `from` on whose instant is later than `moment`.
pub open spec fn due_count_from<T>(e: Seq<(i64, T)>, moment: i64, from: int) -> int
    decreases e.len() - from,
{
    if 0 <= from < e.len() && e[from].0 <= moment {
        due_count_from(e, moment, from + 1)
    } else {
        from
    }
}

/// The number of items that are due at `moment`: those from the first on
/// whose instant is not later.
pub open spec fn due_count<T>(e: Seq<(i64, T)>, moment: i64) -> int {
    due_count_from(e, moment, 0)
}

/// The items that are due at `moment`, earliest first.
pub open spec fn due_items<T>(e: Seq<(i64, T)>, moment: i64) -> Seq<T> {
    e.take(due_count(e, moment)).map_values(|p: (i64, T)| p.1)
}

/// The index with one more item: behind the items of its instant.
pub open spec fn with_item<T>(e: Seq<(i64, T)>, moment: i64, item: T) -> Seq<(i64, T)> {
    e.insert(due_count(e, moment), (moment, item))
}

/// The first place from `from` on that holds, under the instant `moment`,
/// an item that is the same as `item`; the length where there is none.
pub open spec fn place_of_same_from<T: Clone + ExpirationItemsAreSame<T>>(
    e: Seq<(i64, T)>,
    moment: i64,
    item: T,
    from: int,
) -> int
    decreases e.len() - from,
{
    if 0 <= from < e.len() && !(e[from].0 == moment && item.same_as(&e[from].1)) {
        place_of_same_from(e, moment, item, from + 1)
    } else {
        from
    }
}

pub open spec fn place_of_same<T: Clone + ExpirationItemsAreSame<T>>(
    e: Seq<(i64, T)>,
    moment: i64,
    item: T,
) -> int {
    place_of_same_from(e, moment, item, 0)
}

/// The index without the first item of the instant `moment` that is the
/// same as `item`; the index as it is where it holds none.
pub open spec fn without_item<T: Clone + ExpirationItemsAreSame<T>>(
    e: Seq<(i64, T)>,
    moment: i64,
    item: T,
) -> Seq<(i64, T)> {
    if place_of_same(e, moment, item) < e.len() {
        e.remove(place_of_same(e, moment, item))
    } else {
        e
    }
}

pub open spec fn has_moment<T>(e: Seq<(i64, T)>, moment: i64) -> bool {
    exists|i: int| 0 <= i < e.len() && (#[trigger] e[i]).0 == moment
}

pub proof fn lemma_due_count_from<T>(e: Seq<(i64, T)>, moment: i64, from: int)
    requires
        0 <= from <= e.len(),
    ensures
        from <= due_count_from(e, moment, from) <= e.len(),
        forall|j: int| from <= j < due_count_from(e, moment, from) ==> (#[trigger] e[j]).0 <= moment,
        due_count_from(e, moment, from) < e.len() ==> e[due_count_from(e, moment, from)].0 > moment,
    decreases e.len() - from,
{
    if from < e.len() && e[from].0 <= moment {
        lemma_due_count_from(e, moment, from + 1);
    }
}

/// The items before the due count are due, those from it on are not.
pub proof fn lemma_due_count<T>(e: Seq<(i64, T)>, moment: i64)
    requires
        moments_ascend(e),
    ensures
        0 <= due_count(e, moment) <= e.len(),
        forall|j: int| 0 <= j < due_count(e, moment) ==> (#[trigger] e[j]).0 <= moment,
        forall|j: int| due_count(e, moment) <= j < e.len() ==> (#[trigger] e[j]).0 > moment,
{
    lemma_due_count_from(e, moment, 0);
    let c = due_count(e, moment);
    assert forall|j: int| c <= j < e.len() implies (#[trigger] e[j]).0 > moment by {
        if c < j {
            assert(e[c].0 <= e[j].0);
        }
    }
}

proof fn lemma_due_count_from_is<T>(e: Seq<(i64, T)>, moment: i64, from: int, at: int)
    requires
        0 <= from <= at <= e.len(),
        forall|j: int| 0 <= j < at ==> (#[trigger] e[j]).0 <= moment,
        at < e.len() ==> e[at].0 > moment,
    ensures
        due_count_from(e, moment, from) == at,
    decreases at - from,
{
    if from < at {
        lemma_due_count_from_is(e, moment, from + 1, at);
    }
}

/// A place with the due items in front of it and none at it is the due
/// count.
pub proof fn lemma_due_count_is<T>(e: Seq<(i64, T)>, moment: i64, at: int)
    requires
        0 <= at <= e.len(),
        forall|j: int| 0 <= j < at ==> (#[trigger] e[j]).0 <= moment,
        at < e.len() ==> e[at].0 > moment,
    ensures
        due_count(e, moment) == at,
{
    lemma_due_count_from_is(e, moment, 0, at);
}

pub proof fn lemma_place_of_same_from<T: Clone + ExpirationItemsAreSame<T>>(
    e: Seq<(i64, T)>,
    moment: i64,
    item: T,
    from: int,
)
    requires
        0 <= from <= e.len(),
    ensures
        from <= place_of_same_from(e, moment, item, from) <= e.len(),
        forall|j: int|
            from <= j < place_of_same_from(e, moment, item, from) ==> !((#[trigger] e[j]).0
                == moment && item.same_as(&e[j].1)),
        place_of_same_from(e, moment, item, from) < e.len() ==> e[place_of_same_from(
            e,
            moment,
            item,
            from,
        )].0 == moment && item.same_as(&e[place_of_same_from(e, moment, item, from)].1),
    decreases e.len() - from,
{
    if from < e.len() && !(e[from].0 == moment && item.same_as(&e[from].1)) {
        lemma_place_of_same_from(e, moment, item, from + 1);
    }
}

/// Adding an item keeps the instants in order.
pub proof fn lemma_with_item<T>(e: Seq<(i64, T)>, moment: i64, item: T)
    requires
        moments_ascend(e),
    ensures
        moments_ascend(with_item(e, moment, item)),
        with_item(e, moment, item).len() == e.len() + 1,
{
    lemma_due_count(e, moment);
    let c = due_count(e, moment);
    let n = with_item(e, moment, item);
    assert forall|i: int, j: int| 0 <= i < j < n.len() implies (#[trigger] n[i]).0 <= (
    #[trigger] n[j]).0 by {
        let a = if i < c { i } else { i - 1 };
        let b = if j < c { j } else { j - 1 };
        if i != c {
            assert(n[i] == e[a]);
        }
        if j != c {
            assert(n[j] == e[b]);
        }
    }
}

/// Taking an item out keeps the instants in order.
pub proof fn lemma_without_item<T: Clone + ExpirationItemsAreSame<T>>(
    e: Seq<(i64, T)>,
    moment: i64,
    item: T,
)
    requires
        moments_ascend(e),
    ensures
        moments_ascend(without_item(e, moment, item)),
        without_item(e, moment, item).len() <= e.len(),
{
    lemma_place_of_same_from(e, moment, item, 0);
    let p = place_of_same(e, moment, item);
    let n = without_item(e, moment, item);
    if p < e.len() {
        assert forall|i: int, j: int| 0 <= i < j < n.len() implies (#[trigger] n[i]).0 <= (
        #[trigger] n[j]).0 by {
            let a = if i < p { i } else { i + 1 };
            let b = if j < p { j } else { j + 1 };
            assert(n[i] == e[a] && n[j] == e[b]);
        }
    }
}

/// The first place from `from` on whose instant is not earlier than
/// `moment`.
pub open spec fn before_count_from<T>(e: Seq<(i64, T)>, moment: i64, from: int) -> int
    decreases e.len() - from,
{
    if 0 <= from < e.len() && e[from].0 < moment {
        before_count_from(e, moment, from + 1)
    } else {
        from
    }
}

/// The number of items that stand before those of the instant `moment`.
pub open spec fn before_count<T>(e: Seq<(i64, T)>, moment: i64) -> int {
    before_count_from(e, moment, 0)
}

/// The items of the instant `moment`, in their order.
pub open spec fn items_at<T>(e: Seq<(i64, T)>, moment: i64) -> Seq<T> {
    e.subrange(before_count(e, moment), due_count(e, moment)).map_values(|p: (i64, T)| p.1)
}

/// Whether the map keeps the items: under each instant that it holds,
/// the items of that instant, of which there is one at least; and each
/// item under its instant.
#[verifier::opaque]
pub open spec fn keeps_items<T>(map: Map<i64, Vec<T>>, e: Seq<(i64, T)>) -> bool {
    &&& forall|k: i64| #[trigger]
        map.contains_key(k) ==> map[k]@.len() > 0 && map[k]@ == items_at(e, k)
    &&& forall|i: int| 0 <= i < e.len() ==> map.contains_key((#[trigger] e[i]).0)
}

proof fn lemma_before_count_from<T>(e: Seq<(i64, T)>, moment: i64, from: int)
    requires
        0 <= from <= e.len(),
    ensures
        from <= before_count_from(e, moment, from) <= e.len(),
        forall|j: int|
            from <= j < before_count_from(e, moment, from) ==> (#[trigger] e[j]).0 < moment,
        before_count_from(e, moment, from) < e.len() ==> e[before_count_from(e, moment, from)].0
            >= moment,
    decreases e.len() - from,
{
    if from < e.len() && e[from].0 < moment {
        lemma_before_count_from(e, moment, from + 1);
    }
}

proof fn lemma_before_count_from_is<T>(e: Seq<(i64, T)>, moment: i64, from: int, at: int)
    requires
        0 <= from <= at <= e.len(),
        forall|j: int| 0 <= j < at ==> (#[trigger] e[j]).0 < moment,
        at < e.len() ==> e[at].0 >= moment,
    ensures
        before_count_from(e, moment, from) == at,
    decreases at - from,
{
    if from < at {
        lemma_before_count_from_is(e, moment, from + 1, at);
    }
}

/// Where the items of an instant stand: behind the earlier ones and
/// before the later ones.
pub proof fn lemma_items_place<T>(e: Seq<(i64, T)>, moment: i64)
    requires
        moments_ascend(e),
    ensures
        0 <= before_count(e, moment) <= due_count(e, moment) <= e.len(),
        forall|j: int| 0 <= j < before_count(e, moment) ==> (#[trigger] e[j]).0 < moment,
        forall|j: int|
            before_count(e, moment) <= j < due_count(e, moment) ==> (#[trigger] e[j]).0 == moment,
        forall|j: int| due_count(e, moment) <= j < e.len() ==> (#[trigger] e[j]).0 > moment,
        items_at(e, moment).len() == due_count(e, moment) - before_count(e, moment),
{
    lemma_before_count_from(e, moment, 0);
    lemma_due_count(e, moment);
    let b = before_count(e, moment);
    let d = due_count(e, moment);
    if d < b {
        assert(e[d].0 < moment);
    }
    assert forall|j: int| b <= j < d implies (#[trigger] e[j]).0 == moment by {
        if b < j {
            assert(e[b].0 <= e[j].0);
        }
    }
}

/// Places with the earlier items in front, the items of the instant
/// between them and the later ones behind are the places of the instant.
pub proof fn lemma_items_place_is<T>(e: Seq<(i64, T)>, moment: i64, first: int, behind: int)
    requires
        0 <= first <= behind <= e.len(),
        forall|j: int| 0 <= j < first ==> (#[trigger] e[j]).0 < moment,
        forall|j: int| first <= j < behind ==> (#[trigger] e[j]).0 == moment,
        forall|j: int| behind <= j < e.len() ==> (#[trigger] e[j]).0 > moment,
    ensures
        before_count(e, moment) == first,
        due_count(e, moment) == behind,
{
    lemma_before_count_from_is(e, moment, 0, first);
    lemma_due_count_is(e, moment, behind);
}

/// The items of each instant once one more item was added.
pub proof fn lemma_items_at_with_item<T>(e: Seq<(i64, T)>, moment: i64, item: T, other: i64)
    requires
        moments_ascend(e),
    ensures
        items_at(with_item(e, moment, item), other) == if other == moment {
            items_at(e, moment).push(item)
        } else {
            items_at(e, other)
        },
{
    lemma_items_place(e, moment);
    lemma_items_place(e, other);
    let d = due_count(e, moment);
    let n = with_item(e, moment, item);
    let first = before_count(e, other);
    let behind = due_count(e, other);
    assert(n == e.insert(d, (moment, item)));
    if other < moment {
        if behind > d {
            assert(e[d].0 > moment);
        }
        lemma_items_place_is(n, other, first, behind);
        assert(n.subrange(first, behind) =~= e.subrange(first, behind));
    } else if other == moment {
        lemma_items_place_is(n, other, first, behind + 1);
        assert(n.subrange(first, behind + 1) =~= e.subrange(first, behind).push((moment, item)));
        assert(items_at(n, other) =~= items_at(e, moment).push(item));
    } else {
        if first < d {
            assert(e[first].0 >= other);
        }
        lemma_items_place_is(n, other, first + 1, behind + 1);
        assert(n.subrange(first + 1, behind + 1) =~= e.subrange(first, behind));
    }
}

/// The items of each instant once the item at a place was taken out.
pub proof fn lemma_items_at_removed<T>(e: Seq<(i64, T)>, place: int, other: i64)
    requires
        moments_ascend(e),
        0 <= place < e.len(),
    ensures
        before_count(e, e[place].0) <= place < due_count(e, e[place].0),
        items_at(e.remove(place), other) == if other == e[place].0 {
            items_at(e, other).remove(place - before_count(e, other))
        } else {
            items_at(e, other)
        },
{
    let moment = e[place].0;
    lemma_items_place(e, moment);
    lemma_items_place(e, other);
    let b = before_count(e, moment);
    let d = due_count(e, moment);
    let n = e.remove(place);
    let first = before_count(e, other);
    let behind = due_count(e, other);
    if place < b {
        assert(e[place].0 < moment);
    }
    if place >= d {
        assert(e[place].0 > moment);
    }
    if other < moment {
        if behind > b {
            assert(e[b].0 == moment || e[b].0 > moment);
        }
        lemma_items_place_is(n, other, first, behind);
        assert(n.subrange(first, behind) =~= e.subrange(first, behind));
    } else if other == moment {
        lemma_items_place_is(n, other, b, d - 1);
        assert(n.subrange(b, d - 1) =~= e.subrange(b, d).remove(place - b));
        assert(items_at(n, other) =~= items_at(e, other).remove(place - b));
    } else {
        if first < d {
            assert(e[first].0 >= other);
        }
        lemma_items_place_is(n, other, first - 1, behind - 1);
        assert(n.subrange(first - 1, behind - 1) =~= e.subrange(first, behind));
    }
}

/// Integers obey the laws of an order, so what the standard library's
/// ordered map promises of keys that do holds of instants.
pub proof fn lemma_instants_have_an_order()
    ensures
        vstd::laws_cmp::obeys_cmp::<i64>(),
        key_obeys_cmp_spec::<i64>(),
{
    broadcast use vstd::laws_cmp::group_laws_cmp;
    broadcast use vstd::std_specs::btree::group_btree_axioms;

}

/// Instants that increase, as the ordered map tells it, are each less
/// than the next.
pub proof fn lemma_increasing_instants(s: Seq<i64>)
    requires
        increasing_seq(s),
    ensures
        forall|i: int, j: int| 0 <= i < j < s.len() ==> s[i] < s[j],
{
    broadcast use vstd::laws_cmp::group_laws_cmp;
    broadcast use vstd::std_specs::btree::group_btree_axioms;

    assert forall|i: int, j: int| 0 <= i < j < s.len() implies s[i] < s[j] by {
        assert(s[i].cmp_spec(&s[j]) == std::cmp::Ordering::Less);
    }
}

impl<T: Clone + ExpirationItemsAreSame<T>> View for ExpirationIndex<T> {
    type V = Seq<(i64, T)>;

    open spec fn view(&self) -> Seq<(i64, T)> {
        self.items@
    }
}

impl<T: Clone + ExpirationItemsAreSame<T>> ExpirationIndex<T> {
    /// The items stand in the order of their instants, the map keeps
    /// them, and they are counted.
    pub open spec fn wf(&self) -> bool {
        &&& moments_ascend(self@)
        &&& keeps_items(self.index@, self@)
        &&& self.amount == self@.len()
    }

    pub fn new() -> (r: Self)
        ensures
            r.wf(),
            r@.len() == 0,
    {
        reveal(keeps_items);
        ExpirationIndex { index: BTreeMap::new(), amount: 0, items: Ghost(Seq::empty()) }
    }

    /// Puts `item` under the instant, behind the items that the instant
    /// has. Without an instant nothing is done.
    pub fn add(&mut self, expiration_moment: Option<DateTimeAsMicroseconds>, item: T)
        requires
            old(self).wf(),
            expiration_moment is Some ==> old(self)@.len() < usize::MAX,
        ensures
            final(self).wf(),
            final(self)@ == match expiration_moment {
                Some(moment) => with_item(old(self)@, moment.unix_microseconds, item),
                None => old(self)@,
            },
    {
        broadcast use vstd::std_specs::btree::group_btree_axioms;

        let expire_moment: i64 = match expiration_moment {
            Some(moment) => moment.unix_microseconds,
            None => {
                return ;
            },
        };
        let ghost e = self@;
        let ghost kept = self.index@;
        let ghost given = item;
        proof {
            reveal(keeps_items);
            lemma_instants_have_an_order();
            lemma_with_item(e, expire_moment, item);
            lemma_items_place(e, expire_moment);
        }
        let mut list: Vec<T> = match self.index.remove(&expire_moment) {
            Some(list) => list,
            None => Vec::new(),
        };
        proof {
            if !kept.contains_key(expire_moment) {
                if before_count(e, expire_moment) < due_count(e, expire_moment) {
                    assert(kept.contains_key(e[before_count(e, expire_moment)].0));
                }
                assert(items_at(e, expire_moment) =~= Seq::<T>::empty());
            }
            assert(list@ == items_at(e, expire_moment));
        }
        list.push(item);
        self.index.insert(expire_moment, list);
        self.amount = self.amount + 1;
        self.items = Ghost(with_item(e, expire_moment, given));
        proof {
            let n = self@;
            let d = due_count(e, expire_moment);
            assert forall|k: i64| #[trigger] self.index@.contains_key(k) implies self.index@[k]@.len()
                > 0 && self.index@[k]@ == items_at(n, k) by {
                lemma_items_at_with_item(e, expire_moment, given, k);
                if k != expire_moment {
                    assert(kept.contains_key(k));
                }
            }
            assert forall|i: int| 0 <= i < n.len() implies self.index@.contains_key(
                (#[trigger] n[i]).0,
            ) by {
                if i < d {
                    assert(n[i] == e[i]);
                    assert(kept.contains_key(e[i].0));
                } else if i > d {
                    assert(n[i] == e[i - 1]);
                    assert(kept.contains_key(e[i - 1].0));
                }
            }
        }
    }

    /// Takes out the first item of the instant that is the same as `item`.
    /// Without an instant, or where the instant holds no such item,
    /// nothing is done.
    pub fn remove(&mut self, expiration_moment: Option<DateTimeAsMicroseconds>, item: &T)
        requires
            old(self).wf(),
        ensures
            final(self).wf(),
            final(self)@ == match expiration_moment {
                Some(moment) => without_item(old(self)@, moment.unix_microseconds, *item),
                None => old(self)@,
            },
    {
        broadcast use vstd::std_specs::btree::group_btree_axioms;

        let expire_moment: i64 = match expiration_moment {
            Some(moment) => moment.unix_microseconds,
            None => {
                return ;
            },
        };
        let ghost e = self@;
        let ghost kept = self.index@;
        let ghost first = before_count(e, expire_moment);
        let ghost place = place_of_same(e, expire_moment, *item);
        proof {
            reveal(keeps_items);
            lemma_instants_have_an_order();
            lemma_items_place(e, expire_moment);
            lemma_place_of_same_from(e, expire_moment, *item, 0);
            lemma_without_item(e, expire_moment, *item);
        }
        let mut list: Vec<T> = match self.index.remove(&expire_moment) {
            Some(list) => list,
            None => {
                proof {
                    if place < e.len() {
                        assert(kept.contains_key(e[place].0));
                    }
                    assert(self.index@ =~= kept);
                }
                return ;
            },
        };
        let mut at: usize = 0;
        while at < list.len() && !item.are_same(&list[at])
            invariant
                at <= list@.len(),
                forall|j: int| 0 <= j < at ==> !item.same_as(&(#[trigger] list@[j])),
            decreases list@.len() - at,
        {
            at = at + 1;
        }
        proof {
            assert forall|j: int| 0 <= j < list@.len() implies e[first + j].1 == #[trigger] list@[j] by {
                assert(items_at(e, expire_moment)[j] == e[first + j].1);
            }
            if place < e.len() {
                if place < first {
                    assert(e[place].0 < expire_moment);
                }
                if place >= due_count(e, expire_moment) {
                    assert(e[place].0 > expire_moment);
                }
                assert(e[place].1 == list@[place - first]);
            }
        }
        if at < list.len() {
            proof {
                assert(e[first + at].1 == list@[at as int]);
                assert(e[first + at].0 == expire_moment);
                assert(place == first + at);
            }
            let ghost before = list@;
            list.remove(at);
            if list.len() > 0 {
                self.index.insert(expire_moment, list);
            }
            self.amount = self.amount - 1;
            self.items = Ghost(e.remove(place));
            proof {
                let n = self@;
                assert forall|k: i64| #[trigger] self.index@.contains_key(k) implies self.index@[k]@.len()
                    > 0 && self.index@[k]@ == items_at(n, k) by {
                    lemma_items_at_removed(e, place, k);
                    if k != expire_moment {
                        assert(kept.contains_key(k));
                    }
                }
                assert forall|i: int| 0 <= i < n.len() implies self.index@.contains_key(
                    (#[trigger] n[i]).0,
                ) by {
                    let a = if i < place {
                        i
                    } else {
                        i + 1
                    };
                    assert(n[i] == e[a]);
                    assert(kept.contains_key(e[a].0));
                    if n[i].0 == expire_moment {
                        lemma_items_at_removed(e, place, expire_moment);
                        lemma_items_place(n, expire_moment);
                        if i < before_count(n, expire_moment) {
                            assert(n[i].0 < expire_moment);
                        }
                        if i >= due_count(n, expire_moment) {
                            assert(n[i].0 > expire_moment);
                        }
                        assert(before.remove(at as int).len() > 0);
                    }
                }
            }
        } else {
            self.index.insert(expire_moment, list);
            proof {
                assert(place == e.len());
                assert(self.index@ =~= kept);
            }
        }
    }

    /// Takes the item out from under the old instant and puts it under the
    /// new one.
    pub fn update(
        &mut self,
        old_expiration_moment: Option<DateTimeAsMicroseconds>,
        new_expiration_moment: Option<DateTimeAsMicroseconds>,
        item: T,
    )
        requires
            old(self).wf(),
            new_expiration_moment is Some ==> old(self)@.len() < usize::MAX,
        ensures
            final(self).wf(),
            final(self)@ == ({
                let taken = match old_expiration_moment {
                    Some(moment) => without_item(old(self)@, moment.unix_microseconds, item),
                    None => old(self)@,
                };
                match new_expiration_moment {
                    Some(moment) => with_item(taken, moment.unix_microseconds, item),
                    None => taken,
                }
            }),
    {
        proof {
            if let Some(moment) = old_expiration_moment {
                lemma_without_item(self@, moment.unix_microseconds, item);
            }
        }
        self.remove(old_expiration_moment, &item);
        self.add(new_expiration_moment, item);
    }

    /// The items that are due at `now`, earliest first; `None` where none
    /// is due.
    pub fn get_items_to_expire(&self, now: DateTimeAsMicroseconds) -> (r: Option<Vec<&T>>)
        requires
            self.wf(),
        ensures
            match r {
                Some(items) => items@.len() > 0 && items@.map_values(|item: &T| *item)
                    == due_items(self@, now.unix_microseconds),
                None => due_items(self@, now.unix_microseconds).len() == 0,
            },
    {
        broadcast use vstd::std_specs::btree::group_btree_axioms;

        let ghost e = self@;
        let ghost kept = self.index@;
        let ghost moment = now.unix_microseconds;
        proof {
            reveal(keeps_items);
            lemma_instants_have_an_order();
        }
        let mut result: Vec<&T> = Vec::new();
        let entries = self.index.iter();
        let ghost all = entries.remaining();
        proof {
            let keys = all.map_values(|kv: (&i64, &Vec<T>)| *kv.0);
            lemma_increasing_instants(keys);
            assert forall|i: int, j: int| 0 <= i < j < all.len() implies *(#[trigger] all[i]).0 < *(
            #[trigger] all[j]).0 by {
                assert(keys[i] < keys[j]);
            }
        }
        let ghost mut seen: int = 0;
        let ghost mut done: int = 0;
        for entry in it: entries
            invariant_except_break
                seen == it.index(),
            invariant
                it.seq() == all,
                moments_ascend(e),
                keeps_items(kept, e),
                moment == now.unix_microseconds,
                forall|i: int|
                    0 <= i < all.len() ==> kept.contains_key(*(#[trigger] all[i]).0) && kept[*all[i].0]
                        == *all[i].1,
                forall|k: i64|
                    kept.contains_key(k) ==> exists|i: int|
                        0 <= i < all.len() && *(#[trigger] all[i]).0 == k,
                forall|i: int, j: int|
                    0 <= i < j < all.len() ==> *(#[trigger] all[i]).0 < *(#[trigger] all[j]).0,
                0 <= seen <= all.len(),
                0 <= done <= e.len(),
                result@.len() == done,
                forall|j: int| 0 <= j < done ==> *(#[trigger] result@[j]) == e[j].1,
                forall|j: int| 0 <= j < done ==> (#[trigger] e[j]).0 <= moment,
                forall|j: int, i: int|
                    0 <= j < done && seen <= i < all.len() ==> (#[trigger] e[j]).0 < *(
                    #[trigger] all[i]).0,
                forall|j: int, i: int|
                    done <= j < e.len() && 0 <= i < seen ==> (#[trigger] e[j]).0 > *(
                    #[trigger] all[i]).0,
            ensures
                seen < all.len() ==> *all[seen].0 > moment,
        {
            let (instant, items) = entry;
            if *instant > now.unix_microseconds {
                break ;
            }
            let ghost first = done;
            proof {
                reveal(keeps_items);
                lemma_items_place(e, *instant);
                assert(*all[seen].0 == *instant);
                if done < e.len() {
                    let key = e[done].0;
                    assert(kept.contains_key(key));
                    let i = choose|i: int| 0 <= i < all.len() && *(#[trigger] all[i]).0 == key;
                    if i < seen {
                        assert(e[done].0 > *all[i].0);
                    }
                    if seen < i {
                        assert(*all[seen].0 < *all[i].0);
                    }
                }
                lemma_before_count_from_is(e, *instant, 0, done);
                assert(kept[*all[seen].0] == *all[seen].1);
                assert(items@ == items_at(e, *instant));
            }
            let mut at: usize = 0;
            while at < items.len()
                invariant
                    at <= items@.len(),
                    items@ == items_at(e, *instant),
                    first == before_count(e, *instant),
                    first + items@.len() == due_count(e, *instant),
                    due_count(e, *instant) <= e.len(),
                    0 <= first,
                    result@.len() == first + at,
                    forall|j: int| 0 <= j < first + at ==> *(#[trigger] result@[j]) == e[j].1,
                decreases items@.len() - at,
            {
                proof {
                    assert(items_at(e, *instant)[at as int] == e[first + at].1);
                }
                result.push(&items[at]);
                at = at + 1;
            }
            proof {
                done = due_count(e, *instant);
                assert forall|j: int, i: int|
                    0 <= j < done && seen + 1 <= i < all.len() implies (#[trigger] e[j]).0 < *(
                #[trigger] all[i]).0 by {
                    assert(*all[seen].0 < *all[i].0);
                }
                assert forall|j: int, i: int|
                    done <= j < e.len() && 0 <= i < seen + 1 implies (#[trigger] e[j]).0 > *(
                #[trigger] all[i]).0 by {
                    if i < seen {
                        assert(*all[i].0 < *all[seen].0);
                    }
                }
                seen = seen + 1;
            }
        }
        proof {
            reveal(keeps_items);
            if done < e.len() {
                let key = e[done].0;
                assert(kept.contains_key(key));
                let i = choose|i: int| 0 <= i < all.len() && *(#[trigger] all[i]).0 == key;
                if i < seen {
                    assert(e[done].0 > *all[i].0);
                }
                if seen < i {
                    assert(*all[seen].0 < *all[i].0);
                }
            }
            lemma_due_count_is(e, moment, done);
            assert(result@.map_values(|item: &T| *item) =~= due_items(e, moment));
        }
        if result.len() == 0 {
            None
        } else {
            Some(result)
        }
    }

    /// Copies of the items that are due at `now`, earliest first; `None`
    /// where none is due.
    pub fn get_items_to_expire_cloned(&self, now: DateTimeAsMicroseconds) -> (r: Option<Vec<T>>)
        requires
            self.wf(),
        ensures
            match r {
                Some(items) => items@.len() > 0 && items@.len() == due_items(
                    self@,
                    now.unix_microseconds,
                ).len() && forall|j: int|
                    0 <= j < items@.len() ==> cloned(
                        due_items(self@, now.unix_microseconds)[j],
                        #[trigger] items@[j],
                    ),
                None => due_items(self@, now.unix_microseconds).len() == 0,
            },
    {
        let due: Vec<&T> = match self.get_items_to_expire(now) {
            Some(due) => due,
            None => {
                return None;
            },
        };
        let mut result: Vec<T> = Vec::with_capacity(due.len());
        let mut at: usize = 0;
        while at < due.len()
            invariant
                at <= due@.len(),
                result@.len() == at,
                forall|j: int| 0 <= j < at ==> cloned(*due@[j], #[trigger] result@[j]),
            decreases due@.len() - at,
        {
            result.push(T::clone(due[at]));
            at = at + 1;
        }
        assert forall|j: int| 0 <= j < result@.len() implies cloned(
            due_items(self@, now.unix_microseconds)[j],
            #[trigger] result@[j],
        ) by {
            assert(due@.map_values(|item: &T| *item)[j] == *due@[j]);
        }
        Some(result)
    }

    /// Whether an item stands under the instant.
    pub fn has_data_with_expiration_moment(&self, expiration_moment: i64) -> (r: bool)
        requires
            self.wf(),
        ensures
            r == has_moment(self@, expiration_moment),
    {
        broadcast use vstd::std_specs::btree::group_btree_axioms;

        proof {
            reveal(keeps_items);
            lemma_instants_have_an_order();
            lemma_items_place(self@, expiration_moment);
            if self.index@.contains_key(expiration_moment) {
                assert(self@[before_count(self@, expiration_moment)].0 == expiration_moment);
            }
        }
        self.index.contains_key(&expiration_moment)
    }

    /// The number of items.
    pub fn len(&self) -> (r: usize)
        requires
            self.wf(),
        ensures
            r == self@.len(),
    {
        self.amount
    }

    /// Takes all items out.
    pub fn clear(&mut self)
        ensures
            final(self).wf(),
            final(self)@.len() == 0,
    {
        self.index.clear();
        self.amount = 0;
        self.items = Ghost(Seq::empty());
        proof {
            reveal(keeps_items);
        }
    }
}

} // verus!
