//! What a secondary scan hands out: the primary keys it found, looked up one
//! by one in the primary table, from either end.
use vstd::prelude::*;
use std::collections::VecDeque;
use std::marker::PhantomData;
use crate::error::Result;
use crate::input::ToInput;
use crate::keys::key_equal;
use crate::store::{get_item, primary_items, PrimaryTable};

verus! {

/// The encoded keys of a deque, as sequences of bytes.
pub open spec fn keys_view(keys: VecDeque<Vec<u8>>) -> Seq<Seq<u8>> {
    keys@.map_values(|k: Vec<u8>| k@)
}

/// The encoded keys of a vector, as sequences of bytes.
pub open spec fn vec_keys_view(keys: Vec<Vec<u8>>) -> Seq<Seq<u8>> {
    keys@.map_values(|k: Vec<u8>| k@)
}

/// The keys of `mine` that occur in `other`, in the order of `mine`.
pub open spec fn common_keys(mine: Seq<Seq<u8>>, other: Seq<Seq<u8>>) -> Seq<Seq<u8>>
    decreases mine.len(),
{
    if mine.len() == 0 {
        seq![]
    } else if other.contains(mine[0]) {
        seq![mine[0]] + common_keys(mine.drop_first(), other)
    } else {
        common_keys(mine.drop_first(), other)
    }
}

/// Where `key` first occurs in `keys`, or -1.
pub open spec fn position_of(keys: Seq<Seq<u8>>, key: Seq<u8>) -> int
    decreases keys.len(),
{
    if keys.len() == 0 {
        -1
    } else if keys[0] == key {
        0
    } else if position_of(keys.drop_first(), key) < 0 {
        -1
    } else {
        position_of(keys.drop_first(), key) + 1
    }
}

/// Where `position_of` finds a key, the key is there, and not before.
pub proof fn lemma_position_of(keys: Seq<Seq<u8>>, key: Seq<u8>)
    ensures
        position_of(keys, key) < keys.len(),
        position_of(keys, key) >= 0 ==> keys[position_of(keys, key)] == key,
        position_of(keys, key) < 0 <==> !keys.contains(key),
    decreases keys.len(),
{
    if keys.len() > 0 {
        lemma_position_of(keys.drop_first(), key);
        if keys[0] != key && position_of(keys, key) < 0 {
            assert forall|i: int| 0 <= i < keys.len() implies keys[i] != key by {
                if i > 0 {
                    assert(keys[i] == keys.drop_first()[i - 1]);
                }
            }
        }
        if keys[0] != key && keys.drop_first().contains(key) {
            let j = choose|j: int| 0 <= j < keys.drop_first().len() && keys.drop_first()[j] == key;
            assert(keys[j + 1] == key);
        }
    }
}

/// `keys` with the first occurrence of `key` taken out by moving the last key
/// into its place.
pub open spec fn swap_remove_first(keys: Seq<Seq<u8>>, key: Seq<u8>) -> Seq<Seq<u8>> {
    let i = position_of(keys, key);
    if i < 0 {
        keys
    } else {
        keys.update(i, keys.last()).drop_last()
    }
}

/// What is left of `other` after each key of `mine`, in turn, has taken out
/// one occurrence of itself.
pub open spec fn remaining_after(other: Seq<Seq<u8>>, mine: Seq<Seq<u8>>) -> Seq<Seq<u8>>
    decreases mine.len(),
{
    if mine.len() == 0 {
        other
    } else {
        remaining_after(swap_remove_first(other, mine[0]), mine.drop_first())
    }
}

/// The keys that the union of two scans hands out: those of `mine`, then what
/// is left of `other`.
pub open spec fn union_keys(mine: Seq<Seq<u8>>, other: Seq<Seq<u8>>) -> Seq<Seq<u8>> {
    mine + remaining_after(other, mine)
}

/// Law of `and`: a key is handed out by the intersection of two scans exactly
/// when both scans hand it out.
pub proof fn lemma_and_holds_common_keys(mine: Seq<Seq<u8>>, other: Seq<Seq<u8>>)
    ensures
        forall|k: Seq<u8>|
            #[trigger] common_keys(mine, other).contains(k) <==> mine.contains(k) && other.contains(k),
    decreases mine.len(),
{
    if mine.len() > 0 {
        let rest = mine.drop_first();
        lemma_and_holds_common_keys(rest, other);
        assert forall|k: Seq<u8>| #[trigger]
            common_keys(mine, other).contains(k) <==> mine.contains(k) && other.contains(k) by {
            let c = common_keys(mine, other);
            let cr = common_keys(rest, other);
            if c.contains(k) {
                let i = choose|i: int| 0 <= i < c.len() && c[i] == k;
                if other.contains(mine[0]) && i == 0 {
                    assert(mine[0] == k);
                } else {
                    let j = if other.contains(mine[0]) { i - 1 } else { i };
                    assert(cr[j] == k);
                    assert(cr.contains(k));
                    let m = choose|m: int| 0 <= m < rest.len() && rest[m] == k;
                    assert(mine[m + 1] == k);
                }
            }
            if mine.contains(k) && other.contains(k) {
                let m = choose|m: int| 0 <= m < mine.len() && mine[m] == k;
                if m == 0 {
                    assert(c[0] == k);
                } else {
                    assert(rest[m - 1] == k);
                    assert(cr.contains(k));
                    let j = choose|j: int| 0 <= j < cr.len() && cr[j] == k;
                    if other.contains(mine[0]) {
                        assert(c[j + 1] == k);
                    } else {
                        assert(c[j] == k);
                    }
                }
            }
        }
    } else {
        assert forall|k: Seq<u8>| #[trigger] common_keys(mine, other).contains(k) implies false by {}
    }
}

/// Taking one occurrence of `key` out of `keys` lowers the count of `key` by
/// one where it occurs, and leaves every other count as it was.
pub proof fn lemma_swap_remove_first_counts(keys: Seq<Seq<u8>>, key: Seq<u8>)
    ensures
        forall|x: Seq<u8>| #[trigger]
            swap_remove_first(keys, key).to_multiset().count(x) == if x == key && keys.contains(
                key,
            ) {
                keys.to_multiset().count(x) - 1
            } else {
                keys.to_multiset().count(x) as int
            },
{
    broadcast use vstd::seq_lib::group_to_multiset_ensures;
    broadcast use vstd::multiset::group_multiset_axioms;

    lemma_position_of(keys, key);
    let i = position_of(keys, key);
    if i >= 0 {
        let u = keys.update(i, keys.last());
        assert(u.drop_last() =~= u.remove(u.len() - 1));
        assert(u[u.len() - 1] == keys.last());
        assert(keys.contains(key));
    }
}

/// What is left of `other` holds each key as often as `other` holds it more
/// often than `mine`.
pub proof fn lemma_remaining_after_counts(other: Seq<Seq<u8>>, mine: Seq<Seq<u8>>)
    ensures
        forall|x: Seq<u8>| #[trigger]
            remaining_after(other, mine).to_multiset().count(x) == if other.to_multiset().count(x)
                > mine.to_multiset().count(x) {
                other.to_multiset().count(x) - mine.to_multiset().count(x)
            } else {
                0int
            },
    decreases mine.len(),
{
    broadcast use vstd::seq_lib::group_to_multiset_ensures;
    broadcast use vstd::multiset::group_multiset_axioms;

    if mine.len() == 0 {
        assert(mine.to_multiset() =~= vstd::multiset::Multiset::empty());
    } else {
        let k = mine[0];
        let o2 = swap_remove_first(other, k);
        lemma_swap_remove_first_counts(other, k);
        lemma_remaining_after_counts(o2, mine.drop_first());
        assert(mine =~= seq![k] + mine.drop_first());
        vstd::seq_lib::lemma_multiset_commutative(seq![k], mine.drop_first());
        assert(seq![k] =~= Seq::<Seq<u8>>::empty().push(k));
        assert forall|x: Seq<u8>| #[trigger] remaining_after(other, mine).to_multiset().count(x)
            == (if other.to_multiset().count(x) > mine.to_multiset().count(x) {
            other.to_multiset().count(x) - mine.to_multiset().count(x)
        } else {
            0int
        }) by {
            assert(remaining_after(other, mine) == remaining_after(o2, mine.drop_first()));
            assert(Seq::<Seq<u8>>::empty().to_multiset() =~= vstd::multiset::Multiset::empty());
            assert(seq![k].to_multiset().count(x) == if x == k { 1nat } else { 0nat });
            assert(mine.to_multiset().count(x) == seq![k].to_multiset().count(x)
                + mine.drop_first().to_multiset().count(x));
            if x == k && !other.contains(k) {
                assert(other.to_multiset().count(x) == 0);
            }
        }
    }
}

/// Law of `or`: the union of two scans hands out each key as often as the scan
/// that hands it out more often; so a key comes out exactly when either scan
/// hands it out.
pub proof fn lemma_or_holds_either_keys(mine: Seq<Seq<u8>>, other: Seq<Seq<u8>>)
    ensures
        forall|x: Seq<u8>| #[trigger]
            union_keys(mine, other).to_multiset().count(x) == if mine.to_multiset().count(x)
                >= other.to_multiset().count(x) {
                mine.to_multiset().count(x)
            } else {
                other.to_multiset().count(x)
            },
        forall|x: Seq<u8>| #[trigger]
            union_keys(mine, other).contains(x) <==> mine.contains(x) || other.contains(x),
{
    broadcast use vstd::seq_lib::group_to_multiset_ensures;

    lemma_remaining_after_counts(other, mine);
    vstd::seq_lib::lemma_multiset_commutative(mine, remaining_after(other, mine));
    assert forall|x: Seq<u8>| #[trigger] union_keys(mine, other).contains(x) <==> mine.contains(x)
        || other.contains(x) by {
        assert(union_keys(mine, other).to_multiset().count(x) == mine.to_multiset().count(x)
            + remaining_after(other, mine).to_multiset().count(x));
    }
}

/// Step `j` of a run of front takes: keys were left, and the take left them
/// without their first.
pub open spec fn front_take_step(states: Seq<Seq<Seq<u8>>>, j: int) -> bool {
    states[j].len() > 0 && states[j + 1] == states[j].drop_first()
}

/// Step `j` of a run of back takes: keys were left, and the take left them
/// without their last.
pub open spec fn back_take_step(states: Seq<Seq<Seq<u8>>>, j: int) -> bool {
    states[j].len() > 0 && states[j + 1] == states[j].drop_last()
}

/// A run of front takes, each leaving the keys before it without their first,
/// leaves after `i` takes all but the first `i` keys.
proof fn lemma_front_takes_leave(states: Seq<Seq<Seq<u8>>>, i: int)
    requires
        0 <= i < states.len(),
        forall|j: int| 0 <= j < states.len() - 1 ==> #[trigger] front_take_step(states, j),
    ensures
        i <= states[0].len(),
        states[i] == states[0].skip(i),
    decreases i,
{
    if i == 0 {
        assert(states[0].skip(0) =~= states[0]);
    } else {
        lemma_front_takes_leave(states, i - 1);
        assert(front_take_step(states, i - 1));
        assert(states[0].skip(i - 1).drop_first() =~= states[0].skip(i));
    }
}

/// A run of back takes, each leaving the keys before it without their last,
/// leaves after `i` takes all but the last `i` keys.
proof fn lemma_back_takes_leave(states: Seq<Seq<Seq<u8>>>, i: int)
    requires
        0 <= i < states.len(),
        forall|j: int| 0 <= j < states.len() - 1 ==> #[trigger] back_take_step(states, j),
    ensures
        i <= states[0].len(),
        states[i] == states[0].take(states[0].len() - i),
    decreases i,
{
    if i == 0 {
        assert(states[0].take(states[0].len() as int) =~= states[0]);
    } else {
        lemma_back_takes_leave(states, i - 1);
        assert(back_take_step(states, i - 1));
        assert(states[0].take(states[0].len() - (i - 1)).drop_last() =~= states[0].take(
            states[0].len() - i,
        ));
    }
}

/// Law of `next`: calling `next` until it has nothing left takes the keys in
/// order. Where `states` are the keys left before each call and after the
/// last, each call leaving the keys before it without their first (as `next`
/// does), there are as many calls as keys, and call `i` takes key `i`; each
/// call's item is decoded from the bytes stored under the key it takes (see
/// `next`).
pub proof fn lemma_front_drain_order(states: Seq<Seq<Seq<u8>>>)
    requires
        states.len() > 0,
        states.last().len() == 0,
        forall|j: int| 0 <= j < states.len() - 1 ==> #[trigger] front_take_step(states, j),
    ensures
        states.len() == states[0].len() + 1,
        forall|i: int| 0 <= i < states.len() - 1 ==> #[trigger] states[i][0] == states[0][i],
{
    lemma_front_takes_leave(states, states.len() - 1);
    assert forall|i: int| 0 <= i < states.len() - 1 implies #[trigger] states[i][0] == states[0][i] by {
        lemma_front_takes_leave(states, i);
        assert(front_take_step(states, i));
    }
}

/// Law of `next_back`: calling `next_back` until it has nothing left takes the
/// keys in reverse order. Where `states` are the keys left before each call and
/// after the last, each call leaving the keys before it without their last
/// (as `next_back` does), there are as many calls as keys, and call `i` takes
/// the key `i` places from the end.
pub proof fn lemma_back_drain_order(states: Seq<Seq<Seq<u8>>>)
    requires
        states.len() > 0,
        states.last().len() == 0,
        forall|j: int| 0 <= j < states.len() - 1 ==> #[trigger] back_take_step(states, j),
    ensures
        states.len() == states[0].len() + 1,
        forall|i: int|
            0 <= i < states.len() - 1 ==> #[trigger] states[i].last() == states[0].reverse()[i],
{
    lemma_back_takes_leave(states, states.len() - 1);
    assert forall|i: int| 0 <= i < states.len() - 1 implies #[trigger] states[i].last()
        == states[0].reverse()[i] by {
        lemma_back_takes_leave(states, i);
        assert(back_take_step(states, i));
    }
}

/// Law of `next` and `next_back` together: draining one scan from the back
/// takes the keys that draining the same keys from the front takes, in
/// reverse order.
pub proof fn lemma_back_drain_reverses_front_drain(
    front: Seq<Seq<Seq<u8>>>,
    back: Seq<Seq<Seq<u8>>>,
)
    requires
        front.len() > 0,
        back.len() > 0,
        front[0] == back[0],
        front.last().len() == 0,
        back.last().len() == 0,
        forall|j: int| 0 <= j < front.len() - 1 ==> #[trigger] front_take_step(front, j),
        forall|j: int| 0 <= j < back.len() - 1 ==> #[trigger] back_take_step(back, j),
    ensures
        front.len() == back.len(),
        forall|i: int|
            0 <= i < back.len() - 1 ==> #[trigger] back[i].last() == front[back.len() - 2 - i][0],
{
    lemma_front_drain_order(front);
    lemma_back_drain_order(back);
    assert forall|i: int| 0 <= i < back.len() - 1 implies #[trigger] back[i].last() == front[back.len()
        - 2 - i][0] by {
        assert(front[back.len() - 2 - i][0] == front[0][back.len() - 2 - i]);
    }
}

/// Membership in `other`, as a predicate on keys.
pub open spec fn held_by(other: Seq<Seq<u8>>) -> spec_fn(Seq<u8>) -> bool {
    |k: Seq<u8>| other.contains(k)
}

/// Law of `and`: the intersection of two scans is this scan's keys that the
/// other scan holds, each as often and in the order this scan has them.
pub proof fn lemma_and_is_filter_of_mine(mine: Seq<Seq<u8>>, other: Seq<Seq<u8>>)
    ensures
        common_keys(mine, other) == mine.filter(held_by(other)),
    decreases mine.len(),
{
    if mine.len() == 0 {
        assert(mine.filter(held_by(other)) =~= Seq::<Seq<u8>>::empty()) by {
            reveal(Seq::filter);
        }
    } else {
        let rest = mine.drop_first();
        lemma_and_is_filter_of_mine(rest, other);
        assert(mine =~= seq![mine[0]] + rest);
        rest.lemma_filter_prepend(mine[0], held_by(other));
        if other.contains(mine[0]) {
            assert(common_keys(mine, other) =~= seq![mine[0]] + rest.filter(held_by(other)));
        } else {
            assert(common_keys(mine, other) =~= Seq::<Seq<u8>>::empty() + rest.filter(held_by(other)));
        }
    }
}

/// Law of `or`: the union of two scans hands out all of this scan's keys
/// first, in this scan's order, whatever the lengths of the two scans; after
/// them come the other scan's keys that this scan did not already hand out,
/// each as many times as the other scan holds it beyond this scan.
pub proof fn lemma_or_begins_with_mine(mine: Seq<Seq<u8>>, other: Seq<Seq<u8>>)
    ensures
        union_keys(mine, other).len() >= mine.len(),
        union_keys(mine, other).subrange(0, mine.len() as int) == mine,
        forall|x: Seq<u8>| #[trigger]
            union_keys(mine, other).skip(mine.len() as int).to_multiset().count(x) == if other.to_multiset().count(
                x,
            ) > mine.to_multiset().count(x) {
                other.to_multiset().count(x) - mine.to_multiset().count(x)
            } else {
                0int
            },
{
    let u = union_keys(mine, other);
    lemma_remaining_after_counts(other, mine);
    assert(u.subrange(0, mine.len() as int) =~= mine);
    assert(u.skip(mine.len() as int) =~= remaining_after(other, mine));
}

/// The primary keys found by a secondary scan, with the primary table to look
/// their items up in.
pub struct SecondaryScanIterator<'a, T: ToInput> {
    primary_table: &'a PrimaryTable,
    primary_keys: VecDeque<Vec<u8>>,
    failed_reads: Ghost<nat>,
    _marker: PhantomData<T>,
}

impl<'a, T: ToInput> View for SecondaryScanIterator<'a, T> {
    type V = Seq<Seq<u8>>;

    /// The encoded primary keys still to be handed out, front first.
    closed spec fn view(&self) -> Seq<Seq<u8>> {
        keys_view(self.primary_keys)
    }
}

/// Where `key` occurs among `keys`.
fn find_key(keys: &Vec<Vec<u8>>, key: &[u8]) -> (r: Option<usize>)
    ensures
        match r {
            Some(i) => i == position_of(vec_keys_view(*keys), key@) && i < keys@.len(),
            None => position_of(vec_keys_view(*keys), key@) < 0,
        },
{
    let ghost view = vec_keys_view(*keys);
    assert(view.skip(0) =~= view);
    let mut i: usize = 0;
    while i < keys.len()
        invariant
            i <= keys.len(),
            view == vec_keys_view(*keys),
            position_of(view, key@) == (if position_of(view.skip(i as int), key@) < 0 {
                -1
            } else {
                position_of(view.skip(i as int), key@) + i
            }),
        decreases keys.len() - i,
    {
        assert(view.skip(i as int).drop_first() =~= view.skip(i + 1));
        if key_equal(keys[i].as_slice(), key) {
            assert(view.skip(i as int)[0] == key@);
            return Some(i);
        }
        i = i + 1;
    }
    assert(view.skip(i as int).len() == 0);
    None
}

/// Whether `key` occurs among `keys`, by a linear search: a hash set keyed by
/// byte vectors has no specification that Verus can use here.
fn holds_key(keys: &VecDeque<Vec<u8>>, key: &[u8]) -> (r: bool)
    ensures
        r == keys_view(*keys).contains(key@),
{
    let mut i: usize = 0;
    while i < keys.len()
        invariant
            i <= keys.len(),
            forall|j: int| 0 <= j < i ==> keys_view(*keys)[j] != key@,
        decreases keys.len() - i,
    {
        if key_equal(keys[i].as_slice(), key) {
            assert(keys_view(*keys)[i as int] == key@);
            return true;
        }
        i = i + 1;
    }
    false
}

/// What a lookup in the primary table hands on to the scan: the item's bytes
/// where one was found, and nothing where the key has no item or the lookup
/// failed.
pub fn unwrap_item(found: core::result::Result<Option<Vec<u8>>, redb::StorageError>) -> (r: Option<
    Vec<u8>,
>)
    ensures
        found matches Ok(Some(v)) ==> r == Some(v),
        !(found matches Ok(Some(_))) ==> r is None,
{
    match found {
        Ok(Some(v)) => Some(v),
        _ => None,
    }
}

impl<'a, T: ToInput> SecondaryScanIterator<'a, T> {
    /// What the primary table holds.
    pub closed spec fn stored_items(&self) -> Map<Seq<u8>, Seq<u8>> {
        primary_items(*self.primary_table)
    }

    /// How many lookups in the primary table have failed so far.
    pub closed spec fn failed_reads(&self) -> nat {
        self.failed_reads@
    }

    pub(crate) fn from_keys(primary_table: &'a PrimaryTable, primary_keys: VecDeque<Vec<u8>>) -> (r:
        Self)
        ensures
            r@ == keys_view(primary_keys),
            r.stored_items() == primary_items(*primary_table),
            r.failed_reads() == 0,
    {
        SecondaryScanIterator { primary_table, primary_keys, failed_reads: Ghost(0), _marker: PhantomData }
    }

    /// The item stored under `key`; a failed lookup counts as a missing item,
    /// and is counted.
    fn item_for(&mut self, key: &[u8]) -> (r: Option<Vec<u8>>)
        ensures
            final(self).stored_items() == old(self).stored_items(),
            final(self)@ == old(self)@,
            final(self).failed_reads() == old(self).failed_reads() || final(self).failed_reads()
                == old(self).failed_reads() + 1,
            r matches Some(v) ==> old(self).stored_items().contains_key(key@)
                && old(self).stored_items()[key@] == v@,
            final(self).failed_reads() == old(self).failed_reads() + 1 ==> r is None,
            final(self).failed_reads() == old(self).failed_reads() ==> (r is Some
                <==> old(self).stored_items().contains_key(key@)),
    {
        match get_item(self.primary_table, key) {
            Ok(found) => unwrap_item(Ok(found)),
            Err(e) => {
                self.failed_reads = Ghost(self.failed_reads@ + 1);
                unwrap_item(Err(e))
            },
        }
    }

    /// Takes the first primary key left and hands out the bytes stored for it.
    /// The scan ends early, with `None`, where the key has no item or the
    /// lookup fails.
    pub fn next_bytes(&mut self) -> (r: Option<Vec<u8>>)
        ensures
            final(self).stored_items() == old(self).stored_items(),
            final(self).failed_reads() == old(self).failed_reads() || final(self).failed_reads()
                == old(self).failed_reads() + 1,
            old(self)@.len() == 0 ==> final(self).failed_reads() == old(self).failed_reads(),
            final(self).failed_reads() == old(self).failed_reads() + 1 ==> r is None,
            old(self)@.len() > 0 && old(self).stored_items().contains_key(old(self)@[0])
                && final(self).failed_reads() == old(self).failed_reads() ==> r is Some,
            old(self)@.len() == 0 ==> r is None && final(self)@ == old(self)@,
            old(self)@.len() > 0 ==> final(self)@ == old(self)@.drop_first(),
            r matches Some(v) ==> old(self)@.len() > 0 && old(self).stored_items().contains_key(
                old(self)@[0],
            ) && old(self).stored_items()[old(self)@[0]] == v@,
            old(self)@.len() > 0 && !old(self).stored_items().contains_key(old(self)@[0]) ==> r is None,
    {
        match self.primary_keys.pop_front() {
            Some(key) => {
                assert(keys_view(self.primary_keys) =~= old(self)@.drop_first());
                self.item_for(key.as_slice())
            },
            None => None,
        }
    }

    /// Takes the last primary key left and hands out the bytes stored for it.
    /// The scan ends early, with `None`, where the key has no item or the
    /// lookup fails.
    pub fn next_back_bytes(&mut self) -> (r: Option<Vec<u8>>)
        ensures
            final(self).stored_items() == old(self).stored_items(),
            final(self).failed_reads() == old(self).failed_reads() || final(self).failed_reads()
                == old(self).failed_reads() + 1,
            old(self)@.len() == 0 ==> final(self).failed_reads() == old(self).failed_reads(),
            final(self).failed_reads() == old(self).failed_reads() + 1 ==> r is None,
            old(self)@.len() > 0 && old(self).stored_items().contains_key(old(self)@[old(self)@.len() - 1])
                && final(self).failed_reads() == old(self).failed_reads() ==> r is Some,
            old(self)@.len() == 0 ==> r is None && final(self)@ == old(self)@,
            old(self)@.len() > 0 ==> final(self)@ == old(self)@.drop_last(),
            r matches Some(v) ==> old(self)@.len() > 0 && old(self).stored_items().contains_key(
                old(self)@.last(),
            ) && old(self).stored_items()[old(self)@.last()] == v@,
            old(self)@.len() > 0 && !old(self).stored_items().contains_key(old(self)@.last())
                ==> r is None,
    {
        match self.primary_keys.pop_back() {
            Some(key) => {
                assert(keys_view(self.primary_keys) =~= old(self)@.drop_last());
                self.item_for(key.as_slice())
            },
            None => None,
        }
    }

    /// Takes the first primary key left and hands out its item, decoded. The
    /// scan ends early, with `None`, where the key has no item or the lookup
    /// fails.
    pub fn next(&mut self) -> (r: Option<Result<T>>)
        ensures
            final(self).stored_items() == old(self).stored_items(),
            final(self).failed_reads() == old(self).failed_reads() || final(self).failed_reads()
                == old(self).failed_reads() + 1,
            old(self)@.len() == 0 ==> final(self).failed_reads() == old(self).failed_reads(),
            final(self).failed_reads() == old(self).failed_reads() + 1 ==> r is None,
            old(self)@.len() > 0 && old(self).stored_items().contains_key(old(self)@[0])
                && final(self).failed_reads() == old(self).failed_reads() ==> r is Some,
            old(self)@.len() == 0 ==> r is None && final(self)@ == old(self)@,
            old(self)@.len() > 0 ==> final(self)@ == old(self)@.drop_first(),
            r is Some ==> old(self)@.len() > 0 && old(self).stored_items().contains_key(
                old(self)@[0],
            ),
            r matches Some(item) ==> exists|bytes: &[u8]|
                bytes@ == old(self).stored_items()[old(self)@[0]] && #[trigger] call_ensures(
                    T::native_db_bincode_decode_from_slice,
                    (bytes,),
                    item,
                ),
            old(self)@.len() > 0 && !old(self).stored_items().contains_key(old(self)@[0]) ==> r is None,
    {
        match self.next_bytes() {
            Some(bytes) => {
                let slice = bytes.as_slice();
                let item = T::native_db_bincode_decode_from_slice(slice);
                assert(call_ensures(T::native_db_bincode_decode_from_slice, (slice,), item));
                Some(item)
            },
            None => None,
        }
    }

    /// Takes the last primary key left and hands out its item, decoded. The
    /// scan ends early, with `None`, where the key has no item or the lookup
    /// fails.
    pub fn next_back(&mut self) -> (r: Option<Result<T>>)
        ensures
            final(self).stored_items() == old(self).stored_items(),
            final(self).failed_reads() == old(self).failed_reads() || final(self).failed_reads()
                == old(self).failed_reads() + 1,
            old(self)@.len() == 0 ==> final(self).failed_reads() == old(self).failed_reads(),
            final(self).failed_reads() == old(self).failed_reads() + 1 ==> r is None,
            old(self)@.len() > 0 && old(self).stored_items().contains_key(old(self)@[old(self)@.len() - 1])
                && final(self).failed_reads() == old(self).failed_reads() ==> r is Some,
            old(self)@.len() == 0 ==> r is None && final(self)@ == old(self)@,
            old(self)@.len() > 0 ==> final(self)@ == old(self)@.drop_last(),
            r is Some ==> old(self)@.len() > 0 && old(self).stored_items().contains_key(
                old(self)@.last(),
            ),
            r matches Some(item) ==> exists|bytes: &[u8]|
                bytes@ == old(self).stored_items()[old(self)@.last()] && #[trigger] call_ensures(
                    T::native_db_bincode_decode_from_slice,
                    (bytes,),
                    item,
                ),
            old(self)@.len() > 0 && !old(self).stored_items().contains_key(old(self)@.last())
                ==> r is None,
    {
        match self.next_back_bytes() {
            Some(bytes) => {
                let slice = bytes.as_slice();
                let item = T::native_db_bincode_decode_from_slice(slice);
                assert(call_ensures(T::native_db_bincode_decode_from_slice, (slice,), item));
                Some(item)
            },
            None => None,
        }
    }

    /// Keeps only the primary keys that `other` holds too, in this scan's order.
    pub fn and(self, other: SecondaryScanIterator<'_, T>) -> (r: Self)
        ensures
            r@ == common_keys(self@, other@),
            r.stored_items() == self.stored_items(),
            r.failed_reads() == self.failed_reads(),
    {
        let ghost mine = self@;
        let mut this = self;
        let mut kept: VecDeque<Vec<u8>> = VecDeque::new();
        while this.primary_keys.len() > 0
            invariant
                this.stored_items() == self.stored_items(),
                this.failed_reads() == self.failed_reads(),
                keys_view(kept) + common_keys(this@, other@) == common_keys(mine, other@),
            decreases this.primary_keys.len(),
        {
            let ghost before = this@;
            let key = this.primary_keys.pop_front().unwrap();
            assert(this@ =~= before.drop_first());
            let found = holds_key(&other.primary_keys, key.as_slice());
            let ghost kept_before = keys_view(kept);
            if found {
                kept.push_back(key);
                assert(keys_view(kept) =~= kept_before.push(before[0]));
                assert(keys_view(kept) + common_keys(this@, other@) =~= kept_before + (seq![
                    before[0],
                ] + common_keys(this@, other@)));
            }
        }
        assert(this@ =~= Seq::<Seq<u8>>::empty());
        assert(keys_view(kept) =~= keys_view(kept) + common_keys(this@, other@));
        this.primary_keys = kept;
        this
    }

    /// Hands out this scan's primary keys, then those of `other`, each key of
    /// this scan taking one occurrence of itself out of `other`.
    pub fn or(self, other: SecondaryScanIterator<'a, T>) -> (r: Self)
        ensures
            r@ == union_keys(self@, other@),
            r.stored_items() == self.stored_items(),
            r.failed_reads() == self.failed_reads(),
    {
        let ghost mine = self@;
        let ghost theirs = other@;
        let mut other = other;
        let mut other_keys: Vec<Vec<u8>> = Vec::new();
        while other.primary_keys.len() > 0
            invariant
                vec_keys_view(other_keys) + other@ == theirs,
            decreases other.primary_keys.len(),
        {
            let ghost before = other@;
            let ghost gathered = vec_keys_view(other_keys);
            let key = other.primary_keys.pop_front().unwrap();
            assert(other@ =~= before.drop_first());
            other_keys.push(key);
            assert(vec_keys_view(other_keys) =~= gathered.push(before[0]));
            assert(vec_keys_view(other_keys) + other@ =~= gathered + before);
        }
        assert(vec_keys_view(other_keys) =~= theirs);
        let mut this = self;
        let mut combined: VecDeque<Vec<u8>> = VecDeque::new();
        while this.primary_keys.len() > 0
            invariant
                this.stored_items() == self.stored_items(),
                this.failed_reads() == self.failed_reads(),
                keys_view(combined) + this@ == mine,
                remaining_after(vec_keys_view(other_keys), this@) == remaining_after(theirs, mine),
            decreases this.primary_keys.len(),
        {
            let ghost before = this@;
            let ghost left = vec_keys_view(other_keys);
            let ghost done = keys_view(combined);
            let key = this.primary_keys.pop_front().unwrap();
            assert(this@ =~= before.drop_first());
            match find_key(&other_keys, key.as_slice()) {
                Some(i) => {
                    proof {
                        lemma_position_of(left, before[0]);
                    }
                    other_keys.swap_remove(i);
                    assert(vec_keys_view(other_keys) =~= left.update(i as int, left.last()).drop_last());
                },
                None => {},
            }
            assert(vec_keys_view(other_keys) == swap_remove_first(left, before[0]));
            combined.push_back(key);
            assert(keys_view(combined) =~= done.push(before[0]));
            assert(keys_view(combined) + this@ =~= done + before);
        }
        assert(this@ =~= Seq::<Seq<u8>>::empty());
        assert(keys_view(combined) =~= mine);
        let ghost rest = vec_keys_view(other_keys);
        let mut tail: VecDeque<Vec<u8>> = VecDeque::new();
        while other_keys.len() > 0
            invariant
                vec_keys_view(other_keys) + keys_view(tail) == rest,
            decreases other_keys.len(),
        {
            let ghost left = vec_keys_view(other_keys);
            let ghost behind = keys_view(tail);
            let key = other_keys.pop().unwrap();
            assert(vec_keys_view(other_keys) =~= left.drop_last());
            tail.push_front(key);
            assert(keys_view(tail) =~= seq![left.last()] + behind);
            assert(vec_keys_view(other_keys) + keys_view(tail) =~= left + behind);
        }
        assert(keys_view(tail) =~= rest);
        let ghost front = keys_view(combined);
        combined.append(&mut tail);
        assert(keys_view(combined) =~= front + rest);
        this.primary_keys = combined;
        this
    }
}

} // verus!
