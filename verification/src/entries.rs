//! The secondary index as a sequence of entries, and what scans select from it.
use vstd::prelude::*;
use crate::keys::{
    above_start, below_end, has_prefix, in_bounds, key_lt, lemma_above_start_upward,
    lemma_below_end_downward, lemma_key_lt_irreflexive, lemma_key_lt_total,
    lemma_key_lt_transitive, lemma_prefix_run_ends, lemma_prefixed_not_below, KeyBound,
};

verus! {

/// One secondary key with the primary keys stored under it, in the store's order.
pub type IndexEntry = (Seq<u8>, Seq<Seq<u8>>);

/// The entries' secondary keys strictly ascend in key order.
pub open spec fn keys_ascending(entries: Seq<IndexEntry>) -> bool {
    forall|i: int, j: int|
        0 <= i < j < entries.len() ==> #[trigger] key_lt(entries[i].0, entries[j].0)
}

/// The primary keys strictly ascend in key order.
pub open spec fn values_ascending(values: Seq<Seq<u8>>) -> bool {
    forall|i: int, j: int| 0 <= i < j < values.len() ==> #[trigger] key_lt(values[i], values[j])
}

/// The order in which the store keeps an index: secondary keys strictly
/// ascending, and under each the primary keys strictly ascending; so entries
/// come sorted by (secondary key, primary key), each pair once.
pub open spec fn index_ordered(entries: Seq<IndexEntry>) -> bool {
    &&& keys_ascending(entries)
    &&& forall|i: int| 0 <= i < entries.len() ==> values_ascending(#[trigger] entries[i].1)
}

/// The entries whose secondary key satisfies `keep`, in order.
pub open spec fn select(entries: Seq<IndexEntry>, keep: spec_fn(Seq<u8>) -> bool) -> Seq<IndexEntry>
    decreases entries.len(),
{
    if entries.len() == 0 {
        seq![]
    } else if keep(entries[0].0) {
        seq![entries[0]] + select(entries.drop_first(), keep)
    } else {
        select(entries.drop_first(), keep)
    }
}

/// The primary keys of the entries whose secondary key satisfies `keep`,
/// entry after entry.
pub open spec fn collect(entries: Seq<IndexEntry>, keep: spec_fn(Seq<u8>) -> bool) -> Seq<Seq<u8>>
    decreases entries.len(),
{
    if entries.len() == 0 {
        seq![]
    } else if keep(entries[0].0) {
        entries[0].1 + collect(entries.drop_first(), keep)
    } else {
        collect(entries.drop_first(), keep)
    }
}

/// The primary keys of the leading entries whose secondary key starts with
/// `prefix`, up to the first entry whose key does not.
pub open spec fn leading_run(entries: Seq<IndexEntry>, prefix: Seq<u8>) -> Seq<Seq<u8>>
    decreases entries.len(),
{
    if entries.len() == 0 || !has_prefix(entries[0].0, prefix) {
        seq![]
    } else {
        entries[0].1 + leading_run(entries.drop_first(), prefix)
    }
}

pub open spec fn any_key() -> spec_fn(Seq<u8>) -> bool {
    |k: Seq<u8>| true
}

pub open spec fn within(start: KeyBound, end: KeyBound) -> spec_fn(Seq<u8>) -> bool {
    |k: Seq<u8>| in_bounds(k, start, end)
}

pub open spec fn prefixed_by(prefix: Seq<u8>) -> spec_fn(Seq<u8>) -> bool {
    |k: Seq<u8>| has_prefix(k, prefix)
}

pub open spec fn equal_to(key: Seq<u8>) -> spec_fn(Seq<u8>) -> bool {
    |k: Seq<u8>| k == key
}

/// Every selected entry satisfies the predicate and keeps its relative order.
pub proof fn lemma_select_properties(entries: Seq<IndexEntry>, keep: spec_fn(Seq<u8>) -> bool)
    ensures
        forall|i: int| 0 <= i < select(entries, keep).len() ==> keep(#[trigger] select(entries, keep)[i].0),
        keys_ascending(entries) ==> keys_ascending(select(entries, keep)),
        forall|i: int| 0 <= i < select(entries, keep).len() ==>
            #[trigger] entries.contains(select(entries, keep)[i]),
    decreases entries.len(),
{
    if entries.len() > 0 {
        let rest = entries.drop_first();
        lemma_select_properties(rest, keep);
        let s = select(entries, keep);
        let r = select(rest, keep);
        assert forall|i: int| 0 <= i < r.len() implies #[trigger] entries.contains(r[i]) by {
            assert(rest.contains(r[i]));
            let j = choose|j: int| 0 <= j < rest.len() && rest[j] == r[i];
            assert(entries[j + 1] == r[i]);
        }
        if keep(entries[0].0) {
            assert forall|i: int| 0 <= i < s.len() implies #[trigger] entries.contains(s[i]) by {
                if i == 0 {
                    assert(entries[0] == s[i]);
                } else {
                    assert(s[i] == r[i - 1]);
                }
            }
            if keys_ascending(entries) {
                assert forall|i: int, j: int| 0 <= i < j < s.len() implies #[trigger] key_lt(
                    s[i].0,
                    s[j].0,
                ) by {
                    if i == 0 {
                        assert(rest.contains(r[j - 1]));
                        let k = choose|k: int| 0 <= k < rest.len() && rest[k] == r[j - 1];
                        assert(entries[k + 1] == s[j]);
                    } else {
                        assert(s[i] == r[i - 1] && s[j] == r[j - 1]);
                    }
                }
            }
        }
        if keys_ascending(entries) {
            assert(keys_ascending(rest)) by {
                assert forall|i: int, j: int| 0 <= i < j < rest.len() implies #[trigger] key_lt(
                    rest[i].0,
                    rest[j].0,
                ) by {
                    assert(rest[i] == entries[i + 1] && rest[j] == entries[j + 1]);
                }
            }
        }
    }
}

/// Collecting over a selection is collecting with the selection's predicate
/// where it is implied by the collection's.
pub proof fn lemma_collect_select(
    entries: Seq<IndexEntry>,
    sel: spec_fn(Seq<u8>) -> bool,
    keep: spec_fn(Seq<u8>) -> bool,
)
    requires
        forall|k: Seq<u8>| #[trigger] keep(k) ==> sel(k),
    ensures
        collect(select(entries, sel), keep) == collect(entries, keep),
    decreases entries.len(),
{
    if entries.len() > 0 {
        lemma_collect_select(entries.drop_first(), sel, keep);
        if sel(entries[0].0) {
            let s = seq![entries[0]] + select(entries.drop_first(), sel);
            assert(s.drop_first() =~= select(entries.drop_first(), sel));
        }
    }
}

/// Collecting everything out of a selection is collecting with the
/// selection's predicate.
pub proof fn lemma_collect_all_of_select(entries: Seq<IndexEntry>, sel: spec_fn(Seq<u8>) -> bool)
    ensures
        collect(select(entries, sel), any_key()) == collect(entries, sel),
    decreases entries.len(),
{
    if entries.len() > 0 {
        lemma_collect_all_of_select(entries.drop_first(), sel);
        if sel(entries[0].0) {
            let s = seq![entries[0]] + select(entries.drop_first(), sel);
            assert(s.drop_first() =~= select(entries.drop_first(), sel));
        }
    }
}

/// Predicates that agree on every key collect the same primary keys.
pub proof fn lemma_collect_agree(
    entries: Seq<IndexEntry>,
    a: spec_fn(Seq<u8>) -> bool,
    b: spec_fn(Seq<u8>) -> bool,
)
    requires
        forall|k: Seq<u8>| #[trigger] a(k) == b(k),
    ensures
        collect(entries, a) == collect(entries, b),
    decreases entries.len(),
{
    if entries.len() > 0 {
        lemma_collect_agree(entries.drop_first(), a, b);
    }
}

/// Where no entry satisfies the predicate nothing is collected.
pub proof fn lemma_collect_none(entries: Seq<IndexEntry>, keep: spec_fn(Seq<u8>) -> bool)
    requires
        forall|i: int| 0 <= i < entries.len() ==> !keep(#[trigger] entries[i].0),
    ensures
        collect(entries, keep) == Seq::<Seq<u8>>::empty(),
    decreases entries.len(),
{
    if entries.len() > 0 {
        assert(!keep(entries[0].0));
        assert forall|i: int| 0 <= i < entries.drop_first().len() implies !keep(
            #[trigger] entries.drop_first()[i].0,
        ) by {
            assert(entries.drop_first()[i] == entries[i + 1]);
        }
        lemma_collect_none(entries.drop_first(), keep);
    }
}

/// In ascending entries that all lie at or above `prefix`, the keys that start
/// with `prefix` come first; so the leading run of such keys is all of them.
pub proof fn lemma_leading_run_is_prefix_scan(entries: Seq<IndexEntry>, prefix: Seq<u8>)
    requires
        keys_ascending(entries),
        forall|i: int| 0 <= i < entries.len() ==> !key_lt(#[trigger] entries[i].0, prefix),
    ensures
        leading_run(entries, prefix) == collect(entries, prefixed_by(prefix)),
    decreases entries.len(),
{
    if entries.len() > 0 {
        let rest = entries.drop_first();
        assert forall|i: int, j: int| 0 <= i < j < rest.len() implies #[trigger] key_lt(
            rest[i].0,
            rest[j].0,
        ) by {
            assert(rest[i] == entries[i + 1] && rest[j] == entries[j + 1]);
        }
        assert forall|i: int| 0 <= i < rest.len() implies !key_lt(#[trigger] rest[i].0, prefix) by {
            assert(rest[i] == entries[i + 1]);
        }
        if has_prefix(entries[0].0, prefix) {
            lemma_leading_run_is_prefix_scan(rest, prefix);
        } else {
            assert forall|i: int| 0 <= i < rest.len() implies !prefixed_by(prefix)(
                #[trigger] rest[i].0,
            ) by {
                assert(rest[i] == entries[i + 1]);
                assert(key_lt(entries[0].0, entries[i + 1].0));
                lemma_prefix_run_ends(prefix, entries[0].0, rest[i].0);
            }
            lemma_collect_none(rest, prefixed_by(prefix));
        }
    }
}

/// A scan hands out a primary key exactly when the index stores it under a
/// secondary key that the scan selects.
pub proof fn lemma_collect_membership(
    entries: Seq<IndexEntry>,
    keep: spec_fn(Seq<u8>) -> bool,
    primary_key: Seq<u8>,
)
    ensures
        collect(entries, keep).contains(primary_key) <==> exists|i: int|
            0 <= i < entries.len() && keep(entries[i].0) && #[trigger] entries[i].1.contains(
                primary_key,
            ),
    decreases entries.len(),
{
    if entries.len() > 0 {
        let rest = entries.drop_first();
        lemma_collect_membership(rest, keep, primary_key);
        let c = collect(entries, keep);
        let cr = collect(rest, keep);
        if c.contains(primary_key) {
            let j = choose|j: int| 0 <= j < c.len() && c[j] == primary_key;
            if keep(entries[0].0) && j < entries[0].1.len() {
                assert(entries[0].1[j] == primary_key);
                assert(entries[0].1.contains(primary_key));
            } else {
                let jr = if keep(entries[0].0) { j - entries[0].1.len() } else { j };
                assert(cr[jr] == primary_key);
                assert(cr.contains(primary_key));
                let i = choose|i: int|
                    0 <= i < rest.len() && keep(rest[i].0) && #[trigger] rest[i].1.contains(
                        primary_key,
                    );
                assert(entries[i + 1] == rest[i]);
                assert(entries[i + 1].1.contains(primary_key));
            }
        }
        if exists|i: int|
            0 <= i < entries.len() && keep(entries[i].0) && #[trigger] entries[i].1.contains(
                primary_key,
            ) {
            let i = choose|i: int|
                0 <= i < entries.len() && keep(entries[i].0) && #[trigger] entries[i].1.contains(
                    primary_key,
                );
            if i == 0 {
                let m = choose|m: int| 0 <= m < entries[0].1.len() && entries[0].1[m] == primary_key;
                assert(c[m] == primary_key);
            } else {
                assert(rest[i - 1] == entries[i]);
                assert(rest[i - 1].1.contains(primary_key));
                assert(cr.contains(primary_key));
                let m = choose|m: int| 0 <= m < cr.len() && cr[m] == primary_key;
                if keep(entries[0].0) {
                    assert(c[m + entries[0].1.len()] == primary_key);
                } else {
                    assert(c[m] == primary_key);
                }
            }
        }
    }
}

/// A range with no bound scans the whole index.
pub proof fn lemma_unbounded_range_is_all(entries: Seq<IndexEntry>)
    ensures
        collect(entries, within(KeyBound::Unbounded, KeyBound::Unbounded)) == collect(
            entries,
            any_key(),
        ),
{
    lemma_collect_agree(entries, within(KeyBound::Unbounded, KeyBound::Unbounded), any_key());
}

/// A range from a key to the same key, both ends included, scans the entries
/// whose secondary key is that key.
pub proof fn lemma_point_range_is_equal(entries: Seq<IndexEntry>, low: Vec<u8>, high: Vec<u8>)
    requires
        low@ == high@,
    ensures
        collect(entries, within(KeyBound::Included(low), KeyBound::Included(high))) == collect(
            entries,
            equal_to(low@),
        ),
{
    let start = KeyBound::Included(low);
    let end = KeyBound::Included(high);
    assert forall|x: Seq<u8>| #[trigger] within(start, end)(x) == equal_to(low@)(x) by {
        lemma_key_lt_total(x, low@);
        lemma_key_lt_irreflexive(low@);
    }
    lemma_collect_agree(entries, within(start, end), equal_to(low@));
}

/// Where the keys that `a` selects all come before those that `b` selects,
/// collecting with either is collecting with `a`, then with `b`.
pub proof fn lemma_collect_ordered_union(
    entries: Seq<IndexEntry>,
    a: spec_fn(Seq<u8>) -> bool,
    b: spec_fn(Seq<u8>) -> bool,
    either: spec_fn(Seq<u8>) -> bool,
)
    requires
        forall|k: Seq<u8>| #[trigger] either(k) == (a(k) || b(k)),
        forall|k: Seq<u8>| !(#[trigger] a(k) && b(k)),
        forall|i: int, j: int|
            #![trigger entries[i], entries[j]]
            0 <= i < j < entries.len() && b(entries[i].0) ==> !a(entries[j].0),
    ensures
        collect(entries, either) == collect(entries, a) + collect(entries, b),
    decreases entries.len(),
{
    if entries.len() > 0 {
        let rest = entries.drop_first();
        assert forall|i: int, j: int|
            #![trigger rest[i], rest[j]]
            0 <= i < j < rest.len() && b(rest[i].0) implies !a(rest[j].0) by {
            assert(rest[i] == entries[i + 1] && rest[j] == entries[j + 1]);
        }
        lemma_collect_ordered_union(rest, a, b, either);
        if b(entries[0].0) {
            assert forall|j: int| 0 <= j < rest.len() implies !a(#[trigger] rest[j].0) by {
                assert(rest[j] == entries[j + 1]);
                assert(entries[0] == entries[0]);
            }
            lemma_collect_none(rest, a);
            assert(collect(entries, either) =~= collect(entries, a) + collect(entries, b));
        } else if a(entries[0].0) {
            assert(collect(entries, either) =~= collect(entries, a) + collect(entries, b));
        }
    }
}

/// Law of `range`: splitting a range at a key `mid` inside it splits what it
/// scans: the part below `mid`, then the part from `mid` on.
pub proof fn lemma_range_split(entries: Seq<IndexEntry>, start: KeyBound, mid: Vec<u8>, end: KeyBound)
    requires
        keys_ascending(entries),
        in_bounds(mid@, start, end),
    ensures
        collect(entries, within(start, KeyBound::Excluded(mid))) + collect(
            entries,
            within(KeyBound::Included(mid), end),
        ) == collect(entries, within(start, end)),
{
    let low = within(start, KeyBound::Excluded(mid));
    let high = within(KeyBound::Included(mid), end);
    let whole = within(start, end);
    assert forall|k: Seq<u8>| #[trigger] whole(k) == (low(k) || high(k)) by {
        if key_lt(k, mid@) {
            lemma_below_end_downward(k, mid@, end);
        }
        if !key_lt(k, mid@) && in_bounds(k, KeyBound::Included(mid), end) {
            lemma_key_lt_total(k, mid@);
            if k != mid@ {
                lemma_above_start_upward(mid@, k, start);
            }
        }
    }
    assert forall|i: int, j: int|
        #![trigger entries[i], entries[j]]
        0 <= i < j < entries.len() && high(entries[i].0) implies !low(entries[j].0) by {
        assert(key_lt(entries[i].0, entries[j].0));
        if key_lt(entries[j].0, mid@) {
            lemma_key_lt_transitive(entries[i].0, entries[j].0, mid@);
        }
    }
    lemma_collect_ordered_union(entries, low, high, whole);
}

/// Law of `start_with`: the keys with a prefix lead the scan from that
/// prefix on.
pub proof fn lemma_prefix_scan_leads_range(entries: Seq<IndexEntry>, prefix: Vec<u8>)
    requires
        keys_ascending(entries),
    ensures
        collect(entries, prefixed_by(prefix@)).len() <= collect(
            entries,
            within(KeyBound::Included(prefix), KeyBound::Unbounded),
        ).len(),
        collect(entries, within(KeyBound::Included(prefix), KeyBound::Unbounded)).subrange(
            0,
            collect(entries, prefixed_by(prefix@)).len() as int,
        ) == collect(entries, prefixed_by(prefix@)),
{
    let p = prefix@;
    let from = within(KeyBound::Included(prefix), KeyBound::Unbounded);
    let rest = |k: Seq<u8>| from(k) && !has_prefix(k, p);
    assert forall|k: Seq<u8>| #[trigger] from(k) == (prefixed_by(p)(k) || rest(k)) by {
        if has_prefix(k, p) {
            lemma_prefixed_not_below(k, p);
        }
    }
    assert forall|i: int, j: int|
        #![trigger entries[i], entries[j]]
        0 <= i < j < entries.len() && rest(entries[i].0) implies !prefixed_by(p)(entries[j].0) by {
        assert(key_lt(entries[i].0, entries[j].0));
        lemma_prefix_run_ends(p, entries[i].0, entries[j].0);
    }
    lemma_collect_ordered_union(entries, prefixed_by(p), rest, from);
    assert(collect(entries, from).subrange(0, collect(entries, prefixed_by(p)).len() as int)
        =~= collect(entries, prefixed_by(p)));
}

/// Law of `equal`: the entries equal to a key lead the scan from that key on.
pub proof fn lemma_equal_leads_range(entries: Seq<IndexEntry>, key: Vec<u8>)
    requires
        keys_ascending(entries),
    ensures
        collect(entries, equal_to(key@)).len() <= collect(
            entries,
            within(KeyBound::Included(key), KeyBound::Unbounded),
        ).len(),
        collect(entries, within(KeyBound::Included(key), KeyBound::Unbounded)).subrange(
            0,
            collect(entries, equal_to(key@)).len() as int,
        ) == collect(entries, equal_to(key@)),
{
    let k0 = key@;
    let from = within(KeyBound::Included(key), KeyBound::Unbounded);
    let rest = |k: Seq<u8>| key_lt(k0, k);
    lemma_key_lt_irreflexive(k0);
    assert forall|k: Seq<u8>| #[trigger] from(k) == (equal_to(k0)(k) || rest(k)) by {
        lemma_key_lt_total(k, k0);
    }
    assert forall|i: int, j: int|
        #![trigger entries[i], entries[j]]
        0 <= i < j < entries.len() && rest(entries[i].0) implies !equal_to(k0)(entries[j].0) by {
        assert(key_lt(entries[i].0, entries[j].0));
        if entries[j].0 == k0 {
            lemma_key_lt_transitive(k0, entries[i].0, entries[j].0);
            lemma_key_lt_irreflexive(k0);
        }
    }
    lemma_collect_ordered_union(entries, equal_to(k0), rest, from);
    assert(collect(entries, from).subrange(0, collect(entries, equal_to(k0)).len() as int)
        =~= collect(entries, equal_to(k0)));
}

/// Law of `range`: a range that lies inside another scans a contiguous part
/// of what the other scans.
pub proof fn lemma_sub_range_is_infix(
    entries: Seq<IndexEntry>,
    inner_start: KeyBound,
    inner_end: KeyBound,
    outer_start: KeyBound,
    outer_end: KeyBound,
)
    requires
        keys_ascending(entries),
        forall|k: Seq<u8>| #[trigger]
            in_bounds(k, inner_start, inner_end) ==> in_bounds(k, outer_start, outer_end),
    ensures
        ({
            let inner = collect(entries, within(inner_start, inner_end));
            let outer = collect(entries, within(outer_start, outer_end));
            exists|i: int|
                0 <= i && i + inner.len() <= outer.len() && #[trigger] outer.subrange(
                    i,
                    i + inner.len(),
                ) == inner
        }),
{
    let inner = within(inner_start, inner_end);
    let outer = within(outer_start, outer_end);
    let before = |k: Seq<u8>| outer(k) && !above_start(k, inner_start);
    let after = |k: Seq<u8>| outer(k) && above_start(k, inner_start) && !below_end(k, inner_end);
    let inner_or_after = |k: Seq<u8>| inner(k) || after(k);
    assert forall|k: Seq<u8>| #[trigger] inner_or_after(k) == (inner(k) || after(k)) by {}
    assert forall|i: int, j: int|
        #![trigger entries[i], entries[j]]
        0 <= i < j < entries.len() && after(entries[i].0) implies !inner(entries[j].0) by {
        assert(key_lt(entries[i].0, entries[j].0));
        if below_end(entries[j].0, inner_end) {
            lemma_below_end_downward(entries[i].0, entries[j].0, inner_end);
        }
    }
    lemma_collect_ordered_union(entries, inner, after, inner_or_after);
    assert forall|k: Seq<u8>| #[trigger] outer(k) == (before(k) || inner_or_after(k)) by {}
    assert forall|i: int, j: int|
        #![trigger entries[i], entries[j]]
        0 <= i < j < entries.len() && inner_or_after(entries[i].0) implies !before(
            entries[j].0,
        ) by {
        assert(key_lt(entries[i].0, entries[j].0));
        lemma_above_start_upward(entries[i].0, entries[j].0, inner_start);
    }
    lemma_collect_ordered_union(entries, before, inner_or_after, outer);
    let lead = collect(entries, before).len() as int;
    let whole = collect(entries, outer);
    let part = collect(entries, inner);
    assert(whole.subrange(lead, lead + part.len()) =~= part);
}

} // verus!
