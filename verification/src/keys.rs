//! Encoded keys: their byte order, bounds and prefixes.
use vstd::prelude::*;

verus! {

/// The order in which the store sorts encoded keys: byte by byte, where a
/// key that is a proper prefix of another sorts first.
pub open spec fn key_lt(a: Seq<u8>, b: Seq<u8>) -> bool
    decreases a.len(),
{
    if b.len() == 0 {
        false
    } else if a.len() == 0 {
        true
    } else if a[0] != b[0] {
        a[0] < b[0]
    } else {
        key_lt(a.drop_first(), b.drop_first())
    }
}

/// `prefix` is a prefix of `key`.
pub open spec fn has_prefix(key: Seq<u8>, prefix: Seq<u8>) -> bool {
    prefix.len() <= key.len() && key.subrange(0, prefix.len() as int) == prefix
}

/// Law of prefixes: `prefix` is a prefix of `key` exactly when `key` is at
/// least as long and agrees with `prefix` byte for byte over its length.
pub proof fn lemma_has_prefix_bytewise(key: Seq<u8>, prefix: Seq<u8>)
    ensures
        has_prefix(key, prefix) <==> (prefix.len() <= key.len() && forall|i: int|
            0 <= i < prefix.len() ==> key[i] == prefix[i]),
{
    if prefix.len() <= key.len() {
        if forall|i: int| 0 <= i < prefix.len() ==> key[i] == prefix[i] {
            assert(key.subrange(0, prefix.len() as int) =~= prefix);
        }
        if has_prefix(key, prefix) {
            assert forall|i: int| 0 <= i < prefix.len() implies key[i] == prefix[i] by {
                assert(key.subrange(0, prefix.len() as int)[i] == key[i]);
            }
        }
    }
}

/// One end of a range of encoded keys.
pub enum KeyBound {
    Included(Vec<u8>),
    Excluded(Vec<u8>),
    Unbounded,
}

/// `key` lies on the upper side of the lower bound `start`.
pub open spec fn above_start(key: Seq<u8>, start: KeyBound) -> bool {
    match start {
        KeyBound::Included(b) => !key_lt(key, b@),
        KeyBound::Excluded(b) => key_lt(b@, key),
        KeyBound::Unbounded => true,
    }
}

/// `key` lies on the lower side of the upper bound `end`.
pub open spec fn below_end(key: Seq<u8>, end: KeyBound) -> bool {
    match end {
        KeyBound::Included(b) => !key_lt(b@, key),
        KeyBound::Excluded(b) => key_lt(key, b@),
        KeyBound::Unbounded => true,
    }
}

pub open spec fn in_bounds(key: Seq<u8>, start: KeyBound, end: KeyBound) -> bool {
    above_start(key, start) && below_end(key, end)
}

/// No key is below itself.
pub proof fn lemma_key_lt_irreflexive(a: Seq<u8>)
    ensures
        !key_lt(a, a),
    decreases a.len(),
{
    if a.len() > 0 {
        lemma_key_lt_irreflexive(a.drop_first());
    }
}

/// Two distinct keys are ordered one way or the other, never both.
pub proof fn lemma_key_lt_total(a: Seq<u8>, b: Seq<u8>)
    ensures
        a != b ==> (key_lt(a, b) || key_lt(b, a)),
        !(key_lt(a, b) && key_lt(b, a)),
    decreases a.len(),
{
    if a.len() > 0 && b.len() > 0 {
        lemma_key_lt_total(a.drop_first(), b.drop_first());
        if a[0] == b[0] && a.drop_first() == b.drop_first() {
            assert(a =~= seq![a[0]] + a.drop_first());
            assert(b =~= seq![b[0]] + b.drop_first());
        }
    } else if a.len() == 0 && b.len() == 0 {
        assert(a =~= b);
    }
}

/// The key order is transitive.
pub proof fn lemma_key_lt_transitive(a: Seq<u8>, b: Seq<u8>, c: Seq<u8>)
    requires
        key_lt(a, b),
        key_lt(b, c),
    ensures
        key_lt(a, c),
    decreases a.len(),
{
    if a.len() > 0 && a[0] == b[0] && b[0] == c[0] {
        lemma_key_lt_transitive(a.drop_first(), b.drop_first(), c.drop_first());
    }
}

/// Above a lower bound, every larger key is above it too.
pub proof fn lemma_above_start_upward(x: Seq<u8>, y: Seq<u8>, start: KeyBound)
    requires
        above_start(x, start),
        key_lt(x, y),
    ensures
        above_start(y, start),
{
    match start {
        KeyBound::Included(b) => {
            if key_lt(y, b@) {
                lemma_key_lt_transitive(x, y, b@);
            }
        },
        KeyBound::Excluded(b) => {
            lemma_key_lt_transitive(b@, x, y);
        },
        KeyBound::Unbounded => {},
    }
}

/// Below an upper bound, every smaller key is below it too.
pub proof fn lemma_below_end_downward(x: Seq<u8>, y: Seq<u8>, end: KeyBound)
    requires
        below_end(y, end),
        key_lt(x, y),
    ensures
        below_end(x, end),
{
    match end {
        KeyBound::Included(b) => {
            if key_lt(b@, x) {
                lemma_key_lt_transitive(b@, x, y);
            }
        },
        KeyBound::Excluded(b) => {
            lemma_key_lt_transitive(x, y, b@);
        },
        KeyBound::Unbounded => {},
    }
}

/// A key that starts with `prefix` does not sort below `prefix`.
pub proof fn lemma_prefixed_not_below(key: Seq<u8>, prefix: Seq<u8>)
    requires
        has_prefix(key, prefix),
    ensures
        !key_lt(key, prefix),
    decreases prefix.len(),
{
    if prefix.len() > 0 {
        assert(key[0] == key.subrange(0, prefix.len() as int)[0]);
        assert(key.drop_first().subrange(0, prefix.len() - 1) =~= key.subrange(
            0,
            prefix.len() as int,
        ).drop_first());
        lemma_prefixed_not_below(key.drop_first(), prefix.drop_first());
    }
}

/// Keys that start with `prefix` form one run in key order: once a key at or
/// above `prefix` does not start with it, no larger key does.
pub proof fn lemma_prefix_run_ends(prefix: Seq<u8>, key: Seq<u8>, larger: Seq<u8>)
    requires
        !key_lt(key, prefix),
        !has_prefix(key, prefix),
        key_lt(key, larger),
    ensures
        !has_prefix(larger, prefix),
    decreases prefix.len(),
{
    if prefix.len() == 0 {
        assert(key.subrange(0, 0) =~= prefix);
    } else if key.len() > 0 && larger.len() > 0 && has_prefix(larger, prefix) {
        assert(larger[0] == larger.subrange(0, prefix.len() as int)[0]);
        assert(larger.drop_first().subrange(0, prefix.len() - 1) =~= larger.subrange(
            0,
            prefix.len() as int,
        ).drop_first());
        if key[0] == prefix[0] {
            if has_prefix(key.drop_first(), prefix.drop_first()) {
                assert(key.subrange(0, prefix.len() as int) =~= seq![key[0]]
                    + key.drop_first().subrange(0, prefix.len() - 1));
                assert(prefix =~= seq![prefix[0]] + prefix.drop_first());
            }
            lemma_prefix_run_ends(prefix.drop_first(), key.drop_first(), larger.drop_first());
        }
    }
}

/// Whether `key` starts with `prefix`.
pub fn key_has_prefix(key: &[u8], prefix: &[u8]) -> (r: bool)
    ensures
        r == has_prefix(key@, prefix@),
{
    if prefix.len() > key.len() {
        return false;
    }
    let mut i: usize = 0;
    while i < prefix.len()
        invariant
            prefix.len() <= key.len(),
            i <= prefix.len(),
            key@.subrange(0, i as int) =~= prefix@.subrange(0, i as int),
        decreases prefix.len() - i,
    {
        if key[i] != prefix[i] {
            assert(key@.subrange(0, prefix.len() as int)[i as int] != prefix@[i as int]);
            return false;
        }
        i = i + 1;
    }
    assert(prefix@.subrange(0, i as int) =~= prefix@);
    true
}

/// Whether two encoded keys are the same bytes.
pub fn key_equal(a: &[u8], b: &[u8]) -> (r: bool)
    ensures
        r == (a@ == b@),
{
    if a.len() != b.len() {
        return false;
    }
    let mut i: usize = 0;
    while i < a.len()
        invariant
            a.len() == b.len(),
            i <= a.len(),
            forall|j: int| 0 <= j < i ==> a@[j] == b@[j],
        decreases a.len() - i,
    {
        if a[i] != b[i] {
            return false;
        }
        i = i + 1;
    }
    assert(a@ =~= b@);
    true
}

} // verus!
