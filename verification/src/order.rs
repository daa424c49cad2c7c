//! The order of map keys: byte strings compared lexicographically, each byte
//! as an unsigned number.

use vstd::prelude::*;

verus! {

/// How one key stands to another.
#[derive(Copy, Clone, PartialEq, Eq, Debug, Structural)]
pub enum KeyOrder {
    Less,
    Equal,
    Greater,
}

/// The shorter of the two lengths.
pub open spec fn common_len(a: Seq<u8>, b: Seq<u8>) -> int {
    if a.len() <= b.len() {
        a.len() as int
    } else {
        b.len() as int
    }
}

/// The first position at or after `from` where `a` and `b` hold different
/// bytes, or the shorter length if there is none.
pub open spec fn first_difference(a: Seq<u8>, b: Seq<u8>, from: int) -> int
    decreases common_len(a, b) - from,
{
    if from < 0 || from >= common_len(a, b) {
        common_len(a, b)
    } else if a[from] != b[from] {
        from
    } else {
        first_difference(a, b, from + 1)
    }
}

/// `a` comes strictly before `b`: at the first byte where they differ `a` holds
/// the smaller one, or `a` is a proper prefix of `b`.
pub open spec fn lex_lt(a: Seq<u8>, b: Seq<u8>) -> bool {
    let d = first_difference(a, b, 0);
    if d < common_len(a, b) {
        a[d] < b[d]
    } else {
        a.len() < b.len()
    }
}

/// How `a` stands to `b`.
pub open spec fn key_order(a: Seq<u8>, b: Seq<u8>) -> KeyOrder {
    if a == b {
        KeyOrder::Equal
    } else if lex_lt(a, b) {
        KeyOrder::Less
    } else {
        KeyOrder::Greater
    }
}

/// What `first_difference` finds: the two sequences agree before it, and
/// differ at it unless it is the shorter length.
pub proof fn lemma_first_difference(a: Seq<u8>, b: Seq<u8>, from: int)
    requires
        0 <= from <= common_len(a, b),
    ensures
        from <= first_difference(a, b, from) <= common_len(a, b),
        forall|j: int| from <= j < first_difference(a, b, from) ==> a[j] == b[j],
        first_difference(a, b, from) < common_len(a, b) ==> a[first_difference(a, b, from)]
            != b[first_difference(a, b, from)],
    decreases common_len(a, b) - from,
{
    if from < common_len(a, b) && a[from] == b[from] {
        lemma_first_difference(a, b, from + 1);
    }
}

/// A position where the two sequences differ, with agreement before it, is
/// the first difference.
pub proof fn lemma_first_difference_is(a: Seq<u8>, b: Seq<u8>, d: int)
    requires
        0 <= d <= common_len(a, b),
        forall|j: int| 0 <= j < d ==> a[j] == b[j],
        d < common_len(a, b) ==> a[d] != b[d],
    ensures
        first_difference(a, b, 0) == d,
{
    lemma_first_difference(a, b, 0);
    let f = first_difference(a, b, 0);
    if f < d {
        assert(a[f] == b[f]);
    } else if d < f {
        assert(a[d] == b[d]);
    }
}

/// Neither before nor after means equal.
pub proof fn lemma_lex_total(a: Seq<u8>, b: Seq<u8>)
    ensures
        a == b || lex_lt(a, b) || lex_lt(b, a),
{
    lemma_first_difference(a, b, 0);
    let d = first_difference(a, b, 0);
    lemma_first_difference_is(b, a, d);
    if !lex_lt(a, b) && !lex_lt(b, a) {
        assert(a =~= b);
    }
}

/// Nothing comes before itself, and no two keys come before each other.
pub proof fn lemma_lex_asymmetric(a: Seq<u8>, b: Seq<u8>)
    ensures
        !lex_lt(a, a),
        !(lex_lt(a, b) && lex_lt(b, a)),
{
    lemma_first_difference(a, a, 0);
    lemma_first_difference(a, b, 0);
    let d = first_difference(a, b, 0);
    lemma_first_difference_is(b, a, d);
}

/// Before is transitive.
pub proof fn lemma_lex_transitive(a: Seq<u8>, b: Seq<u8>, c: Seq<u8>)
    requires
        lex_lt(a, b),
        lex_lt(b, c),
    ensures
        lex_lt(a, c),
{
    lemma_first_difference(a, b, 0);
    lemma_first_difference(b, c, 0);
    let d1 = first_difference(a, b, 0);
    let d2 = first_difference(b, c, 0);
    let d = if d1 <= d2 {
        d1
    } else {
        d2
    };
    assert(d <= common_len(a, c));
    assert forall|j: int| 0 <= j < d implies a[j] == c[j] by {
        assert(a[j] == b[j]);
        assert(b[j] == c[j]);
    }
    if d < common_len(a, c) {
        if d1 < d2 {
            assert(b[d] == c[d]);
        } else if d2 < d1 {
            assert(a[d] == b[d]);
        }
        assert(a[d] != c[d]);
    }
    lemma_first_difference_is(a, c, d);
}

/// Compares two keys byte by byte.
pub fn compare_keys(a: &[u8], b: &[u8]) -> (res: KeyOrder)
    ensures
        res == key_order(a@, b@),
{
    let n = if a.len() <= b.len() {
        a.len()
    } else {
        b.len()
    };
    let mut i: usize = 0;
    while i < n
        invariant
            n == common_len(a@, b@),
            i <= n,
            first_difference(a@, b@, 0) == first_difference(a@, b@, i as int),
            forall|j: int| 0 <= j < i ==> a@[j] == b@[j],
        decreases n - i,
    {
        if a[i] != b[i] {
            if a[i] < b[i] {
                return KeyOrder::Less;
            } else {
                proof {
                    assert(a@ != b@);
                }
                return KeyOrder::Greater;
            }
        }
        i += 1;
    }
    if a.len() == b.len() {
        assert(a@ =~= b@);
        KeyOrder::Equal
    } else if a.len() < b.len() {
        KeyOrder::Less
    } else {
        KeyOrder::Greater
    }
}

/// Whether two keys hold the same bytes.
pub fn keys_equal(a: &[u8], b: &[u8]) -> (res: bool)
    ensures
        res == (a@ == b@),
{
    if a.len() != b.len() {
        return false;
    }
    let mut i: usize = 0;
    while i < a.len()
        invariant
            a@.len() == b@.len(),
            i <= a@.len(),
            forall|j: int| 0 <= j < i ==> a@[j] == b@[j],
        decreases a@.len() - i,
    {
        if a[i] != b[i] {
            return false;
        }
        i += 1;
    }
    assert(a@ =~= b@);
    true
}

} // verus!
