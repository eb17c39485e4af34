use vstd::prelude::*;

verus! {

/// `a` comes before `b` in the order of byte strings, decided from index `i` on, where
/// the two agree before `i`.
pub open spec fn lex_less_from(a: Seq<u8>, b: Seq<u8>, i: int) -> bool
    decreases a.len() - i,
{
    if i >= b.len() {
        false
    } else if i >= a.len() {
        true
    } else if a[i] != b[i] {
        a[i] < b[i]
    } else {
        lex_less_from(a, b, i + 1)
    }
}

/// `a` comes before `b` in the order of byte strings: at the first index where they differ
/// `a` has the smaller byte, or `a` ends there and `b` goes on.
pub open spec fn lex_less(a: Seq<u8>, b: Seq<u8>) -> bool {
    lex_less_from(a, b, 0)
}

/// `a` begins with `prefix`.
pub open spec fn starts_with(a: Seq<u8>, prefix: Seq<u8>) -> bool {
    prefix.len() <= a.len() && a.subrange(0, prefix.len() as int) == prefix
}

/// The entries stand in strictly rising order.
pub open spec fn strictly_sorted(entries: Seq<Vec<u8>>) -> bool {
    forall|i: int, j: int|
        0 <= i < j < entries.len() ==> lex_less((#[trigger] entries[i])@, (#[trigger] entries[j])@)
}

proof fn lemma_less_trans_from(a: Seq<u8>, b: Seq<u8>, c: Seq<u8>, i: int)
    requires
        0 <= i,
        lex_less_from(a, b, i),
        lex_less_from(b, c, i),
    ensures
        lex_less_from(a, c, i),
    decreases a.len() - i,
{
    if i < a.len() && i < b.len() && i < c.len() && a[i] == b[i] && b[i] == c[i] {
        lemma_less_trans_from(a, b, c, i + 1);
    }
}

/// The order of byte strings is transitive.
pub proof fn lemma_less_trans(a: Seq<u8>, b: Seq<u8>, c: Seq<u8>)
    requires
        lex_less(a, b),
        lex_less(b, c),
    ensures
        lex_less(a, c),
{
    lemma_less_trans_from(a, b, c, 0);
}

proof fn lemma_prefix_not_less_from(a: Seq<u8>, prefix: Seq<u8>, i: int)
    requires
        0 <= i,
        starts_with(a, prefix),
    ensures
        !lex_less_from(a, prefix, i),
    decreases a.len() - i,
{
    if i < prefix.len() {
        assert(a.subrange(0, prefix.len() as int)[i] == a[i]);
        lemma_prefix_not_less_from(a, prefix, i + 1);
    }
}

/// A byte string does not come before any of its prefixes.
pub proof fn lemma_prefix_not_less(a: Seq<u8>, prefix: Seq<u8>)
    requires
        starts_with(a, prefix),
    ensures
        !lex_less(a, prefix),
{
    lemma_prefix_not_less_from(a, prefix, 0);
}

proof fn lemma_between_from(x: Seq<u8>, prefix: Seq<u8>, e: Seq<u8>, i: int)
    requires
        0 <= i <= prefix.len(),
        i <= x.len(),
        starts_with(e, prefix),
        x.subrange(0, i) == prefix.subrange(0, i),
        !lex_less_from(x, prefix, i),
        lex_less_from(x, e, i),
    ensures
        starts_with(x, prefix),
    decreases prefix.len() - i,
{
    if i == prefix.len() {
        assert(prefix.subrange(0, i) == prefix);
    } else {
        assert(e.subrange(0, prefix.len() as int)[i] == e[i]);
        assert(i < x.len());
        assert(x[i] == prefix[i]);
        assert(x.subrange(0, i + 1) =~= x.subrange(0, i).push(x[i]));
        assert(prefix.subrange(0, i + 1) =~= prefix.subrange(0, i).push(prefix[i]));
        lemma_between_from(x, prefix, e, i + 1);
    }
}

/// What stands between a prefix and a byte string that begins with it begins with it too.
pub proof fn lemma_between(x: Seq<u8>, prefix: Seq<u8>, e: Seq<u8>)
    requires
        starts_with(e, prefix),
        !lex_less(x, prefix),
        lex_less(x, e),
    ensures
        starts_with(x, prefix),
{
    assert(x.subrange(0, 0) =~= prefix.subrange(0, 0));
    lemma_between_from(x, prefix, e, 0);
}

proof fn lemma_less_total_from(a: Seq<u8>, b: Seq<u8>, i: int)
    requires
        0 <= i <= a.len(),
        i <= b.len(),
        a.subrange(0, i) == b.subrange(0, i),
        !lex_less_from(a, b, i),
        !lex_less_from(b, a, i),
    ensures
        a == b,
    decreases a.len() - i,
{
    if i < a.len() && i < b.len() {
        assert(a.subrange(0, i + 1) =~= a.subrange(0, i).push(a[i]));
        assert(b.subrange(0, i + 1) =~= b.subrange(0, i).push(b[i]));
        lemma_less_total_from(a, b, i + 1);
    } else {
        assert(a.subrange(0, i) =~= a);
        assert(b.subrange(0, i) =~= b);
    }
}

/// Of two different byte strings one comes before the other.
pub proof fn lemma_less_total(a: Seq<u8>, b: Seq<u8>)
    requires
        a != b,
    ensures
        lex_less(a, b) || lex_less(b, a),
{
    if !lex_less(a, b) && !lex_less(b, a) {
        assert(a.subrange(0, 0) =~= b.subrange(0, 0));
        lemma_less_total_from(a, b, 0);
    }
}

/// The byte strings that the entries hold.
pub open spec fn views(entries: Seq<Vec<u8>>) -> Seq<Seq<u8>> {
    Seq::new(entries.len(), |i: int| entries[i]@)
}

/// Sorts the entries with the slice method `sort`. They are the same entries, each as
/// often as before, and none stands before one that the order of byte strings puts
/// before it.
#[verifier::external_body]
pub(crate) fn sort_tokens(entries: &mut Vec<Vec<u8>>)
    ensures
        views(final(entries)@).to_multiset() == views(old(entries)@).to_multiset(),
        forall|i: int, j: int|
            0 <= i < j < final(entries)@.len() ==> !lex_less(
                (#[trigger] final(entries)@[j])@,
                (#[trigger] final(entries)@[i])@,
            ),
{
    entries.sort();
}

/// Sorts entries that hold different byte strings: they come out in strictly rising
/// order, and the byte strings are the same.
#[verifier::rlimit(50)]
pub fn sort_distinct(entries: &mut Vec<Vec<u8>>)
    requires
        views(old(entries)@).no_duplicates(),
    ensures
        strictly_sorted(final(entries)@),
        final(entries)@.len() == old(entries)@.len(),
        forall|key: Seq<u8>|
            #![trigger views(final(entries)@).contains(key)]
            #![trigger views(old(entries)@).contains(key)]
            views(final(entries)@).contains(key) <==> views(old(entries)@).contains(key),
{
    let ghost before = views(entries@);
    sort_tokens(entries);
    proof {
        let after = views(entries@);
        before.to_multiset_ensures();
        after.to_multiset_ensures();
        before.lemma_multiset_has_no_duplicates();
        after.lemma_multiset_has_no_duplicates_conv();
        assert forall|i: int, j: int| 0 <= i < j < entries@.len() implies lex_less(
            (#[trigger] entries@[i])@,
            (#[trigger] entries@[j])@,
        ) by {
            assert(after[i] == entries@[i]@);
            assert(after[j] == entries@[j]@);
            assert(after[i] != after[j]);
            lemma_less_total(entries@[i]@, entries@[j]@);
        }
        assert forall|key: Seq<u8>| after.contains(key) <==> before.contains(key) by {
            assert(after.contains(key) <==> after.to_multiset().count(key) > 0);
            assert(before.contains(key) <==> before.to_multiset().count(key) > 0);
        }
    }
}

/// Whether `a` comes before `b` in the order of byte strings.
pub fn bytes_less(a: &[u8], b: &[u8]) -> (less: bool)
    ensures
        less == lex_less(a@, b@),
{
    let mut i: usize = 0;
    while i < a.len() && i < b.len()
        invariant
            i <= a.len(),
            i <= b.len(),
            lex_less(a@, b@) == lex_less_from(a@, b@, i as int),
        decreases a.len() - i,
    {
        if a[i] != b[i] {
            return a[i] < b[i];
        }
        i = i + 1;
    }
    i < b.len()
}

/// Whether `a` begins with `prefix`.
pub fn bytes_start_with(a: &[u8], prefix: &[u8]) -> (found: bool)
    ensures
        found == starts_with(a@, prefix@),
{
    if prefix.len() > a.len() {
        return false;
    }
    let mut i: usize = 0;
    while i < prefix.len()
        invariant
            i <= prefix.len(),
            prefix.len() <= a.len(),
            a@.subrange(0, i as int) == prefix@.subrange(0, i as int),
        decreases prefix.len() - i,
    {
        if a[i] != prefix[i] {
            assert(a@.subrange(0, prefix@.len() as int)[i as int] != prefix@[i as int]);
            return false;
        }
        assert(a@.subrange(0, i + 1) =~= a@.subrange(0, i as int).push(a@[i as int]));
        assert(prefix@.subrange(0, i + 1) =~= prefix@.subrange(0, i as int).push(
            prefix@[i as int],
        ));
        i = i + 1;
    }
    assert(prefix@.subrange(0, i as int) == prefix@);
    true
}

/// Whether two byte strings are the same.
pub fn bytes_equal(a: &[u8], b: &[u8]) -> (same: bool)
    ensures
        same == (a@ == b@),
{
    if a.len() != b.len() {
        return false;
    }
    let found = bytes_start_with(a, b);
    proof {
        assert(a@.subrange(0, b@.len() as int) =~= a@);
    }
    found
}

} // verus!
