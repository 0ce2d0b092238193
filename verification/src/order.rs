//! The order of the entries of a tree.
//!
//! Entries are ordered by their names, byte by byte. Where one name ends
//! within the other, a directory counts as if its name went on with a `/`,
//! and any other entry as if nothing followed, which comes before any byte.
//! Two entries of one name rank the same.

use crate::tree::{entry_views, Mode, Object, ObjectView};
use std::cmp::Ordering;
use vstd::prelude::*;

verus! {

/// The length of the longest prefix that `a` and `b` share beyond their
/// first `from` bytes, counted from the start.
pub open spec fn shared_prefix(a: Seq<u8>, b: Seq<u8>, from: int) -> int
    decreases a.len() - from,
{
    if 0 <= from < a.len() && from < b.len() && a[from] == b[from] {
        shared_prefix(a, b, from + 1)
    } else {
        from
    }
}

/// `shared_prefix` stops at the first place where the names differ or one
/// of them ends.
pub proof fn lemma_shared_prefix(a: Seq<u8>, b: Seq<u8>, from: int)
    requires
        0 <= from <= a.len(),
        from <= b.len(),
    ensures
        from <= shared_prefix(a, b, from) <= a.len(),
        shared_prefix(a, b, from) <= b.len(),
        forall|j: int| from <= j < shared_prefix(a, b, from) ==> a[j] == b[j],
        shared_prefix(a, b, from) < a.len() && shared_prefix(a, b, from) < b.len() ==> a[shared_prefix(
            a,
            b,
            from,
        )] != b[shared_prefix(a, b, from)],
    decreases a.len() - from,
{
    if from < a.len() && from < b.len() && a[from] == b[from] {
        lemma_shared_prefix(a, b, from + 1);
    }
}

/// The first place where the names differ or one of them ends is where
/// `shared_prefix` stops.
pub proof fn lemma_shared_prefix_is(a: Seq<u8>, b: Seq<u8>, from: int, at: int)
    requires
        0 <= from <= at <= a.len(),
        at <= b.len(),
        forall|j: int| from <= j < at ==> a[j] == b[j],
        at < a.len() && at < b.len() ==> a[at] != b[at],
    ensures
        shared_prefix(a, b, from) == at,
    decreases at - from,
{
    if from < at {
        lemma_shared_prefix_is(a, b, from + 1, at);
    }
}

/// The byte that counts for `e` at index `at` of its name: the byte of the
/// name there; at the end of the name `/` for a directory, and for any other
/// entry -1, which is below every byte.
pub open spec fn next_byte(e: ObjectView, at: int) -> int {
    if 0 <= at < e.name.len() {
        e.name[at] as int
    } else if e.mode == Mode::Directory {
        47
    } else {
        -1
    }
}

/// Whether `a` comes before `b` in a tree.
pub open spec fn sorts_before(a: ObjectView, b: ObjectView) -> bool {
    let at = shared_prefix(a.name, b.name, 0);
    a.name != b.name && next_byte(a, at) < next_byte(b, at)
}

/// Whether the name of `e` is free of path separators.
pub open spec fn plain_name(e: ObjectView) -> bool {
    forall|i: int| 0 <= i < e.name.len() ==> #[trigger] e.name[i] != 47
}

/// Of two entries, at most one comes before the other.
pub proof fn lemma_order_asymmetric(a: ObjectView, b: ObjectView)
    ensures
        !(sorts_before(a, b) && sorts_before(b, a)),
{
    lemma_shared_prefix(a.name, b.name, 0);
    lemma_shared_prefix_is(b.name, a.name, 0, shared_prefix(a.name, b.name, 0));
}

/// Of two entries with plain names that differ, one comes before the other.
pub proof fn lemma_order_total(a: ObjectView, b: ObjectView)
    requires
        plain_name(a),
        plain_name(b),
        a.name != b.name,
    ensures
        sorts_before(a, b) || sorts_before(b, a),
{
    let at = shared_prefix(a.name, b.name, 0);
    lemma_shared_prefix(a.name, b.name, 0);
    lemma_shared_prefix_is(b.name, a.name, 0, at);
    if at == a.name.len() && at == b.name.len() {
        assert(a.name =~= b.name);
    }
}

/// Among entries with plain names, what comes before an entry comes before
/// all that it comes before, unless it has the name of one of them: a file
/// `foo` comes before `foo.txt` and that before a directory `foo`, but
/// entries of one name rank the same.
pub proof fn lemma_order_transitive(a: ObjectView, b: ObjectView, c: ObjectView)
    requires
        plain_name(a),
        plain_name(b),
        plain_name(c),
        a.name != c.name,
        sorts_before(a, b),
        sorts_before(b, c),
    ensures
        sorts_before(a, c),
{
    let ab = shared_prefix(a.name, b.name, 0);
    let bc = shared_prefix(b.name, c.name, 0);
    lemma_shared_prefix(a.name, b.name, 0);
    lemma_shared_prefix(b.name, c.name, 0);
    let at = if ab <= bc {
        ab
    } else {
        bc
    };
    lemma_shared_prefix_is(a.name, c.name, 0, at);
}

/// The length of the longest prefix that two names share.
fn shared_len(a: &[u8], b: &[u8]) -> (at: usize)
    ensures
        at == shared_prefix(a@, b@, 0),
        at <= a.len(),
        at <= b.len(),
{
    let mut at: usize = 0;
    while at < a.len() && at < b.len()
        invariant
            0 <= at <= a.len(),
            at <= b.len(),
            forall|j: int| 0 <= j < at ==> a@[j] == b@[j],
        decreases a.len() - at,
    {
        if a[at] != b[at] {
            proof {
                lemma_shared_prefix_is(a@, b@, 0, at as int);
            }
            return at;
        }
        at = at + 1;
    }
    proof {
        lemma_shared_prefix_is(a@, b@, 0, at as int);
    }
    at
}

/// The byte that counts for an entry at index `at` of its name.
fn byte_after(e: &Object, at: usize) -> (byte: i16)
    ensures
        byte == next_byte(e@, at as int),
{
    if at < e.name.len() {
        e.name[at] as i16
    } else if e.mode.is_directory() {
        47
    } else {
        -1
    }
}

/// Whether `a` comes before `b` in a tree.
pub fn precedes(a: &Object, b: &Object) -> (before: bool)
    ensures
        before == sorts_before(a@, b@),
{
    let at = shared_len(a.name.as_slice(), b.name.as_slice());
    if at == a.name.len() && at == b.name.len() {
        assert(a.name@ =~= b.name@) by {
            lemma_shared_prefix(a.name@, b.name@, 0);
        }
        return false;
    }
    byte_after(a, at) < byte_after(b, at)
}

/// How `a` stands to `b` in the order of a tree.
pub open spec fn entry_order(a: ObjectView, b: ObjectView) -> Ordering {
    if sorts_before(a, b) {
        Ordering::Less
    } else if sorts_before(b, a) {
        Ordering::Greater
    } else {
        Ordering::Equal
    }
}

/// Compares two entries in the order of a tree.
pub fn compare_entries(a: &Object, b: &Object) -> (order: Ordering)
    ensures
        order == entry_order(a@, b@),
{
    if precedes(a, b) {
        Ordering::Less
    } else if precedes(b, a) {
        Ordering::Greater
    } else {
        Ordering::Equal
    }
}

/// Where `e` goes into `sorted`: before the first entry at or beyond `from`
/// that it comes before, or at the end.
pub open spec fn insertion_point(sorted: Seq<ObjectView>, e: ObjectView, from: int) -> int
    decreases sorted.len() - from,
{
    if 0 <= from < sorted.len() && !sorts_before(e, sorted[from]) {
        insertion_point(sorted, e, from + 1)
    } else {
        from
    }
}

/// The insertion point lies within the sequence; `e` comes before none of
/// the entries in front of it, and before the entry at it.
pub proof fn lemma_insertion_point(sorted: Seq<ObjectView>, e: ObjectView, from: int)
    requires
        0 <= from <= sorted.len(),
    ensures
        from <= insertion_point(sorted, e, from) <= sorted.len(),
        forall|j: int| from <= j < insertion_point(sorted, e, from) ==> !sorts_before(e, sorted[j]),
        insertion_point(sorted, e, from) < sorted.len() ==> sorts_before(
            e,
            sorted[insertion_point(sorted, e, from)],
        ),
    decreases sorted.len() - from,
{
    if from < sorted.len() && !sorts_before(e, sorted[from]) {
        lemma_insertion_point(sorted, e, from + 1);
    }
}

/// `sorted` with `e` put in at its insertion point.
pub open spec fn insert_sorted(sorted: Seq<ObjectView>, e: ObjectView) -> Seq<ObjectView> {
    sorted.insert(insertion_point(sorted, e, 0), e)
}

/// The entries in the order of a tree: each put in, from the last to the
/// first, at its insertion point among those behind it.
pub open spec fn sorted_entries(entries: Seq<ObjectView>) -> Seq<ObjectView>
    decreases entries.len(),
{
    if entries.len() == 0 {
        Seq::empty()
    } else {
        insert_sorted(sorted_entries(entries.drop_first()), entries.first())
    }
}

/// Whether each entry comes before all that follow it.
pub open spec fn in_order(entries: Seq<ObjectView>) -> bool {
    forall|i: int, j: int|
        0 <= i < j < entries.len() ==> sorts_before(#[trigger] entries[i], #[trigger] entries[j])
}

/// Whether the entries can be those of one directory: their names are plain,
/// and no two are the same.
pub open spec fn distinct_plain_names(entries: Seq<ObjectView>) -> bool {
    &&& forall|i: int| 0 <= i < entries.len() ==> plain_name(#[trigger] entries[i])
    &&& forall|i: int, j: int|
        0 <= i < j < entries.len() ==> (#[trigger] entries[i]).name != (#[trigger] entries[j]).name
}

/// Sorting keeps the entries: each as often as before.
pub proof fn lemma_sorted_is_permutation(entries: Seq<ObjectView>)
    ensures
        sorted_entries(entries).to_multiset() == entries.to_multiset(),
        sorted_entries(entries).len() == entries.len(),
    decreases entries.len(),
{
    broadcast use vstd::seq_lib::group_to_multiset_ensures;

    if entries.len() > 0 {
        let rest = entries.drop_first();
        let e = entries.first();
        lemma_sorted_is_permutation(rest);
        let sorted = sorted_entries(rest);
        lemma_insertion_point(sorted, e, 0);
        vstd::seq_lib::to_multiset_insert(sorted, insertion_point(sorted, e, 0), e);
        assert(entries =~= rest.insert(0, e));
        vstd::seq_lib::to_multiset_insert(rest, 0, e);
    } else {
        assert(sorted_entries(entries) =~= entries);
    }
}

/// The entries of a directory come out of sorting in order.
pub proof fn lemma_sorted_in_order(entries: Seq<ObjectView>)
    requires
        distinct_plain_names(entries),
    ensures
        in_order(sorted_entries(entries)),
        distinct_plain_names(sorted_entries(entries)),
    decreases entries.len(),
{
    if entries.len() > 0 {
        let rest = entries.drop_first();
        let e = entries.first();
        assert(distinct_plain_names(rest)) by {
            assert forall|i: int| 0 <= i < rest.len() implies plain_name(#[trigger] rest[i]) by {
                assert(rest[i] == entries[i + 1]);
            }
            assert forall|i: int, j: int| 0 <= i < j < rest.len() implies (#[trigger] rest[i]).name
                != (#[trigger] rest[j]).name by {
                assert(rest[i] == entries[i + 1] && rest[j] == entries[j + 1]);
            }
        }
        lemma_sorted_in_order(rest);
        lemma_sorted_is_permutation(rest);
        let sorted = sorted_entries(rest);
        let at = insertion_point(sorted, e, 0);
        lemma_insertion_point(sorted, e, 0);
        let merged = sorted.insert(at, e);
        assert forall|k: int| 0 <= k < sorted.len() implies (#[trigger] sorted[k]).name
            != e.name by {
            lemma_member_of_sorted(rest, sorted, k);
            let i = choose|i: int| 0 <= i < rest.len() && rest[i] == sorted[k];
            assert(rest[i] == entries[i + 1]);
            assert(entries[0].name != entries[i + 1].name);
        }
        assert forall|i: int, j: int| 0 <= i < j < merged.len() implies sorts_before(
            #[trigger] merged[i],
            #[trigger] merged[j],
        ) by {
            if j < at {
                assert(merged[i] == sorted[i] && merged[j] == sorted[j]);
            } else if j == at {
                assert(merged[i] == sorted[i]);
                lemma_order_total(sorted[i], e);
            } else if i < at {
                assert(merged[i] == sorted[i] && merged[j] == sorted[j - 1]);
            } else if i == at {
                assert(merged[j] == sorted[j - 1]);
                if j - 1 > at {
                    assert(sorted[j - 1].name != e.name);
                    lemma_order_transitive(e, sorted[at], sorted[j - 1]);
                }
            } else {
                assert(merged[i] == sorted[i - 1] && merged[j] == sorted[j - 1]);
            }
        }
        assert forall|i: int, j: int| 0 <= i < j < merged.len() implies (#[trigger] merged[i]).name
            != (#[trigger] merged[j]).name by {
            lemma_shared_prefix(merged[i].name, merged[j].name, 0);
        }
        assert forall|i: int| 0 <= i < merged.len() implies plain_name(#[trigger] merged[i]) by {
            if i < at {
                assert(merged[i] == sorted[i]);
            } else if i > at {
                assert(merged[i] == sorted[i - 1]);
            }
        }
    }
}

/// Each entry of `sorted`, a rearrangement of `entries`, is one of them.
pub proof fn lemma_member_of_sorted(entries: Seq<ObjectView>, sorted: Seq<ObjectView>, k: int)
    requires
        sorted.to_multiset() == entries.to_multiset(),
        0 <= k < sorted.len(),
    ensures
        exists|i: int| 0 <= i < entries.len() && entries[i] == sorted[k],
{
    broadcast use vstd::seq_lib::group_to_multiset_ensures;

    assert(sorted.contains(sorted[k]));
    assert(sorted.to_multiset().count(sorted[k]) > 0);
    assert(entries.contains(sorted[k]));
}

/// Where `e` goes into `sorted`.
fn find_insertion_point(sorted: &Vec<Object>, e: &Object) -> (at: usize)
    ensures
        at == insertion_point(entry_views(sorted@), e@, 0),
        at <= sorted.len(),
{
    let ghost views = entry_views(sorted@);
    let mut at: usize = 0;
    while at < sorted.len()
        invariant
            0 <= at <= sorted.len(),
            views == entry_views(sorted@),
            insertion_point(views, e@, 0) == insertion_point(views, e@, at as int),
        decreases sorted.len() - at,
    {
        if precedes(e, &sorted[at]) {
            return at;
        }
        at = at + 1;
    }
    at
}

/// Puts entries in the order of a tree.
pub fn sort_entries(entries: Vec<Object>) -> (sorted: Vec<Object>)
    ensures
        entry_views(sorted@) == sorted_entries(entry_views(entries@)),
{
    let ghost all = entry_views(entries@);
    let mut rest = entries;
    let mut sorted: Vec<Object> = Vec::new();
    assert(all.skip(all.len() as int) =~= Seq::<ObjectView>::empty());
    assert(entry_views(sorted@) =~= Seq::<ObjectView>::empty());
    while rest.len() > 0
        invariant
            rest.len() <= all.len(),
            entry_views(rest@) == all.take(rest.len() as int),
            entry_views(sorted@) == sorted_entries(all.skip(rest.len() as int)),
        decreases rest.len(),
    {
        let ghost before = rest@;
        let ghost views = entry_views(sorted@);
        let e = rest.pop().unwrap();
        let at = find_insertion_point(&sorted, &e);
        proof {
            let n = rest.len() as int;
            assert(e@ == entry_views(before)[n]);
            assert(all.skip(n).first() == e@);
            assert(all.skip(n).drop_first() =~= all.skip(n + 1));
            assert(entry_views(rest@) =~= all.take(n));
            assert(entry_views(sorted@.insert(at as int, e)) =~= views.insert(at as int, e@));
        }
        sorted.insert(at, e);
    }
    assert(all.skip(0) =~= all);
    sorted
}

} // verus!
