//! The order of the entries of a snapshot: by name, byte by byte.

use crate::objects::object_kind::EntryModel;
use crate::objects::object_kind::entries_model;
use crate::objects::object_kind::entry_model;
use crate::objects::tree::TreeEntry;
use vstd::prelude::*;
use vstd::string::*;
use vstd::utf8::*;

verus! {

/// `a` comes before `b`, or is `b`, in the byte-wise lexicographic order.
pub open spec fn lex_le(a: Seq<u8>, b: Seq<u8>) -> bool
    decreases a.len(),
{
    if a.len() == 0 {
        true
    } else if b.len() == 0 {
        false
    } else if a[0] != b[0] {
        a[0] < b[0]
    } else {
        lex_le(a.drop_first(), b.drop_first())
    }
}

/// What entries are ordered by: the UTF-8 bytes of the name.
pub open spec fn sort_key(entry: EntryModel) -> Seq<u8> {
    encode_utf8(entry.entry.name)
}

/// The entries stand in the order of their names.
pub open spec fn sorted_by_name(entries: Seq<EntryModel>) -> bool {
    forall|i: int, j: int|
        0 <= i < j < entries.len() ==> lex_le(
            sort_key(#[trigger] entries[i]),
            sort_key(#[trigger] entries[j]),
        )
}

/// `sorted` with `entry` put before the first entry that does not come before it.
pub open spec fn insert_by_name(sorted: Seq<EntryModel>, entry: EntryModel) -> Seq<EntryModel>
    decreases sorted.len(),
{
    if sorted.len() == 0 || lex_le(sort_key(entry), sort_key(sorted[0])) {
        seq![entry] + sorted
    } else {
        seq![sorted[0]] + insert_by_name(sorted.drop_first(), entry)
    }
}

/// The entries in the order of their names; entries of one name keep the
/// order they came in.
pub open spec fn sort_by_name(entries: Seq<EntryModel>) -> Seq<EntryModel>
    decreases entries.len(),
{
    if entries.len() == 0 {
        Seq::<EntryModel>::empty()
    } else {
        insert_by_name(sort_by_name(entries.drop_first()), entries[0])
    }
}

/// Two sorted listings as one: at each step the first entry of `a`, unless
/// the first entry of `b` comes before it.
pub open spec fn merge_by_name(a: Seq<EntryModel>, b: Seq<EntryModel>) -> Seq<EntryModel>
    decreases a.len() + b.len(),
{
    if a.len() == 0 {
        b
    } else if b.len() == 0 {
        a
    } else if lex_le(sort_key(a[0]), sort_key(b[0])) {
        seq![a[0]] + merge_by_name(a.drop_first(), b)
    } else {
        seq![b[0]] + merge_by_name(a, b.drop_first())
    }
}

/// Of two byte strings one comes before the other, or they are the same.
pub proof fn lemma_lex_le_total(a: Seq<u8>, b: Seq<u8>)
    ensures
        lex_le(a, b) || lex_le(b, a),
    decreases a.len(),
{
    if a.len() != 0 && b.len() != 0 && a[0] == b[0] {
        lemma_lex_le_total(a.drop_first(), b.drop_first());
    }
}

/// What comes before something that comes before a third comes before the third.
pub proof fn lemma_lex_le_transitive(a: Seq<u8>, b: Seq<u8>, c: Seq<u8>)
    requires
        lex_le(a, b),
        lex_le(b, c),
    ensures
        lex_le(a, c),
    decreases a.len(),
{
    if a.len() != 0 && b.len() != 0 && c.len() != 0 && a[0] == b[0] && b[0] == c[0] {
        lemma_lex_le_transitive(a.drop_first(), b.drop_first(), c.drop_first());
    }
}

/// Two byte strings of which each comes before the other, or is it, are the same.
pub proof fn lemma_lex_le_antisymmetric(a: Seq<u8>, b: Seq<u8>)
    requires
        lex_le(a, b),
        lex_le(b, a),
    ensures
        a == b,
    decreases a.len(),
{
    if a.len() != 0 && b.len() != 0 {
        lemma_lex_le_antisymmetric(a.drop_first(), b.drop_first());
        assert(b == seq![b[0]] + b.drop_first());
    } else {
        assert(a =~= b);
    }
}

/// Inserting an entry adds it and keeps the others.
pub proof fn lemma_insert_permutes(sorted: Seq<EntryModel>, entry: EntryModel)
    ensures
        insert_by_name(sorted, entry).to_multiset() == sorted.to_multiset().insert(entry),
        insert_by_name(sorted, entry).len() == sorted.len() + 1,
    decreases sorted.len(),
{
    broadcast use vstd::seq_lib::group_to_multiset_ensures;

    if sorted.len() == 0 || lex_le(sort_key(entry), sort_key(sorted[0])) {
        assert(seq![entry] + sorted == sorted.insert(0, entry));
    } else {
        let rest = sorted.drop_first();
        lemma_insert_permutes(rest, entry);
        let inserted = insert_by_name(rest, entry);
        assert(sorted == seq![sorted[0]] + rest);
        assert(seq![sorted[0]] + rest == rest.insert(0, sorted[0]));
        assert(seq![sorted[0]] + inserted == inserted.insert(0, sorted[0]));
    }
}

/// Sorting keeps the entries: each one occurs as often as before.
pub proof fn lemma_sort_permutes(entries: Seq<EntryModel>)
    ensures
        sort_by_name(entries).to_multiset() == entries.to_multiset(),
        sort_by_name(entries).len() == entries.len(),
    decreases entries.len(),
{
    broadcast use vstd::seq_lib::group_to_multiset_ensures;

    if entries.len() == 0 {
    } else {
        let rest = entries.drop_first();
        lemma_sort_permutes(rest);
        lemma_insert_permutes(sort_by_name(rest), entries[0]);
        assert(entries == rest.insert(0, entries[0]));
    }
}

/// What holds of every entry of a listing holds of every entry of each
/// listing of the same entries.
pub proof fn lemma_same_entries_keep(
    a: Seq<EntryModel>,
    b: Seq<EntryModel>,
    holds: spec_fn(EntryModel) -> bool,
)
    requires
        a.to_multiset() == b.to_multiset(),
        forall|i: int| 0 <= i < a.len() ==> holds(#[trigger] a[i]),
    ensures
        forall|i: int| 0 <= i < b.len() ==> holds(#[trigger] b[i]),
{
    broadcast use vstd::seq_lib::group_to_multiset_ensures;

    assert forall|i: int| 0 <= i < b.len() implies holds(#[trigger] b[i]) by {
        assert(b.to_multiset().count(b[i]) > 0);
        assert(a.contains(b[i]));
        let k = choose|k: int| 0 <= k < a.len() && a[k] == b[i];
        assert(holds(a[k]));
    }
}

/// What holds of every entry still holds of every entry after sorting.
pub proof fn lemma_sort_keeps(entries: Seq<EntryModel>, holds: spec_fn(EntryModel) -> bool)
    requires
        forall|i: int| 0 <= i < entries.len() ==> holds(#[trigger] entries[i]),
    ensures
        forall|i: int|
            0 <= i < sort_by_name(entries).len() ==> holds(#[trigger] sort_by_name(entries)[i]),
{
    lemma_sort_permutes(entries);
    lemma_same_entries_keep(entries, sort_by_name(entries), holds);
}

/// Each entry after an insertion is the new one or one of the old ones.
pub proof fn lemma_inserted_member(sorted: Seq<EntryModel>, entry: EntryModel, i: int)
    requires
        0 <= i < insert_by_name(sorted, entry).len(),
    ensures
        insert_by_name(sorted, entry)[i] == entry || exists|k: int|
            0 <= k < sorted.len() && sorted[k] == insert_by_name(sorted, entry)[i],
    decreases sorted.len(),
{
    if sorted.len() == 0 || lex_le(sort_key(entry), sort_key(sorted[0])) {
        if i > 0 {
            assert(sorted[i - 1] == insert_by_name(sorted, entry)[i]);
        }
    } else {
        let rest = sorted.drop_first();
        if i == 0 {
            assert(sorted[0] == insert_by_name(sorted, entry)[i]);
        } else {
            lemma_insert_permutes(rest, entry);
            lemma_inserted_member(rest, entry, i - 1);
            let inner = insert_by_name(rest, entry);
            if inner[i - 1] != entry {
                let k = choose|k: int| 0 <= k < rest.len() && rest[k] == inner[i - 1];
                assert(sorted[k + 1] == insert_by_name(sorted, entry)[i]);
            }
        }
    }
}

/// Inserting into sorted entries leaves them sorted.
pub proof fn lemma_insert_sorted(sorted: Seq<EntryModel>, entry: EntryModel)
    requires
        sorted_by_name(sorted),
    ensures
        sorted_by_name(insert_by_name(sorted, entry)),
    decreases sorted.len(),
{
    let result = insert_by_name(sorted, entry);
    if sorted.len() == 0 {
    } else if lex_le(sort_key(entry), sort_key(sorted[0])) {
        assert forall|i: int, j: int| 0 <= i < j < result.len() implies lex_le(
            sort_key(#[trigger] result[i]),
            sort_key(#[trigger] result[j]),
        ) by {
            if i == 0 {
                if j > 1 {
                    assert(lex_le(sort_key(sorted[0]), sort_key(sorted[j - 1])));
                } else {
                    lemma_lex_le_total(sort_key(sorted[0]), sort_key(sorted[0]));
                }
                lemma_lex_le_transitive(
                    sort_key(entry),
                    sort_key(sorted[0]),
                    sort_key(sorted[j - 1]),
                );
            } else {
                assert(lex_le(sort_key(sorted[i - 1]), sort_key(sorted[j - 1])));
            }
        }
    } else {
        let rest = sorted.drop_first();
        assert(sorted_by_name(rest)) by {
            assert forall|i: int, j: int| 0 <= i < j < rest.len() implies lex_le(
                sort_key(#[trigger] rest[i]),
                sort_key(#[trigger] rest[j]),
            ) by {
                assert(lex_le(sort_key(sorted[i + 1]), sort_key(sorted[j + 1])));
            }
        }
        lemma_insert_sorted(rest, entry);
        lemma_insert_permutes(rest, entry);
        let inner = insert_by_name(rest, entry);
        lemma_lex_le_total(sort_key(entry), sort_key(sorted[0]));
        assert forall|i: int, j: int| 0 <= i < j < result.len() implies lex_le(
            sort_key(#[trigger] result[i]),
            sort_key(#[trigger] result[j]),
        ) by {
            if i == 0 {
                lemma_inserted_member(rest, entry, j - 1);
                if inner[j - 1] == entry {
                } else {
                    let k = choose|k: int| 0 <= k < rest.len() && rest[k] == inner[j - 1];
                    assert(lex_le(sort_key(sorted[0]), sort_key(sorted[k + 1])));
                }
            } else {
                assert(lex_le(sort_key(inner[i - 1]), sort_key(inner[j - 1])));
            }
        }
    }
}

/// Sorted entries are sorted.
pub proof fn lemma_sort_sorted(entries: Seq<EntryModel>)
    ensures
        sorted_by_name(sort_by_name(entries)),
    decreases entries.len(),
{
    if entries.len() != 0 {
        lemma_sort_sorted(entries.drop_first());
        lemma_insert_sorted(sort_by_name(entries.drop_first()), entries[0]);
    }
}

/// To insert an entry is to merge with it.
pub proof fn lemma_insert_is_merge(sorted: Seq<EntryModel>, entry: EntryModel)
    ensures
        insert_by_name(sorted, entry) == merge_by_name(seq![entry], sorted),
    decreases sorted.len(),
{
    let one = seq![entry];
    assert(one.drop_first() == Seq::<EntryModel>::empty());
    if sorted.len() == 0 {
        assert(one + sorted == one);
    } else if lex_le(sort_key(entry), sort_key(sorted[0])) {
        assert(merge_by_name(Seq::<EntryModel>::empty(), sorted) == sorted);
    } else {
        lemma_insert_is_merge(sorted.drop_first(), entry);
    }
}

/// An entry may be inserted before or after a merge.
pub proof fn lemma_insert_merge(a: Seq<EntryModel>, b: Seq<EntryModel>, entry: EntryModel)
    ensures
        insert_by_name(merge_by_name(a, b), entry) == merge_by_name(insert_by_name(a, entry), b),
    decreases a.len() + b.len(),
{
    let key = sort_key(entry);
    if a.len() == 0 {
        lemma_insert_is_merge(b, entry);
    } else if b.len() == 0 {
        lemma_insert_permutes(a, entry);
    } else if lex_le(sort_key(a[0]), sort_key(b[0])) {
        if lex_le(key, sort_key(a[0])) {
            lemma_lex_le_transitive(key, sort_key(a[0]), sort_key(b[0]));
            let left = seq![entry] + a;
            assert(left.drop_first() == a);
        } else {
            lemma_insert_merge(a.drop_first(), b, entry);
            let left = seq![a[0]] + insert_by_name(a.drop_first(), entry);
            assert(left.drop_first() == insert_by_name(a.drop_first(), entry));
            let merged = seq![a[0]] + merge_by_name(a.drop_first(), b);
            assert(merged.drop_first() == merge_by_name(a.drop_first(), b));
        }
    } else {
        lemma_lex_le_total(sort_key(a[0]), sort_key(b[0]));
        let merged = seq![b[0]] + merge_by_name(a, b.drop_first());
        assert(merged.drop_first() == merge_by_name(a, b.drop_first()));
        if lex_le(key, sort_key(b[0])) {
            lemma_lex_le_transitive(key, sort_key(b[0]), sort_key(a[0]));
            let left = seq![entry] + a;
            assert(left.drop_first() == a);
        } else {
            lemma_insert_merge(a, b.drop_first(), entry);
            lemma_insert_permutes(a, entry);
            let left = insert_by_name(a, entry);
            if lex_le(key, sort_key(a[0])) {
                assert(left[0] == entry);
            } else {
                assert(left[0] == a[0]);
            }
        }
    }
}

/// To sort two listings in a row is to sort each and to merge them.
pub proof fn lemma_sort_concat(a: Seq<EntryModel>, b: Seq<EntryModel>)
    ensures
        sort_by_name(a + b) == merge_by_name(sort_by_name(a), sort_by_name(b)),
    decreases a.len(),
{
    if a.len() == 0 {
        assert(a + b == b);
    } else {
        assert((a + b).drop_first() == a.drop_first() + b);
        lemma_sort_concat(a.drop_first(), b);
        lemma_insert_merge(sort_by_name(a.drop_first()), sort_by_name(b), a[0]);
    }
}

/// Whether `a` comes before `b`, or is `b`, in the byte-wise lexicographic order.
pub fn bytes_le(a: &[u8], b: &[u8]) -> (le: bool)
    ensures
        le == lex_le(a@, b@),
{
    let mut i: usize = 0;
    assert(a@.skip(0) == a@ && b@.skip(0) == b@);
    while i < a.len() && i < b.len()
        invariant
            i <= a@.len(),
            i <= b@.len(),
            lex_le(a@, b@) == lex_le(a@.skip(i as int), b@.skip(i as int)),
        decreases a@.len() - i,
    {
        let ghost ra = a@.skip(i as int);
        let ghost rb = b@.skip(i as int);
        assert(ra[0] == a@[i as int] && rb[0] == b@[i as int]);
        if a[i] != b[i] {
            return a[i] < b[i];
        }
        assert(ra.drop_first() == a@.skip(i + 1));
        assert(rb.drop_first() == b@.skip(i + 1));
        i += 1;
    }
    i == a.len()
}

/// The entries in reverse order.
fn reverse_entries(entries: Vec<TreeEntry>) -> (reversed: Vec<TreeEntry>)
    ensures
        reversed@ == entries@.reverse(),
{
    let ghost all = entries@;
    let mut entries = entries;
    let mut reversed: Vec<TreeEntry> = Vec::new();
    while entries.len() > 0
        invariant
            entries@.len() <= all.len(),
            entries@ == all.take(entries@.len() as int),
            reversed@.len() == all.len() - entries@.len(),
            forall|k: int| 0 <= k < reversed@.len() ==> reversed@[k] == all[all.len() - 1 - k],
        decreases entries@.len(),
    {
        let entry = entries.pop().unwrap();
        reversed.push(entry);
    }
    reversed
}

/// Two sorted listings as one.
fn merge_entries(a: Vec<TreeEntry>, b: Vec<TreeEntry>) -> (merged: Vec<TreeEntry>)
    ensures
        entries_model(merged@) == merge_by_name(entries_model(a@), entries_model(b@)),
{
    let ghost goal = merge_by_name(entries_model(a@), entries_model(b@));
    // the next entry of each listing stands at the end of its reverse
    let mut left = reverse_entries(a);
    let mut right = reverse_entries(b);
    let mut merged: Vec<TreeEntry> = Vec::new();
    assert(entries_model(left@.reverse()) == entries_model(a@));
    assert(entries_model(right@.reverse()) == entries_model(b@));
    while left.len() > 0 && right.len() > 0
        invariant
            goal == entries_model(merged@) + merge_by_name(
                entries_model(left@.reverse()),
                entries_model(right@.reverse()),
            ),
        decreases left@.len() + right@.len(),
    {
        let ghost l = entries_model(left@.reverse());
        let ghost r = entries_model(right@.reverse());
        assert(l[0] == entry_model(left@[left@.len() - 1]));
        let from_left = bytes_le(
            left[left.len() - 1].name.as_str().as_bytes(),
            right[right.len() - 1].name.as_str().as_bytes(),
        );
        let entry = if from_left {
            left.pop().unwrap()
        } else {
            right.pop().unwrap()
        };
        merged.push(entry);
        proof {
            assert(entries_model(left@.reverse()) == if from_left {
                l.drop_first()
            } else {
                l
            });
            assert(entries_model(right@.reverse()) == if from_left {
                r
            } else {
                r.drop_first()
            });
        }
    }
    while left.len() > 0
        invariant
            right@.len() == 0 || left@.len() == 0,
            goal == entries_model(merged@) + merge_by_name(
                entries_model(left@.reverse()),
                entries_model(right@.reverse()),
            ),
        decreases left@.len(),
    {
        let ghost done = entries_model(merged@);
        let ghost l = entries_model(left@.reverse());
        assert(l[0] == entry_model(left@[left@.len() - 1]));
        let entry = left.pop().unwrap();
        merged.push(entry);
        proof {
            assert(done + l == done.push(l[0]) + l.drop_first());
        }
    }
    while right.len() > 0
        invariant
            left@.len() == 0,
            goal == entries_model(merged@) + merge_by_name(
                entries_model(left@.reverse()),
                entries_model(right@.reverse()),
            ),
        decreases right@.len(),
    {
        let ghost done = entries_model(merged@);
        let ghost r = entries_model(right@.reverse());
        assert(r[0] == entry_model(right@[right@.len() - 1]));
        let entry = right.pop().unwrap();
        merged.push(entry);
        proof {
            assert(done + r == done.push(r[0]) + r.drop_first());
        }
    }
    merged
}

/// The entries in the order of their names.
pub(crate) fn sort_entries(entries: Vec<TreeEntry>) -> (sorted: Vec<TreeEntry>)
    ensures
        entries_model(sorted@) == sort_by_name(entries_model(entries@)),
    decreases entries@.len(),
{
    let ghost all = entries_model(entries@);
    let count = entries.len();
    if count <= 1 {
        proof {
            if count == 1 {
                assert(sort_by_name(all.drop_first()) == Seq::<EntryModel>::empty());
            }
        }
        return entries;
    }
    let mut first = entries;
    let second = first.split_off(count / 2);
    proof {
        assert(all == entries_model(first@) + entries_model(second@));
        lemma_sort_concat(entries_model(first@), entries_model(second@));
    }
    let first = sort_entries(first);
    let second = sort_entries(second);
    merge_entries(first, second)
}

} // verus!
