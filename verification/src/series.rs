//! Natural merge sort on sequences of records: series, the dealing of a
//! sequence onto two tapes, the merge of two tapes, and why repeating the
//! two sorts a sequence.

use vstd::prelude::*;
use crate::record::Record;

verus! {

/// How many records of `s` are below the record before them.
pub open spec fn descents<T: Record>(s: Seq<T>) -> nat
    decreases s.len(),
{
    if s.len() < 2 {
        0
    } else {
        descents(s.drop_last()) + if s[s.len() - 1].order_key() < s[s.len() - 2].order_key() {
            1nat
        } else {
            0nat
        }
    }
}

/// How many series `s` is made of: maximal runs in which no record is below
/// the one before it. The empty sequence counts as one series.
pub open spec fn series_count<T: Record>(s: Seq<T>) -> nat {
    1 + descents(s)
}

/// No record is below an earlier one.
pub open spec fn is_sorted<T: Record>(s: Seq<T>) -> bool {
    forall|i: int, j: int| 0 <= i <= j < s.len() ==> s[i].order_key() <= s[j].order_key()
}

/// The two tapes that `s` is dealt onto: each record goes to the first tape
/// where it belongs to a series of even number, counted from one, and to
/// the second tape otherwise.
pub open spec fn dealt<T: Record>(s: Seq<T>) -> (Seq<T>, Seq<T>)
    decreases s.len(),
{
    if s.len() == 0 {
        (Seq::empty(), Seq::empty())
    } else {
        let before = dealt(s.drop_last());
        if series_count(s) % 2 == 0 {
            (before.0.push(s.last()), before.1)
        } else {
            (before.0, before.1.push(s.last()))
        }
    }
}

/// Whether a record with sort key `key` may continue a series whose last
/// record has key `floor`.
pub open spec fn continues(key: nat, floor: Option<nat>) -> bool {
    match floor {
        Some(f) => key >= f,
        None => true,
    }
}

/// Whether the merge takes its next record from `a` rather than from `b`:
/// the lesser head among those that continue the series, the lesser head of
/// all where none does, and the head of `a` where the two are equal.
pub open spec fn takes_first<T: Record>(a: Seq<T>, b: Seq<T>, floor: Option<nat>) -> bool {
    if a.len() == 0 {
        false
    } else if b.len() == 0 {
        true
    } else {
        let x = a[0].order_key();
        let y = b[0].order_key();
        if continues(x, floor) == continues(y, floor) {
            x <= y
        } else {
            continues(x, floor)
        }
    }
}

/// The merge of two tapes behind a series that ended with key `floor`.
pub open spec fn merged<T: Record>(a: Seq<T>, b: Seq<T>, floor: Option<nat>) -> Seq<T>
    decreases a.len() + b.len(),
{
    if a.len() == 0 && b.len() == 0 {
        Seq::empty()
    } else if takes_first(a, b, floor) {
        seq![a[0]] + merged(a.drop_first(), b, Some(a[0].order_key()))
    } else {
        seq![b[0]] + merged(a, b.drop_first(), Some(b[0].order_key()))
    }
}

/// One round of the sort: deal, then merge.
pub open spec fn pass<T: Record>(s: Seq<T>) -> Seq<T> {
    merged(dealt(s).0, dealt(s).1, None)
}

/// A sequence has fewer descents than records.
pub proof fn lemma_descents_bound<T: Record>(s: Seq<T>)
    ensures
        s.len() > 0 ==> descents(s) < s.len(),
        s.len() == 0 ==> descents(s) == 0,
    decreases s.len(),
{
    if s.len() >= 2 {
        lemma_descents_bound(s.drop_last());
    }
}

/// A sequence without descents is sorted.
pub proof fn lemma_no_descents_sorted<T: Record>(s: Seq<T>)
    requires
        descents(s) == 0,
    ensures
        is_sorted(s),
    decreases s.len(),
{
    if s.len() >= 2 {
        let front = s.drop_last();
        lemma_no_descents_sorted(front);
        assert forall|i: int, j: int| 0 <= i <= j < s.len() implies s[i].order_key()
            <= s[j].order_key() by {
            if j == s.len() - 1 && i < j {
                assert(front[i].order_key() <= front[s.len() - 2].order_key());
            } else if i < j {
                assert(front[i].order_key() <= front[j].order_key());
            }
        }
    }
}

/// The descents of a sequence with one record put in front.
pub proof fn lemma_descents_front<T: Record>(x: T, s: Seq<T>)
    ensures
        descents(seq![x] + s) == descents(s) + if s.len() > 0 && s[0].order_key()
            < x.order_key() {
            1nat
        } else {
            0nat
        },
    decreases s.len(),
{
    let whole = seq![x] + s;
    if s.len() == 0 {
    } else if s.len() == 1 {
        assert(whole.drop_last() =~= seq![x]);
        assert(descents(whole.drop_last()) == 0);
    } else {
        lemma_descents_front(x, s.drop_last());
        assert(whole.drop_last() =~= seq![x] + s.drop_last());
        assert(whole[whole.len() - 1] == s[s.len() - 1]);
        assert(whole[whole.len() - 2] == s[s.len() - 2]);
    }
}

/// What dealing keeps: every record lands on one tape; where a sequence
/// has a record, the tape that took the last one ends with it; a sequence
/// of one series goes to the second tape whole; and the descents left on
/// the tapes are fewer than those of the sequence, if it has any.
pub proof fn lemma_dealt<T: Record>(s: Seq<T>)
    ensures
        dealt(s).0.len() + dealt(s).1.len() == s.len(),
        s.to_multiset() == dealt(s).0.to_multiset().add(dealt(s).1.to_multiset()),
        s.len() > 0 && series_count(s) % 2 == 0 ==> dealt(s).0.len() > 0 && dealt(s).0.last()
            == s.last(),
        s.len() > 0 && series_count(s) % 2 != 0 ==> dealt(s).1.len() > 0 && dealt(s).1.last()
            == s.last(),
        descents(s) == 0 ==> dealt(s).0.len() == 0 && dealt(s).1 == s,
        descents(s) > 0 ==> descents(dealt(s).0) + descents(dealt(s).1) < descents(s),
    decreases s.len(),
{
    broadcast use vstd::seq_lib::group_to_multiset_ensures;
    if s.len() == 0 {
        assert(dealt(s).1 =~= s);
    } else {
        let front = s.drop_last();
        let r = s.last();
        lemma_dealt(front);
        lemma_descents_bound(front);
        let before = dealt(front);
        let after = dealt(s);
        assert(s =~= front.push(r));
        if series_count(s) % 2 == 0 {
            assert(after.0.drop_last() =~= before.0);
        } else {
            assert(after.1.drop_last() =~= before.1);
            if descents(s) == 0 {
                assert(after.1 =~= s);
            }
        }
        if front.len() > 0 {
            if !(r.order_key() < front.last().order_key()) {
                assert(series_count(s) == series_count(front));
            } else {
                assert(series_count(s) == series_count(front) + 1);
            }
        }
    }
}

/// What merging keeps: every record of the two tapes, once.
pub proof fn lemma_merged_multiset<T: Record>(a: Seq<T>, b: Seq<T>, floor: Option<nat>)
    ensures
        merged(a, b, floor).len() == a.len() + b.len(),
        merged(a, b, floor).to_multiset() == a.to_multiset().add(b.to_multiset()),
    decreases a.len() + b.len(),
{
    broadcast use vstd::seq_lib::group_to_multiset_ensures;
    if a.len() == 0 && b.len() == 0 {
        assert(merged(a, b, floor).to_multiset() =~= a.to_multiset().add(b.to_multiset()));
    } else if takes_first(a, b, floor) {
        let rest = merged(a.drop_first(), b, Some(a[0].order_key()));
        lemma_merged_multiset(a.drop_first(), b, Some(a[0].order_key()));
        lemma_cons_multiset(a[0], rest);
        lemma_cons_multiset(a[0], a.drop_first());
        assert(seq![a[0]] + a.drop_first() =~= a);
        assert(merged(a, b, floor).to_multiset() =~= a.to_multiset().add(b.to_multiset()));
    } else {
        let rest = merged(a, b.drop_first(), Some(b[0].order_key()));
        lemma_merged_multiset(a, b.drop_first(), Some(b[0].order_key()));
        lemma_cons_multiset(b[0], rest);
        lemma_cons_multiset(b[0], b.drop_first());
        assert(seq![b[0]] + b.drop_first() =~= b);
        assert(merged(a, b, floor).to_multiset() =~= a.to_multiset().add(b.to_multiset()));
    }
}

/// The records of a sequence with one put in front.
pub proof fn lemma_cons_multiset<T>(x: T, s: Seq<T>)
    ensures
        (seq![x] + s).to_multiset() == s.to_multiset().insert(x),
{
    broadcast use vstd::seq_lib::group_to_multiset_ensures;
    vstd::seq_lib::lemma_multiset_commutative(seq![x], s);
    assert(seq![x] =~= Seq::<T>::empty().push(x));
    assert(seq![x].to_multiset() =~= vstd::multiset::Multiset::<T>::empty().insert(x));
    assert((seq![x] + s).to_multiset() =~= s.to_multiset().insert(x));
}

/// One if the head of `s` is below `floor`, else zero.
pub open spec fn breaks<T: Record>(s: Seq<T>, floor: Option<nat>) -> nat {
    if s.len() > 0 && !continues(s[0].order_key(), floor) {
        1
    } else {
        0
    }
}

/// The merge starts no more series than the two tapes hold between them.
pub proof fn lemma_merged_descents<T: Record>(a: Seq<T>, b: Seq<T>, floor: Option<nat>)
    ensures
        breaks(merged(a, b, floor), floor) + descents(merged(a, b, floor)) <= descents(a)
            + descents(b) + breaks(a, floor) + breaks(b, floor),
    decreases a.len() + b.len(),
{
    if a.len() == 0 && b.len() == 0 {
    } else if takes_first(a, b, floor) {
        let x = a[0];
        let rest = merged(a.drop_first(), b, Some(x.order_key()));
        lemma_merged_descents(a.drop_first(), b, Some(x.order_key()));
        lemma_descents_front(x, rest);
        lemma_descents_front(x, a.drop_first());
        assert(seq![x] + a.drop_first() =~= a);
        assert((seq![x] + rest)[0] == x);
    } else {
        let y = b[0];
        let rest = merged(a, b.drop_first(), Some(y.order_key()));
        lemma_merged_descents(a, b.drop_first(), Some(y.order_key()));
        lemma_descents_front(y, rest);
        lemma_descents_front(y, b.drop_first());
        assert(seq![y] + b.drop_first() =~= b);
        assert((seq![y] + rest)[0] == y);
    }
}

/// A round keeps the records and, unless the sequence is sorted already,
/// leaves fewer descents.
pub proof fn lemma_pass<T: Record>(s: Seq<T>)
    ensures
        pass(s).len() == s.len(),
        pass(s).to_multiset() == s.to_multiset(),
        descents(s) > 0 ==> descents(pass(s)) < descents(s),
        descents(s) == 0 ==> descents(pass(s)) == 0,
{
    lemma_dealt(s);
    lemma_merged_multiset(dealt(s).0, dealt(s).1, None);
    lemma_merged_descents(dealt(s).0, dealt(s).1, None);
    lemma_descents_bound(dealt(s).0);
}

/// What the sort makes of `s`: `s` itself once it has no descents, else
/// what it makes of `s` after one more round.
pub open spec fn settled<T: Record>(s: Seq<T>) -> Seq<T>
    decreases descents(s),
    when true
    via settled_decreases::<T>
{
    if descents(s) == 0 {
        s
    } else {
        settled(pass(s))
    }
}

#[via_fn]
proof fn settled_decreases<T: Record>(s: Seq<T>) {
    lemma_pass(s);
}

/// How many rounds the sort completes before the round that ends it.
pub open spec fn rounds<T: Record>(s: Seq<T>) -> nat
    decreases descents(s),
    when true
    via rounds_decreases::<T>
{
    if descents(s) == 0 || descents(pass(s)) == 0 {
        0
    } else {
        1 + rounds(pass(s))
    }
}

#[via_fn]
proof fn rounds_decreases<T: Record>(s: Seq<T>) {
    lemma_pass(s);
}

/// The sort yields a sorted sequence of the same records.
pub proof fn lemma_settled<T: Record>(s: Seq<T>)
    ensures
        is_sorted(settled(s)),
        descents(settled(s)) == 0,
        settled(s).len() == s.len(),
        settled(s).to_multiset() == s.to_multiset(),
        rounds(s) <= descents(s),
    decreases descents(s),
{
    if descents(s) == 0 {
        lemma_no_descents_sorted(s);
    } else {
        lemma_pass(s);
        lemma_settled(pass(s));
    }
}

} // verus!
