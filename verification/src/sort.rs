//! Stable sorting by a byte-sequence key.
//!
//! The catalog and the file listing both present their entries in a
//! total order while keeping the scan order among entries that compare
//! equal, because scan order is their precedence order. Insertion sort
//! gives exactly that: an element is placed after every element whose
//! key is less than or equal to its own.

use vstd::prelude::*;
use crate::text::{lex_le, lex_le_exec, lemma_lex_total};

verus! {

/// A sort key: every sortable entry projects to a byte sequence,
/// ordered lexicographically.
pub trait SortOrd: Sized {
    /// The key the entry sorts by.
    spec fn key(&self) -> Seq<u8>;

    /// Compare this entry's key with another's.
    fn key_le(&self, other: &Self) -> (r: bool)
        ensures
            r == lex_le(self.key(), other.key()),
    ;
}

/// `x` placed into `s` after every entry whose key is less than or
/// equal to its own.
pub open spec fn sorted_insert<T: SortOrd>(x: T, s: Seq<T>) -> Seq<T>
    decreases s.len(),
{
    if s.len() == 0 {
        seq![x]
    } else if lex_le(s[0].key(), x.key()) {
        seq![s[0]] + sorted_insert(x, s.drop_first())
    } else {
        seq![x] + s
    }
}

/// The stable sort of `s`: each entry inserted in turn, later entries
/// after earlier ones of equal key.
pub open spec fn stable_sort<T: SortOrd>(s: Seq<T>) -> Seq<T>
    decreases s.len(),
{
    if s.len() == 0 {
        Seq::empty()
    } else {
        sorted_insert(s.last(), stable_sort(s.drop_last()))
    }
}

/// Adjacent entries are in key order.
pub open spec fn sorted_by_key<T: SortOrd>(s: Seq<T>) -> bool {
    forall|i: int| 0 <= i < s.len() - 1 ==> lex_le(#[trigger] s[i].key(), s[i + 1].key())
}

/// Inserting into a sorted sequence keeps it sorted.
pub proof fn lemma_sorted_insert_sorted<T: SortOrd>(x: T, s: Seq<T>)
    requires
        sorted_by_key(s),
    ensures
        sorted_by_key(sorted_insert(x, s)),
    decreases s.len(),
{
    if s.len() == 0 {
    } else if lex_le(s[0].key(), x.key()) {
        assert(sorted_by_key(s.drop_first())) by {
            assert forall|i: int|
                0 <= i < s.drop_first().len() - 1 implies lex_le(
                #[trigger] s.drop_first()[i].key(),
                s.drop_first()[i + 1].key(),
            ) by {
                assert(s.drop_first()[i] == s[i + 1]);
                assert(s.drop_first()[i + 1] == s[i + 2]);
            }
        }
        lemma_sorted_insert_sorted(x, s.drop_first());
        let r = seq![s[0]] + sorted_insert(x, s.drop_first());
        let inner = sorted_insert(x, s.drop_first());
        assert forall|i: int| 0 <= i < r.len() - 1 implies lex_le(
            #[trigger] r[i].key(),
            r[i + 1].key(),
        ) by {
            if i == 0 {
                // the head is below both the old second entry and `x`
                if s.drop_first().len() == 0 {
                    assert(r[1] == x);
                } else if lex_le(s.drop_first()[0].key(), x.key()) {
                    assert(inner[0] == s.drop_first()[0]);
                    assert(r[1] == s[1]);
                } else {
                    assert(inner[0] == x);
                }
            } else {
                assert(r[i] == inner[i - 1]);
                assert(r[i + 1] == inner[i]);
            }
        }
    } else {
        lemma_lex_total(s[0].key(), x.key());
        let r = seq![x] + s;
        assert forall|i: int| 0 <= i < r.len() - 1 implies lex_le(
            #[trigger] r[i].key(),
            r[i + 1].key(),
        ) by {
            if i == 0 {
                assert(r[1] == s[0]);
            } else {
                assert(r[i] == s[i - 1]);
                assert(r[i + 1] == s[i]);
            }
        }
    }
}

/// The stable sort is sorted.
pub proof fn lemma_stable_sort_sorted<T: SortOrd>(s: Seq<T>)
    ensures
        sorted_by_key(stable_sort(s)),
    decreases s.len(),
{
    if s.len() > 0 {
        lemma_stable_sort_sorted(s.drop_last());
        lemma_sorted_insert_sorted(s.last(), stable_sort(s.drop_last()));
    }
}

/// Where the insertion lands: just before the first entry whose key is
/// above the new one.
proof fn lemma_sorted_insert_at<T: SortOrd>(x: T, s: Seq<T>, p: int)
    requires
        0 <= p <= s.len(),
        forall|j: int| 0 <= j < p ==> lex_le(#[trigger] s[j].key(), x.key()),
        p < s.len() ==> !lex_le(s[p].key(), x.key()),
    ensures
        sorted_insert(x, s) == s.subrange(0, p) + seq![x] + s.subrange(p, s.len() as int),
    decreases s.len(),
{
    if s.len() == 0 {
        assert(sorted_insert(x, s) =~= s.subrange(0, p) + seq![x] + s.subrange(
            p,
            s.len() as int,
        ));
    } else if p == 0 {
        assert(sorted_insert(x, s) =~= s.subrange(0, 0) + seq![x] + s.subrange(
            0,
            s.len() as int,
        ));
    } else {
        assert(lex_le(s[0].key(), x.key()));
        let t = s.drop_first();
        assert forall|j: int| 0 <= j < p - 1 implies lex_le(#[trigger] t[j].key(), x.key()) by {
            assert(t[j] == s[j + 1]);
        }
        assert(p - 1 < t.len() ==> !lex_le(t[p - 1].key(), x.key()));
        lemma_sorted_insert_at(x, t, p - 1);
        assert(sorted_insert(x, s) =~= s.subrange(0, p) + seq![x] + s.subrange(
            p,
            s.len() as int,
        ));
    }
}

/// Insert `x` into the sorted vector `out`, after every entry whose key
/// is less than or equal to its own.
pub fn insert_sorted<T: SortOrd>(out: &mut Vec<T>, x: T)
    ensures
        final(out)@ == sorted_insert(x, old(out)@),
{
    let mut p: usize = 0;
    while p < out.len() && out[p].key_le(&x)
        invariant
            0 <= p <= out@.len(),
            out@ == old(out)@,
            forall|j: int| 0 <= j < p ==> lex_le(#[trigger] out@[j].key(), x.key()),
        decreases out@.len() - p,
    {
        p = p + 1;
    }
    proof {
        lemma_sorted_insert_at(x, out@, p as int);
    }
    out.insert(p, x);
    proof {
        assert(final(out)@ =~= old(out)@.subrange(0, p as int) + seq![x] + old(out)@.subrange(
            p as int,
            old(out)@.len() as int,
        ));
    }
}

/// Sort `v` stably by key, as [`stable_sort`] describes.
pub fn sort_by_key<T: SortOrd>(v: Vec<T>) -> (r: Vec<T>)
    ensures
        r@ == stable_sort(v@),
{
    let ghost orig = v@;
    let mut src = v;
    let mut out: Vec<T> = Vec::new();
    let ghost mut k: int = 0;
    proof {
        assert(orig.subrange(0, 0) =~= Seq::<T>::empty());
        assert(out@ =~= stable_sort(orig.subrange(0, 0)));
        assert(src@ =~= orig.subrange(0, orig.len() as int));
    }
    while src.len() > 0
        invariant
            0 <= k <= orig.len(),
            src@ == orig.subrange(k, orig.len() as int),
            out@ == stable_sort(orig.subrange(0, k)),
        decreases src@.len(),
    {
        let x = src.remove(0);
        proof {
            assert(x == orig[k]);
        }
        insert_sorted(&mut out, x);
        proof {
            let p = orig.subrange(0, k);
            let p2 = orig.subrange(0, k + 1);
            assert(p2.drop_last() =~= p);
            assert(p2.last() == orig[k]);
            assert(out@ == stable_sort(p2));
            assert(src@ =~= orig.subrange(k + 1, orig.len() as int));
            k = k + 1;
        }
    }
    proof {
        assert(orig.subrange(0, orig.len() as int) =~= orig);
    }
    out
}

} // verus!
