//! Choosing which cards to offer the player after they clear an encounter.

use vstd::prelude::*;
use rand::rngs::StdRng;
use crate::random::shuffle;
use crate::run_deck::string_views;

verus! {

/// `a` comes no later than `b` in the order std gives strings: lexicographic
/// by bytes, which for UTF-8 text is lexicographic by character code.
pub open spec fn text_le(a: Seq<char>, b: Seq<char>) -> bool
    decreases a.len(),
{
    if a.len() == 0 {
        true
    } else if b.len() == 0 {
        false
    } else if a[0] != b[0] {
        (a[0] as u32) < (b[0] as u32)
    } else {
        text_le(a.drop_first(), b.drop_first())
    }
}

/// Sorts `ids` in place with `slice::sort`, which std documents as a sort
/// into ascending order. Claimed: the same ids come back, in that order.
#[verifier::external_body]
fn sort_ids(ids: &mut Vec<String>)
    ensures
        final(ids)@.len() == old(ids)@.len(),
        final(ids)@.to_multiset() == old(ids)@.to_multiset(),
        forall|i: int, j: int| 0 <= i < j < final(ids)@.len() ==> text_le(final(ids)@[i]@, final(ids)@[j]@),
{
    ids.sort();
}

fn copy_strings(from: &[String]) -> (copy: Vec<String>)
    ensures
        copy@ == from@,
{
    let mut copy: Vec<String> = Vec::new();
    let mut i: usize = 0;
    while i < from.len()
        invariant
            i <= from@.len(),
            copy@ == from@.take(i as int),
        decreases from@.len() - i,
    {
        copy.push(from[i].clone());
        proof {
            assert(from@.take(i + 1) =~= from@.take(i as int).push(from@[i as int]));
        }
        i += 1;
    }
    proof {
        assert(from@.take(from@.len() as int) =~= from@);
    }
    copy
}

fn holds_id(ids: &Vec<String>, id: &String) -> (found: bool)
    ensures
        found == string_views(ids@).contains(id@),
{
    let mut k: usize = 0;
    while k < ids.len()
        invariant
            k <= ids@.len(),
            forall|q: int| 0 <= q < k ==> ids@[q]@ != id@,
        decreases ids@.len() - k,
    {
        if ids[k] == *id {
            assert(string_views(ids@)[k as int] == id@);
            return true;
        }
        k += 1;
    }
    false
}

/// The first copy of each id, in order.
fn first_of_each(ids: &Vec<String>) -> (distinct: Vec<String>)
    ensures
        string_views(distinct@).no_duplicates(),
        forall|v: Seq<char>| #[trigger] string_views(distinct@).contains(v) <==> string_views(ids@).contains(v),
{
    let mut distinct: Vec<String> = Vec::new();
    let mut i: usize = 0;
    while i < ids.len()
        invariant
            i <= ids@.len(),
            string_views(distinct@).no_duplicates(),
            forall|v: Seq<char>|
                #[trigger] string_views(distinct@).contains(v) <==> string_views(ids@.take(i as int)).contains(v),
        decreases ids@.len() - i,
    {
        let ghost before = distinct@;
        let ghost seen = string_views(ids@.take(i as int));
        let ghost x = ids@[i as int]@;
        assert(string_views(ids@.take(i + 1)) =~= seen.push(x));
        if !holds_id(&distinct, &ids[i]) {
            distinct.push(ids[i].clone());
            assert(string_views(distinct@) =~= string_views(before).push(x));
            assert forall|v: Seq<char>| #[trigger] string_views(distinct@).contains(v) <==> seen.push(x).contains(v) by {
                if v == x {
                    assert(string_views(distinct@)[before.len() as int] == x);
                    assert(seen.push(x)[seen.len() as int] == x);
                } else {
                    if string_views(distinct@).contains(v) {
                        let k = string_views(distinct@).index_of(v);
                        assert(string_views(before)[k] == v);
                    }
                    if seen.push(x).contains(v) {
                        let k = seen.push(x).index_of(v);
                        assert(seen[k] == v);
                    }
                    if string_views(before).contains(v) {
                        let k = string_views(before).index_of(v);
                        assert(string_views(distinct@)[k] == v);
                    }
                    if seen.contains(v) {
                        let k = seen.index_of(v);
                        assert(seen.push(x)[k] == v);
                    }
                }
            }
        } else {
            assert forall|v: Seq<char>| #[trigger] string_views(distinct@).contains(v) <==> seen.push(x).contains(v) by {
                if seen.push(x).contains(v) {
                    let k = seen.push(x).index_of(v);
                    if k < seen.len() {
                        assert(seen[k] == v);
                    }
                }
                if seen.contains(v) {
                    let k = seen.index_of(v);
                    assert(seen.push(x)[k] == v);
                }
            }
        }
        i += 1;
    }
    assert(ids@.take(ids@.len() as int) =~= ids@);
    distinct
}

/// The same strings, rearranged, hold the same ids.
proof fn lemma_rearranged_ids(s: Seq<String>, t: Seq<String>)
    requires
        s.to_multiset() == t.to_multiset(),
    ensures
        forall|v: Seq<char>| #[trigger] string_views(s).contains(v) <==> string_views(t).contains(v),
{
    broadcast use vstd::seq_lib::group_to_multiset_ensures;
    assert forall|v: Seq<char>| #[trigger] string_views(s).contains(v) implies string_views(t).contains(v) by {
        let p = string_views(s).index_of(v);
        s.to_multiset_ensures();
        t.to_multiset_ensures();
        assert(s.contains(s[p]));
        assert(s.to_multiset().count(s[p]) > 0);
        assert(t.to_multiset().count(s[p]) > 0);
        assert(t.contains(s[p]));
        let q = t.index_of(s[p]);
        assert(string_views(t)[q] == v);
    }
    assert forall|v: Seq<char>| #[trigger] string_views(t).contains(v) implies string_views(s).contains(v) by {
        let p = string_views(t).index_of(v);
        s.to_multiset_ensures();
        t.to_multiset_ensures();
        assert(t.contains(t[p]));
        assert(t.to_multiset().count(t[p]) > 0);
        assert(s.to_multiset().count(t[p]) > 0);
        assert(s.contains(t[p]));
        let q = s.index_of(t[p]);
        assert(string_views(s)[q] == v);
    }
}

/// Rearranging strings whose ids are all different keeps them all different.
proof fn lemma_rearranged_distinct(s: Seq<String>, t: Seq<String>)
    requires
        s.to_multiset() == t.to_multiset(),
        string_views(s).no_duplicates(),
    ensures
        string_views(t).no_duplicates(),
{
    broadcast use vstd::seq_lib::group_to_multiset_ensures;
    assert(s.no_duplicates()) by {
        assert forall|i: int, j: int| 0 <= i < s.len() && 0 <= j < s.len() && i != j implies s[i] != s[j] by {
            assert(string_views(s)[i] != string_views(s)[j]);
        }
    }
    s.lemma_multiset_has_no_duplicates();
    t.lemma_multiset_has_no_duplicates_conv();
    assert forall|i: int, j: int| 0 <= i < t.len() && 0 <= j < t.len() && i != j implies string_views(t)[i]
        != string_views(t)[j] by {
        assert(t[i] != t[j]);
        s.to_multiset_ensures();
        t.to_multiset_ensures();
        assert(t.contains(t[i]) && t.contains(t[j]));
        assert(t.to_multiset().count(t[i]) > 0 && t.to_multiset().count(t[j]) > 0);
        assert(s.contains(t[i]));
        assert(s.contains(t[j]));
        let p = s.index_of(t[i]);
        let q = s.index_of(t[j]);
        assert(p != q);
        assert(string_views(s)[p] != string_views(s)[q]);
    }
}

/// How many different ids `ids` holds.
pub open spec fn distinct_count(ids: Seq<Seq<char>>) -> nat {
    ids.to_set().len()
}

/// Picks up to `count` distinct cards from `pool` to offer as a reward.
///
/// Distinct within a single offer, so the player never chooses between three
/// copies of the same card. A pool smaller than `count` yields a shorter offer
/// rather than padding it with repeats.
pub fn offer_from_pool(pool: &[String], count: usize, rng: &mut StdRng) -> (offer: Vec<String>)
    ensures
        string_views(offer@).no_duplicates(),
        forall|k: int| 0 <= k < offer@.len() ==> string_views(pool@).contains(#[trigger] offer@[k]@),
        offer@.len() == if count < distinct_count(string_views(pool@)) {
            count as nat
        } else {
            distinct_count(string_views(pool@))
        },
{
    let mut candidates = copy_strings(pool);
    let ghost copied = candidates@;
    sort_ids(&mut candidates);
    proof {
        lemma_rearranged_ids(copied, candidates@);
    }
    let mut distinct = first_of_each(&candidates);
    let ghost before_shuffle = distinct@;
    shuffle(&mut distinct, rng);
    proof {
        lemma_rearranged_ids(before_shuffle, distinct@);
        lemma_rearranged_distinct(before_shuffle, distinct@);
        assert(string_views(distinct@).to_set() =~= string_views(pool@).to_set()) by {
            assert forall|v: Seq<char>| string_views(distinct@).to_set().contains(v) <==> string_views(pool@).to_set().contains(v) by {
                assert(string_views(distinct@).contains(v) <==> string_views(before_shuffle).contains(v));
            }
        }
        string_views(distinct@).unique_seq_to_set();
    }
    let ghost full = distinct@;
    distinct.truncate(count);
    proof {
        assert forall|k: int| 0 <= k < distinct@.len() implies string_views(pool@).contains(#[trigger] distinct@[k]@) by {
            assert(distinct@[k] == full[k]);
            assert(string_views(full)[k] == distinct@[k]@);
            let v = distinct@[k]@;
            assert(string_views(full).contains(v));
            assert(string_views(before_shuffle).contains(v));
            assert(string_views(candidates@).contains(v));
            assert(string_views(copied).contains(v));
            assert(copied == pool@);
        }
        assert(string_views(distinct@) =~= string_views(full).take(distinct@.len() as int));
    }
    distinct
}

} // verus!
