//! The dictionary: an append-then-merge collection of translation records
//! with a first-wins dedup over `(english key, compound)` pairs.

use vstd::prelude::*;

use crate::pu::TokiPonaWord;
use crate::text::str_eq_str;
use crate::translation::Translation;

verus! {

/// The identity of a record for dedup purposes: weight and source tier are
/// deliberately not part of it.
pub open spec fn rec_pair(t: Translation) -> (Seq<char>, Seq<TokiPonaWord>) {
    (t.spec_english(), t.spec_compound())
}

pub open spec fn contains_pair(s: Seq<Translation>, p: (Seq<char>, Seq<TokiPonaWord>)) -> bool {
    exists|i: int| 0 <= i < s.len() && rec_pair(#[trigger] s[i]) == p
}

/// One dedup pass in accumulation order: a record is dropped exactly when an
/// earlier record has the same `(english, compound)` pair.
pub open spec fn dedup_first(s: Seq<Translation>) -> Seq<Translation>
    decreases s.len(),
{
    if s.len() == 0 {
        Seq::empty()
    } else {
        let prev = dedup_first(s.drop_last());
        if contains_pair(prev, rec_pair(s.last())) {
            prev
        } else {
            prev.push(s.last())
        }
    }
}

/// The set of `(english, compound)` pairs a record list holds.
pub open spec fn pair_set(s: Seq<Translation>) -> Set<(Seq<char>, Seq<TokiPonaWord>)> {
    s.map_values(|t: Translation| rec_pair(t)).to_set()
}

pub broadcast proof fn lemma_pair_set_contains(s: Seq<Translation>, p: (Seq<char>, Seq<TokiPonaWord>))
    ensures
        #[trigger] pair_set(s).contains(p) <==> contains_pair(s, p),
{
    broadcast use vstd::seq_lib::group_seq_properties;

    let mapped = s.map_values(|t: Translation| rec_pair(t));
    if contains_pair(s, p) {
        let i = choose|i: int| 0 <= i < s.len() && rec_pair(s[i]) == p;
        assert(mapped[i] == p);
        assert(mapped.contains(p));
    }
    if mapped.to_set().contains(p) {
        let i = choose|i: int| 0 <= i < mapped.len() && mapped[i] == p;
        assert(rec_pair(s[i]) == p);
    }
}

/// An accumulating collection of translation records.
pub struct Dictionary {
    pub entries: Vec<Translation>,
}

impl Dictionary {
    pub fn new() -> (r: Self)
        ensures
            r.entries@ =~= Seq::<Translation>::empty(),
    {
        Dictionary { entries: Vec::new() }
    }

    /// All records come from `pu` and have comparable compounds.
    pub open spec fn wf(&self, pu: crate::pu::Pu) -> bool {
        forall|i: int|
            0 <= i < self.entries@.len() ==> (#[trigger] self.entries@[i]).wf()
                && self.entries@[i].in_lexicon(pu)
    }

    /// Appends `other`'s records, then keeps, in accumulation order, each
    /// record whose `(english, compound)` pair was not seen before.
    pub fn merge_with(&mut self, other: Dictionary)
        ensures
            final(self).entries@ == dedup_first(old(self).entries@ + other.entries@),
    {
        let mut other = other;
        let ghost orig_other = other.entries@;
        self.entries.append(&mut other.entries);
        let ghost all = self.entries@;
        proof {
            assert(all == old(self).entries@ + orig_other);
        }
        let mut merged: Vec<Translation> = Vec::new();
        let ghost mut processed: int = 0;
        proof {
            assert(all.subrange(0, 0) =~= Seq::<Translation>::empty());
            assert(all.subrange(0, all.len() as int) =~= all);
        }
        while self.entries.len() > 0
            invariant
                0 <= processed <= all.len(),
                self.entries@ == all.subrange(processed, all.len() as int),
                merged@ == dedup_first(all.subrange(0, processed)),
            decreases self.entries@.len(),
        {
            let t = self.entries.remove(0);
            proof {
                assert(all.subrange(processed, all.len() as int)[0] == all[processed]);
                assert(all.subrange(processed, all.len() as int).remove(0) =~= all.subrange(
                    processed + 1,
                    all.len() as int,
                ));
                assert(all.subrange(0, processed + 1).drop_last() =~= all.subrange(0, processed));
                assert(all.subrange(0, processed + 1).last() == all[processed]);
            }
            if !contains_pair_exec(&merged, &t) {
                merged.push(t);
            }
            proof {
                processed = processed + 1;
            }
        }
        proof {
            assert(all.subrange(processed, all.len() as int).len() == 0);
        }
        self.entries = merged;
    }
}

/// Whether some record of `v` shares its `(english, compound)` pair with `t`.
fn contains_pair_exec(v: &Vec<Translation>, t: &Translation) -> (r: bool)
    ensures
        r == contains_pair(v@, rec_pair(*t)),
{
    let n = v.len();
    let mut i: usize = 0;
    while i < n
        invariant
            n == v@.len(),
            i <= n,
            forall|j: int| 0 <= j < i ==> rec_pair(#[trigger] v@[j]) != rec_pair(*t),
        decreases n - i,
    {
        if str_eq_str(v[i].english(), t.english()) && v[i].compound().same_words(t.compound()) {
            assert(rec_pair(v@[i as int]) == rec_pair(*t));
            return true;
        }
        i = i + 1;
    }
    false
}

/// Dedup keeps exactly the pairs that were present.
pub proof fn lemma_dedup_pairs(s: Seq<Translation>)
    ensures
        forall|p: (Seq<char>, Seq<TokiPonaWord>)|
            contains_pair(dedup_first(s), p) <==> contains_pair(s, p),
    decreases s.len(),
{
    if s.len() > 0 {
        let pre = s.drop_last();
        lemma_dedup_pairs(pre);
        let d = dedup_first(s);
        let dp = dedup_first(pre);
        assert forall|p: (Seq<char>, Seq<TokiPonaWord>)| contains_pair(d, p) implies contains_pair(
            s,
            p,
        ) by {
            let i = choose|i: int| 0 <= i < d.len() && rec_pair(#[trigger] d[i]) == p;
            if i < dp.len() {
                assert(d[i] == dp[i]);
                assert(contains_pair(dp, p)) by {
                    assert(rec_pair(dp[i]) == p);
                }
                assert(contains_pair(pre, p));
                let j = choose|j: int| 0 <= j < pre.len() && rec_pair(#[trigger] pre[j]) == p;
                assert(pre[j] == s[j]);
                assert(rec_pair(s[j]) == p);
            } else {
                assert(d[i] == s.last());
                assert(rec_pair(s[s.len() - 1]) == p);
            }
        }
        assert forall|p: (Seq<char>, Seq<TokiPonaWord>)| contains_pair(s, p) implies contains_pair(
            d,
            p,
        ) by {
            let i = choose|i: int| 0 <= i < s.len() && rec_pair(#[trigger] s[i]) == p;
            if i < s.len() - 1 {
                assert(pre[i] == s[i]);
                assert(contains_pair(pre, p)) by {
                    assert(rec_pair(pre[i]) == p);
                }
                assert(contains_pair(dp, p));
                let j = choose|j: int| 0 <= j < dp.len() && rec_pair(#[trigger] dp[j]) == p;
                assert(d[j] == dp[j]);
                assert(rec_pair(d[j]) == p);
            } else {
                if contains_pair(dp, rec_pair(s.last())) {
                    assert(contains_pair(dp, p));
                    let j = choose|j: int| 0 <= j < dp.len() && rec_pair(#[trigger] dp[j]) == p;
                    assert(d[j] == dp[j]);
                    assert(rec_pair(d[j]) == p);
                } else {
                    assert(d[d.len() - 1] == s.last());
                    assert(rec_pair(d[d.len() - 1]) == p);
                }
            }
        }
    }
}

/// A deduplicated record list never holds two records with an identical
/// `(english, compound)` pair.
pub proof fn lemma_dedup_unique(s: Seq<Translation>)
    ensures
        forall|i: int, j: int|
            0 <= i < j < dedup_first(s).len() ==> rec_pair(#[trigger] dedup_first(s)[i])
                != rec_pair(#[trigger] dedup_first(s)[j]),
    decreases s.len(),
{
    if s.len() > 0 {
        let pre = s.drop_last();
        lemma_dedup_unique(pre);
        let d = dedup_first(s);
        let dp = dedup_first(pre);
        if !contains_pair(dp, rec_pair(s.last())) {
            assert forall|i: int, j: int| 0 <= i < j < d.len() implies rec_pair(d[i]) != rec_pair(
                d[j],
            ) by {
                if j < d.len() - 1 {
                    assert(rec_pair(dp[i]) != rec_pair(dp[j]));
                } else {
                    assert(d[j] == s.last());
                    if rec_pair(d[i]) == rec_pair(s.last()) {
                        assert(rec_pair(dp[i]) == rec_pair(s.last()));
                        assert(contains_pair(dp, rec_pair(s.last())));
                    }
                }
            }
        }
    }
}

/// Record pairs of a concatenation come from one side or the other.
pub proof fn lemma_contains_pair_concat(
    a: Seq<Translation>,
    b: Seq<Translation>,
    p: (Seq<char>, Seq<TokiPonaWord>),
)
    ensures
        contains_pair(a + b, p) <==> contains_pair(a, p) || contains_pair(b, p),
{
    if contains_pair(a, p) {
        let i = choose|i: int| 0 <= i < a.len() && rec_pair(a[i]) == p;
        assert(rec_pair((a + b)[i]) == p);
    }
    if contains_pair(b, p) {
        let i = choose|i: int| 0 <= i < b.len() && rec_pair(b[i]) == p;
        assert(rec_pair((a + b)[a.len() + i]) == p);
    }
    if contains_pair(a + b, p) {
        let i = choose|i: int| 0 <= i < (a + b).len() && rec_pair((a + b)[i]) == p;
        if i < a.len() {
            assert(rec_pair(a[i]) == p);
        } else {
            assert(rec_pair(b[i - a.len()]) == p);
        }
    }
}

/// Merging two record lists in either order retains the same set of
/// `(english, compound)` pairs (though not the same weights or tiers: those
/// follow whichever record arrived first).
pub proof fn lemma_merge_pairs_commute(a: Seq<Translation>, b: Seq<Translation>)
    ensures
        pair_set(dedup_first(a + b)) == pair_set(dedup_first(b + a)),
{
    broadcast use lemma_pair_set_contains;

    lemma_dedup_pairs(a + b);
    lemma_dedup_pairs(b + a);
    assert forall|p: (Seq<char>, Seq<TokiPonaWord>)|
        pair_set(dedup_first(a + b)).contains(p) <==> pair_set(dedup_first(b + a)).contains(
        p,
    ) by {
        lemma_contains_pair_concat(a, b, p);
        lemma_contains_pair_concat(b, a, p);
    }
    assert(pair_set(dedup_first(a + b)) =~= pair_set(dedup_first(b + a)));
}

/// Every deduplicated record is one of the originals.
pub proof fn lemma_dedup_elements(s: Seq<Translation>)
    ensures
        forall|i: int|
            0 <= i < dedup_first(s).len() ==> exists|j: int|
                0 <= j < s.len() && #[trigger] dedup_first(s)[i] == s[j],
    decreases s.len(),
{
    if s.len() > 0 {
        let pre = s.drop_last();
        lemma_dedup_elements(pre);
        let d = dedup_first(s);
        let dp = dedup_first(pre);
        assert forall|i: int| 0 <= i < d.len() implies exists|j: int|
            0 <= j < s.len() && #[trigger] d[i] == s[j] by {
            if i < dp.len() {
                assert(d[i] == dp[i]);
                let j = choose|j: int| 0 <= j < pre.len() && dp[i] == pre[j];
                assert(d[i] == s[j]);
            } else {
                assert(d[i] == s[s.len() - 1]);
            }
        }
    }
}

/// Dedup keeps records comparable and bound to the lexicon.
pub proof fn lemma_dedup_wf(s: Seq<Translation>, pu: crate::pu::Pu)
    requires
        forall|j: int| 0 <= j < s.len() ==> (#[trigger] s[j]).wf() && s[j].in_lexicon(pu),
    ensures
        forall|i: int|
            0 <= i < dedup_first(s).len() ==> (#[trigger] dedup_first(s)[i]).wf() && dedup_first(
                s,
            )[i].in_lexicon(pu),
{
    lemma_dedup_elements(s);
    assert forall|i: int| 0 <= i < dedup_first(s).len() implies (
    #[trigger] dedup_first(s)[i]).wf() && dedup_first(s)[i].in_lexicon(pu) by {
        let j = choose|j: int| 0 <= j < s.len() && dedup_first(s)[i] == s[j];
        assert(s[j].wf() && s[j].in_lexicon(pu));
    }
}

/// A record list whose pairs are already unique is its own dedup, so the
/// merge pass is idempotent.
pub proof fn lemma_dedup_fixed_point(s: Seq<Translation>)
    requires
        forall|i: int, j: int|
            0 <= i < j < s.len() ==> rec_pair(#[trigger] s[i]) != rec_pair(#[trigger] s[j]),
    ensures
        dedup_first(s) == s,
    decreases s.len(),
{
    if s.len() > 0 {
        let pre = s.drop_last();
        assert(forall|i: int, j: int|
            0 <= i < j < pre.len() ==> rec_pair(#[trigger] pre[i]) != rec_pair(
                #[trigger] pre[j],
            )) by {
            assert(forall|i: int| 0 <= i < pre.len() ==> pre[i] == s[i]);
        }
        lemma_dedup_fixed_point(pre);
        assert(!contains_pair(pre, rec_pair(s.last()))) by {
            if contains_pair(pre, rec_pair(s.last())) {
                let i = choose|i: int|
                    0 <= i < pre.len() && rec_pair(#[trigger] pre[i]) == rec_pair(s.last());
                assert(rec_pair(s[i]) == rec_pair(s[s.len() - 1]));
            }
        }
        assert(dedup_first(s) =~= s);
    }
}

/// Deduplicating twice changes nothing beyond the first pass.
pub proof fn lemma_dedup_idempotent(s: Seq<Translation>)
    ensures
        dedup_first(dedup_first(s)) == dedup_first(s),
{
    lemma_dedup_unique(s);
    lemma_dedup_fixed_point(dedup_first(s));
}

} // verus!
