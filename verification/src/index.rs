//! The translation index: records sorted by trust tier and weight, a prefix
//! tree over English keys, and ranked lookup with similar-term expansion.

use vstd::multiset::Multiset;
use vstd::prelude::*;

use radix_trie::{Trie, TrieCommon};

use crate::dictionary::Dictionary;
use crate::pu::Pu;
use crate::translation::{tier_rank, tier_rank_exec, Translation, TranslationSource};

verus! {

#[verifier::external_type_specification]
#[verifier::external_body]
#[verifier::reject_recursive_types(K)]
#[verifier::reject_recursive_types(V)]
pub struct ExTrie<K, V>(Trie<K, V>);

/// The concrete trie instantiation the index uses: English key text to the
/// position of that key's posting list.
pub type KeyTrie = Trie<String, usize>;

/// The key-value map a trie holds, keys as character sequences.
pub uninterp spec fn trie_entries(t: KeyTrie) -> Map<Seq<char>, usize>;

/// The map of a trie with nothing in it.
pub open spec fn no_trie_entries() -> Map<Seq<char>, usize> {
    Map::empty()
}

/// Relies on `radix_trie::Trie::new`: a fresh trie maps nothing.
#[verifier::external_body]
fn trie_new() -> (r: KeyTrie)
    ensures
        trie_entries(r) == no_trie_entries(),
{
    Trie::new()
}

/// Relies on `radix_trie::Trie::get` with a `str` key, which encodes exactly
/// as the stored `String` keys do.
#[verifier::external_body]
fn trie_get(t: &KeyTrie, k: &str) -> (r: Option<usize>)
    ensures
        r == if trie_entries(*t).dom().contains(k@) {
            Some(trie_entries(*t)[k@])
        } else {
            None::<usize>
        },
{
    t.get(k).copied()
}

/// Relies on `radix_trie::Trie::insert`: adds the key or replaces its value,
/// returning the previous value.
#[verifier::external_body]
fn trie_insert(t: &mut KeyTrie, k: String, v: usize) -> (r: Option<usize>)
    ensures
        trie_entries(*final(t)) == trie_entries(*old(t)).insert(k@, v),
        r == if trie_entries(*old(t)).dom().contains(k@) {
            Some(trie_entries(*old(t))[k@])
        } else {
            None::<usize>
        },
{
    t.insert(k, v)
}

/// Relies on `radix_trie::Trie::get_raw_descendant` and the subtrie
/// iterator: the subtrie at a prefix holds exactly the trie's keys that
/// extend that prefix, each with its value, and `None` comes back only when
/// no key extends the prefix.
#[verifier::external_body]
fn trie_prefix_entries(t: &KeyTrie, prefix: &str) -> (r: Vec<(String, usize)>)
    ensures
        forall|i: int|
            0 <= i < r@.len() ==> trie_entries(*t).contains_pair(
                (#[trigger] r@[i]).0@,
                r@[i].1,
            ) && prefix@.is_prefix_of(r@[i].0@),
        forall|k: Seq<char>|
            trie_entries(*t).dom().contains(k) && #[trigger] prefix@.is_prefix_of(k) ==> exists|
                i: int,
            | 0 <= i < r@.len() && (#[trigger] r@[i]).0@ == k,
        forall|i: int, j: int| 0 <= i < j < r@.len() ==> (#[trigger] r@[i]).0@ != (#[trigger] r@[j]).0@,
{
    match t.get_raw_descendant(prefix) {
        None => Vec::new(),
        Some(sub) => sub.iter().map(|(k, v)| (k.clone(), *v)).collect(),
    }
}

/// Relies on `str::to_lowercase`: the result depends on the characters alone.
#[verifier::external_body]
fn to_lowercase_str(s: &str) -> (r: String)
    ensures
        r@ == lower_of(s@),
{
    s.to_lowercase()
}

pub uninterp spec fn lower_of(s: Seq<char>) -> Seq<char>;

/// The canonical rank order: more trusted tiers first, then higher weights.
pub open spec fn rank_le(a: Translation, b: Translation) -> bool {
    ||| tier_rank(a.spec_source()) < tier_rank(b.spec_source())
    ||| (tier_rank(a.spec_source()) == tier_rank(b.spec_source()) && a.spec_weight()
        >= b.spec_weight())
}

fn rank_le_exec(a: &Translation, b: &Translation) -> (r: bool)
    ensures
        r == rank_le(*a, *b),
{
    let ta = tier_rank_exec(a.source());
    let tb = tier_rank_exec(b.source());
    ta < tb || (ta == tb && a.weight() >= b.weight())
}

/// The position of a least record under the rank order.
fn min_rank_index(v: &Vec<Translation>) -> (mi: usize)
    requires
        v@.len() > 0,
    ensures
        mi < v@.len(),
        forall|l: int| 0 <= l < v@.len() ==> rank_le(v@[mi as int], #[trigger] v@[l]),
{
    let mut mi: usize = 0;
    let n = v.len();
    let mut idx: usize = 1;
    while idx < n
        invariant
            mi < idx <= n,
            n == v@.len(),
            forall|l: int| 0 <= l < idx ==> rank_le(v@[mi as int], #[trigger] v@[l]),
        decreases n - idx,
    {
        if !rank_le_exec(&v[mi], &v[idx]) {
            assert(rank_le(v@[idx as int], v@[mi as int]));
            assert forall|l: int| 0 <= l < idx + 1 implies rank_le(
                v@[idx as int],
                #[trigger] v@[l],
            ) by {
                if l < idx {
                    assert(rank_le(v@[mi as int], v@[l]));
                }
            }
            mi = idx;
        }
        idx = idx + 1;
    }
    mi
}

/// Selection sort into the canonical rank order. Ties may land in any order,
/// so only the multiset of records is promised to be preserved.
fn sort_records(input: Vec<Translation>) -> (r: Vec<Translation>)
    ensures
        r@.to_multiset() == input@.to_multiset(),
        r@.len() == input@.len(),
        forall|i: int, j: int| 0 <= i < j < r@.len() ==> rank_le(#[trigger] r@[i], #[trigger] r@[j]),
    decreases input@.len(),
{
    broadcast use vstd::seq_lib::group_to_multiset_ensures;

    let ghost orig = input@;
    let mut input = input;
    let mut out: Vec<Translation> = Vec::new();
    proof {
        assert(out@.to_multiset().add(input@.to_multiset()) =~= orig.to_multiset());
    }
    while input.len() > 0
        invariant
            out@.to_multiset().add(input@.to_multiset()) == orig.to_multiset(),
            out@.len() + input@.len() == orig.len(),
            forall|i: int, j: int|
                0 <= i < j < out@.len() ==> rank_le(#[trigger] out@[i], #[trigger] out@[j]),
            forall|i: int, l: int|
                0 <= i < out@.len() && 0 <= l < input@.len() ==> rank_le(
                    #[trigger] out@[i],
                    #[trigger] input@[l],
                ),
        decreases input@.len(),
    {
        broadcast use vstd::seq_lib::group_to_multiset_ensures;

        let ghost old_in = input@;
        let ghost old_out = out@;
        let mi = min_rank_index(&input);
        let x = input.remove(mi);
        out.push(x);
        proof {
            assert(old_in.contains(old_in[mi as int]));
            assert(old_in.to_multiset().count(x) > 0);
            assert(out@.to_multiset().add(input@.to_multiset()) =~= old_out.to_multiset().add(
                old_in.to_multiset(),
            ));
            assert(forall|l: int|
                0 <= l < input@.len() ==> #[trigger] input@[l] == if l < mi {
                    old_in[l]
                } else {
                    old_in[l + 1]
                });
            assert forall|i: int, l: int|
                0 <= i < out@.len() && 0 <= l < input@.len() implies rank_le(
                #[trigger] out@[i],
                #[trigger] input@[l],
            ) by {
                if i < old_out.len() {
                    assert(old_in.contains(input@[l]));
                } else {
                    assert(out@[i] == x);
                    if l < mi {
                        assert(rank_le(x, old_in[l]));
                    } else {
                        assert(rank_le(x, old_in[l + 1]));
                    }
                }
            }
        }
    }
    proof {
        assert(input@.to_multiset() =~= Multiset::<Translation>::empty());
        assert(out@.to_multiset() =~= orig.to_multiset());
    }
    out
}

/// One similar-translation entry of a lookup result.
pub struct ThesaurusResult {
    pub english: String,
    pub toki_pona_len: u64,
    pub toki_pona_string: String,
    pub dist: u64,
    pub source: TranslationSource,
}

/// One ranked lookup result with its similar-translation expansion.
pub struct Completion {
    pub english_search: String,
    pub entry_english: String,
    pub entry_weight: u32,
    pub original_translation_string: String,
    pub source: TranslationSource,
    pub similar: Vec<ThesaurusResult>,
}

/// The prefix-searchable translation index, immutable once built.
pub struct TokiSama {
    dictionary: Dictionary,
    posting_lists: Vec<Vec<usize>>,
    trie: KeyTrie,
}

impl TokiSama {
    /// The records in canonical rank order; positions are ranks.
    pub closed spec fn records(&self) -> Seq<Translation> {
        self.dictionary.entries@
    }

    /// The posting lists: position `v` lists the ranks of one key's records.
    pub closed spec fn lists(&self) -> Seq<Seq<usize>> {
        self.posting_lists@.map_values(|l: Vec<usize>| l@)
    }

    /// The prefix tree's map from key text to posting-list position.
    pub closed spec fn keys(&self) -> Map<Seq<char>, usize> {
        trie_entries(self.trie)
    }

    /// The index structure ties together: every key's posting list exists;
    /// distinct keys have distinct lists; every record's rank sits exactly in
    /// its own key's list, which is ordered by rank; and the records are
    /// sorted by trust tier first, weight second (the sort invariant).
    pub open spec fn wf(&self) -> bool {
        &&& (forall|k: Seq<char>|
            #[trigger] self.keys().dom().contains(k) ==> self.keys()[k] < self.lists().len())
        &&& (forall|k1: Seq<char>, k2: Seq<char>|
            #![trigger self.keys()[k1], self.keys()[k2]]
            self.keys().dom().contains(k1) && self.keys().dom().contains(k2) && k1 != k2
                ==> self.keys()[k1] != self.keys()[k2])
        &&& (forall|r: int|
            0 <= r < self.records().len() ==> self.keys().dom().contains(
                (#[trigger] self.records()[r]).spec_english(),
            ))
        &&& (forall|r: int|
            0 <= r < self.records().len() ==> self.lists()[self.keys()[(
            #[trigger] self.records()[r]).spec_english()] as int].contains(r as usize))
        &&& (forall|v: int, i: int|
            0 <= v < self.lists().len() && 0 <= i < self.lists()[v].len() ==> (
            #[trigger] self.lists()[v][i]) < self.records().len()
                && self.keys().dom().contains(
                self.records()[self.lists()[v][i] as int].spec_english(),
            ) && self.keys()[self.records()[self.lists()[v][i] as int].spec_english()] == v)
        &&& (forall|v: int, i: int, j: int|
            #![trigger self.lists()[v][i], self.lists()[v][j]]
            0 <= v < self.lists().len() && 0 <= i < j < self.lists()[v].len()
                ==> self.lists()[v][i] < self.lists()[v][j])
        &&& (forall|i: int, j: int|
            0 <= i < j < self.records().len() ==> rank_le(
                #[trigger] self.records()[i],
                #[trigger] self.records()[j],
            ))
    }

    /// Every record is comparable and speaks the given lexicon.
    pub open spec fn records_ok(&self, pu: Pu) -> bool {
        forall|r: int|
            0 <= r < self.records().len() ==> (#[trigger] self.records()[r]).wf()
                && self.records()[r].in_lexicon(pu)
    }

    /// Builds the index from a finalized dictionary: sorts the records into
    /// canonical rank order and maps each distinct English key to the
    /// rank-ordered posting list of its records.
    ///
    /// The ensured sort order is the load-bearing one: source tier first
    /// and, within a tier, descending weight; the record multiset is
    /// exactly the dictionary's.
    pub fn new(dictionary: Dictionary) -> (r: Self)
        ensures
            r.wf(),
            r.records().to_multiset() == dictionary.entries@.to_multiset(),
            r.records().len() == dictionary.entries@.len(),
            forall|i: int|
                0 <= i < r.records().len() ==> dictionary.entries@.contains(
                    #[trigger] r.records()[i],
                ),
    {
        broadcast use vstd::seq_lib::group_to_multiset_ensures;

        let ghost orig = dictionary.entries@;
        let entries = sort_records(dictionary.entries);
        proof {
            assert forall|i: int| 0 <= i < entries@.len() implies orig.contains(
                #[trigger] entries@[i],
            ) by {
                assert(entries@.contains(entries@[i]));
                assert(entries@.to_multiset().count(entries@[i]) > 0);
                assert(orig.to_multiset().count(entries@[i]) > 0);
            }
        }
        let n = entries.len();
        let mut trie = trie_new();
        let mut posting_lists: Vec<Vec<usize>> = Vec::new();
        let mut er: usize = 0;
        while er < n
            invariant
                er <= n,
                n == entries@.len(),
                forall|k: Seq<char>|
                    #[trigger] trie_entries(trie).dom().contains(k) ==> trie_entries(trie)[k]
                        < posting_lists@.len(),
                forall|k1: Seq<char>, k2: Seq<char>|
                    #![trigger trie_entries(trie)[k1], trie_entries(trie)[k2]]
                    trie_entries(trie).dom().contains(k1) && trie_entries(trie).dom().contains(k2)
                        && k1 != k2 ==> trie_entries(trie)[k1] != trie_entries(trie)[k2],
                forall|r: int|
                    0 <= r < er ==> trie_entries(trie).dom().contains(
                        (#[trigger] entries@[r]).spec_english(),
                    ),
                forall|r: int|
                    0 <= r < er ==> posting_lists@[trie_entries(trie)[(
                    #[trigger] entries@[r]).spec_english()] as int]@.contains(r as usize),
                forall|v: int, i: int|
                    0 <= v < posting_lists@.len() && 0 <= i < posting_lists@[v]@.len() ==> (
                    #[trigger] posting_lists@[v]@[i]) < er && trie_entries(trie).dom().contains(
                        entries@[posting_lists@[v]@[i] as int].spec_english(),
                    ) && trie_entries(trie)[entries@[posting_lists@[v]@[i] as int].spec_english()]
                        == v,
                forall|v: int, i: int, j: int|
                    #![trigger posting_lists@[v]@[i], posting_lists@[v]@[j]]
                    0 <= v < posting_lists@.len() && 0 <= i < j < posting_lists@[v]@.len()
                        ==> posting_lists@[v]@[i] < posting_lists@[v]@[j],
            decreases n - er,
        {
            let ghost old_trie = trie;
            let ghost old_pl = posting_lists@;
            let key = entries[er].english().to_owned();
            assert(key@ == entries@[er as int].spec_english());
            match trie_get(&trie, key.as_str()) {
                Some(v) => {
                    posting_lists[v].push(er);
                    proof {
                        assert forall|r: int|
                            0 <= r < er + 1 implies posting_lists@[trie_entries(trie)[(
                        #[trigger] entries@[r]).spec_english()] as int]@.contains(r as usize) by {
                            if r < er {
                                let w = trie_entries(trie)[entries@[r].spec_english()] as int;
                                let idx = choose|idx: int|
                                    0 <= idx < old_pl[w]@.len() && old_pl[w]@[idx] == r as usize;
                                assert(posting_lists@[w]@[idx] == r as usize);
                            } else {
                                assert(trie_entries(trie)[entries@[er as int].spec_english()]
                                    == v);
                                assert(posting_lists@[v as int]@.last() == er);
                            }
                        }
                    }
                },
                None => {
                    let v = posting_lists.len();
                    let mut fresh: Vec<usize> = Vec::new();
                    fresh.push(er);
                    trie_insert(&mut trie, key, v);
                    posting_lists.push(fresh);
                    proof {
                        let ghost ks = trie_entries(trie);
                        assert(ks == trie_entries(old_trie).insert(
                            entries@[er as int].spec_english(),
                            v,
                        ));
                        assert forall|r: int|
                            0 <= r < er + 1 implies posting_lists@[ks[(
                        #[trigger] entries@[r]).spec_english()] as int]@.contains(r as usize) by {
                            if r < er {
                                assert(entries@[r].spec_english() != entries@[
                                    er as int].spec_english());
                                let w = ks[entries@[r].spec_english()] as int;
                                assert(w == trie_entries(old_trie)[entries@[r].spec_english()]);
                                let idx = choose|idx: int|
                                    0 <= idx < old_pl[w]@.len() && old_pl[w]@[idx] == r as usize;
                                assert(posting_lists@[w]@[idx] == r as usize);
                            } else {
                                assert(posting_lists@[v as int]@[0] == er);
                            }
                        }
                        assert forall|v2: int, i: int|
                            0 <= v2 < posting_lists@.len() && 0 <= i
                                < posting_lists@[v2]@.len() implies (
                        #[trigger] posting_lists@[v2]@[i]) < er + 1 && ks.dom().contains(
                            entries@[posting_lists@[v2]@[i] as int].spec_english(),
                        ) && ks[entries@[posting_lists@[v2]@[i] as int].spec_english()]
                            == v2 by {
                            if v2 < old_pl.len() {
                                assert(posting_lists@[v2] == old_pl[v2]);
                                assert(entries@[old_pl[v2]@[i] as int].spec_english()
                                    != entries@[er as int].spec_english());
                            } else {
                                assert(posting_lists@[v2]@[i] == er);
                            }
                        }
                    }
                },
            }
            er = er + 1;
        }
        let r = TokiSama { dictionary: Dictionary { entries }, posting_lists, trie };
        proof {
            assert(r.records() == entries@);
            assert(r.lists() =~= posting_lists@.map_values(|l: Vec<usize>| l@));
            assert forall|v: int, i: int|
                0 <= v < r.lists().len() && 0 <= i < r.lists()[v].len() implies (
            #[trigger] r.lists()[v][i]) < r.records().len() && r.keys().dom().contains(
                r.records()[r.lists()[v][i] as int].spec_english(),
            ) && r.keys()[r.records()[r.lists()[v][i] as int].spec_english()] == v by {
                assert(r.lists()[v] == posting_lists@[v]@);
            }
            assert forall|r2: int| 0 <= r2 < r.records().len() implies r.lists()[r.keys()[(
            #[trigger] r.records()[r2]).spec_english()] as int].contains(r2 as usize) by {
                assert(r.lists()[r.keys()[r.records()[r2].spec_english()] as int]
                    == posting_lists@[trie_entries(trie)[entries@[r2].spec_english()] as int]@);
            }
            assert forall|v: int, i: int, j: int|
                #![trigger r.lists()[v][i], r.lists()[v][j]]
                0 <= v < r.lists().len() && 0 <= i < j < r.lists()[v].len() implies r.lists(
            )[v][i] < r.lists()[v][j] by {
                assert(r.lists()[v] == posting_lists@[v]@);
            }
        }
        r
    }
}

/// The similarity cutoff around a compound: its length, floored at one.
pub open spec fn max_dist_of(base: Seq<crate::pu::TokiPonaWord>) -> int {
    if base.len() > 0 {
        base.len() as int
    } else {
        1
    }
}

/// Record `j` belongs in the similar list of the record at `rank`.
pub open spec fn qualifies(records: Seq<Translation>, rank: int, j: int) -> bool {
    &&& 0 <= j < records.len()
    &&& j != rank
    &&& crate::compound::dist_spec(
        records[j].spec_compound(),
        records[rank].spec_compound(),
    ) <= max_dist_of(records[rank].spec_compound())
}

/// How many of the first `upto` records qualify.
pub open spec fn count_qualifying(records: Seq<Translation>, rank: int, upto: int) -> int
    decreases upto,
{
    if upto <= 0 {
        0
    } else {
        count_qualifying(records, rank, upto - 1) + if qualifies(records, rank, upto - 1) {
            1int
        } else {
            0int
        }
    }
}

/// The qualifying indices below `upto`, as a set.
pub open spec fn qualifying_set(records: Seq<Translation>, rank: int, upto: int) -> Set<int> {
    Set::new(|j: int| 0 <= j < upto && qualifies(records, rank, j))
}

proof fn lemma_count_qualifying_is_card(records: Seq<Translation>, rank: int, upto: int)
    requires
        0 <= upto,
    ensures
        qualifying_set(records, rank, upto).finite(),
        qualifying_set(records, rank, upto).len() == count_qualifying(records, rank, upto),
    decreases upto,
{
    broadcast use vstd::set::group_set_axioms;

    if upto == 0 {
        assert(qualifying_set(records, rank, 0) =~= Set::<int>::empty());
    } else {
        lemma_count_qualifying_is_card(records, rank, upto - 1);
        if qualifies(records, rank, upto - 1) {
            assert(qualifying_set(records, rank, upto) =~= qualifying_set(
                records,
                rank,
                upto - 1,
            ).insert(upto - 1));
            assert(!qualifying_set(records, rank, upto - 1).contains(upto - 1));
        } else {
            assert(qualifying_set(records, rank, upto) =~= qualifying_set(records, rank, upto - 1));
        }
    }
}

/// A subset of a finite set with the same cardinality is the whole set.
proof fn lemma_subset_equal_len<A>(s1: Set<A>, s2: Set<A>)
    requires
        s2.finite(),
        s1.subset_of(s2),
        s1.len() == s2.len(),
    ensures
        s1 =~= s2,
{
    broadcast use vstd::set::group_set_axioms;

    if exists|x: A| s2.contains(x) && !s1.contains(x) {
        let x = choose|x: A| s2.contains(x) && !s1.contains(x);
        assert(s1.subset_of(s2.remove(x)));
        vstd::set_lib::lemma_len_subset(s1, s2.remove(x));
        assert(s2.remove(x).len() == s2.len() - 1);
        assert(false);
    }
}

/// A strictly increasing list of qualifying indices, as long as the
/// qualifying count, covers every qualifying index.
proof fn lemma_qualifying_indices_complete(records: Seq<Translation>, rank: int, qidx: Seq<int>)
    requires
        forall|k1: int, k2: int| 0 <= k1 < k2 < qidx.len() ==> #[trigger] qidx[k1] < #[trigger] qidx[k2],
        forall|k: int| 0 <= k < qidx.len() ==> qualifies(records, rank, #[trigger] qidx[k]),
        qidx.len() == count_qualifying(records, rank, records.len() as int),
    ensures
        forall|j: int|
            #[trigger] qualifies(records, rank, j) ==> exists|k: int|
                0 <= k < qidx.len() && #[trigger] qidx[k] == j,
{
    broadcast use vstd::set::group_set_axioms;
    broadcast use vstd::seq_lib::seq_to_set_is_finite;
    broadcast use vstd::seq_lib::group_seq_properties;

    let qs = qualifying_set(records, rank, records.len() as int);
    lemma_count_qualifying_is_card(records, rank, records.len() as int);
    assert(qidx.to_set().subset_of(qs)) by {
        assert forall|j: int| qidx.to_set().contains(j) implies qs.contains(j) by {
            let k = choose|k: int| 0 <= k < qidx.len() && qidx[k] == j;
            assert(qualifies(records, rank, j));
        }
    }
    assert(qidx.no_duplicates()) by {
        assert forall|k1: int, k2: int|
            0 <= k1 < qidx.len() && 0 <= k2 < qidx.len() && k1 != k2 implies qidx[k1]
            != qidx[k2] by {
            if k1 < k2 {
                assert(qidx[k1] < qidx[k2]);
            } else {
                assert(qidx[k2] < qidx[k1]);
            }
        }
    }
    qidx.unique_seq_to_set();
    lemma_subset_equal_len(qidx.to_set(), qs);
    assert forall|j: int| #[trigger] qualifies(records, rank, j) implies exists|k: int|
        0 <= k < qidx.len() && #[trigger] qidx[k] == j by {
        assert(qs.contains(j));
        assert(qidx.to_set().contains(j));
        assert(qidx.contains(j));
        let k = choose|k: int| 0 <= k < qidx.len() && qidx[k] == j;
        assert(qidx[k] == j);
    }
}

/// The similar entry `sr` renders record `t` against the compound `base`.
pub open spec fn sim_matches(
    sr: ThesaurusResult,
    t: Translation,
    base: Seq<crate::pu::TokiPonaWord>,
    pu: Pu,
) -> bool {
    &&& sr.english@ == t.spec_english()
    &&& sr.toki_pona_len == t.spec_compound().len()
    &&& sr.toki_pona_string@ == crate::compound::compound_text(t.spec_compound(), pu)
    &&& sr.source == t.spec_source()
    &&& sr.dist == crate::compound::dist_spec(t.spec_compound(), base)
}

/// The similar entry `sr` stands for some qualifying record.
pub open spec fn sim_entry_ok(
    records: Seq<Translation>,
    rank: int,
    pu: Pu,
    sr: ThesaurusResult,
) -> bool {
    exists|j: int|
        qualifies(records, rank, j) && sim_matches(sr, records[j], records[rank].spec_compound(), pu)
}

/// Similar entries order by distance first, then by compound length.
pub open spec fn sim_le(a: ThesaurusResult, b: ThesaurusResult) -> bool {
    a.dist < b.dist || (a.dist == b.dist && a.toki_pona_len <= b.toki_pona_len)
}

fn sim_le_exec(a: &ThesaurusResult, b: &ThesaurusResult) -> (r: bool)
    ensures
        r == sim_le(*a, *b),
{
    a.dist < b.dist || (a.dist == b.dist && a.toki_pona_len <= b.toki_pona_len)
}

fn min_sim_index(v: &Vec<ThesaurusResult>) -> (mi: usize)
    requires
        v@.len() > 0,
    ensures
        mi < v@.len(),
        forall|l: int| 0 <= l < v@.len() ==> sim_le(v@[mi as int], #[trigger] v@[l]),
{
    let mut mi: usize = 0;
    let n = v.len();
    let mut idx: usize = 1;
    while idx < n
        invariant
            mi < idx <= n,
            n == v@.len(),
            forall|l: int| 0 <= l < idx ==> sim_le(v@[mi as int], #[trigger] v@[l]),
        decreases n - idx,
    {
        if !sim_le_exec(&v[mi], &v[idx]) {
            assert(sim_le(v@[idx as int], v@[mi as int]));
            assert forall|l: int| 0 <= l < idx + 1 implies sim_le(
                v@[idx as int],
                #[trigger] v@[l],
            ) by {
                if l < idx {
                    assert(sim_le(v@[mi as int], v@[l]));
                }
            }
            mi = idx;
        }
        idx = idx + 1;
    }
    mi
}

/// Selection sort of similar entries by `(distance, compound length)`.
fn sort_similar(input: Vec<ThesaurusResult>) -> (r: Vec<ThesaurusResult>)
    ensures
        r@.to_multiset() == input@.to_multiset(),
        r@.len() == input@.len(),
        forall|i: int, j: int| 0 <= i < j < r@.len() ==> sim_le(#[trigger] r@[i], #[trigger] r@[j]),
{
    broadcast use vstd::seq_lib::group_to_multiset_ensures;

    let ghost orig = input@;
    let mut input = input;
    let mut out: Vec<ThesaurusResult> = Vec::new();
    proof {
        assert(out@.to_multiset().add(input@.to_multiset()) =~= orig.to_multiset());
    }
    while input.len() > 0
        invariant
            out@.to_multiset().add(input@.to_multiset()) == orig.to_multiset(),
            out@.len() + input@.len() == orig.len(),
            forall|i: int, j: int|
                0 <= i < j < out@.len() ==> sim_le(#[trigger] out@[i], #[trigger] out@[j]),
            forall|i: int, l: int|
                0 <= i < out@.len() && 0 <= l < input@.len() ==> sim_le(
                    #[trigger] out@[i],
                    #[trigger] input@[l],
                ),
        decreases input@.len(),
    {
        broadcast use vstd::seq_lib::group_to_multiset_ensures;

        let ghost old_in = input@;
        let ghost old_out = out@;
        let mi = min_sim_index(&input);
        let x = input.remove(mi);
        out.push(x);
        proof {
            assert(old_in.contains(old_in[mi as int]));
            assert(old_in.to_multiset().count(x) > 0);
            assert(out@.to_multiset().add(input@.to_multiset()) =~= old_out.to_multiset().add(
                old_in.to_multiset(),
            ));
            assert(forall|l: int|
                0 <= l < input@.len() ==> #[trigger] input@[l] == if l < mi {
                    old_in[l]
                } else {
                    old_in[l + 1]
                });
            assert forall|i: int, l: int|
                0 <= i < out@.len() && 0 <= l < input@.len() implies sim_le(
                #[trigger] out@[i],
                #[trigger] input@[l],
            ) by {
                if i < old_out.len() {
                    assert(old_in.contains(input@[l]));
                } else {
                    assert(out@[i] == x);
                    if l < mi {
                        assert(sim_le(x, old_in[l]));
                    } else {
                        assert(sim_le(x, old_in[l + 1]));
                    }
                }
            }
        }
    }
    proof {
        assert(input@.to_multiset() =~= Multiset::<ThesaurusResult>::empty());
        assert(out@.to_multiset() =~= orig.to_multiset());
    }
    out
}

/// `cands` renders the qualifying records one for one: entry `k` renders
/// the record at index `qidx[k]`, the indices ascend strictly (so distinct
/// entries stand for distinct records), and every qualifying record is
/// rendered.
pub open spec fn sim_candidates_ok(
    records: Seq<Translation>,
    rank: int,
    pu: Pu,
    cands: Seq<ThesaurusResult>,
    qidx: Seq<int>,
) -> bool {
    &&& qidx.len() == cands.len()
    &&& (forall|k: int|
        0 <= k < cands.len() ==> qualifies(records, rank, #[trigger] qidx[k]) && sim_matches(
            cands[k],
            records[qidx[k]],
            records[rank].spec_compound(),
            pu,
        ))
    &&& (forall|k1: int, k2: int|
        0 <= k1 < k2 < qidx.len() ==> #[trigger] qidx[k1] < #[trigger] qidx[k2])
    &&& (forall|j: int|
        #[trigger] qualifies(records, rank, j) ==> exists|k: int|
            0 <= k < qidx.len() && #[trigger] qidx[k] == j)
}

/// The whole meaning of a similar-translation list: `full` rearranges a
/// one-for-one rendering of all qualifying records into
/// `(distance, length)` order, and `similar` is its first five entries (or
/// all of them, when fewer qualify).
pub open spec fn sim_expansion_ok(
    records: Seq<Translation>,
    rank: int,
    pu: Pu,
    similar: Seq<ThesaurusResult>,
    full: Seq<ThesaurusResult>,
) -> bool {
    &&& full.len() == count_qualifying(records, rank, records.len() as int)
    &&& (forall|i: int, j: int| 0 <= i < j < full.len() ==> sim_le(#[trigger] full[i], #[trigger] full[j]))
    &&& (forall|i: int| 0 <= i < full.len() ==> sim_entry_ok(records, rank, pu, #[trigger] full[i]))
    &&& (exists|cands: Seq<ThesaurusResult>, qidx: Seq<int>|
        #[trigger] sim_candidates_ok(records, rank, pu, cands, qidx) && full.to_multiset()
            == cands.to_multiset())
    &&& similar == full.take(
        if full.len() > 5 {
            5int
        } else {
            full.len() as int
        },
    )
}

impl TokiSama {
    /// How many records the index ranks.
    pub fn num_records(&self) -> (r: usize)
        ensures
            r == self.records().len(),
    {
        self.dictionary.entries.len()
    }

    /// The record at one rank of the canonical order.
    pub fn record_at(&self, rank: usize) -> (r: &Translation)
        requires
            rank < self.records().len(),
        ensures
            *r == self.records()[rank as int],
    {
        &self.dictionary.entries[rank]
    }

    /// Fills one lookup result: the entry's own fields, and the at most five
    /// closest other records under the overlap distance, scanned over the
    /// whole dictionary.
    fn populate_completion(&self, search_string: &str, entry_rank: usize, pu: &Pu) -> (c:
        Completion)
        requires
            entry_rank < self.records().len(),
            self.records_ok(*pu),
        ensures
            c.english_search@ == search_string@,
            c.entry_english@ == self.records()[entry_rank as int].spec_english(),
            c.entry_weight == self.records()[entry_rank as int].spec_weight(),
            c.source == self.records()[entry_rank as int].spec_source(),
            c.original_translation_string@ == crate::compound::compound_text(
                self.records()[entry_rank as int].spec_compound(),
                *pu,
            ),
            c.similar@.len() <= 5,
            exists|full: Seq<ThesaurusResult>|
                #[trigger] sim_expansion_ok(
                    self.records(),
                    entry_rank as int,
                    *pu,
                    c.similar@,
                    full,
                ),
    {
        let entry = &self.dictionary.entries[entry_rank];
        let base_len = entry.compound().len();
        let max_dist: u64 = if base_len > 0 {
            base_len as u64
        } else {
            1
        };
        let mut candidates: Vec<ThesaurusResult> = Vec::new();
        let ghost mut qidx: Seq<int> = Seq::empty();
        let n = self.dictionary.entries.len();
        let mut i: usize = 0;
        while i < n
            invariant
                i <= n,
                n == self.records().len(),
                entry_rank < n,
                entry == self.records()[entry_rank as int],
                self.records_ok(*pu),
                max_dist == max_dist_of(self.records()[entry_rank as int].spec_compound()),
                candidates@.len() == count_qualifying(self.records(), entry_rank as int, i as int),
                forall|k: int|
                    0 <= k < candidates@.len() ==> sim_entry_ok(
                        self.records(),
                        entry_rank as int,
                        *pu,
                        #[trigger] candidates@[k],
                    ),
                qidx.len() == candidates@.len(),
                forall|k: int|
                    0 <= k < qidx.len() ==> 0 <= #[trigger] qidx[k] < i && qualifies(
                        self.records(),
                        entry_rank as int,
                        qidx[k],
                    ),
                forall|k: int|
                    0 <= k < candidates@.len() ==> sim_matches(
                        #[trigger] candidates@[k],
                        self.records()[qidx[k]],
                        self.records()[entry_rank as int].spec_compound(),
                        *pu,
                    ),
                forall|k1: int, k2: int|
                    0 <= k1 < k2 < qidx.len() ==> #[trigger] qidx[k1] < #[trigger] qidx[k2],
            decreases n - i,
        {
            if i != entry_rank {
                let e = &self.dictionary.entries[i];
                let d = e.compound().dist(entry.compound());
                if d <= max_dist {
                    candidates.push(
                        ThesaurusResult {
                            english: e.english().to_owned(),
                            toki_pona_len: e.compound().len() as u64,
                            toki_pona_string: e.compound().to_string(pu),
                            dist: d,
                            source: e.source(),
                        },
                    );
                    proof {
                        qidx = qidx.push(i as int);
                        assert(qualifies(self.records(), entry_rank as int, i as int));
                        assert(sim_matches(
                            candidates@.last(),
                            self.records()[i as int],
                            self.records()[entry_rank as int].spec_compound(),
                            *pu,
                        ));
                        assert(sim_entry_ok(
                            self.records(),
                            entry_rank as int,
                            *pu,
                            candidates@.last(),
                        ));
                    }
                }
            }
            i = i + 1;
        }
        let ghost cands_view = candidates@;
        let sorted = sort_similar(candidates);
        let ghost full = sorted@;
        proof {
            lemma_qualifying_indices_complete(self.records(), entry_rank as int, qidx);
            assert(sim_candidates_ok(self.records(), entry_rank as int, *pu, cands_view, qidx));
        }
        let mut similar = sorted;
        if similar.len() > 5 {
            similar.truncate(5);
        }
        proof {
            if full.len() > 5 {
                assert(similar@ == full.take(5));
            } else {
                assert(similar@ =~= full.take(full.len() as int));
            }
            assert forall|k: int| 0 <= k < full.len() implies sim_entry_ok(
                self.records(),
                entry_rank as int,
                *pu,
                #[trigger] full[k],
            ) by {
                broadcast use vstd::seq_lib::group_to_multiset_ensures;

                assert(full.contains(full[k]));
                assert(full.to_multiset().count(full[k]) > 0);
                let ghost cands = candidates@;
                assert(cands.to_multiset().count(full[k]) > 0);
                assert(cands.contains(full[k]));
                let k2 = choose|k2: int| 0 <= k2 < cands.len() && cands[k2] == full[k];
                assert(sim_entry_ok(self.records(), entry_rank as int, *pu, cands[k2]));
            }
            assert(full.len() == count_qualifying(
                self.records(),
                entry_rank as int,
                self.records().len() as int,
            ));
            assert(forall|i2: int, j2: int|
                0 <= i2 < j2 < full.len() ==> sim_le(#[trigger] full[i2], #[trigger] full[j2]));
            assert(similar@ == full.take(
                if full.len() > 5 {
                    5int
                } else {
                    full.len() as int
                },
            ));
            assert(sim_expansion_ok(
                self.records(),
                entry_rank as int,
                *pu,
                similar@,
                full,
            ));
        }
        let search_chars = crate::text::to_char_vec(search_string);
        let c = Completion {
            english_search: crate::text::string_from_chars(&search_chars),
            entry_english: entry.english().to_owned(),
            entry_weight: entry.weight(),
            original_translation_string: entry.compound().to_string(pu),
            source: entry.source(),
            similar,
        };
        proof {
            assert(sim_expansion_ok(self.records(), entry_rank as int, *pu, c.similar@, full));
        }
        c
    }
}

/// Rank `r` matches a (normalized) search prefix.
pub open spec fn key_matches(records: Seq<Translation>, p: Seq<char>, r: int) -> bool {
    0 <= r < records.len() && p.is_prefix_of(records[r].spec_english())
}

/// How many of the first `upto` records the prefix matches.
pub open spec fn count_matching(records: Seq<Translation>, p: Seq<char>, upto: int) -> int
    decreases upto,
{
    if upto <= 0 {
        0
    } else {
        count_matching(records, p, upto - 1) + if p.is_prefix_of(
            records[upto - 1].spec_english(),
        ) {
            1int
        } else {
            0int
        }
    }
}

/// The matching ranks below `upto`, as a set.
pub open spec fn matching_set(records: Seq<Translation>, p: Seq<char>, upto: int) -> Set<int> {
    Set::new(|r: int| 0 <= r < upto && p.is_prefix_of(records[r].spec_english()))
}

proof fn lemma_count_matching_is_card(records: Seq<Translation>, p: Seq<char>, upto: int)
    requires
        0 <= upto,
    ensures
        matching_set(records, p, upto).finite(),
        matching_set(records, p, upto).len() == count_matching(records, p, upto),
    decreases upto,
{
    broadcast use vstd::set::group_set_axioms;

    if upto == 0 {
        assert(matching_set(records, p, 0) =~= Set::<int>::empty());
    } else {
        lemma_count_matching_is_card(records, p, upto - 1);
        if p.is_prefix_of(records[upto - 1].spec_english()) {
            assert(matching_set(records, p, upto) =~= matching_set(records, p, upto - 1).insert(
                upto - 1,
            ));
            assert(!matching_set(records, p, upto - 1).contains(upto - 1));
        } else {
            assert(matching_set(records, p, upto) =~= matching_set(records, p, upto - 1));
        }
    }
}

/// A duplicate-free list of exactly the matching ranks has the matching
/// count as its length.
proof fn lemma_rank_list_counts(
    records: Seq<Translation>,
    p: Seq<char>,
    ranks: Seq<int>,
)
    requires
        forall|l1: int, l2: int| 0 <= l1 < l2 < ranks.len() ==> #[trigger] ranks[l1] != #[trigger] ranks[l2],
        forall|l: int| 0 <= l < ranks.len() ==> key_matches(records, p, #[trigger] ranks[l]),
        forall|r: int| key_matches(records, p, r) ==> exists|l: int|
            0 <= l < ranks.len() && #[trigger] ranks[l] == r,
    ensures
        ranks.len() == count_matching(records, p, records.len() as int),
{
    broadcast use vstd::set::group_set_axioms;
    broadcast use vstd::seq_lib::seq_to_set_is_finite;
    broadcast use vstd::seq_lib::group_seq_properties;

    let ms = matching_set(records, p, records.len() as int);
    lemma_count_matching_is_card(records, p, records.len() as int);
    assert(ranks.to_set() =~= ms) by {
        assert forall|r: int| ranks.to_set().contains(r) implies ms.contains(r) by {
            let l = choose|l: int| 0 <= l < ranks.len() && ranks[l] == r;
            assert(key_matches(records, p, r));
        }
        assert forall|r: int| ms.contains(r) implies ranks.to_set().contains(r) by {
            assert(key_matches(records, p, r));
            let l = choose|l: int| 0 <= l < ranks.len() && ranks[l] == r;
            assert(ranks[l] == r);
            assert(ranks.contains(r));
        }
    }
    assert(forall|l1: int, l2: int|
        0 <= l1 < ranks.len() && 0 <= l2 < ranks.len() && l1 != l2 ==> #[trigger] ranks[l1]
            != #[trigger] ranks[l2]);
    ranks.unique_seq_to_set();
}

/// The whole ranked selection a lookup serves from: every matching
/// `(key text, rank)` pair, each rank exactly once, in the served order —
/// exact matches for the raw search text first, then lexicographic key
/// order, then rank order.
pub open spec fn selection_ok(
    records: Seq<Translation>,
    p_low: Seq<char>,
    p_raw: Seq<char>,
    sel: Seq<(Seq<char>, int)>,
) -> bool {
    &&& sel.len() == count_matching(records, p_low, records.len() as int)
    &&& (forall|l: int|
        0 <= l < sel.len() ==> key_matches(records, p_low, (#[trigger] sel[l]).1)
            && records[sel[l].1].spec_english() == sel[l].0)
    &&& (forall|l1: int, l2: int|
        0 <= l1 < l2 < sel.len() ==> (#[trigger] sel[l1]).1 != (#[trigger] sel[l2]).1)
    &&& (forall|r: int|
        #[trigger] key_matches(records, p_low, r) ==> exists|l: int|
            0 <= l < sel.len() && (#[trigger] sel[l]).1 == r)
    &&& (forall|l1: int, l2: int|
        0 <= l1 < l2 < sel.len() ==> pair_order(
            p_raw,
            (#[trigger] sel[l1]).0,
            sel[l1].1,
            (#[trigger] sel[l2]).0,
            sel[l2].1,
        ))
}

/// A collected `(key, rank)` pair is consistent with the index and the
/// normalized prefix.
pub open spec fn pair_ok(records: Seq<Translation>, p: Seq<char>, pr: (String, usize)) -> bool {
    &&& (pr.1 as int) < records.len()
    &&& records[pr.1 as int].spec_english() == pr.0@
    &&& p.is_prefix_of(pr.0@)
}

/// The served order of collected pairs: keys equal to the raw search text
/// bubble to the front; within one class keys ascend lexicographically, and
/// one key's own records keep their rank order.
pub open spec fn pair_order(p: Seq<char>, k1: Seq<char>, r1: int, k2: Seq<char>, r2: int) -> bool {
    if (k1 == p) != (k2 == p) {
        k1 == p
    } else if k1 == k2 {
        r1 <= r2
    } else {
        crate::text::lex_le(k1, k2)
    }
}

pub open spec fn pair_le(p: Seq<char>, a: (String, usize), b: (String, usize)) -> bool {
    pair_order(p, a.0@, a.1 as int, b.0@, b.1 as int)
}

proof fn lemma_pair_order_total(p: Seq<char>, k1: Seq<char>, r1: int, k2: Seq<char>, r2: int)
    ensures
        pair_order(p, k1, r1, k2, r2) || pair_order(p, k2, r2, k1, r1),
{
    crate::text::lemma_lex_le_total(k1, k2);
}

proof fn lemma_pair_order_trans(
    p: Seq<char>,
    k1: Seq<char>,
    r1: int,
    k2: Seq<char>,
    r2: int,
    k3: Seq<char>,
    r3: int,
)
    requires
        pair_order(p, k1, r1, k2, r2),
        pair_order(p, k2, r2, k3, r3),
    ensures
        pair_order(p, k1, r1, k3, r3),
{
    if k1 != k2 && k2 != k3 {
        if crate::text::lex_le(k1, k2) && crate::text::lex_le(k2, k3) {
            if k1 == k3 {
                crate::text::lemma_lex_le_antisymmetric(k1, k2);
            } else {
                crate::text::lemma_lex_le_transitive(k1, k2, k3);
            }
        }
    }
}

fn pair_le_exec(prefix: &str, a: &(String, usize), b: &(String, usize)) -> (r: bool)
    ensures
        r == pair_le(prefix@, *a, *b),
{
    let ea = crate::text::str_eq_str(a.0.as_str(), prefix);
    let eb = crate::text::str_eq_str(b.0.as_str(), prefix);
    if ea != eb {
        ea
    } else if crate::text::str_eq_str(a.0.as_str(), b.0.as_str()) {
        a.1 <= b.1
    } else {
        crate::text::str_lex_le(a.0.as_str(), b.0.as_str())
    }
}

fn min_pair_index(prefix: &str, v: &Vec<(String, usize)>) -> (mi: usize)
    requires
        v@.len() > 0,
    ensures
        mi < v@.len(),
        forall|l: int| 0 <= l < v@.len() ==> pair_le(prefix@, v@[mi as int], #[trigger] v@[l]),
{
    let mut mi: usize = 0;
    let n = v.len();
    let mut idx: usize = 1;
    while idx < n
        invariant
            mi < idx <= n,
            n == v@.len(),
            forall|l: int| 0 <= l < idx ==> pair_le(prefix@, v@[mi as int], #[trigger] v@[l]),
        decreases n - idx,
    {
        if !pair_le_exec(prefix, &v[mi], &v[idx]) {
            proof {
                lemma_pair_order_total(
                    prefix@,
                    v@[mi as int].0@,
                    v@[mi as int].1 as int,
                    v@[idx as int].0@,
                    v@[idx as int].1 as int,
                );
            }
            assert(pair_le(prefix@, v@[idx as int], v@[mi as int]));
            assert forall|l: int| 0 <= l < idx + 1 implies pair_le(
                prefix@,
                v@[idx as int],
                #[trigger] v@[l],
            ) by {
                if l < idx {
                    assert(pair_le(prefix@, v@[mi as int], v@[l]));
                    lemma_pair_order_trans(
                        prefix@,
                        v@[idx as int].0@,
                        v@[idx as int].1 as int,
                        v@[mi as int].0@,
                        v@[mi as int].1 as int,
                        v@[l].0@,
                        v@[l].1 as int,
                    );
                }
            }
            mi = idx;
        }
        idx = idx + 1;
    }
    mi
}

/// Selection sort of collected pairs: exact matches first, then by rank.
fn sort_pairs(prefix: &str, input: Vec<(String, usize)>) -> (r: Vec<(String, usize)>)
    ensures
        r@.to_multiset() == input@.to_multiset(),
        r@.len() == input@.len(),
        forall|i: int, j: int|
            0 <= i < j < r@.len() ==> pair_le(prefix@, #[trigger] r@[i], #[trigger] r@[j]),
{
    broadcast use vstd::seq_lib::group_to_multiset_ensures;

    let ghost orig = input@;
    let mut input = input;
    let mut out: Vec<(String, usize)> = Vec::new();
    proof {
        assert(out@.to_multiset().add(input@.to_multiset()) =~= orig.to_multiset());
    }
    while input.len() > 0
        invariant
            out@.to_multiset().add(input@.to_multiset()) == orig.to_multiset(),
            out@.len() + input@.len() == orig.len(),
            forall|i: int, j: int|
                0 <= i < j < out@.len() ==> pair_le(prefix@, #[trigger] out@[i], #[trigger] out@[j]),
            forall|i: int, l: int|
                0 <= i < out@.len() && 0 <= l < input@.len() ==> pair_le(
                    prefix@,
                    #[trigger] out@[i],
                    #[trigger] input@[l],
                ),
        decreases input@.len(),
    {
        broadcast use vstd::seq_lib::group_to_multiset_ensures;

        let ghost old_in = input@;
        let ghost old_out = out@;
        let mi = min_pair_index(prefix, &input);
        let x = input.remove(mi);
        out.push(x);
        proof {
            assert(old_in.contains(old_in[mi as int]));
            assert(old_in.to_multiset().count(x) > 0);
            assert(out@.to_multiset().add(input@.to_multiset()) =~= old_out.to_multiset().add(
                old_in.to_multiset(),
            ));
            assert(forall|l: int|
                0 <= l < input@.len() ==> #[trigger] input@[l] == if l < mi {
                    old_in[l]
                } else {
                    old_in[l + 1]
                });
            assert forall|i: int, l: int|
                0 <= i < out@.len() && 0 <= l < input@.len() implies pair_le(
                prefix@,
                #[trigger] out@[i],
                #[trigger] input@[l],
            ) by {
                if i < old_out.len() {
                    assert(old_in.contains(input@[l]));
                } else {
                    assert(out@[i] == x);
                    if l < mi {
                        assert(pair_le(prefix@, x, old_in[l]));
                    } else {
                        assert(pair_le(prefix@, x, old_in[l + 1]));
                    }
                }
            }
        }
    }
    proof {
        assert(input@.to_multiset() =~= Multiset::<(String, usize)>::empty());
        assert(out@.to_multiset() =~= orig.to_multiset());
    }
    out
}

/// The completion `c` renders the record at `rank` for the search text
/// `search` (the user's raw prefix).
pub open spec fn completion_of(
    records: Seq<Translation>,
    rank: int,
    search: Seq<char>,
    pu: Pu,
    c: Completion,
) -> bool {
    &&& c.english_search@ == search
    &&& c.entry_english@ == records[rank].spec_english()
    &&& c.entry_weight == records[rank].spec_weight()
    &&& c.source == records[rank].spec_source()
    &&& c.original_translation_string@ == crate::compound::compound_text(
        records[rank].spec_compound(),
        pu,
    )
    &&& c.similar@.len() <= 5
    &&& exists|full: Seq<ThesaurusResult>|
        #[trigger] sim_expansion_ok(records, rank, pu, c.similar@, full)
}

/// The completion `c` renders some record whose key matches the normalized
/// prefix `p`, for the raw search text `search`.
pub open spec fn some_completion_of(
    records: Seq<Translation>,
    p: Seq<char>,
    search: Seq<char>,
    pu: Pu,
    c: Completion,
) -> bool {
    exists|rank: int| key_matches(records, p, rank) && completion_of(records, rank, search, pu, c)
}

impl TokiSama {
    /// Ranked prefix lookup. Every returned completion's key starts with
    /// the lowercased search prefix; a key equal to the raw search text
    /// always precedes every other key, and within one exact-match class
    /// keys ascend lexicographically. The completions are the first entries
    /// of the full ranked selection of matching records, in its order:
    /// exactly as many as match, capped at five (so the result is empty
    /// precisely when no key matches), each carrying the search text and
    /// its similar-translation expansion.
    pub fn lookup(&self, prefix: &str, pu: &Pu) -> (res: Vec<Completion>)
        requires
            self.wf(),
            self.records_ok(*pu),
        ensures
            res@.len() <= 5,
            forall|i: int|
                0 <= i < res@.len() ==> some_completion_of(
                    self.records(),
                    lower_of(prefix@),
                    prefix@,
                    *pu,
                    #[trigger] res@[i],
                ),
            forall|i: int|
                0 <= i < res@.len() ==> lower_of(prefix@).is_prefix_of(
                    (#[trigger] res@[i]).entry_english@,
                ),
            forall|i: int, j: int|
                0 <= i < j < res@.len() && (#[trigger] res@[j]).entry_english@ == prefix@ ==> (
                #[trigger] res@[i]).entry_english@ == prefix@,
            forall|i: int, j: int|
                0 <= i < j < res@.len() && ((#[trigger] res@[i]).entry_english@ == prefix@) == ((
                #[trigger] res@[j]).entry_english@ == prefix@) ==> crate::text::lex_le(
                    res@[i].entry_english@,
                    res@[j].entry_english@,
                ),
            res@.len() == 0 <==> (forall|rank: int|
                !key_matches(self.records(), lower_of(prefix@), rank)),
            res@.len() == if count_matching(
                self.records(),
                lower_of(prefix@),
                self.records().len() as int,
            ) > 5 {
                5int
            } else {
                count_matching(self.records(), lower_of(prefix@), self.records().len() as int)
            },
            exists|sel: Seq<(Seq<char>, int)>|
                #[trigger] selection_ok(self.records(), lower_of(prefix@), prefix@, sel) && (
                forall|i: int|
                    0 <= i < res@.len() ==> completion_of(
                        self.records(),
                        sel[i].1,
                        prefix@,
                        *pu,
                        #[trigger] res@[i],
                    )),
    {
        let total_records = self.dictionary.entries.len();
        let normalized = to_lowercase_str(prefix);
        let pairs = trie_prefix_entries(&self.trie, normalized.as_str());
        let np = pairs.len();
        let mut cr: Vec<(String, usize)> = Vec::new();
        let ghost mut src: Seq<int> = Seq::empty();
        let mut pi: usize = 0;
        while pi < np
            invariant
                pi <= np,
                np == pairs@.len(),
                self.wf(),
                total_records == self.records().len(),
                normalized@ == lower_of(prefix@),
                forall|i: int|
                    0 <= i < np ==> trie_entries(self.trie).contains_pair(
                        (#[trigger] pairs@[i]).0@,
                        pairs@[i].1,
                    ) && normalized@.is_prefix_of(pairs@[i].0@),
                forall|i1: int, j1: int|
                    0 <= i1 < j1 < np ==> (#[trigger] pairs@[i1]).0@ != (#[trigger] pairs@[j1]).0@,
                forall|l: int| 0 <= l < cr@.len() ==> pair_ok(
                    self.records(),
                    normalized@,
                    #[trigger] cr@[l],
                ),
                forall|l1: int, l2: int|
                    0 <= l1 < l2 < cr@.len() ==> (#[trigger] cr@[l1]).1 != (#[trigger] cr@[l2]).1,
                src.len() == cr@.len(),
                forall|l: int|
                    0 <= l < cr@.len() ==> 0 <= #[trigger] src[l] < pi && cr@[l].0@ == pairs@[
                        src[l]].0@,
                forall|i: int, rank: int|
                    #![trigger pairs@[i], self.records()[rank]]
                    0 <= i < pi && 0 <= rank < self.records().len() && pairs@[i].0@
                        == self.records()[rank].spec_english() ==> exists|l: int|
                        0 <= l < cr@.len() && (#[trigger] cr@[l]).1 == rank,
            decreases np - pi,
        {
            let v = pairs[pi].1;
            proof {
                assert(trie_entries(self.trie).contains_pair(pairs@[pi as int].0@, v));
                assert(self.keys().dom().contains(pairs@[pi as int].0@));
                assert(self.keys()[pairs@[pi as int].0@] == v);
                assert(v < self.lists().len());
                assert(self.lists()[v as int] == self.posting_lists@[v as int]@);
            }
            let pl_len = self.posting_lists[v].len();
            let ghost old_cr_b = cr@;
            let mut q: usize = 0;
            while q < pl_len
                invariant
                    q <= pl_len,
                    pi < np,
                    np == pairs@.len(),
                    self.wf(),
                    v == pairs@[pi as int].1,
                    trie_entries(self.trie).contains_pair(pairs@[pi as int].0@, v),
                    (v as int) < self.lists().len(),
                    pl_len == self.lists()[v as int].len(),
                    normalized@ == lower_of(prefix@),
                    normalized@.is_prefix_of(pairs@[pi as int].0@),
                    forall|i1: int, j1: int|
                        0 <= i1 < j1 < np ==> (#[trigger] pairs@[i1]).0@ != (
                        #[trigger] pairs@[j1]).0@,
                    forall|l: int| 0 <= l < cr@.len() ==> pair_ok(
                        self.records(),
                        normalized@,
                        #[trigger] cr@[l],
                    ),
                    cr@.len() == old_cr_b.len() + q,
                    forall|l: int| 0 <= l < old_cr_b.len() ==> cr@[l] == old_cr_b[l],
                    src.len() == cr@.len(),
                    forall|l: int|
                        0 <= l < cr@.len() ==> 0 <= #[trigger] src[l] <= pi && cr@[l].0@
                            == pairs@[src[l]].0@,
                    forall|l: int| 0 <= l < old_cr_b.len() ==> #[trigger] src[l] < pi,
                    forall|qq: int|
                        0 <= qq < q ==> (#[trigger] cr@[old_cr_b.len() + qq]).1 == self.lists()[v as int][qq]
                            && cr@[old_cr_b.len() + qq].0@ == pairs@[pi as int].0@,
                    forall|l1: int, l2: int|
                        0 <= l1 < l2 < cr@.len() ==> (#[trigger] cr@[l1]).1 != (
                        #[trigger] cr@[l2]).1,
                decreases pl_len - q,
            {
                let rank = self.posting_lists[v][q];
                proof {
                    assert(self.lists()[v as int][q as int] == rank);
                    assert((rank as int) < self.records().len());
                    assert(self.keys()[self.records()[rank as int].spec_english()] == v);
                    assert(self.records()[rank as int].spec_english() == pairs@[pi as int].0@);
                }
                let key_copy = pairs[pi].0.clone();
                let ghost cr_before = cr@;
                cr.push((key_copy, rank));
                proof {
                    src = src.push(pi as int);
                    assert(pair_ok(self.records(), normalized@, cr@.last()));
                    assert(cr@.last().1 == self.lists()[v as int][q as int]);
                    assert(cr@.last().0@ == pairs@[pi as int].0@);
                    let nl = cr@.len() - 1;
                    assert forall|l1: int, l2: int|
                        0 <= l1 < l2 < cr@.len() implies (#[trigger] cr@[l1]).1 != (
                    #[trigger] cr@[l2]).1 by {
                        if l2 == nl {
                            assert(cr@[l1] == cr_before[l1]);
                            if l1 < old_cr_b.len() {
                                // an earlier key's entry: equal ranks would force
                                // equal keys, but the collected keys are distinct
                                assert(src[l1] < pi);
                                assert(cr@[l1].0@ == pairs@[src[l1]].0@);
                                assert(pairs@[src[l1]].0@ != pairs@[pi as int].0@);
                                if cr@[l1].1 == rank {
                                    assert(self.records()[rank as int].spec_english()
                                        == cr@[l1].0@);
                                }
                            } else {
                                // an earlier entry of this same posting list: the
                                // list is strictly increasing
                                let qq = l1 - old_cr_b.len();
                                assert(cr_before[old_cr_b.len() + qq].1 == self.lists()[v as int][qq]);
                                assert(self.lists()[v as int][qq] < self.lists()[v as int][q as int]);
                            }
                        } else {
                            assert(cr@[l1] == cr_before[l1]);
                            assert(cr@[l2] == cr_before[l2]);
                        }
                    }
                }
                q = q + 1;
            }
            proof {
                assert forall|i: int, rank: int|
                    #![trigger pairs@[i], self.records()[rank]]
                    0 <= i < pi + 1 && 0 <= rank < self.records().len() && pairs@[i].0@
                        == self.records()[rank].spec_english() implies exists|l: int|
                    0 <= l < cr@.len() && (#[trigger] cr@[l]).1 == rank by {
                    if i < pi {
                        let l = choose|l: int|
                            0 <= l < old_cr_b.len() && (#[trigger] old_cr_b[l]).1 == rank;
                        assert(cr@[l].1 == rank);
                    } else {
                        assert(self.keys()[self.records()[rank].spec_english()] == v);
                        assert(self.lists()[v as int].contains(rank as usize));
                        let qq = choose|qq: int|
                            0 <= qq < self.lists()[v as int].len() && self.lists()[v as int][qq]
                                == rank as usize;
                        assert(cr@[old_cr_b.len() + qq].1 == rank);
                    }
                }
            }
            pi = pi + 1;
        }
        let sorted = sort_pairs(prefix, cr);
        proof {
            broadcast use vstd::seq_lib::group_to_multiset_ensures;

            let ghost crv = cr@;
            assert forall|l: int| 0 <= l < sorted@.len() implies pair_ok(
                self.records(),
                normalized@,
                #[trigger] sorted@[l],
            ) by {
                assert(sorted@.contains(sorted@[l]));
                assert(sorted@.to_multiset().count(sorted@[l]) > 0);
                assert(crv.to_multiset().count(sorted@[l]) > 0);
                assert(crv.contains(sorted@[l]));
                let l2 = choose|l2: int| 0 <= l2 < crv.len() && crv[l2] == sorted@[l];
                assert(pair_ok(self.records(), normalized@, crv[l2]));
            }
            assert forall|rank: int|
                key_matches(self.records(), lower_of(prefix@), rank) implies exists|l: int|
                0 <= l < sorted@.len() && (#[trigger] sorted@[l]).1 == rank by {
                assert(self.keys().dom().contains(self.records()[rank].spec_english()));
                assert(normalized@.is_prefix_of(self.records()[rank].spec_english()));
                let i = choose|i: int|
                    0 <= i < pairs@.len() && (#[trigger] pairs@[i]).0@ == self.records()[rank].spec_english();
                let l = choose|l: int| 0 <= l < cr@.len() && (#[trigger] cr@[l]).1 == rank;
                assert(crv.to_multiset().count(crv[l]) > 0);
                assert(sorted@.to_multiset().count(crv[l]) > 0);
                assert(sorted@.contains(crv[l]));
                let l3 = choose|l3: int| 0 <= l3 < sorted@.len() && sorted@[l3] == crv[l];
                assert(sorted@[l3].1 == rank);
            }
        }
        proof {
            let ranks = cr@.map_values(|pr: (String, usize)| pr.1 as int);
            assert forall|l1: int, l2: int|
                0 <= l1 < l2 < ranks.len() implies #[trigger] ranks[l1] != #[trigger] ranks[l2] by {
                assert(cr@[l1].1 != cr@[l2].1);
            }
            assert forall|l: int|
                0 <= l < ranks.len() implies key_matches(
                self.records(),
                normalized@,
                #[trigger] ranks[l],
            ) by {
                assert(pair_ok(self.records(), normalized@, cr@[l]));
            }
            assert forall|r: int| key_matches(self.records(), normalized@, r) implies exists|
                l: int,
            | 0 <= l < ranks.len() && #[trigger] ranks[l] == r by {
                assert(self.keys().dom().contains(self.records()[r].spec_english()));
                assert(normalized@.is_prefix_of(self.records()[r].spec_english()));
                let i = choose|i: int|
                    0 <= i < pairs@.len() && (#[trigger] pairs@[i]).0@ == self.records()[r].spec_english();
                let l = choose|l: int| 0 <= l < cr@.len() && (#[trigger] cr@[l]).1 == r;
                assert(ranks[l] == r);
            }
            lemma_rank_list_counts(self.records(), normalized@, ranks);
            assert(cr@.len() == count_matching(
                self.records(),
                lower_of(prefix@),
                self.records().len() as int,
            ));
        }
        let take: usize = if sorted.len() > 5 {
            5
        } else {
            sorted.len()
        };
        let mut res: Vec<Completion> = Vec::new();
        let mut ci: usize = 0;
        while ci < take
            invariant
                ci <= take,
                take <= sorted@.len(),
                take <= 5,
                self.records_ok(*pu),
                normalized@ == lower_of(prefix@),
                res@.len() == ci,
                forall|l: int| 0 <= l < sorted@.len() ==> pair_ok(
                    self.records(),
                    normalized@,
                    #[trigger] sorted@[l],
                ),
                forall|i: int, j: int|
                    0 <= i < j < sorted@.len() ==> pair_le(
                        prefix@,
                        #[trigger] sorted@[i],
                        #[trigger] sorted@[j],
                    ),
                forall|i: int|
                    0 <= i < ci ==> (#[trigger] res@[i]).entry_english@ == sorted@[i].0@,
                forall|i: int|
                    0 <= i < ci ==> some_completion_of(
                        self.records(),
                        lower_of(prefix@),
                        prefix@,
                        *pu,
                        #[trigger] res@[i],
                    ),
                forall|i: int|
                    0 <= i < ci ==> completion_of(
                        self.records(),
                        sorted@[i].1 as int,
                        prefix@,
                        *pu,
                        #[trigger] res@[i],
                    ),
                forall|i: int|
                    0 <= i < ci ==> lower_of(prefix@).is_prefix_of(
                        (#[trigger] res@[i]).entry_english@,
                    ),
            decreases take - ci,
        {
            let rank = sorted[ci].1;
            let c = self.populate_completion(prefix, rank, pu);
            proof {
                assert(key_matches(self.records(), lower_of(prefix@), rank as int));
                assert(completion_of(self.records(), rank as int, prefix@, *pu, c));
                assert(some_completion_of(self.records(), lower_of(prefix@), prefix@, *pu, c));
            }
            res.push(c);
            ci = ci + 1;
        }
        proof {
            assert forall|i: int, j: int|
                0 <= i < j < res@.len() && (#[trigger] res@[j]).entry_english@ == prefix@ implies (
            #[trigger] res@[i]).entry_english@ == prefix@ by {
                assert(pair_le(prefix@, sorted@[i], sorted@[j]));
            }
            assert forall|i: int, j: int|
                0 <= i < j < res@.len() && ((#[trigger] res@[i]).entry_english@ == prefix@) == ((
            #[trigger] res@[j]).entry_english@ == prefix@) implies crate::text::lex_le(
                res@[i].entry_english@,
                res@[j].entry_english@,
            ) by {
                assert(pair_le(prefix@, sorted@[i], sorted@[j]));
                if res@[i].entry_english@ == res@[j].entry_english@ {
                    crate::text::lemma_lex_le_total(res@[i].entry_english@, res@[j].entry_english@);
                }
            }
            broadcast use vstd::seq_lib::group_to_multiset_ensures;

            let crv2 = cr@;
            let sv2 = sorted@;
            assert(crv2.no_duplicates()) by {
                assert forall|i1: int, j1: int|
                    0 <= i1 < crv2.len() && 0 <= j1 < crv2.len() && i1 != j1 implies crv2[i1]
                    != crv2[j1] by {
                    if i1 < j1 {
                        assert(crv2[i1].1 != crv2[j1].1);
                    } else {
                        assert(crv2[j1].1 != crv2[i1].1);
                    }
                }
            }
            crv2.lemma_multiset_has_no_duplicates();
            sv2.lemma_multiset_has_no_duplicates_conv();
            assert forall|l1: int, l2: int|
                0 <= l1 < l2 < sv2.len() implies (#[trigger] sv2[l1]).1 != (
            #[trigger] sv2[l2]).1 by {
                if sv2[l1].1 == sv2[l2].1 {
                    assert(sv2[l1] != sv2[l2]);
                    assert(sv2.contains(sv2[l1]));
                    assert(sv2.to_multiset().count(sv2[l1]) > 0);
                    assert(crv2.to_multiset().count(sv2[l1]) > 0);
                    assert(crv2.contains(sv2[l1]));
                    assert(sv2.contains(sv2[l2]));
                    assert(sv2.to_multiset().count(sv2[l2]) > 0);
                    assert(crv2.to_multiset().count(sv2[l2]) > 0);
                    assert(crv2.contains(sv2[l2]));
                    let i1 = choose|i1: int| 0 <= i1 < crv2.len() && crv2[i1] == sv2[l1];
                    let i2 = choose|i2: int| 0 <= i2 < crv2.len() && crv2[i2] == sv2[l2];
                    assert(i1 != i2);
                    if i1 < i2 {
                        assert(crv2[i1].1 != crv2[i2].1);
                    } else {
                        assert(crv2[i2].1 != crv2[i1].1);
                    }
                }
            }
            let sel = Seq::new(sv2.len(), |l: int| (sv2[l].0@, sv2[l].1 as int));
            assert forall|l: int|
                0 <= l < sel.len() implies key_matches(
                self.records(),
                lower_of(prefix@),
                (#[trigger] sel[l]).1,
            ) && self.records()[sel[l].1].spec_english() == sel[l].0 by {
                assert(pair_ok(self.records(), normalized@, sv2[l]));
            }
            assert forall|r: int|
                #[trigger] key_matches(self.records(), lower_of(prefix@), r) implies exists|
                l: int,
            | 0 <= l < sel.len() && (#[trigger] sel[l]).1 == r by {
                let l = choose|l: int| 0 <= l < sv2.len() && (#[trigger] sv2[l]).1 == r;
                assert(sel[l].1 == r);
            }
            assert forall|l1: int, l2: int|
                0 <= l1 < l2 < sel.len() implies pair_order(
                prefix@,
                (#[trigger] sel[l1]).0,
                sel[l1].1,
                (#[trigger] sel[l2]).0,
                sel[l2].1,
            ) by {
                assert(pair_le(prefix@, sv2[l1], sv2[l2]));
            }
            assert(selection_ok(self.records(), lower_of(prefix@), prefix@, sel));
            assert forall|i: int| 0 <= i < res@.len() implies completion_of(
                self.records(),
                sel[i].1,
                prefix@,
                *pu,
                #[trigger] res@[i],
            ) by {
                assert(completion_of(self.records(), sv2[i].1 as int, prefix@, *pu, res@[i]));
            }
            assert(selection_ok(self.records(), lower_of(prefix@), prefix@, sel) && (forall|
                i: int,
            |
                0 <= i < res@.len() ==> completion_of(
                    self.records(),
                    sel[i].1,
                    prefix@,
                    *pu,
                    #[trigger] res@[i],
                )));
            if res@.len() == 0 {
                assert(sorted@.len() == 0);
                assert forall|rank: int|
                    !key_matches(self.records(), lower_of(prefix@), rank) by {
                    if key_matches(self.records(), lower_of(prefix@), rank) {
                        let l = choose|l: int|
                            0 <= l < sorted@.len() && (#[trigger] sorted@[l]).1 == rank;
                        assert(false);
                    }
                }
            } else {
                assert(some_completion_of(self.records(), lower_of(prefix@), prefix@, *pu, res@[0]));
                let rank = choose|rank: int|
                    key_matches(self.records(), lower_of(prefix@), rank) && completion_of(
                        self.records(),
                        rank,
                        prefix@,
                        *pu,
                        res@[0],
                    );
                assert(key_matches(self.records(), lower_of(prefix@), rank));
            }
        }
        res
    }
}

} // verus!
