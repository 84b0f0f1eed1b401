//! Batch record readers and the assembled search service: curated word sets
//! and mined models parsed line by line into dictionaries, merged in trust
//! order, and served through one prefix index.

use vstd::prelude::*;

use crate::dictionary::{dedup_first, Dictionary};
use crate::index::{lower_of, some_completion_of, Completion, TokiSama};
use crate::pu::Pu;
use crate::text::{lines_of, split_lines, split_on};
use crate::translation::{
    spec_try_from_model, spec_try_parse, Translation, TranslationSource,
};

verus! {

/// The record shapes one curated line contributes: one
/// `(english, weight, compound ids)` triple per definition entry, none for
/// lines that fail to parse.
pub open spec fn line_shapes(line: Seq<char>, pu: Pu) -> Seq<(Seq<char>, u32, Seq<int>)> {
    match spec_try_parse(line, pu) {
        Some(sp) => sp.1.map_values(|d: (Seq<char>, u32)| (d.0, d.1, sp.0)),
        None => Seq::empty(),
    }
}

/// The record shapes of a whole curated word set, in line order.
pub open spec fn wordset_shapes(lines: Seq<Seq<char>>, pu: Pu) -> Seq<(Seq<char>, u32, Seq<int>)>
    decreases lines.len(),
{
    if lines.len() == 0 {
        Seq::empty()
    } else {
        wordset_shapes(lines.drop_last(), pu) + line_shapes(lines.last(), pu)
    }
}

/// The record shapes one mined-model line contributes.
pub open spec fn model_line_shapes(line: Seq<char>, pu: Pu) -> Seq<(Seq<char>, u32, Seq<int>)> {
    match spec_try_from_model(line, pu) {
        Some(sp) => sp,
        None => Seq::empty(),
    }
}

/// The record shapes of a whole mined model, in line order.
pub open spec fn model_shapes(lines: Seq<Seq<char>>, pu: Pu) -> Seq<(Seq<char>, u32, Seq<int>)>
    decreases lines.len(),
{
    if lines.len() == 0 {
        Seq::empty()
    } else {
        model_shapes(lines.drop_last(), pu) + model_line_shapes(lines.last(), pu)
    }
}

/// Every record of `entries` renders the shape at its position.
pub open spec fn shapes_match(
    entries: Seq<Translation>,
    shapes: Seq<(Seq<char>, u32, Seq<int>)>,
    source: TranslationSource,
) -> bool {
    &&& entries.len() == shapes.len()
    &&& (forall|k: int|
        0 <= k < entries.len() ==> matches_shape(#[trigger] entries[k], shapes[k], source))
}

/// The record at `k` renders the shape `sh` with the given source tier.
pub open spec fn matches_shape(
    t: Translation,
    sh: (Seq<char>, u32, Seq<int>),
    source: TranslationSource,
) -> bool {
    &&& t.spec_english() == sh.0
    &&& t.spec_weight() == sh.1
    &&& t.spec_source() == source
    &&& t.spec_compound().len() == sh.2.len()
    &&& (forall|m: int| 0 <= m < sh.2.len() ==> (#[trigger] t.spec_compound()[m]).idx() == sh.2[m])
}

/// Parses every line of a curated word set; lines that fail to parse are
/// skipped and the rest read on.
pub fn parse_wordset(input: &str, pu: &Pu, source: TranslationSource) -> (r: Dictionary)
    ensures
        r.entries@.len() == wordset_shapes(lines_of(input@), *pu).len(),
        forall|k: int|
            0 <= k < r.entries@.len() ==> matches_shape(
                #[trigger] r.entries@[k],
                wordset_shapes(lines_of(input@), *pu)[k],
                source,
            ),
        r.wf(*pu),
{
    let lines = split_lines(input);
    let ghost lv = lines_of(input@);
    let n = lines.len();
    let mut entries: Vec<Translation> = Vec::new();
    let mut i: usize = 0;
    proof {
        assert(lv.subrange(0, 0) =~= Seq::<Seq<char>>::empty());
    }
    while i < n
        invariant
            i <= n,
            n == lines@.len(),
            n == lv.len(),
            forall|k: int| 0 <= k < n ==> (#[trigger] lines@[k])@ == lv[k],
            entries@.len() == wordset_shapes(lv.subrange(0, i as int), *pu).len(),
            forall|k: int|
                0 <= k < entries@.len() ==> matches_shape(
                    #[trigger] entries@[k],
                    wordset_shapes(lv.subrange(0, i as int), *pu)[k],
                    source,
                ),
            forall|k: int|
                0 <= k < entries@.len() ==> (#[trigger] entries@[k]).wf()
                    && entries@[k].in_lexicon(*pu),
        decreases n - i,
    {
        let ghost pre = lv.subrange(0, i as int);
        let ghost cur = lv.subrange(0, i + 1 as int);
        proof {
            assert(cur.drop_last() =~= pre);
            assert(cur.last() == lv[i as int]);
        }
        let ghost done = entries@;
        match Translation::try_parse(lines[i].as_str(), pu, source) {
            Some(mut v) => {
                proof {
                    let sp = spec_try_parse(lv[i as int], *pu)->Some_0;
                    assert(line_shapes(lv[i as int], *pu).len() == sp.1.len());
                    assert(forall|k2: int|
                        0 <= k2 < v@.len() ==> matches_shape(
                            #[trigger] v@[k2],
                            line_shapes(lv[i as int], *pu)[k2],
                            source,
                        ));
                }
                let ghost vv = v@;
                entries.append(&mut v);
                proof {
                    assert(entries@ == done + vv);
                    assert forall|k: int|
                        0 <= k < entries@.len() implies matches_shape(
                        #[trigger] entries@[k],
                        wordset_shapes(cur, *pu)[k],
                        source,
                    ) by {
                        if k < done.len() {
                            assert(entries@[k] == done[k]);
                            assert(wordset_shapes(cur, *pu)[k] == wordset_shapes(pre, *pu)[k]);
                        } else {
                            assert(entries@[k] == vv[k - done.len()]);
                            assert(wordset_shapes(cur, *pu)[k] == line_shapes(lv[i as int], *pu)[k
                                - done.len()]);
                        }
                    }
                }
            },
            None => {
                proof {
                    assert(line_shapes(lv[i as int], *pu) =~= Seq::<(Seq<char>, u32, Seq<int>)>::empty());
                    assert(wordset_shapes(cur, *pu) =~= wordset_shapes(pre, *pu));
                }
            },
        }
        i = i + 1;
    }
    proof {
        assert(lv.subrange(0, n as int) =~= lv);
    }
    Dictionary { entries }
}

/// Parses every line of a mined model; malformed lines are skipped.
pub fn read_model(model: &str, pu: &Pu) -> (r: Dictionary)
    ensures
        r.entries@.len() == model_shapes(lines_of(model@), *pu).len(),
        forall|k: int|
            0 <= k < r.entries@.len() ==> matches_shape(
                #[trigger] r.entries@[k],
                model_shapes(lines_of(model@), *pu)[k],
                TranslationSource::Generated,
            ),
        r.wf(*pu),
{
    let lines = split_lines(model);
    let ghost lv = lines_of(model@);
    let n = lines.len();
    let mut entries: Vec<Translation> = Vec::new();
    let mut i: usize = 0;
    proof {
        assert(lv.subrange(0, 0) =~= Seq::<Seq<char>>::empty());
    }
    while i < n
        invariant
            i <= n,
            n == lines@.len(),
            n == lv.len(),
            forall|k: int| 0 <= k < n ==> (#[trigger] lines@[k])@ == lv[k],
            entries@.len() == model_shapes(lv.subrange(0, i as int), *pu).len(),
            forall|k: int|
                0 <= k < entries@.len() ==> matches_shape(
                    #[trigger] entries@[k],
                    model_shapes(lv.subrange(0, i as int), *pu)[k],
                    TranslationSource::Generated,
                ),
            forall|k: int|
                0 <= k < entries@.len() ==> (#[trigger] entries@[k]).wf()
                    && entries@[k].in_lexicon(*pu),
        decreases n - i,
    {
        let ghost pre = lv.subrange(0, i as int);
        let ghost cur = lv.subrange(0, i + 1 as int);
        proof {
            assert(cur.drop_last() =~= pre);
            assert(cur.last() == lv[i as int]);
        }
        let ghost done = entries@;
        match Translation::try_from_model(lines[i].as_str(), pu) {
            Some(mut v) => {
                proof {
                    let sp = spec_try_from_model(lv[i as int], *pu)->Some_0;
                    assert(model_line_shapes(lv[i as int], *pu) == sp);
                    assert(forall|k2: int|
                        0 <= k2 < v@.len() ==> matches_shape(
                            #[trigger] v@[k2],
                            model_line_shapes(lv[i as int], *pu)[k2],
                            TranslationSource::Generated,
                        ));
                }
                let ghost vv = v@;
                entries.append(&mut v);
                proof {
                    assert(entries@ == done + vv);
                    assert forall|k: int|
                        0 <= k < entries@.len() implies matches_shape(
                        #[trigger] entries@[k],
                        model_shapes(cur, *pu)[k],
                        TranslationSource::Generated,
                    ) by {
                        if k < done.len() {
                            assert(entries@[k] == done[k]);
                            assert(model_shapes(cur, *pu)[k] == model_shapes(pre, *pu)[k]);
                        } else {
                            assert(entries@[k] == vv[k - done.len()]);
                            assert(model_shapes(cur, *pu)[k] == model_line_shapes(
                                lv[i as int],
                                *pu,
                            )[k - done.len()]);
                        }
                    }
                }
            },
            None => {
                proof {
                    assert(model_line_shapes(lv[i as int], *pu) =~= Seq::<(Seq<char>, u32, Seq<int>)>::empty());
                    assert(model_shapes(cur, *pu) =~= model_shapes(pre, *pu));
                }
            },
        }
        i = i + 1;
    }
    proof {
        assert(lv.subrange(0, n as int) =~= lv);
    }
    Dictionary { entries }
}

/// The search service: a built index together with its lexicon.
pub struct TokiSamaSearch {
    toki_sama: TokiSama,
    pu: Pu,
}

/// The lexicon text of one loaded data file is usable: a header line, at
/// most 256 word lines, each with at least three comma-separated fields.
pub open spec fn valid_pu_lines(lines: Seq<Seq<char>>) -> bool {
    &&& lines.len() >= 1
    &&& lines.len() - 1 <= 256
    &&& (forall|i: int| 1 <= i < lines.len() ==> split_on(#[trigger] lines[i], ',').len() >= 3)
}

impl TokiSamaSearch {
    pub closed spec fn index(&self) -> TokiSama {
        self.toki_sama
    }

    pub closed spec fn lexicon(&self) -> Pu {
        self.pu
    }

    pub open spec fn wf(&self) -> bool {
        self.index().wf() && self.index().records_ok(self.lexicon())
    }

    /// Loads the lexicon, merges the three record sources in trust order —
    /// core vocabulary, curated compounds, then the mined model — and
    /// builds the index.
    pub fn new(pu_data: &str, nimi_pu_str: &str, compounds_str: &str, model_str: &str) -> (r:
        Self)
        requires
            valid_pu_lines(lines_of(pu_data@)),
        ensures
            r.wf(),
            r.lexicon().word_count() == lines_of(pu_data@).len() - 1,
            exists|e1: Seq<Translation>, e2: Seq<Translation>, e3: Seq<Translation>|
                {
                    &&& #[trigger] shapes_match(
                        e1,
                        wordset_shapes(lines_of(nimi_pu_str@), r.lexicon()),
                        TranslationSource::NimiPu,
                    )
                    &&& #[trigger] shapes_match(
                        e2,
                        wordset_shapes(lines_of(compounds_str@), r.lexicon()),
                        TranslationSource::Compounds,
                    )
                    &&& #[trigger] shapes_match(
                        e3,
                        model_shapes(lines_of(model_str@), r.lexicon()),
                        TranslationSource::Generated,
                    )
                    &&& r.index().records().to_multiset() == dedup_first(
                        dedup_first(dedup_first(e1) + e2) + e3,
                    ).to_multiset()
                },
    {
        let pu_lines = split_lines(pu_data);
        proof {
            assert forall|i: int|
                1 <= i < pu_lines@.len() implies split_on((#[trigger] pu_lines@[i])@, ',').len()
                >= 3 by {
                assert(pu_lines@[i]@ == lines_of(pu_data@)[i]);
            }
        }
        let pu = Pu::from_lines(&pu_lines);
        let mut dict = Dictionary::new();
        let nimi_pu = parse_wordset(nimi_pu_str, &pu, TranslationSource::NimiPu);
        let ghost d0 = dict.entries@;
        let ghost d1 = nimi_pu.entries@;
        dict.merge_with(nimi_pu);
        proof {
            crate::dictionary::lemma_dedup_wf(d0 + d1, pu);
        }
        let compounds = parse_wordset(compounds_str, &pu, TranslationSource::Compounds);
        let ghost d2 = dict.entries@;
        let ghost d3 = compounds.entries@;
        dict.merge_with(compounds);
        proof {
            crate::dictionary::lemma_dedup_wf(d2 + d3, pu);
        }
        let model = read_model(model_str, &pu);
        let ghost d4 = dict.entries@;
        let ghost d5 = model.entries@;
        dict.merge_with(model);
        proof {
            crate::dictionary::lemma_dedup_wf(d4 + d5, pu);
        }
        let ghost final_entries = dict.entries@;
        proof {
            assert(Seq::<Translation>::empty() + d1 =~= d1);
            assert(final_entries == dedup_first(dedup_first(dedup_first(d1) + d3) + d5));
        }
        let toki_sama = TokiSama::new(dict);
        proof {
            assert forall|r2: int|
                0 <= r2 < toki_sama.records().len() implies (
            #[trigger] toki_sama.records()[r2]).wf() && toki_sama.records()[r2].in_lexicon(
                pu,
            ) by {
                assert(final_entries.contains(toki_sama.records()[r2]));
                let j = choose|j: int|
                    0 <= j < final_entries.len() && final_entries[j] == toki_sama.records()[r2];
                assert(final_entries[j].wf() && final_entries[j].in_lexicon(pu));
            }
        }
        let r = TokiSamaSearch { toki_sama, pu };
        proof {
            assert(shapes_match(
                d1,
                wordset_shapes(lines_of(nimi_pu_str@), r.lexicon()),
                TranslationSource::NimiPu,
            ) && shapes_match(
                d3,
                wordset_shapes(lines_of(compounds_str@), r.lexicon()),
                TranslationSource::Compounds,
            ) && shapes_match(
                d5,
                model_shapes(lines_of(model_str@), r.lexicon()),
                TranslationSource::Generated,
            ) && r.index().records().to_multiset() == dedup_first(
                dedup_first(dedup_first(d1) + d3) + d5,
            ).to_multiset());
        }
        r
    }

    /// Ranked prefix search over the built index: the same promises as the
    /// index's own lookup — the count of results is the number of matching
    /// keys' records capped at five (so the result is empty exactly when
    /// nothing matches), every completion renders a matching record for the
    /// raw search text, keys equal to the raw text come first, keys ascend
    /// lexicographically within a class, and the completions are the first
    /// entries of the full ranked selection, in its order.
    pub fn search(&self, prefix: &str) -> (res: Vec<Completion>)
        requires
            self.wf(),
        ensures
            res@.len() <= 5,
            forall|i: int|
                0 <= i < res@.len() ==> some_completion_of(
                    self.index().records(),
                    lower_of(prefix@),
                    prefix@,
                    self.lexicon(),
                    #[trigger] res@[i],
                ),
            forall|i: int|
                0 <= i < res@.len() ==> lower_of(prefix@).is_prefix_of(
                    (#[trigger] res@[i]).entry_english@,
                ),
            forall|i: int, j: int|
                0 <= i < j < res@.len() && (#[trigger] res@[j]).entry_english@ == prefix@ ==> (
                #[trigger] res@[i]).entry_english@ == prefix@,
            forall|i: int, j: int|
                0 <= i < j < res@.len() && ((#[trigger] res@[i]).entry_english@ == prefix@) == ((
                #[trigger] res@[j]).entry_english@ == prefix@) ==> crate::text::lex_le(
                    res@[i].entry_english@,
                    res@[j].entry_english@,
                ),
            res@.len() == 0 <==> (forall|rank: int|
                !crate::index::key_matches(
                    self.index().records(),
                    lower_of(prefix@),
                    rank,
                )),
            res@.len() == if crate::index::count_matching(
                self.index().records(),
                lower_of(prefix@),
                self.index().records().len() as int,
            ) > 5 {
                5int
            } else {
                crate::index::count_matching(
                    self.index().records(),
                    lower_of(prefix@),
                    self.index().records().len() as int,
                )
            },
            exists|sel: Seq<(Seq<char>, int)>|
                #[trigger] crate::index::selection_ok(
                    self.index().records(),
                    lower_of(prefix@),
                    prefix@,
                    sel,
                ) && (forall|i: int|
                    0 <= i < res@.len() ==> crate::index::completion_of(
                        self.index().records(),
                        sel[i].1,
                        prefix@,
                        self.lexicon(),
                        #[trigger] res@[i],
                    )),
    {
        self.toki_sama.lookup(prefix, &self.pu)
    }
}

} // verus!
