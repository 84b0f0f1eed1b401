//! Record parsing, dictionary merging and index lookup, exercised end to end.

use toki_sama::compound::CompoundWord;
use toki_sama::dictionary::Dictionary;
use toki_sama::index::TokiSama;
use toki_sama::pu::Pu;
use toki_sama::translation::{Translation, TranslationSource};

fn small_pu() -> Pu {
    Pu::from_subset(&[("lipu", "paper"), ("moku", "food")])
}

#[test]
fn toki_sama_parse_translation() {
    let pu = small_pu();
    let parsed = Translation::try_parse("lipu moku: [menu 50]", &pu, TranslationSource::Compounds);
    assert!(parsed.is_some());
    assert_eq!("menu", parsed.unwrap()[0].english());
}

#[test]
fn lib_parse_translation() {
    let pu = small_pu();
    let parsed = Translation::try_parse("lipu moku: [menu 50]", &pu, TranslationSource::Compounds);
    assert!(parsed.is_some());
    assert_eq!("menu", parsed.unwrap()[0].english());
}

// Round-trip parse: one record line yields exactly one record with the
// expected key, weight and compound.
#[test]
fn round_trip_parse_single_record() {
    let pu = small_pu();
    let parsed =
        Translation::try_parse("lipu moku: [menu 50]", &pu, TranslationSource::Compounds).unwrap();
    assert_eq!(parsed.len(), 1);
    let rec = &parsed[0];
    assert_eq!(rec.english(), "menu");
    assert_eq!(rec.weight(), 50);
    assert_eq!(rec.source(), TranslationSource::Compounds);
    assert_eq!(rec.compound().len(), 2);
    assert_eq!(rec.compound().to_string(&pu), "lipu moku");
}

#[test]
fn parse_multiple_definitions_share_compound() {
    let pu = small_pu();
    let parsed = Translation::try_parse(
        "lipu moku: [menu 50, Shopping List 10]",
        &pu,
        TranslationSource::NimiPu,
    )
    .unwrap();
    assert_eq!(parsed.len(), 2);
    assert_eq!(parsed[0].english(), "menu");
    assert_eq!(parsed[1].english(), "shopping list");
    assert_eq!(parsed[1].weight(), 10);
    assert!(parsed[0].compound().same_words(parsed[1].compound()));
}

#[test]
fn parse_empty_and_comment_lines_yield_nothing() {
    let pu = small_pu();
    assert_eq!(
        Translation::try_parse("", &pu, TranslationSource::NimiPu).unwrap().len(),
        0
    );
    assert_eq!(
        Translation::try_parse("# a comment", &pu, TranslationSource::NimiPu).unwrap().len(),
        0
    );
}

#[test]
fn parse_malformed_lines_fail() {
    let pu = small_pu();
    // no colon
    assert!(Translation::try_parse("lipu moku", &pu, TranslationSource::NimiPu).is_none());
    // unknown toki pona word
    assert!(Translation::try_parse("soweli: [animal 5]", &pu, TranslationSource::NimiPu).is_none());
    // missing brackets
    assert!(Translation::try_parse("lipu: menu 50", &pu, TranslationSource::NimiPu).is_none());
    // bracket order reversed
    assert!(Translation::try_parse("lipu: ]menu 50[", &pu, TranslationSource::NimiPu).is_none());
    // weight is not a number
    assert!(Translation::try_parse("lipu: [menu x5]", &pu, TranslationSource::NimiPu).is_none());
    // weight does not fit in 32 bits
    assert!(
        Translation::try_parse("lipu: [menu 4294967296]", &pu, TranslationSource::NimiPu).is_none()
    );
    // no space between phrase and weight
    assert!(Translation::try_parse("lipu: [menu50]", &pu, TranslationSource::NimiPu).is_none());
}

#[test]
fn parse_weight_at_u32_max() {
    let pu = small_pu();
    let parsed =
        Translation::try_parse("lipu: [menu 4294967295]", &pu, TranslationSource::NimiPu).unwrap();
    assert_eq!(parsed[0].weight(), u32::MAX);
}

fn one_record_dict(pu: &Pu, line: &str, source: TranslationSource) -> Dictionary {
    let mut d = Dictionary::new();
    d.entries = Translation::try_parse(line, pu, source).unwrap();
    d
}

// Dedup invariant: merging in either order retains the same set of
// (english, compound) pairs, and no pair is retained twice.
#[test]
fn merge_retains_same_pair_set_in_either_order() {
    let pu = small_pu();
    let mk = |src| {
        (
            one_record_dict(&pu, "lipu: [paper 10, sheet 4]", src),
            one_record_dict(&pu, "lipu: [paper 99]", src),
        )
    };
    let (mut ab, b) = mk(TranslationSource::NimiPu);
    ab.merge_with(b);
    let (ba_second, mut ba) = mk(TranslationSource::NimiPu);
    ba.merge_with(ba_second);
    let pairs = |d: &Dictionary| {
        let mut v: Vec<(String, String)> = d
            .entries
            .iter()
            .map(|t| (t.english().to_string(), t.compound().to_string(&pu)))
            .collect();
        v.sort();
        v
    };
    assert_eq!(pairs(&ab), pairs(&ba));
    // no duplicated pair inside a merged dictionary
    let p = pairs(&ab);
    for i in 1..p.len() {
        assert_ne!(p[i - 1], p[i]);
    }
    assert_eq!(ab.entries.len(), 2);
}

// Scenario: merging identical (english, compound) pairs from two tiers keeps
// whichever arrived first, not the higher-priority one.
#[test]
fn merge_keeps_first_seen_duplicate() {
    let pu = Pu::from_subset(&[("lape", "sleep")]);
    let canonical = one_record_dict(&pu, "lape: [sleep 10]", TranslationSource::NimiPu);
    let mut generated = Dictionary::new();
    let lape = pu.lookup("lape").unwrap();
    let mut compound = CompoundWord::empty();
    compound.push_word(lape);
    generated
        .entries
        .push(Translation::new(String::from("sleep"), compound, 50, TranslationSource::Generated));

    let mut first_canonical = Dictionary::new();
    first_canonical.merge_with(canonical);
    first_canonical.merge_with(generated);
    assert_eq!(first_canonical.entries.len(), 1);
    assert_eq!(first_canonical.entries[0].source(), TranslationSource::NimiPu);
    assert_eq!(first_canonical.entries[0].weight(), 10);

    let canonical2 = one_record_dict(&pu, "lape: [sleep 10]", TranslationSource::NimiPu);
    let mut generated2 = Dictionary::new();
    let mut compound2 = CompoundWord::empty();
    compound2.push_word(lape);
    generated2
        .entries
        .push(Translation::new(String::from("sleep"), compound2, 50, TranslationSource::Generated));
    let mut first_generated = Dictionary::new();
    first_generated.merge_with(generated2);
    first_generated.merge_with(canonical2);
    assert_eq!(first_generated.entries.len(), 1);
    assert_eq!(first_generated.entries[0].source(), TranslationSource::Generated);
    assert_eq!(first_generated.entries[0].weight(), 50);
}

// Sort invariant: adjacent records never decrease in tier, and inside one
// tier weights never increase.
#[test]
fn index_sorts_by_tier_then_weight() {
    let pu = small_pu();
    let mut dict = Dictionary::new();
    dict.merge_with(one_record_dict(&pu, "moku: [eat 3, dine 90]", TranslationSource::Generated));
    dict.merge_with(one_record_dict(&pu, "lipu: [paper 10, book 70]", TranslationSource::NimiPu));
    let index = TokiSama::new(dict);
    assert_eq!(index.num_records(), 4);
    let tier = |s: TranslationSource| match s {
        TranslationSource::NimiPu => 0,
        TranslationSource::Compounds => 1,
        TranslationSource::Generated => 2,
    };
    for i in 1..index.num_records() {
        let a = index.record_at(i - 1);
        let b = index.record_at(i);
        assert!(tier(a.source()) <= tier(b.source()));
        if tier(a.source()) == tier(b.source()) {
            assert!(a.weight() >= b.weight());
        }
    }
    assert_eq!(index.record_at(0).english(), "book");
    assert_eq!(index.record_at(1).english(), "paper");
    assert_eq!(index.record_at(2).english(), "dine");
    assert_eq!(index.record_at(3).english(), "eat");
}

// Prefix correctness: only keys starting with the prefix come back, an exact
// match leads, and an unmatched prefix yields nothing.
#[test]
fn lookup_prefix_and_exact_match_order() {
    let pu = Pu::from_subset(&[("ilo", "tool"), ("musi", "play"), ("men", "placeholder")]);
    let mut dict = Dictionary::new();
    dict.merge_with(one_record_dict(&pu, "ilo: [menu 5]", TranslationSource::NimiPu));
    dict.merge_with(one_record_dict(&pu, "musi: [men 9]", TranslationSource::NimiPu));
    dict.merge_with(one_record_dict(&pu, "men: [cat 7]", TranslationSource::NimiPu));
    let index = TokiSama::new(dict);

    let res = index.lookup("men", &pu);
    assert_eq!(res.len(), 2);
    // the key equal to the raw search text leads
    assert_eq!(res[0].entry_english, "men");
    assert_eq!(res[1].entry_english, "menu");
    for c in &res {
        assert!(c.entry_english.starts_with("men"));
        // every completion carries the search text it answered
        assert_eq!(c.english_search, "men");
    }

    assert!(index.lookup("zzz", &pu).is_empty());
    // lookup normalizes case before matching
    let upper = index.lookup("MENU", &pu);
    assert_eq!(upper.len(), 1);
    assert_eq!(upper[0].entry_english, "menu");
    assert_eq!(upper[0].english_search, "MENU");
    assert_eq!(upper[0].entry_weight, 5);
    assert_eq!(upper[0].original_translation_string, "ilo");
}

// After exact matches, completions follow lexicographic order of the key.
#[test]
fn lookup_orders_keys_lexicographically() {
    let pu = Pu::from_subset(&[("ilo", "tool")]);
    let mut dict = Dictionary::new();
    dict.merge_with(one_record_dict(&pu, "ilo: [menu 5]", TranslationSource::NimiPu));
    dict.merge_with(one_record_dict(&pu, "ilo: [mat 6]", TranslationSource::NimiPu));
    dict.merge_with(one_record_dict(&pu, "ilo: [me 7]", TranslationSource::NimiPu));
    dict.merge_with(one_record_dict(&pu, "ilo: [men 8]", TranslationSource::NimiPu));
    let index = TokiSama::new(dict);

    let keys: Vec<String> =
        index.lookup("m", &pu).iter().map(|c| c.entry_english.clone()).collect();
    assert_eq!(keys, vec!["mat", "me", "men", "menu"]);

    // an exact match jumps ahead of lexicographically smaller keys
    let keys: Vec<String> =
        index.lookup("me", &pu).iter().map(|c| c.entry_english.clone()).collect();
    assert_eq!(keys, vec!["me", "men", "menu"]);
}

#[test]
fn lookup_caps_results_at_five() {
    let pu = Pu::from_subset(&[("ilo", "tool")]);
    let mut dict = Dictionary::new();
    dict.merge_with(one_record_dict(
        &pu,
        "ilo: [tool 9, tools 8, toolbox 7, toolkit 6, toolshed 5, tooling 4]",
        TranslationSource::NimiPu,
    ));
    let index = TokiSama::new(dict);
    let res = index.lookup("tool", &pu);
    assert_eq!(res.len(), 5);
}

// The similar-translation expansion scans the whole dictionary and keeps
// close compounds ordered by (distance, length).
#[test]
fn lookup_similar_expansion() {
    let pu = Pu::from_subset(&[("ilo", "tool"), ("musi", "play"), ("suli", "big")]);
    let mut dict = Dictionary::new();
    dict.merge_with(one_record_dict(&pu, "ilo: [gadget 9]", TranslationSource::NimiPu));
    dict.merge_with(one_record_dict(&pu, "ilo musi: [toy 8]", TranslationSource::Compounds));
    dict.merge_with(one_record_dict(&pu, "suli: [large 7]", TranslationSource::NimiPu));
    let index = TokiSama::new(dict);
    let res = index.lookup("gadget", &pu);
    assert_eq!(res.len(), 1);
    let similar = &res[0].similar;
    // dist([ilo musi], [ilo]) = 2 + 1 - 2 = 1 <= max(1, 1); [suli] is at 2
    assert_eq!(similar.len(), 1);
    assert_eq!(similar[0].english, "toy");
    assert_eq!(similar[0].dist, 1);
    assert_eq!(similar[0].toki_pona_len, 2);
    assert_eq!(similar[0].toki_pona_string, "ilo musi");
    assert_eq!(similar[0].source, TranslationSource::Compounds);
}

#[test]
fn model_line_reconstruction() {
    let pu = Pu::from_subset(&[("soweli", "animal"), ("mu", "moo"), ("lape", "sleep")]);
    // greedy prefix: 100, then 50 (9*50 > 4*100), stops at 10 (9*10 <= 4*100)
    let recs =
        Translation::try_from_model("dog\tsoweli:100\tmu:50\tlape:10", &pu).unwrap();
    assert_eq!(recs.len(), 1);
    let rec = &recs[0];
    assert_eq!(rec.english(), "dog");
    assert_eq!(rec.weight(), 10);
    assert_eq!(rec.source(), TranslationSource::Generated);
    assert_eq!(rec.compound().to_string(&pu), "soweli mu");
}

#[test]
fn model_line_edge_cases() {
    let pu = Pu::from_subset(&[("soweli", "animal")]);
    // no candidates at all: no record
    assert_eq!(Translation::try_from_model("dog", &pu).unwrap().len(), 0);
    // unknown toki pona word: malformed
    assert!(Translation::try_from_model("dog\takesi:10", &pu).is_none());
    // missing colon: malformed
    assert!(Translation::try_from_model("dog\tsoweli10", &pu).is_none());
    // bad score: malformed
    assert!(Translation::try_from_model("dog\tsoweli:ten", &pu).is_none());
    // zero initial score keeps the compound empty but still emits a record
    let recs = Translation::try_from_model("dog\tsoweli:0", &pu).unwrap();
    assert_eq!(recs.len(), 1);
    assert_eq!(recs[0].compound().len(), 0);
    assert_eq!(recs[0].weight(), 0);
}

#[test]
fn model_garbage_filter_drops_overlong_compounds() {
    let pu = Pu::from_subset(&[
        ("a1", "x"),
        ("a2", "x"),
        ("a3", "x"),
        ("a4", "x"),
        ("a5", "x"),
        ("a6", "x"),
        ("a7", "x"),
        ("a8", "x"),
    ]);
    let line = "x\ta1:100\ta2:100\ta3:100\ta4:100\ta5:100\ta6:100\ta7:100\ta8:100";
    let recs = Translation::try_from_model(line, &pu).unwrap();
    assert_eq!(recs.len(), 0);
}
