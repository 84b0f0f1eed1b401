//! The association miner and the corpus parsers, exercised on small corpora.

use toki_sama::analysis::{
    default_ignore_words, Analysis, CountMap, TranslationBag,
};
use toki_sama::parsing::{
    normalize_for_def, parse, parse_tsv, split_csv, str_eq, strip_talker, RawTranslation,
};
use toki_sama::pu::Pu;

fn corpus_pu() -> Pu {
    Pu::from_subset(&[("moku", "food"), ("li", "particle"), ("suli", "big")])
}

#[test]
fn count_map_basics() {
    let mut m = CountMap::<String>::new();
    let cat = String::from("cat");
    let dog = String::from("dog");
    assert!(!m.contains_key(&cat));
    assert_eq!(m.get(&cat), 0);
    m.incr(&cat, 1);
    m.incr(&cat, 2);
    m.incr(&dog, 5);
    assert!(m.contains_key(&cat));
    assert_eq!(m.get(&cat), 3);
    assert_eq!(m.get(&dog), 5);
    // saturating at the counter ceiling
    m.incr(&dog, u32::MAX);
    assert_eq!(m.get(&dog), u32::MAX);
}

#[test]
fn count_map_zero_increment_still_records_the_key() {
    let mut m = CountMap::<String>::new();
    let k = String::from("seen");
    m.incr(&k, 0);
    assert!(m.contains_key(&k));
    assert_eq!(m.get(&k), 0);
}

#[test]
fn count_map_incr_other_adds_pointwise() {
    let pu = corpus_pu();
    let moku = pu.lookup("moku").unwrap();
    let suli = pu.lookup("suli").unwrap();
    let mut a = CountMap::<toki_sama::pu::TokiPonaWord>::new();
    a.incr(&moku, 2);
    let mut b = CountMap::<toki_sama::pu::TokiPonaWord>::new();
    b.incr(&moku, 3);
    b.incr(&suli, 1);
    a.incr_other(&b);
    assert_eq!(a.get(&moku), 5);
    assert_eq!(a.get(&suli), 1);
}

#[test]
fn bag_counts_tokens_and_drops_particles() {
    let pu = corpus_pu();
    let ignore = default_ignore_words(&pu);
    let bag = TranslationBag::new("the Food the", "moku li suli moku", &pu, &ignore);
    // english tokens are case-preserving
    assert_eq!(bag.english_words.get(&String::from("the")), 2);
    assert_eq!(bag.english_words.get(&String::from("Food")), 1);
    assert!(!bag.english_words.contains_key(&String::from("food")));
    // the particle `li` is excluded, unknown words are dropped
    let moku = pu.lookup("moku").unwrap();
    let li = pu.lookup("li").unwrap();
    let suli = pu.lookup("suli").unwrap();
    assert_eq!(bag.toki_pona_words.get(&moku), 2);
    assert_eq!(bag.toki_pona_words.get(&suli), 1);
    assert!(!bag.toki_pona_words.contains_key(&li));
}

// Scenario: three aligned pairs where `moku` always co-occurs with `food`:
// the global count is 3 and the association score is exactly 3 * 3 / (3 + 1),
// which a cutoff of 100 suppresses entirely.
#[test]
fn association_score_small_corpus() {
    let pu = corpus_pu();
    let ignore = default_ignore_words(&pu);
    let bags = vec![
        TranslationBag::new("food now", "moku", &pu, &ignore),
        TranslationBag::new("more food", "moku", &pu, &ignore),
        TranslationBag::new("food", "moku", &pu, &ignore),
    ];
    let analysis = Analysis::new(bags);
    let moku = pu.lookup("moku").unwrap();
    assert_eq!(analysis.counts.get(&moku), 3);

    let scored = analysis.lookup("Food");
    assert_eq!(scored.len(), 1);
    assert_eq!(scored[0].0, moku);
    // score = 3 * 3 / (3 + 1) = 9/4 = 2.25
    assert_eq!(scored[0].1.num, 9);
    assert_eq!(scored[0].1.den, 4);

    // the reference cutoff of 100 suppresses this low-signal corpus
    assert!(analysis.model_row("food", 100).is_none());
    assert!(analysis.emit_model(100).is_empty());

    // a cutoff of 2 admits it; the emitted score is floored to 2
    let row = analysis.model_row("food", 2).unwrap();
    assert_eq!(row.english, "food");
    assert_eq!(row.candidates.len(), 1);
    assert_eq!(row.candidates[0].0, moku);
    assert_eq!(row.candidates[0].1, 2);

    // the rendered line is in the format the re-ingestion step parses
    let line = row.to_line(&pu);
    assert_eq!(line, "food\tmoku:2");
    let back = toki_sama::translation::Translation::try_from_model(&line, &pu).unwrap();
    assert_eq!(back.len(), 1);
    assert_eq!(back[0].english(), "food");
    assert_eq!(back[0].compound().to_string(&pu), "moku");
}

#[test]
fn lookup_ranks_by_discounted_score() {
    let pu = corpus_pu();
    let ignore = default_ignore_words(&pu);
    // `suli` is rarer overall than `moku`, so it scores higher next to "big"
    let bags = vec![
        TranslationBag::new("big", "suli moku", &pu, &ignore),
        TranslationBag::new("other", "moku moku", &pu, &ignore),
    ];
    let analysis = Analysis::new(bags);
    let scored = analysis.lookup("big");
    assert_eq!(scored.len(), 2);
    let suli = pu.lookup("suli").unwrap();
    let moku = pu.lookup("moku").unwrap();
    // suli: 2*1/(1+1) = 1; moku: 2*1/(3+1) = 0.5
    assert_eq!(scored[0].0, suli);
    assert_eq!(scored[0].1.num, 2);
    assert_eq!(scored[0].1.den, 2);
    assert_eq!(scored[1].0, moku);
    assert_eq!(scored[1].1.num, 2);
    assert_eq!(scored[1].1.den, 4);
}

#[test]
fn emit_model_keeps_word_list_order() {
    let pu = corpus_pu();
    let ignore = default_ignore_words(&pu);
    let bags = vec![
        TranslationBag::new("alpha", "suli", &pu, &ignore),
        TranslationBag::new("beta", "moku", &pu, &ignore),
    ];
    let analysis = Analysis::new(bags);
    // both words score 2 * 1 / (1 + 1) = 1 > 0
    let rows = analysis.emit_model(0);
    assert_eq!(rows.len(), 2);
    assert_eq!(rows[0].english, "alpha");
    assert_eq!(rows[1].english, "beta");
}

#[test]
fn normalization_and_talker_stripping() {
    assert_eq!(strip_talker("[dan] hello there"), " hello there");
    assert_eq!(strip_talker("  [dan] hi"), " hi");
    assert_eq!(strip_talker("a [dan] hi"), "a [dan] hi");
    assert_eq!(strip_talker("no tag"), "no tag");
    assert_eq!(normalize_for_def("[dan] Hello, World\u{e9}!"), " hello  world  ");
}

#[test]
fn csv_splitting_respects_quotes() {
    let fields = split_csv("a,\"b,c\",d\\\"e,f");
    assert_eq!(fields, vec!["a", "\"b,c\"", "d\\\"e", "f"]);
    let lone = split_csv("");
    assert_eq!(lone, vec![""]);
}

#[test]
fn str_eq_is_caseless_and_quote_trimmed() {
    assert!(str_eq("\"Text Start\"", "text start"));
    assert!(str_eq("PREDEFINE", "predefine"));
    assert!(!str_eq("original", "final"));
}

#[test]
fn parse_csv_corpus() {
    let lines: Vec<String> = vec![
        "\u{feff}id,translation,original,final".to_string(),
        "1,predefine,unused,unused".to_string(),
        "2,text start,Hello World,moku li suli".to_string(),
        "3,,Second Line!,suli".to_string(),
        "short".to_string(),
        "4,,Third,moku".to_string(),
    ];
    let rows = parse(lines).unwrap();
    assert_eq!(rows.len(), 3);
    assert_eq!(rows[0].english, "hello world");
    assert_eq!(rows[0].toki_pona, "moku li suli");
    assert_eq!(rows[1].english, "second line ");
    assert_eq!(rows[1].toki_pona, "suli");
    assert_eq!(rows[2].english, "third");

    // a header without the needed columns fails, and so does empty input
    let bad: Vec<String> = vec!["id,nope".to_string(), "1,2".to_string()];
    assert!(parse(bad).is_none());
    assert!(parse(Vec::new()).is_none());
}

#[test]
fn parse_tsv_corpus_skips_short_rows() {
    let lines: Vec<String> = vec![
        "1\tmoku li suli\tx\tHello World".to_string(),
        "short\trow".to_string(),
        "2\tsuli\tx\tBig!".to_string(),
    ];
    let rows = parse_tsv(&lines).unwrap();
    assert_eq!(rows.len(), 2);
    assert_eq!(rows[0].english, "hello world");
    assert_eq!(rows[0].toki_pona, "moku li suli");
    assert_eq!(rows[1].english, "big ");
}

#[test]
fn raw_translation_normalizes_both_sides() {
    let rt = RawTranslation::new("[mi] Food!", "moku li");
    assert_eq!(rt.english, " food ");
    assert_eq!(rt.toki_pona, "moku li");
}
