//! The assembled search service, and concrete checks of the distance
//! heuristic's bounds.

use toki_sama::compound::CompoundWord;
use toki_sama::pu::Pu;
use toki_sama::search::{parse_wordset, read_model, TokiSamaSearch};
use toki_sama::translation::TranslationSource;

fn compound_of(pu: &Pu, words: &[&str]) -> CompoundWord {
    let mut c = CompoundWord::empty();
    for w in words {
        c.push_word(pu.lookup(w).unwrap());
    }
    c
}

// Distance bounds: for non-empty compounds without repeats in the second
// operand, ||A| - |B|| <= dist(A, B) <= |A| + |B|.
#[test]
fn distance_bounds_on_examples() {
    let pu = Pu::from_subset(&[("ilo", "tool"), ("musi", "play"), ("suli", "big")]);
    let cases: [(&[&str], &[&str]); 4] = [
        (&["ilo"], &["ilo"]),
        (&["ilo", "musi"], &["ilo"]),
        (&["ilo", "musi"], &["suli"]),
        (&["ilo", "musi", "suli"], &["musi", "ilo"]),
    ];
    for (a_words, b_words) in cases {
        let a = compound_of(&pu, a_words);
        let b = compound_of(&pu, b_words);
        let d = a.dist(&b);
        let (la, lb) = (a_words.len() as i64, b_words.len() as i64);
        assert!((d as i64) >= (la - lb).abs());
        assert!((d as i64) <= la + lb);
    }
    // exact values
    let a = compound_of(&pu, &["ilo", "musi"]);
    let b = compound_of(&pu, &["ilo"]);
    assert_eq!(a.dist(&b), 1);
    assert_eq!(b.dist(&a), 1);
    let c = compound_of(&pu, &["suli"]);
    assert_eq!(a.dist(&c), 3);
    // a repeated word in the second operand can double-count the overlap;
    // the distance floors at zero instead of underflowing
    let rep = compound_of(&pu, &["ilo", "ilo"]);
    assert_eq!(b.dist(&rep), 0);
}

#[test]
fn empty_compounds_are_tolerated() {
    let pu = Pu::from_subset(&[("ilo", "tool")]);
    let empty = CompoundWord::empty();
    let one = compound_of(&pu, &["ilo"]);
    assert_eq!(empty.len(), 0);
    assert_eq!(empty.dist(&one), 1);
    assert_eq!(one.dist(&empty), 1);
    assert_eq!(empty.dist(&empty), 0);
    assert_eq!(empty.to_string(&pu), "");
}

#[test]
fn pu_round_trips_words_and_glosses() {
    let lines: Vec<String> = vec![
        "word,alt,definition".to_string(),
        "moku,,food or eating".to_string(),
        "suli,,big".to_string(),
    ];
    let pu = Pu::from_lines(&lines);
    let moku = pu.lookup("moku").unwrap();
    let suli = pu.lookup("suli").unwrap();
    assert_eq!(pu.get(&moku), "moku");
    assert_eq!(pu.define(&moku), "food or eating");
    assert_eq!(pu.get(&suli), "suli");
    assert!(pu.lookup("akesi").is_none());
}

#[test]
fn pu_duplicate_word_keeps_the_later_definition() {
    let pu = Pu::from_subset(&[("moku", "food"), ("moku", "to eat")]);
    let moku = pu.lookup("moku").unwrap();
    assert_eq!(pu.define(&moku), "to eat");
    assert_eq!(pu.get(&moku), "moku");
}

#[test]
fn wordset_reader_skips_bad_lines() {
    let pu = Pu::from_subset(&[("moku", "food"), ("lipu", "paper")]);
    let input = "moku: [food 90]\n# comment\nbroken line\nlipu: [paper 80, sheet 5]\n";
    let dict = parse_wordset(input, &pu, TranslationSource::NimiPu);
    assert_eq!(dict.entries.len(), 3);
    assert_eq!(dict.entries[0].english(), "food");
    assert_eq!(dict.entries[1].english(), "paper");
    assert_eq!(dict.entries[2].english(), "sheet");
}

#[test]
fn model_reader_skips_bad_lines() {
    let pu = Pu::from_subset(&[("moku", "food"), ("suli", "big")]);
    let model = "eat\tmoku:120\nbroken\nlarge\tsuli:60\tmoku:10\n";
    let dict = read_model(model, &pu);
    assert_eq!(dict.entries.len(), 2);
    assert_eq!(dict.entries[0].english(), "eat");
    assert_eq!(dict.entries[0].weight(), 12);
    assert_eq!(dict.entries[1].english(), "large");
    assert_eq!(dict.entries[1].weight(), 6);
    assert_eq!(dict.entries[1].compound().to_string(&pu), "suli");
}

#[test]
fn search_service_end_to_end() {
    let pu_data = "word,alt,definition\nmoku,,food\nlipu,,paper\nlape,,sleep\n";
    let nimi_pu = "moku: [food 90, eat 80]\nlipu: [paper 70]\nlape: [sleep 60]\n";
    let compounds = "lipu moku: [menu 50]\n";
    let model = "food\tmoku:200\n";
    let search = TokiSamaSearch::new(pu_data, nimi_pu, compounds, model);

    let res = search.search("menu");
    assert_eq!(res.len(), 1);
    assert_eq!(res[0].entry_english, "menu");
    assert_eq!(res[0].entry_weight, 50);
    assert_eq!(res[0].source, TranslationSource::Compounds);
    assert_eq!(res[0].original_translation_string, "lipu moku");

    // the mined duplicate of (food, [moku]) lost to the earlier curated one
    let res = search.search("food");
    assert_eq!(res.len(), 1);
    assert_eq!(res[0].entry_weight, 90);
    assert_eq!(res[0].source, TranslationSource::NimiPu);

    // prefix search across keys, capped and prefix-correct
    let res = search.search("p");
    assert_eq!(res.len(), 1);
    assert_eq!(res[0].entry_english, "paper");

    assert!(search.search("nothing").is_empty());
}
