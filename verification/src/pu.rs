//! The Lexicon: a read-only table mapping Toki Pona surface words to stable
//! numeric ids and back, with an English gloss per word.

use vstd::prelude::*;

use crate::text::{split_on, split_on_char, str_eq_str, string_from_chars, to_char_vec};

verus! {

/// A stable numeric id for one Toki Pona word of a loaded `Pu`.
#[derive(Debug, Clone, Copy, PartialEq, Eq, Hash, Structural)]
pub struct TokiPonaWord(pub(crate) u8);

impl TokiPonaWord {
    /// The id as an index into the owning lexicon's table.
    pub closed spec fn idx(self) -> int {
        self.0 as int
    }
}

#[derive(Debug)]
struct PuEntry {
    toki_pona: String,
    definition: String,
}

/// The standard English <-> Toki Pona dictionary, loaded once and then only
/// read. Entry `i` belongs to the word with id `i`.
pub struct Pu {
    definitions: Vec<PuEntry>,
}

impl Pu {
    /// Ids are single bytes, so a lexicon never holds more than 256 words.
    #[verifier::type_invariant]
    spec fn fits_id_space(&self) -> bool {
        self.definitions@.len() <= 256
    }
}

/// Distinct word values never share an id.
pub proof fn lemma_word_id_injective(a: TokiPonaWord, b: TokiPonaWord)
    ensures
        a.idx() == b.idx() ==> a == b,
{
}

/// The largest index of an entry whose word text equals `s`, mirroring the
/// way repeated definitions overwrite earlier ones at load time.
pub open spec fn last_word_index(entries: Seq<(Seq<char>, Seq<char>)>, s: Seq<char>) -> Option<int>
    decreases entries.len(),
{
    if entries.len() == 0 {
        None
    } else if entries.last().0 == s {
        Some(entries.len() - 1)
    } else {
        last_word_index(entries.drop_last(), s)
    }
}

pub proof fn lemma_last_word_index(entries: Seq<(Seq<char>, Seq<char>)>, s: Seq<char>)
    ensures
        match last_word_index(entries, s) {
            Some(i) => 0 <= i < entries.len() && entries[i].0 == s && (forall|j: int|
                i < j < entries.len() ==> entries[j].0 != s),
            None => forall|j: int| 0 <= j < entries.len() ==> entries[j].0 != s,
        },
    decreases entries.len(),
{
    if entries.len() > 0 && entries.last().0 != s {
        lemma_last_word_index(entries.drop_last(), s);
        let rest = entries.drop_last();
        match last_word_index(rest, s) {
            Some(i) => {
                assert forall|j: int| i < j < entries.len() implies entries[j].0 != s by {
                    if j < entries.len() - 1 {
                        assert(entries[j] == rest[j]);
                    }
                }
            },
            None => {
                assert forall|j: int| 0 <= j < entries.len() implies entries[j].0 != s by {
                    if j < entries.len() - 1 {
                        assert(entries[j] == rest[j]);
                    }
                }
            },
        }
    }
}

proof fn lemma_last_word_index_from(entries: Seq<(Seq<char>, Seq<char>)>, s: Seq<char>, i: int)
    requires
        0 <= i <= entries.len(),
        forall|j: int| i <= j < entries.len() ==> entries[j].0 != s,
    ensures
        i > 0 && entries[i - 1].0 == s ==> last_word_index(entries, s) == Some(i - 1),
        i == 0 ==> last_word_index(entries, s) is None,
{
    lemma_last_word_index(entries, s);
    if i > 0 && entries[i - 1].0 == s {
        match last_word_index(entries, s) {
            Some(k) => {
                assert(k >= i - 1);
                assert(k <= i - 1);
            },
            None => {
                assert(entries[i - 1].0 == s);
            },
        }
    }
}

impl Pu {
    /// The lexicon as a sequence of (word text, gloss text) pairs.
    pub closed spec fn entries(&self) -> Seq<(Seq<char>, Seq<char>)> {
        self.definitions@.map_values(|e: PuEntry| (e.toki_pona@, e.definition@))
    }

    pub open spec fn word_count(&self) -> nat {
        self.entries().len()
    }

    pub open spec fn spec_word(&self, i: int) -> Seq<char> {
        self.entries()[i].0
    }

    pub open spec fn spec_def(&self, i: int) -> Seq<char> {
        self.entries()[i].1
    }

    pub open spec fn spec_lookup(&self, s: Seq<char>) -> Option<int> {
        last_word_index(self.entries(), s)
    }

    /// Builds the lexicon from the lines of its on-disk form: one header
    /// line, then one `word,alternative,gloss,...` line per word.
    pub fn from_lines(lines: &Vec<String>) -> (r: Self)
        requires
            lines@.len() >= 1,
            lines@.len() - 1 <= 256,
            forall|i: int| 1 <= i < lines@.len() ==> split_on(#[trigger] lines@[i]@, ',').len() >= 3,
        ensures
            r.word_count() == lines@.len() - 1,
            forall|i: int|
                0 <= i < lines@.len() - 1 ==> #[trigger] r.spec_word(i) == split_on(
                    lines@[i + 1]@,
                    ',',
                )[0] && r.spec_def(i) == split_on(lines@[i + 1]@, ',')[2],
    {
        let n = lines.len();
        let mut definitions: Vec<PuEntry> = Vec::new();
        let mut i: usize = 1;
        while i < n
            invariant
                1 <= i <= n,
                n == lines@.len(),
                n - 1 <= 256,
                definitions@.len() == i - 1,
                forall|i2: int|
                    1 <= i2 < n ==> split_on(#[trigger] lines@[i2]@, ',').len() >= 3,
                forall|j: int|
                    0 <= j < i - 1 ==> #[trigger] definitions@[j].toki_pona@ == split_on(
                        lines@[j + 1]@,
                        ',',
                    )[0] && definitions@[j].definition@ == split_on(lines@[j + 1]@, ',')[2],
            decreases n - i,
        {
            let chars = to_char_vec(lines[i].as_str());
            let parts = split_on_char(&chars, ',');
            let toki_pona = string_from_chars(&parts[0]);
            let definition = string_from_chars(&parts[2]);
            definitions.push(PuEntry { toki_pona, definition });
            i = i + 1;
        }
        Pu { definitions }
    }

    /// Builds a small lexicon directly from (word, gloss) pairs.
    pub fn from_subset(defs: &[(&str, &str)]) -> (r: Self)
        requires
            defs@.len() <= 256,
        ensures
            r.word_count() == defs@.len(),
            forall|i: int|
                0 <= i < defs@.len() ==> #[trigger] r.spec_word(i) == defs@[i].0@ && r.spec_def(i)
                    == defs@[i].1@,
    {
        let n = defs.len();
        let mut definitions: Vec<PuEntry> = Vec::new();
        let mut i: usize = 0;
        while i < n
            invariant
                i <= n,
                n == defs@.len(),
                definitions@.len() == i,
                forall|j: int|
                    0 <= j < i ==> #[trigger] definitions@[j].toki_pona@ == defs@[j].0@
                        && definitions@[j].definition@ == defs@[j].1@,
            decreases n - i,
        {
            let toki_chars = to_char_vec(defs[i].0);
            let def_chars = to_char_vec(defs[i].1);
            let toki_pona = string_from_chars(&toki_chars);
            let definition = string_from_chars(&def_chars);
            definitions.push(PuEntry { toki_pona, definition });
            i = i + 1;
        }
        Pu { definitions }
    }

    /// The surface text of a word id of this lexicon.
    pub fn get(&self, word: &TokiPonaWord) -> (r: &str)
        requires
            word.idx() < self.word_count(),
        ensures
            r@ == self.spec_word(word.idx()),
    {
        self.definitions[word.0 as usize].toki_pona.as_str()
    }

    /// The English gloss of a word id of this lexicon.
    pub fn define(&self, word: &TokiPonaWord) -> (r: &str)
        requires
            word.idx() < self.word_count(),
        ensures
            r@ == self.spec_def(word.idx()),
    {
        self.definitions[word.0 as usize].definition.as_str()
    }

    /// Whether `word` is an id of this lexicon — the condition `get` and
    /// `define` require.
    pub fn knows(&self, word: &TokiPonaWord) -> (r: bool)
        ensures
            r == (word.idx() < self.word_count()),
    {
        (word.0 as usize) < self.definitions.len()
    }

    /// The id of the word whose surface text is `s`, if any; when a word
    /// text was defined twice, the later definition wins.
    pub fn lookup(&self, s: &str) -> (r: Option<TokiPonaWord>)
        ensures
            match r {
                Some(w) => self.spec_lookup(s@) == Some(w.idx()) && w.idx() < self.word_count()
                    && self.spec_word(w.idx()) == s@,
                None => self.spec_lookup(s@) is None,
            },
    {
        let mut i: usize = self.definitions.len();
        while i > 0
            invariant
                i <= self.entries().len(),
                forall|j: int| i <= j < self.entries().len() ==> self.entries()[j].0 != s@,
            decreases i,
        {
            if str_eq_str(self.definitions[i - 1].toki_pona.as_str(), s) {
                proof {
                    use_type_invariant(self);
                    lemma_last_word_index_from(self.entries(), s@, i as int);
                }
                // ids were assigned in table order, so the id is the index
                return Some(TokiPonaWord((i - 1) as u8));
            }
            i = i - 1;
        }
        proof {
            lemma_last_word_index_from(self.entries(), s@, 0);
        }
        None
    }
}

} // verus!
