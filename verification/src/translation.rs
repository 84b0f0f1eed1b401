//! Translation records: one scored, sourced mapping from an English key to a
//! compound word, and the two line parsers that create them.

use vstd::prelude::*;

use crate::compound::CompoundWord;
use crate::pu::Pu;
use crate::text::{
    all_digits, digits_val, find_char, lower_chars, lower_seq, parse_u32_chars, rfind_char,
    spec_find, spec_rfind, split_on, split_on_char, split_ws, split_whitespace_chars,
    string_from_chars, sub_chars, to_char_vec, trim_ws, trim_ws_chars,
};

verus! {

/// The trust tier a record came from; earlier variants outrank later ones.
#[derive(Debug, Clone, Copy, PartialEq, Eq, Hash, Structural)]
pub enum TranslationSource {
    /// Hand-authored core vocabulary.
    NimiPu,
    /// Hand-authored compound phrases.
    Compounds,
    /// Mined from corpora.
    Generated,
}

/// The priority rank of a tier: lower ranks are more trusted and sort first.
pub open spec fn tier_rank(s: TranslationSource) -> int {
    match s {
        TranslationSource::NimiPu => 0,
        TranslationSource::Compounds => 1,
        TranslationSource::Generated => 2,
    }
}

pub fn tier_rank_exec(s: TranslationSource) -> (r: u8)
    ensures
        r as int == tier_rank(s),
{
    match s {
        TranslationSource::NimiPu => 0,
        TranslationSource::Compounds => 1,
        TranslationSource::Generated => 2,
    }
}

/// One translation fact. Immutable once created.
pub struct Translation {
    weight: u32,
    toki_pona: CompoundWord,
    english: String,
    source: TranslationSource,
}

impl Translation {
    pub closed spec fn spec_english(&self) -> Seq<char> {
        self.english@
    }

    pub closed spec fn spec_weight(&self) -> u32 {
        self.weight
    }

    pub closed spec fn spec_source(&self) -> TranslationSource {
        self.source
    }

    pub closed spec fn spec_compound(&self) -> Seq<crate::pu::TokiPonaWord> {
        self.toki_pona@
    }

    /// Compound length small enough that any two compounds can be compared
    /// without arithmetic overflow. Every record this library builds has it.
    pub open spec fn wf(&self) -> bool {
        2 * self.spec_compound().len() <= usize::MAX
    }

    pub open spec fn in_lexicon(&self, pu: Pu) -> bool {
        forall|i: int|
            0 <= i < self.spec_compound().len() ==> (#[trigger] self.spec_compound()[i]).idx()
                < pu.word_count()
    }

    pub fn new(
        english: String,
        toki_pona: CompoundWord,
        weight: u32,
        source: TranslationSource,
    ) -> (r: Self)
        ensures
            r.spec_english() == english@,
            r.spec_compound() == toki_pona@,
            r.spec_weight() == weight,
            r.spec_source() == source,
    {
        Translation { weight, toki_pona, english, source }
    }

    pub fn english(&self) -> (r: &str)
        ensures
            r@ == self.spec_english(),
    {
        self.english.as_str()
    }

    pub fn weight(&self) -> (r: u32)
        ensures
            r == self.spec_weight(),
    {
        self.weight
    }

    pub fn source(&self) -> (r: TranslationSource)
        ensures
            r == self.spec_source(),
    {
        self.source
    }

    pub fn compound(&self) -> (r: &CompoundWord)
        ensures
            r@ == self.spec_compound(),
    {
        &self.toki_pona
    }

    /// A field-for-field copy.
    pub fn duplicate(&self) -> (r: Self)
        ensures
            r.spec_english() == self.spec_english(),
            r.spec_weight() == self.spec_weight(),
            r.spec_source() == self.spec_source(),
            r.spec_compound() == self.spec_compound(),
    {
        Translation {
            weight: self.weight,
            toki_pona: self.toki_pona.duplicate(),
            english: self.english.clone(),
            source: self.source,
        }
    }
}

/// Looks every token up in the lexicon, left to right; any unknown token
/// fails the whole sequence.
pub open spec fn lookup_ids(tokens: Seq<Seq<char>>, pu: Pu) -> Option<Seq<int>>
    decreases tokens.len(),
{
    if tokens.len() == 0 {
        Some(Seq::empty())
    } else {
        match lookup_ids(tokens.drop_last(), pu) {
            None => None,
            Some(ids) => match pu.spec_lookup(tokens.last()) {
                None => None,
                Some(i) => Some(ids.push(i)),
            },
        }
    }
}

proof fn lemma_lookup_ids_len(tokens: Seq<Seq<char>>, pu: Pu)
    ensures
        lookup_ids(tokens, pu) matches Some(ids) ==> ids.len() == tokens.len(),
    decreases tokens.len(),
{
    if tokens.len() > 0 {
        lemma_lookup_ids_len(tokens.drop_last(), pu);
    }
}

proof fn lemma_lookup_ids_none_extends(tokens: Seq<Seq<char>>, pu: Pu, j: int)
    requires
        0 <= j <= tokens.len(),
        lookup_ids(tokens.subrange(0, j), pu) is None,
    ensures
        lookup_ids(tokens, pu) is None,
    decreases tokens.len() - j,
{
    if j == tokens.len() {
        assert(tokens.subrange(0, j) =~= tokens);
    } else {
        assert(tokens.subrange(0, j + 1).drop_last() =~= tokens.subrange(0, j));
        lemma_lookup_ids_none_extends(tokens, pu, j + 1);
    }
}

/// Builds the compound for a token list, mirroring `lookup_ids`.
fn lookup_compound(tokens: &Vec<Vec<char>>, pu: &Pu) -> (r: Option<CompoundWord>)
    ensures
        ({
            let ts = tokens@.map_values(|t: Vec<char>| t@);
            match r {
                Some(c) => lookup_ids(ts, *pu) matches Some(ids) && c@.len() == ids.len() && (
                forall|m: int| 0 <= m < ids.len() ==> (#[trigger] c@[m]).idx() == ids[m]) && (
                forall|m: int| 0 <= m < c@.len() ==> (#[trigger] c@[m]).idx() < pu.word_count()),
                None => lookup_ids(ts, *pu) is None,
            }
        }),
{
    let ghost ts = tokens@.map_values(|t: Vec<char>| t@);
    let n = tokens.len();
    let mut c = CompoundWord::empty();
    let ghost mut ids: Seq<int> = Seq::empty();
    let mut k: usize = 0;
    proof {
        assert(ts.subrange(0, 0) =~= Seq::<Seq<char>>::empty());
    }
    while k < n
        invariant
            n == tokens@.len(),
            ts == tokens@.map_values(|t: Vec<char>| t@),
            k <= n,
            lookup_ids(ts.subrange(0, k as int), *pu) == Some(ids),
            c@.len() == ids.len(),
            forall|m: int| 0 <= m < ids.len() ==> (#[trigger] c@[m]).idx() == ids[m],
            forall|m: int| 0 <= m < c@.len() ==> (#[trigger] c@[m]).idx() < pu.word_count(),
        decreases n - k,
    {
        proof {
            assert(ts.subrange(0, k + 1 as int).drop_last() =~= ts.subrange(0, k as int));
            assert(ts.subrange(0, k + 1 as int).last() == ts[k as int]);
            assert(ts[k as int] == tokens@[k as int]@);
        }
        let tok = string_from_chars(&tokens[k]);
        match pu.lookup(tok.as_str()) {
            Some(w) => {
                c.push_word(w);
                proof {
                    ids = ids.push(w.idx());
                }
            },
            None => {
                proof {
                    lemma_lookup_ids_none_extends(ts, *pu, k + 1);
                }
                return None;
            },
        }
        k = k + 1;
    }
    proof {
        assert(ts.subrange(0, n as int) =~= ts);
    }
    Some(c)
}

/// One bracketed definition entry: trimmed, split at its last space into an
/// English phrase (lowercased) and a decimal weight.
pub open spec fn parse_def(part: Seq<char>) -> Option<(Seq<char>, u32)> {
    let t = trim_ws(part);
    match spec_rfind(t, ' ') {
        None => None,
        Some(k) => {
            let english = t.subrange(0, k);
            let wstr = t.subrange(k + 1, t.len() as int);
            if wstr.len() >= 1 && all_digits(wstr) && digits_val(wstr) <= u32::MAX {
                Some((lower_seq(english), digits_val(wstr) as u32))
            } else {
                None
            }
        },
    }
}

pub open spec fn parse_defs(parts: Seq<Seq<char>>) -> Option<Seq<(Seq<char>, u32)>>
    decreases parts.len(),
{
    if parts.len() == 0 {
        Some(Seq::empty())
    } else {
        match parse_defs(parts.drop_last()) {
            None => None,
            Some(ds) => match parse_def(parts.last()) {
                None => None,
                Some(d) => Some(ds.push(d)),
            },
        }
    }
}

proof fn lemma_parse_defs_none_extends(parts: Seq<Seq<char>>, j: int)
    requires
        0 <= j <= parts.len(),
        parse_defs(parts.subrange(0, j)) is None,
    ensures
        parse_defs(parts) is None,
    decreases parts.len() - j,
{
    if j == parts.len() {
        assert(parts.subrange(0, j) =~= parts);
    } else {
        assert(parts.subrange(0, j + 1).drop_last() =~= parts.subrange(0, j));
        lemma_parse_defs_none_extends(parts, j + 1);
    }
}

fn parse_def_exec(part: &Vec<char>) -> (r: Option<(String, u32)>)
    ensures
        match r {
            Some(d) => parse_def(part@) == Some((d.0@, d.1)),
            None => parse_def(part@) is None,
        },
{
    let t = trim_ws_chars(part);
    match rfind_char(&t, ' ') {
        None => None,
        Some(k) => {
            proof {
                crate::text::lemma_spec_rfind(t@, ' ');
            }
            let tl = t.len();
            let english = lower_chars(&sub_chars(&t, 0, k));
            let wstr = sub_chars(&t, k + 1, tl);
            match parse_u32_chars(&wstr) {
                Some(w) => Some((string_from_chars(&english), w)),
                None => None,
            }
        },
    }
}

fn parse_defs_exec(parts: &Vec<Vec<char>>) -> (r: Option<Vec<(String, u32)>>)
    ensures
        ({
            let ps = parts@.map_values(|p: Vec<char>| p@);
            match r {
                Some(v) => parse_defs(ps) matches Some(ds) && v@.len() == ds.len() && (forall|
                    k: int,
                |
                    0 <= k < ds.len() ==> (#[trigger] v@[k]).0@ == ds[k].0 && v@[k].1 == ds[k].1),
                None => parse_defs(ps) is None,
            }
        }),
{
    let ghost ps = parts@.map_values(|p: Vec<char>| p@);
    let n = parts.len();
    let mut out: Vec<(String, u32)> = Vec::new();
    let mut k: usize = 0;
    proof {
        assert(ps.subrange(0, 0) =~= Seq::<Seq<char>>::empty());
    }
    while k < n
        invariant
            n == parts@.len(),
            ps == parts@.map_values(|p: Vec<char>| p@),
            k <= n,
            out@.len() == k,
            parse_defs(ps.subrange(0, k as int)) matches Some(ds) && ds.len() == k && (forall|
                j: int,
            |
                0 <= j < k ==> (#[trigger] out@[j]).0@ == ds[j].0 && out@[j].1 == ds[j].1),
        decreases n - k,
    {
        proof {
            assert(ps.subrange(0, k + 1 as int).drop_last() =~= ps.subrange(0, k as int));
            assert(ps.subrange(0, k + 1 as int).last() == ps[k as int]);
            assert(ps[k as int] == parts@[k as int]@);
        }
        match parse_def_exec(&parts[k]) {
            Some(d) => {
                out.push(d);
            },
            None => {
                proof {
                    lemma_parse_defs_none_extends(ps, k + 1);
                }
                return None;
            },
        }
        k = k + 1;
    }
    proof {
        assert(ps.subrange(0, n as int) =~= ps);
    }
    Some(out)
}

/// The meaning of one curated record line.
///
/// An empty or `#` comment line parses to no records. Otherwise the part
/// before the first `:` must be whitespace-separated lexicon words, and the
/// part between the first `[` and the first `]` after the colon must be
/// comma-separated `<english phrase> <weight>` entries; each entry yields one
/// record sharing the compound. The result is the compound's ids and the
/// (lowercased english, weight) pairs; `None` means the line is malformed.
pub open spec fn spec_try_parse(line: Seq<char>, pu: Pu) -> Option<
    (Seq<int>, Seq<(Seq<char>, u32)>),
> {
    if line.len() == 0 || line[0] == '#' {
        Some((Seq::empty(), Seq::empty()))
    } else {
        match spec_find(line, ':') {
            None => None,
            Some(ci) => {
                let toki_part = line.subrange(0, ci);
                let rest = line.subrange(ci + 1, line.len() as int);
                match lookup_ids(split_ws(toki_part), pu) {
                    None => None,
                    Some(ids) => match (spec_find(rest, '['), spec_find(rest, ']')) {
                        (Some(s0), Some(e0)) => {
                            if s0 + 1 <= e0 {
                                match parse_defs(split_on(rest.subrange(s0 + 1, e0), ',')) {
                                    None => None,
                                    Some(defs) => Some((ids, defs)),
                                }
                            } else {
                                None
                            }
                        },
                        _ => None,
                    },
                }
            },
        }
    }
}

impl Translation {
    /// Parses one curated record line against the lexicon. Returns the
    /// records the line defines — none for an empty or comment line — or
    /// `None` exactly when the line is malformed: no `:`, an unknown Toki
    /// Pona word, missing brackets, or a definition entry without a valid
    /// non-negative weight.
    pub fn try_parse(line: &str, pu: &Pu, source: TranslationSource) -> (r: Option<
        Vec<Translation>,
    >)
        ensures
            r is Some <==> spec_try_parse(line@, *pu) is Some,
            r matches Some(v) ==> spec_try_parse(line@, *pu) matches Some(sp) && {
                &&& v@.len() == sp.1.len()
                &&& forall|k: int|
                    0 <= k < v@.len() ==> {
                        let t = #[trigger] v@[k];
                        &&& t.spec_english() == sp.1[k].0
                        &&& t.spec_weight() == sp.1[k].1
                        &&& t.spec_source() == source
                        &&& t.spec_compound().len() == sp.0.len()
                        &&& (forall|m: int|
                            0 <= m < sp.0.len() ==> (#[trigger] t.spec_compound()[m]).idx()
                                == sp.0[m])
                        &&& t.in_lexicon(*pu)
                        &&& t.wf()
                    }
            },
    {
        let chars = to_char_vec(line);
        let n = chars.len();
        if n == 0 {
            return Some(Vec::new());
        }
        if chars[0] == '#' {
            return Some(Vec::new());
        }
        let ci = match find_char(&chars, ':') {
            None => {
                return None;
            },
            Some(ci) => ci,
        };
        proof {
            crate::text::lemma_spec_find(chars@, ':');
        }
        let toki_part = sub_chars(&chars, 0, ci);
        let rest = sub_chars(&chars, ci + 1, n);
        let tokens = split_whitespace_chars(&toki_part);
        proof {
            assert(tokens@.map_values(|t: Vec<char>| t@) =~= split_ws(toki_part@));
        }
        let compound = match lookup_compound(&tokens, pu) {
            None => {
                return None;
            },
            Some(c) => c,
        };
        proof {
            crate::text::lemma_split_ws_acc_count(toki_part@, Seq::empty());
            lemma_lookup_ids_len(split_ws(toki_part@), *pu);
            assert(2 * compound@.len() <= toki_part@.len() + 1);
        }
        let s0 = match find_char(&rest, '[') {
            None => {
                return None;
            },
            Some(x) => x,
        };
        let e0 = match find_char(&rest, ']') {
            None => {
                return None;
            },
            Some(x) => x,
        };
        proof {
            crate::text::lemma_spec_find(rest@, '[');
            crate::text::lemma_spec_find(rest@, ']');
        }
        if s0 + 1 > e0 {
            return None;
        }
        let inner = sub_chars(&rest, s0 + 1, e0);
        let parts = split_on_char(&inner, ',');
        proof {
            assert(parts@.map_values(|p: Vec<char>| p@) =~= split_on(inner@, ','));
        }
        let defs = match parse_defs_exec(&parts) {
            None => {
                return None;
            },
            Some(d) => d,
        };
        let mut out: Vec<Translation> = Vec::new();
        let ghost sp = spec_try_parse(line@, *pu)->Some_0;
        let nd = defs.len();
        let mut k: usize = 0;
        while k < nd
            invariant
                nd == defs@.len(),
                k <= nd,
                out@.len() == k,
                spec_try_parse(line@, *pu) == Some(sp),
                sp.1.len() == nd,
                forall|j: int|
                    0 <= j < nd ==> (#[trigger] defs@[j]).0@ == sp.1[j].0 && defs@[j].1
                        == sp.1[j].1,
                compound@.len() == sp.0.len(),
                forall|m: int|
                    0 <= m < sp.0.len() ==> (#[trigger] compound@[m]).idx() == sp.0[m],
                forall|m: int|
                    0 <= m < compound@.len() ==> (#[trigger] compound@[m]).idx()
                        < pu.word_count(),
                2 * compound@.len() <= usize::MAX,
                forall|j: int|
                    0 <= j < k ==> {
                        let t = #[trigger] out@[j];
                        &&& t.spec_english() == sp.1[j].0
                        &&& t.spec_weight() == sp.1[j].1
                        &&& t.spec_source() == source
                        &&& t.spec_compound() == compound@
                    },
            decreases nd - k,
        {
            let english = defs[k].0.clone();
            let weight = defs[k].1;
            out.push(Translation { weight, toki_pona: compound.duplicate(), english, source });
            k = k + 1;
        }
        Some(out)
    }
}

/// The candidate list of one mined-model line: each tab-separated part after
/// the English word must be `<lexicon word>:<decimal score>`.
pub open spec fn parse_model_pairs(parts: Seq<Seq<char>>, pu: Pu) -> Option<Seq<(int, u32)>>
    decreases parts.len(),
{
    if parts.len() == 0 {
        Some(Seq::empty())
    } else {
        match parse_model_pairs(parts.drop_last(), pu) {
            None => None,
            Some(ps) => {
                let part = parts.last();
                match spec_find(part, ':') {
                    None => None,
                    Some(k) => {
                        let toki = part.subrange(0, k);
                        let wstr = part.subrange(k + 1, part.len() as int);
                        if wstr.len() >= 1 && all_digits(wstr) && digits_val(wstr) <= u32::MAX {
                            match pu.spec_lookup(toki) {
                                None => None,
                                Some(i) => Some(ps.push((i, digits_val(wstr) as u32))),
                            }
                        } else {
                            None
                        }
                    },
                }
            },
        }
    }
}

proof fn lemma_parse_model_pairs_none_extends(parts: Seq<Seq<char>>, pu: Pu, j: int)
    requires
        0 <= j <= parts.len(),
        parse_model_pairs(parts.subrange(0, j), pu) is None,
    ensures
        parse_model_pairs(parts, pu) is None,
    decreases parts.len() - j,
{
    if j == parts.len() {
        assert(parts.subrange(0, j) =~= parts);
    } else {
        assert(parts.subrange(0, j + 1).drop_last() =~= parts.subrange(0, j));
        lemma_parse_model_pairs_none_extends(parts, pu, j + 1);
    }
}

/// How many leading candidates stay above the drop-off threshold: a score
/// counts while it exceeds `initial / 2.25`, that is while `9 * score`
/// exceeds `4 * initial`.
pub open spec fn greedy_len(pairs: Seq<(int, u32)>, initial: u32) -> int
    decreases pairs.len(),
{
    if pairs.len() == 0 {
        0
    } else if 9 * pairs[0].1 > 4 * initial {
        1 + greedy_len(pairs.drop_first(), initial)
    } else {
        0
    }
}

proof fn lemma_greedy_at(pairs: Seq<(int, u32)>, initial: u32, g: int)
    requires
        0 <= g <= pairs.len(),
        forall|k: int| 0 <= k < g ==> 9 * (#[trigger] pairs[k]).1 > 4 * initial,
        g == pairs.len() || !(9 * pairs[g].1 > 4 * initial),
    ensures
        greedy_len(pairs, initial) == g,
    decreases pairs.len(),
{
    if pairs.len() > 0 && 9 * pairs[0].1 > 4 * initial {
        let rest = pairs.drop_first();
        assert(forall|k: int| 0 <= k < rest.len() ==> rest[k] == pairs[k + 1]);
        lemma_greedy_at(rest, initial, g - 1);
    }
}

/// The meaning of one mined-model line `english TAB toki:score TAB ...`.
///
/// The candidates must all parse and resolve in the lexicon, else the line
/// is malformed. An empty candidate list yields no record. Otherwise one
/// `Generated` record is built from the greedy prefix of candidates above
/// the drop-off threshold, weighted by a tenth of the first score — unless
/// that prefix reaches the garbage-filter bound of 8 words, in which case
/// the row is silently dropped.
pub open spec fn spec_try_from_model(line: Seq<char>, pu: Pu) -> Option<
    Seq<(Seq<char>, u32, Seq<int>)>,
> {
    let parts = split_on(line, '\t');
    match parse_model_pairs(parts.drop_first(), pu) {
        None => None,
        Some(pairs) => {
            if pairs.len() == 0 {
                Some(Seq::empty())
            } else {
                let initial = pairs[0].1;
                let g = greedy_len(pairs, initial);
                if g < 8 {
                    Some(
                        seq![
                            (
                                parts[0],
                                (initial / 10) as u32,
                                Seq::new(g as nat, |m: int| pairs[m].0),
                            ),
                        ],
                    )
                } else {
                    Some(Seq::empty())
                }
            }
        },
    }
}

impl Translation {
    /// Reconstructs at most one `Generated` record from a mined-model line.
    pub fn try_from_model(line: &str, pu: &Pu) -> (r: Option<Vec<Translation>>)
        ensures
            r is Some <==> spec_try_from_model(line@, *pu) is Some,
            r matches Some(v) ==> spec_try_from_model(line@, *pu) matches Some(sp) && {
                &&& v@.len() == sp.len()
                &&& forall|k: int|
                    0 <= k < v@.len() ==> {
                        let t = #[trigger] v@[k];
                        &&& t.spec_english() == sp[k].0
                        &&& t.spec_weight() == sp[k].1
                        &&& t.spec_source() == TranslationSource::Generated
                        &&& t.spec_compound().len() == sp[k].2.len()
                        &&& (forall|m: int|
                            0 <= m < sp[k].2.len() ==> (#[trigger] t.spec_compound()[m]).idx()
                                == sp[k].2[m])
                        &&& t.in_lexicon(*pu)
                        &&& t.wf()
                    }
            },
    {
        let chars = to_char_vec(line);
        let parts = split_on_char(&chars, '\t');
        let ghost ps = parts@.map_values(|p: Vec<char>| p@);
        proof {
            assert(ps =~= split_on(chars@, '\t'));
            crate::text::lemma_split_on_acc_len(chars@, '\t', Seq::empty());
        }
        let np = parts.len();
        let mut pairs: Vec<(crate::pu::TokiPonaWord, u32)> = Vec::new();
        let ghost mut gp: Seq<(int, u32)> = Seq::empty();
        let mut i: usize = 1;
        proof {
            assert(ps.drop_first().subrange(0, 0) =~= Seq::<Seq<char>>::empty());
        }
        while i < np
            invariant
                1 <= i <= np,
                np == parts@.len(),
                np >= 1,
                ps == parts@.map_values(|p: Vec<char>| p@),
                ps == split_on(line@, '\t'),
                parse_model_pairs(ps.drop_first().subrange(0, i - 1), *pu) == Some(gp),
                gp.len() == i - 1,
                pairs@.len() == i - 1,
                forall|k: int|
                    0 <= k < i - 1 ==> (#[trigger] pairs@[k]).0.idx() == gp[k].0 && pairs@[k].1
                        == gp[k].1,
                forall|k: int|
                    0 <= k < i - 1 ==> (#[trigger] pairs@[k]).0.idx() < pu.word_count(),
            decreases np - i,
        {
            let ghost dropped = ps.drop_first();
            proof {
                assert(dropped.subrange(0, i as int).drop_last() =~= dropped.subrange(
                    0,
                    i - 1 as int,
                ));
                assert(dropped.subrange(0, i as int).last() == dropped[i - 1]);
                assert(dropped[i - 1] == ps[i as int]);
                assert(ps[i as int] == parts@[i as int]@);
            }
            let part = &parts[i];
            let k = match find_char(part, ':') {
                None => {
                    proof {
                        lemma_parse_model_pairs_none_extends(dropped, *pu, i as int);
                    }
                    return None;
                },
                Some(k) => k,
            };
            proof {
                crate::text::lemma_spec_find(part@, ':');
            }
            let pl = part.len();
            let toki = sub_chars(part, 0, k);
            let wstr = sub_chars(part, k + 1, pl);
            let weight = match parse_u32_chars(&wstr) {
                None => {
                    proof {
                        lemma_parse_model_pairs_none_extends(dropped, *pu, i as int);
                    }
                    return None;
                },
                Some(w) => w,
            };
            let toki_str = string_from_chars(&toki);
            match pu.lookup(toki_str.as_str()) {
                Some(w) => {
                    pairs.push((w, weight));
                    proof {
                        gp = gp.push((w.idx(), weight as u32));
                    }
                },
                None => {
                    proof {
                        lemma_parse_model_pairs_none_extends(dropped, *pu, i as int);
                    }
                    return None;
                },
            }
            i = i + 1;
        }
        proof {
            assert(ps.drop_first().subrange(0, np - 1 as int) =~= ps.drop_first());
        }
        let npairs = pairs.len();
        if npairs == 0 {
            return Some(Vec::new());
        }
        let initial = pairs[0].1;
        let mut compound = CompoundWord::empty();
        let mut g: usize = 0;
        while g < npairs && 9 * (pairs[g].1 as u64) > 4 * (initial as u64)
            invariant
                g <= npairs,
                npairs == pairs@.len(),
                npairs == gp.len(),
                initial == gp[0].1,
                forall|k: int|
                    0 <= k < npairs ==> (#[trigger] pairs@[k]).0.idx() == gp[k].0 && pairs@[k].1
                        == gp[k].1,
                forall|k: int|
                    0 <= k < npairs ==> (#[trigger] pairs@[k]).0.idx() < pu.word_count(),
                forall|k: int| 0 <= k < g ==> 9 * (#[trigger] gp[k]).1 > 4 * initial,
                compound@.len() == g,
                forall|m: int| 0 <= m < g ==> (#[trigger] compound@[m]).idx() == gp[m].0,
                forall|m: int|
                    0 <= m < compound@.len() ==> (#[trigger] compound@[m]).idx()
                        < pu.word_count(),
            decreases npairs - g,
        {
            compound.push_word(pairs[g].0);
            g = g + 1;
        }
        proof {
            lemma_greedy_at(gp, initial, g as int);
        }
        if g < 8 {
            let english = string_from_chars(&parts[0]);
            let mut out: Vec<Translation> = Vec::new();
            out.push(
                Translation {
                    weight: initial / 10,
                    toki_pona: compound,
                    english,
                    source: TranslationSource::Generated,
                },
            );
            proof {
                let sp = spec_try_from_model(line@, *pu)->Some_0;
                assert(sp[0].2 =~= compound@.map_values(|w: crate::pu::TokiPonaWord| w.idx()));
                assert(forall|m: int|
                    0 <= m < sp[0].2.len() ==> sp[0].2[m] == (#[trigger] compound@[m]).idx());
            }
            Some(out)
        } else {
            Some(Vec::new())
        }
    }
}

} // verus!
