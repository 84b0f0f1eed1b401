//! Corpus parsing: talker-tag stripping, punctuation folding, the quote-aware
//! CSV splitter, and the aligned-pair readers for CSV and TSV corpora.

use vstd::prelude::*;

use crate::text::{
    is_ascii_char, is_ascii_punct, is_ascii_punct_char, is_space, is_space_char, lower_char,
    spec_find, split_on, split_on_char, string_from_chars, sub_chars, to_char_vec, to_lower_char,
    trim_eq, trim_eq_chars,
};

verus! {

/// What `unicase::eq` decides for two strings: caseless equality under
/// Unicode case folding, a function of the two strings alone.
pub uninterp spec fn unicase_eq(a: Seq<char>, b: Seq<char>) -> bool;

/// Relies on `unicase::eq`: caseless string comparison by Unicode folding.
#[verifier::external_body]
fn eq_ignore_case(x: &str, y: &str) -> (r: bool)
    ensures
        r == unicase_eq(x@, y@),
{
    unicase::eq(x, y)
}

/// One aligned bilingual fragment, both sides normalized.
#[derive(Debug)]
pub struct RawTranslation {
    pub english: String,
    pub toki_pona: String,
}

pub open spec fn all_space_before(s: Seq<char>, upto: int) -> bool {
    forall|j: int| 0 <= j < upto ==> is_space_char(#[trigger] s[j])
}

/// `"[dan] hello there"` becomes `" hello there"`: a leading bracketed
/// talker tag (preceded only by whitespace) is cut off.
pub open spec fn spec_strip_talker(s: Seq<char>) -> Seq<char> {
    match (spec_find(s, '['), spec_find(s, ']')) {
        (Some(a), Some(b)) => {
            if a < b && all_space_before(s, a) {
                s.subrange(b + 1, s.len() as int)
            } else {
                s
            }
        },
        _ => s,
    }
}

/// ASCII punctuation and every non-ASCII character become spaces; the rest
/// is ASCII-lowercased.
pub open spec fn norm_char(c: char) -> char {
    if is_ascii_punct_char(c) || !is_ascii_char(c) {
        ' '
    } else {
        lower_char(c)
    }
}

pub open spec fn spec_strip_punct_normalize(s: Seq<char>) -> Seq<char> {
    s.map_values(|c: char| norm_char(c))
}

pub open spec fn spec_normalize_for_def(s: Seq<char>) -> Seq<char> {
    spec_strip_punct_normalize(spec_strip_talker(s))
}

/// Cuts a leading `[talker]` tag off, when one leads the text.
pub fn strip_talker(x: &str) -> (r: String)
    ensures
        r@ == spec_strip_talker(x@),
{
    let chars = to_char_vec(x);
    let a = crate::text::find_char(&chars, '[');
    let b = crate::text::find_char(&chars, ']');
    proof {
        crate::text::lemma_spec_find(chars@, '[');
        crate::text::lemma_spec_find(chars@, ']');
    }
    match (a, b) {
        (Some(a), Some(b)) => {
            if a < b && leading_space(&chars, a) {
                let cut = sub_chars(&chars, b + 1, chars.len());
                string_from_chars(&cut)
            } else {
                string_from_chars(&chars)
            }
        },
        _ => string_from_chars(&chars),
    }
}

fn leading_space(v: &Vec<char>, upto: usize) -> (r: bool)
    requires
        upto <= v@.len(),
    ensures
        r == all_space_before(v@, upto as int),
{
    let mut i: usize = 0;
    while i < upto
        invariant
            i <= upto <= v@.len(),
            forall|j: int| 0 <= j < i ==> is_space_char(#[trigger] v@[j]),
        decreases upto - i,
    {
        if !is_space(v[i]) {
            assert(!is_space_char(v@[i as int]));
            return false;
        }
        i = i + 1;
    }
    true
}

/// Replaces punctuation and non-ASCII text by spaces and lowercases the rest.
pub fn strip_punct_normalize(x: &str) -> (r: String)
    ensures
        r@ == spec_strip_punct_normalize(x@),
{
    let chars = to_char_vec(x);
    let n = chars.len();
    let mut out: Vec<char> = Vec::new();
    let mut i: usize = 0;
    while i < n
        invariant
            i <= n,
            n == chars@.len(),
            chars@ == x@,
            out@.len() == i,
            forall|j: int| 0 <= j < i ==> out@[j] == norm_char(#[trigger] chars@[j]),
        decreases n - i,
    {
        let c = chars[i];
        if is_ascii_punct(c) || !(c as u32 <= 0x7F) {
            out.push(' ');
        } else {
            out.push(to_lower_char(c));
        }
        i = i + 1;
    }
    assert(out@ =~= spec_strip_punct_normalize(x@));
    string_from_chars(&out)
}

/// Talker tag off, then punctuation folded: the corpus text normalization.
pub fn normalize_for_def(x: &str) -> (r: String)
    ensures
        r@ == spec_normalize_for_def(x@),
{
    strip_punct_normalize(strip_talker(x).as_str())
}

impl RawTranslation {
    pub fn new(x: &str, y: &str) -> (r: Self)
        ensures
            r.english@ == spec_normalize_for_def(x@),
            r.toki_pona@ == spec_normalize_for_def(y@),
    {
        RawTranslation { english: normalize_for_def(x), toki_pona: normalize_for_def(y) }
    }
}

/// The quote-aware CSV split: commas separate fields only outside quotes,
/// a backslash escapes the quote that follows it, and the quote and escape
/// characters stay in the fields.
pub open spec fn split_csv_acc(
    s: Seq<char>,
    cur: Seq<char>,
    in_quotes: bool,
    escaping: bool,
) -> Seq<Seq<char>>
    decreases s.len(),
{
    if s.len() == 0 {
        seq![cur]
    } else {
        let c = s[0];
        if c == ',' && !in_quotes {
            seq![cur] + split_csv_acc(s.drop_first(), Seq::empty(), in_quotes, false)
        } else if c == '"' {
            split_csv_acc(
                s.drop_first(),
                cur.push(c),
                if !escaping {
                    !in_quotes
                } else {
                    in_quotes
                },
                false,
            )
        } else if c == '\\' {
            split_csv_acc(s.drop_first(), cur.push(c), in_quotes, true)
        } else {
            split_csv_acc(s.drop_first(), cur.push(c), in_quotes, false)
        }
    }
}

pub open spec fn spec_split_csv(s: Seq<char>) -> Seq<Seq<char>> {
    split_csv_acc(s, Seq::empty(), false, false)
}

/// Splits one CSV row into raw fields.
pub fn split_csv(line: &str) -> (r: Vec<String>)
    ensures
        r@.len() == spec_split_csv(line@).len(),
        forall|i: int| 0 <= i < r@.len() ==> (#[trigger] r@[i])@ == spec_split_csv(line@)[i],
{
    let v = to_char_vec(line);
    let ghost full = spec_split_csv(line@);
    let n = v.len();
    let mut r: Vec<String> = Vec::new();
    let mut cur: Vec<char> = Vec::new();
    let mut in_quotes = false;
    let mut escaping = false;
    let mut i: usize = 0;
    proof {
        assert(v@.subrange(0, n as int) =~= v@);
    }
    while i < n
        invariant
            n == v@.len(),
            v@ == line@,
            i <= n,
            full == spec_split_csv(line@),
            r@.len() + split_csv_acc(
                v@.subrange(i as int, n as int),
                cur@,
                in_quotes,
                escaping,
            ).len() == full.len(),
            split_csv_acc(v@.subrange(i as int, n as int), cur@, in_quotes, escaping)
                == full.subrange(r@.len() as int, full.len() as int),
            forall|k: int| 0 <= k < r@.len() ==> (#[trigger] r@[k])@ == full[k],
        decreases n - i,
    {
        let ghost pre = v@.subrange(i as int, n as int);
        let ghost post = v@.subrange(i + 1 as int, n as int);
        proof {
            assert(pre.drop_first() =~= post);
            assert(pre[0] == v@[i as int]);
        }
        let c = v[i];
        if c == ',' && !in_quotes {
            proof {
                assert(split_csv_acc(pre, cur@, in_quotes, escaping) =~= seq![cur@]
                    + split_csv_acc(post, Seq::empty(), in_quotes, false));
                assert(full[r@.len() as int] == split_csv_acc(pre, cur@, in_quotes, escaping)[0]);
                assert(full.subrange(r@.len() as int, full.len() as int).drop_first()
                    =~= full.subrange(r@.len() + 1 as int, full.len() as int));
                assert(split_csv_acc(post, Seq::empty(), in_quotes, false) =~= split_csv_acc(
                    pre,
                    cur@,
                    in_quotes,
                    escaping,
                ).drop_first());
            }
            let field = string_from_chars(&cur);
            r.push(field);
            cur = Vec::new();
            escaping = false;
        } else if c == '"' {
            cur.push(c);
            if !escaping {
                in_quotes = !in_quotes;
            }
            escaping = false;
        } else if c == '\\' {
            cur.push(c);
            escaping = true;
        } else {
            cur.push(c);
            escaping = false;
        }
        i = i + 1;
    }
    proof {
        assert(v@.subrange(n as int, n as int) =~= Seq::<char>::empty());
        assert(split_csv_acc(v@.subrange(n as int, n as int), cur@, in_quotes, escaping)
            =~= seq![cur@]);
        assert(full.subrange(r@.len() as int, full.len() as int) == seq![cur@]);
        assert(full.subrange(r@.len() as int, full.len() as int)[0] == full[r@.len() as int]);
    }
    assert(full[r@.len() as int] == cur@);
    let field = string_from_chars(&cur);
    r.push(field);
    r
}

/// Caseless equality after trimming quote characters from both operands.
pub fn str_eq(x: &str, y: &str) -> (r: bool)
    ensures
        r == unicase_eq(trim_eq(x@, '"'), trim_eq(y@, '"')),
{
    let xt = trim_eq_chars(&to_char_vec(x), '"');
    let yt = trim_eq_chars(&to_char_vec(y), '"');
    let xs = string_from_chars(&xt);
    let ys = string_from_chars(&yt);
    eq_ignore_case(xs.as_str(), ys.as_str())
}

/// The header fields of a corpus CSV: the first line, byte-order mark
/// dropped, split on commas, each field quote-trimmed.
pub open spec fn header_fields(line0: Seq<char>) -> Seq<Seq<char>> {
    let h = if line0.len() > 0 && line0[0] == '\u{feff}' {
        line0.subrange(1, line0.len() as int)
    } else {
        line0
    };
    split_on(h, ',').map_values(|p: Seq<char>| trim_eq(p, '"'))
}

/// The first field matching `target` caselessly, if any.
pub open spec fn first_match(parts: Seq<Seq<char>>, target: Seq<char>) -> Option<int>
    decreases parts.len(),
{
    if parts.len() == 0 {
        None
    } else if unicase_eq(parts[0], target) {
        Some(0int)
    } else {
        match first_match(parts.drop_first(), target) {
            None => None,
            Some(i) => Some(i + 1),
        }
    }
}

proof fn lemma_first_match_from(parts: Seq<Seq<char>>, target: Seq<char>, i: int)
    requires
        0 <= i <= parts.len(),
        forall|j: int| 0 <= j < i ==> !unicase_eq(#[trigger] parts[j], target),
    ensures
        i < parts.len() && unicase_eq(parts[i], target) ==> first_match(parts, target) == Some(i),
        i == parts.len() ==> first_match(parts, target) is None,
    decreases i, parts.len(),
{
    if i == 0 {
        if 0 < parts.len() && unicase_eq(parts[0], target) {
        }
    } else {
        let rest = parts.drop_first();
        assert(forall|j: int| 0 <= j < i - 1 ==> rest[j] == parts[j + 1]);
        lemma_first_match_from(rest, target, i - 1);
    }
}

/// The header row of a corpus CSV, fields quote-trimmed for caseless lookup.
struct CsvDefinitions {
    definitions: Vec<String>,
}

impl CsvDefinitions {
    spec fn fields(&self) -> Seq<Seq<char>> {
        self.definitions@.map_values(|d: String| d@)
    }

    fn new(line: &str) -> (r: Self)
        ensures
            r.fields() == split_on(line@, ',').map_values(|p: Seq<char>| trim_eq(p, '"')),
    {
        let chars = to_char_vec(line);
        let parts = split_on_char(&chars, ',');
        let np = parts.len();
        let mut definitions: Vec<String> = Vec::new();
        let mut i: usize = 0;
        while i < np
            invariant
                i <= np,
                np == parts@.len(),
                np == split_on(line@, ',').len(),
                forall|k: int| 0 <= k < np ==> (#[trigger] parts@[k])@ == split_on(line@, ',')[k],
                definitions@.len() == i,
                forall|k: int|
                    0 <= k < i ==> (#[trigger] definitions@[k])@ == trim_eq(
                        split_on(line@, ',')[k],
                        '"',
                    ),
            decreases np - i,
        {
            let trimmed = trim_eq_chars(&parts[i], '"');
            definitions.push(string_from_chars(&trimmed));
            i = i + 1;
        }
        let r = CsvDefinitions { definitions };
        proof {
            assert(r.fields() =~= split_on(line@, ',').map_values(
                |p: Seq<char>| trim_eq(p, '"'),
            ));
        }
        r
    }

    fn get_index(&self, s: &str) -> (r: Option<usize>)
        ensures
            match r {
                Some(i) => first_match(self.fields(), s@) == Some(i as int) && (i as int)
                    < self.fields().len(),
                None => first_match(self.fields(), s@) is None,
            },
    {
        let n = self.definitions.len();
        let mut i: usize = 0;
        while i < n
            invariant
                i <= n,
                n == self.fields().len(),
                forall|j: int| 0 <= j < i ==> !unicase_eq(#[trigger] self.fields()[j], s@),
            decreases n - i,
        {
            if eq_ignore_case(self.definitions[i].as_str(), s) {
                proof {
                    assert(unicase_eq(self.fields()[i as int], s@));
                    lemma_first_match_from(self.fields(), s@, i as int);
                }
                return Some(i);
            }
            assert(!unicase_eq(self.fields()[i as int], s@));
            i = i + 1;
        }
        proof {
            lemma_first_match_from(self.fields(), s@, n as int);
        }
        None
    }
}

/// The aligned pairs the data rows of a corpus CSV define. Rows too short to
/// hold the three needed columns are skipped; the rows before the
/// `text start` marker only predefine words and yield no pairs.
pub open spec fn parse_rows(
    rows: Seq<Seq<char>>,
    t: int,
    o: int,
    p: int,
    started: bool,
) -> Seq<(Seq<char>, Seq<char>)>
    decreases rows.len(),
{
    if rows.len() == 0 {
        Seq::empty()
    } else {
        let splits = spec_split_csv(rows[0]);
        let rest = rows.drop_first();
        if splits.len() <= t || splits.len() <= o || splits.len() <= p {
            parse_rows(rest, t, o, p, started)
        } else if started || unicase_eq(trim_eq(splits[t], '"'), trim_eq("text start"@, '"')) {
            seq![(spec_normalize_for_def(splits[o]), spec_normalize_for_def(splits[p]))]
                + parse_rows(rest, t, o, p, true)
        } else {
            parse_rows(rest, t, o, p, started)
        }
    }
}

/// The meaning of a whole corpus CSV: `None` when there is no header line
/// or the header lacks one of the `translation`, `original` and `final`
/// columns, else the aligned pairs of the data rows.
pub open spec fn spec_parse(lines: Seq<Seq<char>>) -> Option<Seq<(Seq<char>, Seq<char>)>> {
    if lines.len() == 0 {
        None
    } else {
        spec_parse_with_header(lines)
    }
}

pub open spec fn spec_parse_with_header(lines: Seq<Seq<char>>) -> Option<
    Seq<(Seq<char>, Seq<char>)>,
> {
    let fields = header_fields(lines[0]);
    match (first_match(fields, "translation"@), first_match(fields, "original"@)) {
        (Some(t), Some(o)) => match first_match(fields, "final"@) {
            Some(p) => Some(parse_rows(lines.subrange(1, lines.len() as int), t, o, p, false)),
            None => None,
        },
        _ => None,
    }
}

/// Parses a corpus CSV into aligned pairs; without a header line nothing
/// can be read, so empty input is malformed rather than fatal.
pub fn parse(lines: Vec<String>) -> (r: Option<Vec<RawTranslation>>)
    ensures
        r is Some <==> spec_parse(lines@.map_values(|l: String| l@)) is Some,
        r matches Some(v) ==> spec_parse(lines@.map_values(|l: String| l@)) matches Some(rows) && {
            &&& v@.len() == rows.len()
            &&& (forall|k: int|
                0 <= k < rows.len() ==> (#[trigger] v@[k]).english@ == rows[k].0
                    && v@[k].toki_pona@ == rows[k].1)
        },
{
    if lines.len() == 0 {
        return None;
    }
    let ghost lv = lines@.map_values(|l: String| l@);
    let first_chars = to_char_vec(lines[0].as_str());
    let header = if first_chars.len() > 0 && first_chars[0] == '\u{feff}' {
        let cut = sub_chars(&first_chars, 1, first_chars.len());
        string_from_chars(&cut)
    } else {
        string_from_chars(&first_chars)
    };
    let defs = CsvDefinitions::new(header.as_str());
    proof {
        assert(defs.fields() == header_fields(lv[0]));
    }
    let tidx = match defs.get_index("translation") {
        None => {
            return None;
        },
        Some(t) => t,
    };
    let oidx = match defs.get_index("original") {
        None => {
            return None;
        },
        Some(o) => o,
    };
    let pidx = match defs.get_index("final") {
        None => {
            return None;
        },
        Some(p) => p,
    };
    let n = lines.len();
    let ghost rows_all = lv.subrange(1, n as int);
    let ghost full = parse_rows(rows_all, tidx as int, oidx as int, pidx as int, false);
    let mut out: Vec<RawTranslation> = Vec::new();
    let mut started = false;
    let mut i: usize = 1;
    proof {
        assert(rows_all =~= lv.subrange(1, n as int));
    }
    while i < n
        invariant
            1 <= i <= n,
            n == lines@.len(),
            lv == lines@.map_values(|l: String| l@),
            full == parse_rows(lv.subrange(1, n as int), tidx as int, oidx as int, pidx as int, false),
            out@.len() + parse_rows(
                lv.subrange(i as int, n as int),
                tidx as int,
                oidx as int,
                pidx as int,
                started,
            ).len() == full.len(),
            parse_rows(
                lv.subrange(i as int, n as int),
                tidx as int,
                oidx as int,
                pidx as int,
                started,
            ) == full.subrange(out@.len() as int, full.len() as int),
            forall|k: int|
                0 <= k < out@.len() ==> (#[trigger] out@[k]).english@ == full[k].0
                    && out@[k].toki_pona@ == full[k].1,
        decreases n - i,
    {
        let ghost pre = lv.subrange(i as int, n as int);
        let ghost post = lv.subrange(i + 1 as int, n as int);
        proof {
            assert(pre.drop_first() =~= post);
            assert(pre[0] == lv[i as int]);
            assert(lv[i as int] == lines@[i as int]@);
        }
        let splits = split_csv(lines[i].as_str());
        let ghost sv = spec_split_csv(lv[i as int]);
        if splits.len() > tidx && splits.len() > oidx && splits.len() > pidx {
            let use_row = started || str_eq(splits[tidx].as_str(), "text start");
            if use_row {
                proof {
                    assert(full[out@.len() as int] == parse_rows(
                        pre,
                        tidx as int,
                        oidx as int,
                        pidx as int,
                        started,
                    )[0]);
                    assert(full.subrange(out@.len() as int, full.len() as int).drop_first()
                        =~= full.subrange(out@.len() + 1 as int, full.len() as int));
                }
                started = true;
                let rec = RawTranslation::new(splits[oidx].as_str(), splits[pidx].as_str());
                out.push(rec);
            }
        }
        i = i + 1;
    }
    proof {
        assert(lv.subrange(n as int, n as int) =~= Seq::<Seq<char>>::empty());
    }
    Some(out)
}

/// One TSV corpus row: at least four tab-separated fields, the second the
/// Toki Pona text and the fourth the English text; shorter rows do not parse.
pub open spec fn spec_parse_tsv_line(line: Seq<char>) -> Option<(Seq<char>, Seq<char>)> {
    let parts = split_on(line, '\t');
    if parts.len() >= 4 {
        Some((spec_normalize_for_def(parts[3]), spec_normalize_for_def(parts[1])))
    } else {
        None
    }
}

pub fn parse_tsv_line(line: &str) -> (r: Option<RawTranslation>)
    ensures
        match r {
            Some(rt) => spec_parse_tsv_line(line@) matches Some(pair) && rt.english@ == pair.0
                && rt.toki_pona@ == pair.1,
            None => spec_parse_tsv_line(line@) is None,
        },
{
    let chars = to_char_vec(line);
    let parts = split_on_char(&chars, '\t');
    if parts.len() >= 4 {
        let en = string_from_chars(&parts[3]);
        let tp = string_from_chars(&parts[1]);
        Some(RawTranslation::new(en.as_str(), tp.as_str()))
    } else {
        None
    }
}

/// The aligned pairs of a TSV corpus, rows too short to parse skipped.
pub open spec fn tsv_rows(rows: Seq<Seq<char>>) -> Seq<(Seq<char>, Seq<char>)>
    decreases rows.len(),
{
    if rows.len() == 0 {
        Seq::empty()
    } else {
        match spec_parse_tsv_line(rows[0]) {
            Some(pair) => seq![pair] + tsv_rows(rows.drop_first()),
            None => tsv_rows(rows.drop_first()),
        }
    }
}

/// Parses a TSV corpus; malformed rows are skipped, so the batch always
/// succeeds.
pub fn parse_tsv(lines: &Vec<String>) -> (r: Option<Vec<RawTranslation>>)
    ensures
        r matches Some(v) && {
            let rows = tsv_rows(lines@.map_values(|l: String| l@));
            &&& v@.len() == rows.len()
            &&& (forall|k: int|
                0 <= k < rows.len() ==> (#[trigger] v@[k]).english@ == rows[k].0
                    && v@[k].toki_pona@ == rows[k].1)
        },
{
    let ghost lv = lines@.map_values(|l: String| l@);
    let ghost full = tsv_rows(lv);
    let n = lines.len();
    let mut out: Vec<RawTranslation> = Vec::new();
    let mut i: usize = 0;
    proof {
        assert(lv.subrange(0, n as int) =~= lv);
    }
    while i < n
        invariant
            i <= n,
            n == lines@.len(),
            lv == lines@.map_values(|l: String| l@),
            full == tsv_rows(lv),
            out@.len() + tsv_rows(lv.subrange(i as int, n as int)).len() == full.len(),
            tsv_rows(lv.subrange(i as int, n as int)) == full.subrange(
                out@.len() as int,
                full.len() as int,
            ),
            forall|k: int|
                0 <= k < out@.len() ==> (#[trigger] out@[k]).english@ == full[k].0
                    && out@[k].toki_pona@ == full[k].1,
        decreases n - i,
    {
        let ghost pre = lv.subrange(i as int, n as int);
        let ghost post = lv.subrange(i + 1 as int, n as int);
        proof {
            assert(pre.drop_first() =~= post);
            assert(pre[0] == lv[i as int]);
            assert(lv[i as int] == lines@[i as int]@);
        }
        match parse_tsv_line(lines[i].as_str()) {
            Some(rt) => {
                proof {
                    assert(full[out@.len() as int] == tsv_rows(pre)[0]);
                    assert(full.subrange(out@.len() as int, full.len() as int).drop_first()
                        =~= full.subrange(out@.len() + 1 as int, full.len() as int));
                }
                out.push(rt);
            },
            None => {},
        }
        i = i + 1;
    }
    proof {
        assert(lv.subrange(n as int, n as int) =~= Seq::<Seq<char>>::empty());
    }
    Some(out)
}

} // verus!
