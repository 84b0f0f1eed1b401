//! Character-level text utilities: the verified ground floor that the
//! parsers and the index build on.

use vstd::prelude::*;

verus! {

/// The characters this library treats as whitespace: the Unicode
/// `White_Space` set, as documented for `char::is_whitespace`.
pub open spec fn is_space_char(c: char) -> bool {
    let u = c as u32;
    ||| u == 32
    ||| (9 <= u && u <= 13)
    ||| u == 0x85
    ||| u == 0xA0
    ||| u == 0x1680
    ||| (0x2000 <= u && u <= 0x200A)
    ||| u == 0x2028
    ||| u == 0x2029
    ||| u == 0x202F
    ||| u == 0x205F
    ||| u == 0x3000
}

pub fn is_space(c: char) -> (b: bool)
    ensures
        b == is_space_char(c),
{
    let u = c as u32;
    u == 32 || (9 <= u && u <= 13) || u == 0x85 || u == 0xA0 || u == 0x1680 || (0x2000 <= u && u
        <= 0x200A) || u == 0x2028 || u == 0x2029 || u == 0x202F || u == 0x205F || u == 0x3000
}

/// ASCII punctuation, as documented for `char::is_ascii_punctuation`.
pub open spec fn is_ascii_punct_char(c: char) -> bool {
    let u = c as u32;
    ||| (0x21 <= u && u <= 0x2F)
    ||| (0x3A <= u && u <= 0x40)
    ||| (0x5B <= u && u <= 0x60)
    ||| (0x7B <= u && u <= 0x7E)
}

pub fn is_ascii_punct(c: char) -> (b: bool)
    ensures
        b == is_ascii_punct_char(c),
{
    let u = c as u32;
    (0x21 <= u && u <= 0x2F) || (0x3A <= u && u <= 0x40) || (0x5B <= u && u <= 0x60) || (0x7B <= u
        && u <= 0x7E)
}

pub open spec fn is_ascii_char(c: char) -> bool {
    c as u32 <= 0x7F
}

/// ASCII lowercasing of one character; other characters are unchanged.
pub open spec fn lower_char(c: char) -> char {
    if 'A' <= c && c <= 'Z' {
        ((c as u8) + 32) as char
    } else {
        c
    }
}

pub fn to_lower_char(c: char) -> (r: char)
    ensures
        r == lower_char(c),
{
    if 'A' <= c && c <= 'Z' {
        ((c as u8) + 32) as char
    } else {
        c
    }
}

/// ASCII lowercasing of a whole character sequence.
pub open spec fn lower_seq(s: Seq<char>) -> Seq<char> {
    s.map_values(|c: char| lower_char(c))
}

/// The characters of `s`, in order, as a vector.
pub fn to_char_vec(s: &str) -> (r: Vec<char>)
    ensures
        r@ == s@,
{
    let n = s.unicode_len();
    let mut r: Vec<char> = Vec::new();
    let mut i: usize = 0;
    while i < n
        invariant
            n == s@.len(),
            i <= n,
            r@ == s@.subrange(0, i as int),
        decreases n - i,
    {
        r.push(s.get_char(i));
        assert(r@ =~= s@.subrange(0, i + 1 as int));
        i = i + 1;
    }
    assert(r@ =~= s@);
    r
}

/// Relies on std's `FromIterator<char> for String`: collecting characters
/// yields the string made of exactly those characters, in order.
#[verifier::external_body]
pub(crate) fn string_from_chars(v: &Vec<char>) -> (r: String)
    ensures
        r@ == v@,
{
    v.iter().collect()
}

/// Exact string equality, decided character by character.
pub fn str_eq_str(a: &str, b: &str) -> (r: bool)
    ensures
        r == (a@ == b@),
{
    let na = a.unicode_len();
    let nb = b.unicode_len();
    if na != nb {
        assert(a@ != b@);
        return false;
    }
    let mut i: usize = 0;
    while i < na
        invariant
            na == a@.len(),
            na == b@.len(),
            i <= na,
            forall|j: int| 0 <= j < i ==> a@[j] == b@[j],
        decreases na - i,
    {
        if a.get_char(i) != b.get_char(i) {
            return false;
        }
        i = i + 1;
    }
    assert(a@ =~= b@);
    true
}

/// First position of `c` in `s`, if any.
pub open spec fn spec_find(s: Seq<char>, c: char) -> Option<int>
    decreases s.len(),
{
    if s.len() == 0 {
        None
    } else if s[0] == c {
        Some(0int)
    } else {
        match spec_find(s.drop_first(), c) {
            None => None,
            Some(i) => Some(i + 1),
        }
    }
}

pub proof fn lemma_spec_find(s: Seq<char>, c: char)
    ensures
        match spec_find(s, c) {
            Some(i) => 0 <= i < s.len() && s[i] == c && (forall|j: int| 0 <= j < i ==> s[j] != c),
            None => forall|j: int| 0 <= j < s.len() ==> s[j] != c,
        },
    decreases s.len(),
{
    if s.len() > 0 {
        lemma_spec_find(s.drop_first(), c);
        if s[0] != c {
            match spec_find(s, c) {
                Some(i) => {
                    assert forall|j: int| 0 <= j < i implies s[j] != c by {
                        if j >= 1 {
                            assert(s[j] == s.drop_first()[j - 1]);
                        }
                    }
                },
                None => {
                    assert forall|j: int| 0 <= j < s.len() implies s[j] != c by {
                        if j >= 1 {
                            assert(s[j] == s.drop_first()[j - 1]);
                        }
                    }
                },
            }
        }
    }
}

pub proof fn lemma_spec_find_extend(s: Seq<char>, c: char, i: int)
    requires
        0 <= i <= s.len(),
        forall|j: int| 0 <= j < i ==> s[j] != c,
    ensures
        i < s.len() && s[i] == c ==> spec_find(s, c) == Some(i),
        i == s.len() ==> spec_find(s, c) is None,
    decreases i,
{
    lemma_spec_find(s, c);
    if i < s.len() && s[i] == c {
        match spec_find(s, c) {
            Some(k) => {
                assert(k <= i);
                assert(k >= i);
            },
            None => {
                assert(s[i] == c);
            },
        }
    }
}

/// Last position of `c` in `s`, if any.
pub open spec fn spec_rfind(s: Seq<char>, c: char) -> Option<int>
    decreases s.len(),
{
    if s.len() == 0 {
        None
    } else if s.last() == c {
        Some(s.len() - 1)
    } else {
        spec_rfind(s.drop_last(), c)
    }
}

pub proof fn lemma_spec_rfind(s: Seq<char>, c: char)
    ensures
        match spec_rfind(s, c) {
            Some(i) => 0 <= i < s.len() && s[i] == c && (forall|j: int|
                i < j < s.len() ==> s[j] != c),
            None => forall|j: int| 0 <= j < s.len() ==> s[j] != c,
        },
    decreases s.len(),
{
    if s.len() > 0 && s.last() != c {
        lemma_spec_rfind(s.drop_last(), c);
        let rest = s.drop_last();
        match spec_rfind(rest, c) {
            Some(i) => {
                assert forall|j: int| i < j < s.len() implies s[j] != c by {
                    if j < s.len() - 1 {
                        assert(s[j] == rest[j]);
                    }
                }
            },
            None => {
                assert forall|j: int| 0 <= j < s.len() implies s[j] != c by {
                    if j < s.len() - 1 {
                        assert(s[j] == rest[j]);
                    }
                }
            },
        }
    }
}

pub proof fn lemma_spec_rfind_from(s: Seq<char>, c: char, i: int)
    requires
        0 <= i <= s.len(),
        forall|j: int| i <= j < s.len() ==> s[j] != c,
    ensures
        i > 0 && s[i - 1] == c ==> spec_rfind(s, c) == Some(i - 1),
        i == 0 ==> spec_rfind(s, c) is None,
    decreases s.len() - i,
{
    lemma_spec_rfind(s, c);
    if i > 0 && s[i - 1] == c {
        match spec_rfind(s, c) {
            Some(k) => {
                assert(k >= i - 1);
                assert(k <= i - 1);
            },
            None => {
                assert(s[i - 1] == c);
            },
        }
    }
}

pub fn rfind_char(s: &Vec<char>, c: char) -> (r: Option<usize>)
    ensures
        match r {
            Some(i) => spec_rfind(s@, c) == Some(i as int),
            None => spec_rfind(s@, c) is None,
        },
{
    let mut i: usize = s.len();
    while i > 0
        invariant
            i <= s@.len(),
            forall|j: int| i <= j < s@.len() ==> s@[j] != c,
        decreases i,
    {
        if s[i - 1] == c {
            proof {
                lemma_spec_rfind_from(s@, c, i as int);
            }
            return Some(i - 1);
        }
        i = i - 1;
    }
    proof {
        lemma_spec_rfind_from(s@, c, 0);
    }
    None
}

/// A copy of `v[from..to]`.
pub fn sub_chars(v: &Vec<char>, from: usize, to: usize) -> (r: Vec<char>)
    requires
        from <= to <= v@.len(),
    ensures
        r@ == v@.subrange(from as int, to as int),
{
    let mut r: Vec<char> = Vec::new();
    let mut i: usize = from;
    while i < to
        invariant
            from <= i <= to <= v@.len(),
            r@ == v@.subrange(from as int, i as int),
        decreases to - i,
    {
        r.push(v[i]);
        assert(r@ =~= v@.subrange(from as int, i + 1 as int));
        i = i + 1;
    }
    r
}

/// ASCII-lowercases every character.
pub fn lower_chars(v: &Vec<char>) -> (r: Vec<char>)
    ensures
        r@ == lower_seq(v@),
{
    let mut r: Vec<char> = Vec::new();
    let n = v.len();
    let mut i: usize = 0;
    while i < n
        invariant
            n == v@.len(),
            i <= n,
            r@.len() == i,
            forall|j: int| 0 <= j < i ==> r@[j] == lower_char(v@[j]),
        decreases n - i,
    {
        r.push(to_lower_char(v[i]));
        i = i + 1;
    }
    assert(r@ =~= lower_seq(v@));
    r
}

pub fn find_char(s: &Vec<char>, c: char) -> (r: Option<usize>)
    ensures
        match r {
            Some(i) => spec_find(s@, c) == Some(i as int),
            None => spec_find(s@, c) is None,
        },
{
    let mut i: usize = 0;
    let n = s.len();
    while i < n
        invariant
            n == s@.len(),
            i <= n,
            forall|j: int| 0 <= j < i ==> s@[j] != c,
        decreases n - i,
    {
        if s[i] == c {
            proof {
                lemma_spec_find_extend(s@, c, i as int);
            }
            return Some(i);
        }
        i = i + 1;
    }
    proof {
        lemma_spec_find_extend(s@, c, n as int);
    }
    None
}

/// Splitting on a separator character, keeping empty parts; there is always
/// at least one part. `cur` is the piece gathered so far.
pub open spec fn split_on_acc(s: Seq<char>, c: char, cur: Seq<char>) -> Seq<Seq<char>>
    decreases s.len(),
{
    if s.len() == 0 {
        seq![cur]
    } else if s[0] == c {
        seq![cur] + split_on_acc(s.drop_first(), c, Seq::empty())
    } else {
        split_on_acc(s.drop_first(), c, cur.push(s[0]))
    }
}

pub open spec fn split_on(s: Seq<char>, c: char) -> Seq<Seq<char>> {
    split_on_acc(s, c, Seq::empty())
}

pub proof fn lemma_split_on_acc_len(s: Seq<char>, c: char, cur: Seq<char>)
    ensures
        split_on_acc(s, c, cur).len() >= 1,
    decreases s.len(),
{
    if s.len() > 0 {
        if s[0] == c {
            lemma_split_on_acc_len(s.drop_first(), c, Seq::empty());
        } else {
            lemma_split_on_acc_len(s.drop_first(), c, cur.push(s[0]));
        }
    }
}

pub fn split_on_char(v: &Vec<char>, c: char) -> (r: Vec<Vec<char>>)
    ensures
        r@.len() == split_on(v@, c).len(),
        forall|i: int| 0 <= i < r@.len() ==> r@[i]@ == split_on(v@, c)[i],
{
    let ghost full = split_on(v@, c);
    let n = v.len();
    let mut r: Vec<Vec<char>> = Vec::new();
    let mut cur: Vec<char> = Vec::new();
    let mut i: usize = 0;
    proof {
        assert(v@.subrange(0, n as int) =~= v@);
    }
    while i < n
        invariant
            n == v@.len(),
            i <= n,
            full == split_on(v@, c),
            r@.len() + split_on_acc(v@.subrange(i as int, n as int), c, cur@).len() == full.len(),
            split_on_acc(v@.subrange(i as int, n as int), c, cur@) == full.subrange(
                r@.len() as int,
                full.len() as int,
            ),
            forall|k: int| 0 <= k < r@.len() ==> r@[k]@ == full[k],
        decreases n - i,
    {
        let ghost pre = v@.subrange(i as int, n as int);
        let ghost post = v@.subrange(i + 1 as int, n as int);
        proof {
            assert(pre.drop_first() =~= post);
            assert(pre[0] == v@[i as int]);
        }
        if v[i] == c {
            proof {
                assert(split_on_acc(pre, c, cur@) =~= seq![cur@] + split_on_acc(
                    post,
                    c,
                    Seq::empty(),
                ));
                assert(full[r@.len() as int] == split_on_acc(pre, c, cur@)[0]);
                assert(full.subrange(r@.len() as int, full.len() as int).drop_first()
                    =~= full.subrange(r@.len() + 1 as int, full.len() as int));
                assert(split_on_acc(post, c, Seq::empty()) =~= split_on_acc(
                    pre,
                    c,
                    cur@,
                ).drop_first());
            }
            r.push(cur);
            cur = Vec::new();
        } else {
            proof {
                assert(split_on_acc(pre, c, cur@) == split_on_acc(post, c, cur@.push(v@[i as int])));
            }
            let ch = v[i];
            cur.push(ch);
        }
        i = i + 1;
    }
    proof {
        assert(v@.subrange(n as int, n as int) =~= Seq::<char>::empty());
        assert(split_on_acc(v@.subrange(n as int, n as int), c, cur@) =~= seq![cur@]);
        assert(full.subrange(r@.len() as int, full.len() as int) == seq![cur@]);
        assert(full.subrange(r@.len() as int, full.len() as int)[0] == full[r@.len() as int]);
    }
    assert(full[r@.len() as int] == cur@);
    r.push(cur);
    r
}

/// Whitespace tokenization: maximal runs of non-space characters, with no
/// empty tokens.
pub open spec fn split_ws_acc(s: Seq<char>, cur: Seq<char>) -> Seq<Seq<char>>
    decreases s.len(),
{
    if s.len() == 0 {
        if cur.len() == 0 {
            Seq::empty()
        } else {
            seq![cur]
        }
    } else if is_space_char(s[0]) {
        if cur.len() == 0 {
            split_ws_acc(s.drop_first(), Seq::empty())
        } else {
            seq![cur] + split_ws_acc(s.drop_first(), Seq::empty())
        }
    } else {
        split_ws_acc(s.drop_first(), cur.push(s[0]))
    }
}

pub open spec fn split_ws(s: Seq<char>) -> Seq<Seq<char>> {
    split_ws_acc(s, Seq::empty())
}

/// A string of `n` characters has at most `(n + 1) / 2` whitespace tokens.
pub proof fn lemma_split_ws_acc_count(s: Seq<char>, cur: Seq<char>)
    ensures
        2 * split_ws_acc(s, cur).len() <= s.len() + (if cur.len() > 0 {
            1int
        } else {
            0int
        }) + 1,
    decreases s.len(),
{
    if s.len() > 0 {
        if is_space_char(s[0]) {
            lemma_split_ws_acc_count(s.drop_first(), Seq::empty());
        } else {
            lemma_split_ws_acc_count(s.drop_first(), cur.push(s[0]));
        }
    }
}

pub fn split_whitespace_chars(v: &Vec<char>) -> (r: Vec<Vec<char>>)
    ensures
        r@.len() == split_ws(v@).len(),
        forall|i: int| 0 <= i < r@.len() ==> r@[i]@ == split_ws(v@)[i],
{
    let ghost full = split_ws(v@);
    let n = v.len();
    let mut r: Vec<Vec<char>> = Vec::new();
    let mut cur: Vec<char> = Vec::new();
    let mut i: usize = 0;
    proof {
        assert(v@.subrange(0, n as int) =~= v@);
    }
    while i < n
        invariant
            n == v@.len(),
            i <= n,
            full == split_ws(v@),
            r@.len() + split_ws_acc(v@.subrange(i as int, n as int), cur@).len() == full.len(),
            split_ws_acc(v@.subrange(i as int, n as int), cur@) == full.subrange(
                r@.len() as int,
                full.len() as int,
            ),
            forall|k: int| 0 <= k < r@.len() ==> r@[k]@ == full[k],
        decreases n - i,
    {
        let ghost pre = v@.subrange(i as int, n as int);
        let ghost post = v@.subrange(i + 1 as int, n as int);
        proof {
            assert(pre.drop_first() =~= post);
            assert(pre[0] == v@[i as int]);
        }
        if is_space(v[i]) {
            if cur.len() > 0 {
                proof {
                    assert(split_ws_acc(pre, cur@) =~= seq![cur@] + split_ws_acc(
                        post,
                        Seq::empty(),
                    ));
                    assert(full[r@.len() as int] == split_ws_acc(pre, cur@)[0]);
                    assert(full.subrange(r@.len() as int, full.len() as int).drop_first()
                        =~= full.subrange(r@.len() + 1 as int, full.len() as int));
                    assert(split_ws_acc(post, Seq::empty()) =~= split_ws_acc(
                        pre,
                        cur@,
                    ).drop_first());
                }
                r.push(cur);
                cur = Vec::new();
            } else {
                proof {
                    assert(split_ws_acc(pre, cur@) == split_ws_acc(post, Seq::empty()));
                    assert(cur@ =~= Seq::<char>::empty());
                }
            }
        } else {
            proof {
                assert(split_ws_acc(pre, cur@) == split_ws_acc(post, cur@.push(v@[i as int])));
            }
            let ch = v[i];
            cur.push(ch);
        }
        i = i + 1;
    }
    proof {
        assert(v@.subrange(n as int, n as int) =~= Seq::<char>::empty());
        if cur@.len() > 0 {
            assert(split_ws_acc(v@.subrange(n as int, n as int), cur@) =~= seq![cur@]);
            assert(full.subrange(r@.len() as int, full.len() as int) == seq![cur@]);
            assert(full.subrange(r@.len() as int, full.len() as int)[0] == full[r@.len() as int]);
        }
    }
    if cur.len() > 0 {
        assert(full[r@.len() as int] == cur@);
        r.push(cur);
    }
    r
}

/// Leading whitespace removed.
pub open spec fn ltrim_ws(s: Seq<char>) -> Seq<char>
    decreases s.len(),
{
    if s.len() > 0 && is_space_char(s[0]) {
        ltrim_ws(s.drop_first())
    } else {
        s
    }
}

pub open spec fn rtrim_ws(s: Seq<char>) -> Seq<char>
    decreases s.len(),
{
    if s.len() > 0 && is_space_char(s.last()) {
        rtrim_ws(s.drop_last())
    } else {
        s
    }
}

/// Whitespace removed from both ends.
pub open spec fn trim_ws(s: Seq<char>) -> Seq<char> {
    rtrim_ws(ltrim_ws(s))
}

pub open spec fn ltrim_eq(s: Seq<char>, c: char) -> Seq<char>
    decreases s.len(),
{
    if s.len() > 0 && s[0] == c {
        ltrim_eq(s.drop_first(), c)
    } else {
        s
    }
}

pub open spec fn rtrim_eq(s: Seq<char>, c: char) -> Seq<char>
    decreases s.len(),
{
    if s.len() > 0 && s.last() == c {
        rtrim_eq(s.drop_last(), c)
    } else {
        s
    }
}

/// All copies of `c` removed from both ends.
pub open spec fn trim_eq(s: Seq<char>, c: char) -> Seq<char> {
    ltrim_eq(rtrim_eq(s, c), c)
}

proof fn lemma_ltrim_ws_at(s: Seq<char>, a: int)
    requires
        0 <= a <= s.len(),
        forall|j: int| 0 <= j < a ==> is_space_char(#[trigger] s[j]),
        a == s.len() || !is_space_char(s[a]),
    ensures
        ltrim_ws(s) == s.subrange(a, s.len() as int),
    decreases a,
{
    if a == 0 {
        assert(s.subrange(0, s.len() as int) =~= s);
    } else {
        let rest = s.drop_first();
        assert(forall|j: int| 0 <= j < a - 1 ==> is_space_char(#[trigger] rest[j]));
        lemma_ltrim_ws_at(rest, a - 1);
        assert(rest.subrange(a - 1, rest.len() as int) =~= s.subrange(a, s.len() as int));
    }
}

proof fn lemma_rtrim_ws_at(s: Seq<char>, b: int)
    requires
        0 <= b <= s.len(),
        forall|j: int| b <= j < s.len() ==> is_space_char(#[trigger] s[j]),
        b == 0 || !is_space_char(s[b - 1]),
    ensures
        rtrim_ws(s) == s.subrange(0, b),
    decreases s.len() - b,
{
    if b == s.len() {
        assert(s.subrange(0, b) =~= s);
    } else {
        let rest = s.drop_last();
        assert(forall|j: int| b <= j < rest.len() ==> rest[j] == s[j]);
        lemma_rtrim_ws_at(rest, b);
        assert(rest.subrange(0, b) =~= s.subrange(0, b));
    }
}

/// Whitespace trimmed from both ends, as `str::trim` does.
pub fn trim_ws_chars(v: &Vec<char>) -> (r: Vec<char>)
    ensures
        r@ == trim_ws(v@),
{
    let n = v.len();
    let mut a: usize = 0;
    while a < n && is_space(v[a])
        invariant
            a <= n,
            n == v@.len(),
            forall|j: int| 0 <= j < a ==> is_space_char(#[trigger] v@[j]),
        decreases n - a,
    {
        a = a + 1;
    }
    proof {
        lemma_ltrim_ws_at(v@, a as int);
    }
    let ghost mid = v@.subrange(a as int, n as int);
    let mut b: usize = n;
    while b > a && is_space(v[b - 1])
        invariant
            a <= b <= n,
            n == v@.len(),
            forall|j: int| b <= j < n ==> is_space_char(#[trigger] v@[j]),
        decreases b,
    {
        b = b - 1;
    }
    proof {
        assert(forall|j: int| b - a <= j < mid.len() ==> mid[j] == v@[j + a]);
        assert(forall|j: int| b - a <= j < mid.len() ==> is_space_char(#[trigger] mid[j]));
        if b > a {
            assert(mid[b - a - 1] == v@[b - 1]);
        }
        lemma_rtrim_ws_at(mid, b - a);
        assert(mid.subrange(0, b - a) =~= v@.subrange(a as int, b as int));
    }
    sub_chars(v, a, b)
}

proof fn lemma_ltrim_eq_at(s: Seq<char>, c: char, a: int)
    requires
        0 <= a <= s.len(),
        forall|j: int| 0 <= j < a ==> #[trigger] s[j] == c,
        a == s.len() || s[a] != c,
    ensures
        ltrim_eq(s, c) == s.subrange(a, s.len() as int),
    decreases a,
{
    if a == 0 {
        assert(s.subrange(0, s.len() as int) =~= s);
    } else {
        let rest = s.drop_first();
        assert(forall|j: int| 0 <= j < a - 1 ==> #[trigger] rest[j] == c);
        lemma_ltrim_eq_at(rest, c, a - 1);
        assert(rest.subrange(a - 1, rest.len() as int) =~= s.subrange(a, s.len() as int));
    }
}

proof fn lemma_rtrim_eq_at(s: Seq<char>, c: char, b: int)
    requires
        0 <= b <= s.len(),
        forall|j: int| b <= j < s.len() ==> #[trigger] s[j] == c,
        b == 0 || s[b - 1] != c,
    ensures
        rtrim_eq(s, c) == s.subrange(0, b),
    decreases s.len() - b,
{
    if b == s.len() {
        assert(s.subrange(0, b) =~= s);
    } else {
        let rest = s.drop_last();
        assert(forall|j: int| b <= j < rest.len() ==> rest[j] == s[j]);
        lemma_rtrim_eq_at(rest, c, b);
        assert(rest.subrange(0, b) =~= s.subrange(0, b));
    }
}

/// All copies of `c` trimmed from both ends, as `str::trim_matches` does
/// with a single-character pattern.
pub fn trim_eq_chars(v: &Vec<char>, c: char) -> (r: Vec<char>)
    ensures
        r@ == trim_eq(v@, c),
{
    let n = v.len();
    let mut b: usize = n;
    while b > 0 && v[b - 1] == c
        invariant
            b <= n,
            n == v@.len(),
            forall|j: int| b <= j < n ==> #[trigger] v@[j] == c,
        decreases b,
    {
        b = b - 1;
    }
    proof {
        lemma_rtrim_eq_at(v@, c, b as int);
    }
    let ghost mid = v@.subrange(0, b as int);
    let mut a: usize = 0;
    while a < b && v[a] == c
        invariant
            a <= b <= n,
            n == v@.len(),
            forall|j: int| 0 <= j < a ==> #[trigger] v@[j] == c,
        decreases b - a,
    {
        a = a + 1;
    }
    proof {
        assert(forall|j: int| 0 <= j < mid.len() ==> mid[j] == v@[j]);
        if a < b {
            assert(mid[a as int] == v@[a as int]);
        }
        lemma_ltrim_eq_at(mid, c, a as int);
        assert(mid.subrange(a as int, mid.len() as int) =~= v@.subrange(a as int, b as int));
    }
    sub_chars(v, a, b)
}

/// The value of a run of decimal digits, most significant first.
pub open spec fn is_digit(c: char) -> bool {
    48 <= c as u32 && c as u32 <= 57
}

pub open spec fn digit_val(c: char) -> int {
    c as u32 - 48
}

pub open spec fn all_digits(s: Seq<char>) -> bool {
    forall|i: int| 0 <= i < s.len() ==> is_digit(#[trigger] s[i])
}

pub open spec fn digits_val(s: Seq<char>) -> int
    decreases s.len(),
{
    if s.len() == 0 {
        0
    } else {
        digits_val(s.drop_last()) * 10 + digit_val(s.last())
    }
}

pub proof fn lemma_digits_val_nonneg(s: Seq<char>)
    requires
        all_digits(s),
    ensures
        digits_val(s) >= 0,
    decreases s.len(),
{
    if s.len() > 0 {
        assert(all_digits(s.drop_last())) by {
            assert(forall|i: int| 0 <= i < s.len() - 1 ==> s.drop_last()[i] == s[i]);
        }
        lemma_digits_val_nonneg(s.drop_last());
    }
}

pub proof fn lemma_digits_val_prefix(s: Seq<char>, k: int)
    requires
        all_digits(s),
        0 <= k <= s.len(),
    ensures
        digits_val(s.subrange(0, k)) <= digits_val(s),
    decreases s.len() - k,
{
    if k == s.len() {
        assert(s.subrange(0, k) =~= s);
    } else {
        lemma_digits_val_prefix(s, k + 1);
        let p = s.subrange(0, k + 1);
        assert(all_digits(p)) by {
            assert(forall|i: int| 0 <= i < p.len() ==> p[i] == s[i]);
        }
        assert(p.drop_last() =~= s.subrange(0, k));
        lemma_digits_val_nonneg(p.drop_last());
        assert(digits_val(p) == digits_val(s.subrange(0, k)) * 10 + digit_val(p.last()));
        assert(digits_val(s.subrange(0, k)) * 10 >= digits_val(s.subrange(0, k)));
    }
}

/// Parses a non-negative decimal integer: succeeds exactly on a non-empty,
/// all-digit string whose value fits in `u32`.
pub fn parse_u32_chars(v: &Vec<char>) -> (r: Option<u32>)
    ensures
        match r {
            Some(x) => v@.len() >= 1 && all_digits(v@) && x as int == digits_val(v@),
            None => v@.len() == 0 || !all_digits(v@) || digits_val(v@) > u32::MAX,
        },
{
    let n = v.len();
    if n == 0 {
        return None;
    }
    let mut acc: u64 = 0;
    let mut i: usize = 0;
    while i < n
        invariant
            n == v@.len(),
            i <= n,
            all_digits(v@.subrange(0, i as int)),
            acc as int == digits_val(v@.subrange(0, i as int)),
            acc <= u32::MAX,
        decreases n - i,
    {
        let c = v[i];
        let u = c as u32;
        if u < 48 || u > 57 {
            assert(!is_digit(v@[i as int]));
            return None;
        }
        let d: u64 = (u - 48) as u64;
        assert(is_digit(v@[i as int]));
        let next: u64 = acc * 10 + d;
        proof {
            assert(v@.subrange(0, i + 1 as int).drop_last() =~= v@.subrange(0, i as int));
            assert(all_digits(v@.subrange(0, i + 1 as int))) by {
                assert(forall|j: int|
                    0 <= j < i + 1 ==> v@.subrange(0, i + 1 as int)[j] == v@[j]);
            }
        }
        if next > u32::MAX as u64 {
            // either some later character is not a digit, or the whole
            // string's value exceeds this already-too-large prefix
            if check_all_digits(v, i + 1) {
                proof {
                    assert(all_digits(v@)) by {
                        assert(forall|j: int|
                            0 <= j < i + 1 ==> v@[j] == v@.subrange(0, i + 1 as int)[j]);
                    }
                    lemma_digits_val_prefix(v@, i + 1);
                    assert(digits_val(v@.subrange(0, i + 1 as int)) == next as int);
                }
            }
            return None;
        }
        acc = next;
        i = i + 1;
    }
    assert(v@.subrange(0, n as int) =~= v@);
    Some(acc as u32)
}

fn check_all_digits(v: &Vec<char>, from: usize) -> (r: bool)
    requires
        from <= v@.len(),
    ensures
        r == (forall|i: int| from <= i < v@.len() ==> is_digit(#[trigger] v@[i])),
{
    let n = v.len();
    let mut i: usize = from;
    while i < n
        invariant
            from <= i <= n,
            n == v@.len(),
            forall|j: int| from <= j < i ==> is_digit(#[trigger] v@[j]),
        decreases n - i,
    {
        let u = v[i] as u32;
        if u < 48 || u > 57 {
            assert(!is_digit(v@[i as int]));
            return false;
        }
        assert(is_digit(v@[i as int]));
        i = i + 1;
    }
    true
}

/// One line with a trailing carriage return removed.
pub open spec fn strip_cr(p: Seq<char>) -> Seq<char> {
    if p.len() > 0 && p.last() == '\r' {
        p.drop_last()
    } else {
        p
    }
}

/// The lines of a text, as `str::lines` yields them: split on newlines, a
/// final empty piece dropped, and a carriage return stripped from each end.
pub open spec fn lines_of(s: Seq<char>) -> Seq<Seq<char>> {
    let parts = split_on(s, '\n');
    let kept = if parts.len() > 0 && parts.last().len() == 0 {
        parts.drop_last()
    } else {
        parts
    };
    kept.map_values(|p: Seq<char>| strip_cr(p))
}

/// Splits a text into lines.
pub fn split_lines(s: &str) -> (r: Vec<String>)
    ensures
        r@.len() == lines_of(s@).len(),
        forall|i: int| 0 <= i < r@.len() ==> (#[trigger] r@[i])@ == lines_of(s@)[i],
{
    let chars = to_char_vec(s);
    let mut parts = split_on_char(&chars, '\n');
    proof {
        crate::text::lemma_split_on_acc_len(chars@, '\n', Seq::empty());
    }
    if parts[parts.len() - 1].len() == 0 {
        let ghost pv = parts@;
        let trailing_empty = parts.pop();
        proof {
            assert(trailing_empty is Some);
            assert(parts@ =~= pv.drop_last());
        }
    }
    let n = parts.len();
    let mut r: Vec<String> = Vec::new();
    let mut i: usize = 0;
    while i < n
        invariant
            i <= n,
            n == parts@.len(),
            n == lines_of(s@).len(),
            forall|k: int|
                0 <= k < n ==> strip_cr((#[trigger] parts@[k])@) == lines_of(s@)[k],
            r@.len() == i,
            forall|k: int| 0 <= k < i ==> (#[trigger] r@[k])@ == lines_of(s@)[k],
        decreases n - i,
    {
        let p = &parts[i];
        let pl = p.len();
        if pl > 0 && p[pl - 1] == '\r' {
            let cut = sub_chars(p, 0, pl - 1);
            proof {
                assert(cut@ =~= p@.drop_last());
            }
            r.push(string_from_chars(&cut));
        } else {
            r.push(string_from_chars(p));
        }
        i = i + 1;
    }
    r
}

/// The decimal digit character for one digit value.
pub open spec fn digit_char(d: int) -> char {
    ((48 + d) as u8) as char
}

/// The decimal rendering of a non-negative number, most significant digit
/// first.
pub open spec fn dec_digits(n: int) -> Seq<char>
    decreases n,
{
    if n < 10 {
        seq![digit_char(if n >= 0 {
            n
        } else {
            0
        })]
    } else {
        dec_digits(n / 10).push(digit_char(n % 10))
    }
}

/// Rendering a number gives a non-empty digit string whose parsed value is
/// the number again.
pub proof fn lemma_dec_digits_roundtrip(n: int)
    requires
        n >= 0,
    ensures
        dec_digits(n).len() >= 1,
        all_digits(dec_digits(n)),
        digits_val(dec_digits(n)) == n,
    decreases n,
{
    if n < 10 {
        let s = dec_digits(n);
        assert(s.len() == 1);
        assert(s[0] == digit_char(n));
        assert(is_digit(s[0]));
        assert(s.drop_last() =~= Seq::<char>::empty());
        assert(digits_val(s.drop_last()) == 0);
        assert(digits_val(s) == digit_val(s[0]));
    } else {
        lemma_dec_digits_roundtrip(n / 10);
        let pre = dec_digits(n / 10);
        let s = dec_digits(n);
        assert(s == pre.push(digit_char(n % 10)));
        assert(s.drop_last() =~= pre);
        assert(is_digit(digit_char(n % 10)));
        assert(all_digits(s)) by {
            assert(forall|i: int| 0 <= i < pre.len() ==> s[i] == pre[i]);
        }
        assert(digits_val(s) == digits_val(pre) * 10 + digit_val(s.last()));
    }
}

/// Renders a number in decimal.
pub fn u128_to_dec(n: u128) -> (r: Vec<char>)
    ensures
        r@ == dec_digits(n as int),
{
    let mut rev: Vec<char> = Vec::new();
    let mut cur: u128 = n;
    proof {
        assert(rev@.reverse() =~= Seq::<char>::empty());
        assert(dec_digits(n as int) =~= dec_digits(cur as int) + rev@.reverse());
    }
    while cur >= 10
        invariant
            dec_digits(n as int) == dec_digits(cur as int) + rev@.reverse(),
        decreases cur,
    {
        let d = (cur % 10) as u8;
        let c = (48 + d) as char;
        let ghost old_rev = rev@;
        rev.push(c);
        proof {
            assert(c == digit_char(cur as int % 10));
            assert(rev@.reverse() =~= seq![c] + old_rev.reverse());
            assert(dec_digits(cur as int) == dec_digits(cur as int / 10).push(c));
            assert(dec_digits(cur as int / 10) + rev@.reverse() =~= dec_digits(cur as int)
                + old_rev.reverse());
        }
        cur = cur / 10;
    }
    let d = cur as u8;
    let c = (48 + d) as char;
    let mut out: Vec<char> = Vec::new();
    out.push(c);
    proof {
        assert(c == digit_char(cur as int));
        assert(dec_digits(cur as int) =~= seq![c]);
        assert(out@ =~= dec_digits(cur as int));
    }
    let nr = rev.len();
    let mut i: usize = nr;
    while i > 0
        invariant
            i <= nr,
            nr == rev@.len(),
            out@ == dec_digits(cur as int) + rev@.reverse().take(nr - i),
        decreases i,
    {
        let ghost old_out = out@;
        out.push(rev[i - 1]);
        proof {
            assert(rev@[i - 1] == rev@.reverse()[nr - i]);
            assert(out@ =~= dec_digits(cur as int) + rev@.reverse().take(nr - i + 1));
        }
        i = i - 1;
    }
    proof {
        assert(rev@.reverse().take(nr as int) =~= rev@.reverse());
        assert(out@ =~= dec_digits(n as int));
    }
    out
}

/// Lexicographic order on character sequences, by code point; a proper
/// prefix sorts first.
pub open spec fn lex_le(a: Seq<char>, b: Seq<char>) -> bool
    decreases a.len(),
{
    if a.len() == 0 {
        true
    } else if b.len() == 0 {
        false
    } else if a[0] != b[0] {
        (a[0] as u32) < (b[0] as u32)
    } else {
        lex_le(a.drop_first(), b.drop_first())
    }
}

/// The lexicographic order is total.
pub proof fn lemma_lex_le_total(a: Seq<char>, b: Seq<char>)
    ensures
        lex_le(a, b) || lex_le(b, a),
        lex_le(a, a),
    decreases a.len(),
{
    if a.len() > 0 && b.len() > 0 {
        if a[0] == b[0] {
            lemma_lex_le_total(a.drop_first(), b.drop_first());
        } else {
            assert(a[0] as u32 != b[0] as u32) by {
                vstd::utf8::char_u32_cast(a[0], a[0] as u32);
                vstd::utf8::char_u32_cast(b[0], b[0] as u32);
            }
        }
    }
    if a.len() > 0 {
        lemma_lex_le_total(a.drop_first(), a.drop_first());
    }
}

/// Two sequences below each other are equal.
pub proof fn lemma_lex_le_antisymmetric(a: Seq<char>, b: Seq<char>)
    requires
        lex_le(a, b),
        lex_le(b, a),
    ensures
        a == b,
    decreases a.len(),
{
    if a.len() == 0 {
        assert(b.len() == 0);
        assert(a =~= b);
    } else {
        assert(b.len() > 0);
        assert(a[0] == b[0]) by {
            if a[0] != b[0] {
                assert((a[0] as u32) < (b[0] as u32));
                assert((b[0] as u32) < (a[0] as u32));
            }
        }

        lemma_lex_le_antisymmetric(a.drop_first(), b.drop_first());
        assert(a =~= b) by {
            assert(forall|i: int|
                1 <= i < a.len() ==> a[i] == a.drop_first()[i - 1] && b[i] == b.drop_first()[i
                    - 1]);
        }
    }
}

/// The lexicographic order is transitive.
pub proof fn lemma_lex_le_transitive(a: Seq<char>, b: Seq<char>, c: Seq<char>)
    requires
        lex_le(a, b),
        lex_le(b, c),
    ensures
        lex_le(a, c),
    decreases a.len(),
{
    if a.len() > 0 && b.len() > 0 && c.len() > 0 {
        if a[0] == b[0] && b[0] == c[0] {
            lemma_lex_le_transitive(a.drop_first(), b.drop_first(), c.drop_first());
        }
    }
}

/// Decides the lexicographic order.
pub fn str_lex_le(x: &str, y: &str) -> (r: bool)
    ensures
        r == lex_le(x@, y@),
{
    let nx = x.unicode_len();
    let ny = y.unicode_len();
    let mut i: usize = 0;
    proof {
        assert(x@.subrange(0, nx as int) =~= x@);
        assert(y@.subrange(0, ny as int) =~= y@);
    }
    while i < nx && i < ny
        invariant
            nx == x@.len(),
            ny == y@.len(),
            i <= nx,
            i <= ny,
            forall|j: int| 0 <= j < i ==> x@[j] == y@[j],
            lex_le(x@, y@) == lex_le(
                x@.subrange(i as int, nx as int),
                y@.subrange(i as int, ny as int),
            ),
        decreases nx - i,
    {
        let ghost xs = x@.subrange(i as int, nx as int);
        let ghost ys = y@.subrange(i as int, ny as int);
        proof {
            assert(xs.drop_first() =~= x@.subrange(i + 1 as int, nx as int));
            assert(ys.drop_first() =~= y@.subrange(i + 1 as int, ny as int));
            assert(xs[0] == x@[i as int]);
            assert(ys[0] == y@[i as int]);
        }
        let cx = x.get_char(i);
        let cy = y.get_char(i);
        if cx != cy {
            return (cx as u32) < (cy as u32);
        }
        i = i + 1;
    }
    proof {
        if i >= nx {
            assert(x@.subrange(i as int, nx as int) =~= Seq::<char>::empty());
        } else {
            assert(y@.subrange(i as int, ny as int) =~= Seq::<char>::empty());
            assert(x@.subrange(i as int, nx as int).len() > 0);
        }
    }
    i >= nx
}

} // verus!
