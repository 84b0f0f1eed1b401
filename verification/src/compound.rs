//! Compound words: short ordered sequences of lexicon ids forming one
//! multi-word Toki Pona phrase, and the overlap heuristic that compares them.

use vstd::prelude::*;

use smallvec::SmallVec;

use crate::pu::{Pu, TokiPonaWord};
use crate::text::{string_from_chars, to_char_vec};

verus! {

/// The inline vector that backs a compound word. The verifier sees it only
/// through `small_words` and the small trusted accessors below, which rely
/// on `smallvec::SmallVec`.
#[verifier::external_body]
pub struct WordVec {
    // almost all compounds hold at most four words
    items: SmallVec<[TokiPonaWord; 4]>,
}

/// The words an inline vector holds, in order.
pub uninterp spec fn small_words(v: WordVec) -> Seq<TokiPonaWord>;

/// Relies on `smallvec::SmallVec::new`: a freshly made vector is empty.
#[verifier::external_body]
fn sv_new() -> (r: WordVec)
    ensures
        small_words(r) == Seq::<TokiPonaWord>::empty(),
{
    WordVec { items: SmallVec::new() }
}

/// Relies on `smallvec::SmallVec::push`: appends one element at the end.
#[verifier::external_body]
fn sv_push(v: &mut WordVec, w: TokiPonaWord)
    ensures
        small_words(*final(v)) == small_words(*old(v)).push(w),
{
    v.items.push(w)
}

/// Relies on `smallvec::SmallVec::len`: the number of elements held.
#[verifier::external_body]
fn sv_len(v: &WordVec) -> (r: usize)
    ensures
        r == small_words(*v).len(),
{
    v.items.len()
}

/// Relies on the slice indexing smallvec offers through `Deref`.
#[verifier::external_body]
fn sv_get(v: &WordVec, i: usize) -> (r: TokiPonaWord)
    requires
        i < small_words(*v).len(),
    ensures
        r == small_words(*v)[i as int],
{
    v.items[i]
}

/// An ordered sequence of lexicon ids; empty compounds are legal.
pub struct CompoundWord {
    toki_pona: WordVec,
}

impl View for CompoundWord {
    type V = Seq<TokiPonaWord>;

    closed spec fn view(&self) -> Seq<TokiPonaWord> {
        small_words(self.toki_pona)
    }
}

/// How many positions of `b` hold a word that occurs anywhere in `a`.
/// A word occurring twice in `b` is counted twice.
pub open spec fn count_in(a: Seq<TokiPonaWord>, b: Seq<TokiPonaWord>) -> int
    decreases b.len(),
{
    if b.len() == 0 {
        0
    } else {
        count_in(a, b.drop_last()) + if a.contains(b.last()) {
            1int
        } else {
            0int
        }
    }
}

/// The overlap distance `|a| + |b| - 2 * count_in(a, b)`, floored at zero.
pub open spec fn dist_spec(a: Seq<TokiPonaWord>, b: Seq<TokiPonaWord>) -> int {
    let raw = a.len() + b.len() - 2 * count_in(a, b);
    if raw >= 0 {
        raw
    } else {
        0
    }
}

/// The surface rendering of a compound: the lexicon text of each word,
/// joined by single spaces.
pub open spec fn compound_text(words: Seq<TokiPonaWord>, pu: Pu) -> Seq<char>
    decreases words.len(),
{
    if words.len() == 0 {
        Seq::empty()
    } else if words.len() == 1 {
        pu.spec_word(words[0].idx())
    } else {
        compound_text(words.drop_last(), pu) + seq![' '] + pu.spec_word(words.last().idx())
    }
}

impl CompoundWord {
    /// Every id of this compound is an id of `pu`.
    pub open spec fn in_lexicon(&self, pu: Pu) -> bool {
        forall|i: int| 0 <= i < self@.len() ==> (#[trigger] self@[i]).idx() < pu.word_count()
    }

    pub fn empty() -> (r: Self)
        ensures
            r@ == Seq::<TokiPonaWord>::empty(),
    {
        CompoundWord { toki_pona: sv_new() }
    }

    pub fn push_word(&mut self, w: TokiPonaWord)
        ensures
            final(self)@ == old(self)@.push(w),
    {
        sv_push(&mut self.toki_pona, w)
    }

    pub fn len(&self) -> (r: usize)
        ensures
            r == self@.len(),
    {
        sv_len(&self.toki_pona)
    }

    pub fn word_at(&self, i: usize) -> (r: TokiPonaWord)
        requires
            i < self@.len(),
        ensures
            r == self@[i as int],
    {
        sv_get(&self.toki_pona, i)
    }

    /// An element-for-element copy.
    pub fn duplicate(&self) -> (r: Self)
        ensures
            r@ == self@,
    {
        let n = sv_len(&self.toki_pona);
        let mut out = sv_new();
        let mut i: usize = 0;
        while i < n
            invariant
                n == self@.len(),
                i <= n,
                small_words(out) == self@.subrange(0, i as int),
            decreases n - i,
        {
            sv_push(&mut out, sv_get(&self.toki_pona, i));
            assert(small_words(out) =~= self@.subrange(0, i + 1 as int));
            i = i + 1;
        }
        assert(small_words(out) =~= self@);
        CompoundWord { toki_pona: out }
    }

    /// Whether this compound holds the given word anywhere.
    pub fn has_word(&self, w: TokiPonaWord) -> (r: bool)
        ensures
            r == self@.contains(w),
    {
        let n = sv_len(&self.toki_pona);
        let mut i: usize = 0;
        while i < n
            invariant
                n == self@.len(),
                i <= n,
                forall|j: int| 0 <= j < i ==> self@[j] != w,
            decreases n - i,
        {
            if sv_get(&self.toki_pona, i) == w {
                assert(self@[i as int] == w);
                return true;
            }
            i = i + 1;
        }
        assert(!self@.contains(w));
        false
    }

    /// Sequence equality of two compounds.
    pub fn same_words(&self, other: &Self) -> (r: bool)
        ensures
            r == (self@ == other@),
    {
        let n = sv_len(&self.toki_pona);
        if n != sv_len(&other.toki_pona) {
            return false;
        }
        let mut i: usize = 0;
        while i < n
            invariant
                n == self@.len(),
                n == other@.len(),
                i <= n,
                forall|j: int| 0 <= j < i ==> self@[j] == other@[j],
            decreases n - i,
        {
            if sv_get(&self.toki_pona, i) != sv_get(&other.toki_pona, i) {
                return false;
            }
            i = i + 1;
        }
        assert(self@ =~= other@);
        true
    }

    /// Renders the compound through the lexicon: the surface text of each
    /// word, joined by single spaces.
    pub fn to_string(&self, pu: &Pu) -> (r: String)
        requires
            self.in_lexicon(*pu),
        ensures
            r@ == compound_text(self@, *pu),
    {
        let n = self.len();
        let mut chars: Vec<char> = Vec::new();
        let mut i: usize = 0;
        proof {
            assert(chars@ =~= compound_text(self@.subrange(0, 0), *pu));
        }
        while i < n
            invariant
                n == self@.len(),
                i <= n,
                self.in_lexicon(*pu),
                chars@ == compound_text(self@.subrange(0, i as int), *pu),
            decreases n - i,
        {
            let ghost pre = self@.subrange(0, i as int);
            let ghost cur = self@.subrange(0, i + 1 as int);
            proof {
                assert(cur.drop_last() =~= pre);
                assert(cur.last() == self@[i as int]);
                assert(self@[i as int].idx() < pu.word_count());
            }
            if i > 0 {
                chars.push(' ');
            }
            let w = self.word_at(i);
            let mut wchars = to_char_vec(pu.get(&w));
            chars.append(&mut wchars);
            proof {
                if i == 0 {
                    assert(cur.len() == 1);
                    assert(cur[0] == self@[0]);
                    assert(chars@ =~= compound_text(cur, *pu));
                } else {
                    assert(chars@ =~= compound_text(pre, *pu) + seq![' '] + pu.spec_word(
                        self@[i as int].idx(),
                    ));
                    assert(chars@ =~= compound_text(cur, *pu));
                }
            }
            i = i + 1;
        }
        proof {
            assert(self@.subrange(0, n as int) =~= self@);
        }
        string_from_chars(&chars)
    }

    /// The overlap distance from `other` to `self`: elements of `other` are
    /// looked up anywhere in `self`.
    pub fn dist(&self, other: &Self) -> (r: u64)
        requires
            self@.len() + other@.len() <= u64::MAX,
        ensures
            r == dist_spec(self@, other@),
    {
        let nb = sv_len(&other.toki_pona);
        let mut m: u64 = 0;
        let mut j: usize = 0;
        proof {
            assert(other@.subrange(0, 0) =~= Seq::<TokiPonaWord>::empty());
        }
        while j < nb
            invariant
                nb == other@.len(),
                j <= nb,
                self@.len() + other@.len() <= u64::MAX,
                m == count_in(self@, other@.subrange(0, j as int)),
                m <= j,
            decreases nb - j,
        {
            proof {
                assert(other@.subrange(0, j + 1 as int).drop_last() =~= other@.subrange(
                    0,
                    j as int,
                ));
                assert(other@.subrange(0, j + 1 as int).last() == other@[j as int]);
            }
            if self.has_word(sv_get(&other.toki_pona, j)) {
                m = m + 1;
            }
            j = j + 1;
        }
        proof {
            assert(other@.subrange(0, nb as int) =~= other@);
        }
        let total: u128 = self.len() as u128 + nb as u128;
        let mm: u128 = 2 * (m as u128);
        if total >= mm {
            ((total - mm) as u64)
        } else {
            0
        }
    }
}

/// `count_in` never counts more positions than `b` has.
pub proof fn lemma_count_in_le_b(a: Seq<TokiPonaWord>, b: Seq<TokiPonaWord>)
    ensures
        0 <= count_in(a, b) <= b.len(),
    decreases b.len(),
{
    if b.len() > 0 {
        lemma_count_in_le_b(a, b.drop_last());
    }
}

/// For a duplicate-free `b`, the matched words of `b` are distinct values
/// that all occur in `a`, so at most `a`'s value set can be matched.
proof fn lemma_count_in_le_intersection(a: Seq<TokiPonaWord>, b: Seq<TokiPonaWord>)
    requires
        forall|i: int, j: int| 0 <= i < j < b.len() ==> b[i] != b[j],
    ensures
        count_in(a, b) <= a.to_set().intersect(b.to_set()).len(),
    decreases b.len(),
{
    broadcast use vstd::seq_lib::group_seq_properties;
    broadcast use vstd::set::group_set_axioms;
    broadcast use vstd::seq_lib::seq_to_set_is_finite;

    if b.len() == 0 {
    } else {
        let bp = b.drop_last();
        let w = b.last();
        assert(forall|i: int, j: int| 0 <= i < j < bp.len() ==> bp[i] != bp[j]) by {
            assert(forall|i: int| 0 <= i < bp.len() ==> bp[i] == b[i]);
        }
        lemma_count_in_le_intersection(a, bp);
        assert(!bp.contains(w)) by {
            if bp.contains(w) {
                let i = choose|i: int| 0 <= i < bp.len() && bp[i] == w;
                assert(b[i] == b[b.len() - 1]);
            }
        }
        let sp = a.to_set().intersect(bp.to_set());
        let sf = a.to_set().intersect(b.to_set());
        assert(bp.to_set().subset_of(b.to_set()));
        assert(sp.subset_of(sf));
        assert(sf.subset_of(a.to_set()));
        vstd::set_lib::lemma_len_subset(sf, a.to_set());
        vstd::set_lib::lemma_len_subset(sp, sf);
        if a.contains(w) {
            assert(sf.contains(w));
            assert(!sp.contains(w));
            assert(sp.subset_of(sf.remove(w)));
            vstd::set_lib::lemma_len_subset(sp, sf.remove(w));
            assert(sf.remove(w).len() == sf.len() - 1);
        }
    }
}

/// For non-empty compounds `a` and `b` with `b` free of repeated words, the
/// overlap distance lies between `||a| - |b||` and `|a| + |b|`. (When `b`
/// repeats a word of `a`, the double-counted overlap can push the raw
/// formula below the lower bound, so such inputs are excluded.)
pub proof fn lemma_dist_bounds(a: Seq<TokiPonaWord>, b: Seq<TokiPonaWord>)
    requires
        a.len() > 0,
        b.len() > 0,
        forall|i: int, j: int| 0 <= i < j < b.len() ==> b[i] != b[j],
    ensures
        dist_spec(a, b) >= a.len() - b.len(),
        dist_spec(a, b) >= b.len() - a.len(),
        dist_spec(a, b) <= a.len() + b.len(),
{
    broadcast use vstd::seq_lib::group_seq_properties;
    broadcast use vstd::set::group_set_axioms;
    broadcast use vstd::seq_lib::seq_to_set_is_finite;

    lemma_count_in_le_b(a, b);
    lemma_count_in_le_intersection(a, b);
    let sf = a.to_set().intersect(b.to_set());
    assert(sf.subset_of(a.to_set()));
    vstd::set_lib::lemma_len_subset(sf, a.to_set());
    a.lemma_cardinality_of_set();
}

} // verus!
