//! The association miner: per-pair word-frequency bags, aggregated corpus
//! counts, and exact rational association scores.

use vstd::multiset::Multiset;
use vstd::prelude::*;

use crate::pu::{Pu, TokiPonaWord};
use crate::text::{
    dec_digits, lower_seq, split_ws, split_whitespace_chars, str_eq_str, string_from_chars,
    to_char_vec, u128_to_dec,
};

verus! {

/// `a + b` capped at the counter ceiling.
pub open spec fn sat_add32(a: u32, b: u32) -> u32 {
    if a + b <= u32::MAX {
        (a + b) as u32
    } else {
        u32::MAX
    }
}

/// A frequency counter keyed by `T`; each key is held once.
pub struct CountMap<T> {
    entries: Vec<(T, u32)>,
}

impl CountMap<String> {
    /// The (key text, count) pairs, in first-seen order.
    pub closed spec fn entries_view(&self) -> Seq<(Seq<char>, u32)> {
        self.entries@.map_values(|e: (String, u32)| (e.0@, e.1))
    }

    /// Each key is stored at most once.
    pub open spec fn wf(&self) -> bool {
        forall|i: int, j: int|
            0 <= i < j < self.entries_view().len() ==> (#[trigger] self.entries_view()[i]).0 != (
            #[trigger] self.entries_view()[j]).0
    }

    pub open spec fn spec_has(&self, k: Seq<char>) -> bool {
        exists|i: int|
            0 <= i < self.entries_view().len() && (#[trigger] self.entries_view()[i]).0 == k
    }

    /// The count stored for `k`, zero when absent.
    pub closed spec fn spec_get(&self, k: Seq<char>) -> u32 {
        if self.spec_has(k) {
            self.entries_view()[choose|i: int|
                0 <= i < self.entries_view().len() && (#[trigger] self.entries_view()[i]).0
                    == k].1
        } else {
            0
        }
    }

    /// The stored pair at `i` carries exactly the count of its key.
    pub proof fn lemma_entry(&self, i: int)
        requires
            self.wf(),
            0 <= i < self.entries_view().len(),
        ensures
            self.spec_has(self.entries_view()[i].0),
            self.spec_get(self.entries_view()[i].0) == self.entries_view()[i].1,
    {
        assert(self.spec_has(self.entries_view()[i].0));
        let j = choose|j: int|
            0 <= j < self.entries_view().len() && (#[trigger] self.entries_view()[j]).0
                == self.entries_view()[i].0;
        assert(j == i);
    }

    pub fn new() -> (r: Self)
        ensures
            r.wf(),
            r.entries_view() =~= Seq::<(Seq<char>, u32)>::empty(),
            forall|k: Seq<char>| !r.spec_has(k),
            forall|k: Seq<char>| r.spec_get(k) == 0,
    {
        let r: CountMap<String> = CountMap { entries: Vec::new() };
        proof {
            assert(r.entries_view() =~= Seq::<(Seq<char>, u32)>::empty());
            assert(forall|k: Seq<char>| !r.spec_has(k));
        }
        r
    }

    pub fn num_entries(&self) -> (r: usize)
        ensures
            r == self.entries_view().len(),
    {
        self.entries.len()
    }

    pub fn key_at(&self, i: usize) -> (r: &String)
        requires
            i < self.entries_view().len(),
        ensures
            r@ == self.entries_view()[i as int].0,
    {
        &self.entries[i].0
    }

    pub fn count_at(&self, i: usize) -> (r: u32)
        requires
            i < self.entries_view().len(),
        ensures
            r == self.entries_view()[i as int].1,
    {
        self.entries[i].1
    }

    /// The private index of `k`, if stored.
    fn find_key(&self, k: &str) -> (r: Option<usize>)
        ensures
            match r {
                Some(i) => i < self.entries_view().len() && self.entries_view()[i as int].0 == k@,
                None => !self.spec_has(k@),
            },
    {
        let n = self.entries.len();
        let mut i: usize = 0;
        while i < n
            invariant
                i <= n,
                n == self.entries_view().len(),
                forall|j: int| 0 <= j < i ==> (#[trigger] self.entries_view()[j]).0 != k@,
            decreases n - i,
        {
            if str_eq_str(self.entries[i].0.as_str(), k) {
                assert(self.entries_view()[i as int].0 == k@);
                return Some(i);
            }
            i = i + 1;
        }
        None
    }

    pub fn contains_key(&self, k: &String) -> (r: bool)
        ensures
            r == self.spec_has(k@),
    {
        match self.find_key(k.as_str()) {
            Some(i) => {
                proof {
                    assert(self.spec_has(k@)) by {
                        assert(self.entries_view()[i as int].0 == k@);
                    }
                }
                true
            },
            None => false,
        }
    }

    pub fn get(&self, k: &String) -> (r: u32)
        requires
            self.wf(),
        ensures
            r == self.spec_get(k@),
    {
        match self.find_key(k.as_str()) {
            Some(i) => {
                proof {
                    self.lemma_entry(i as int);
                }
                self.entries[i].1
            },
            None => 0,
        }
    }

    /// Adds `by` to `k`'s count, capping at the counter ceiling; every other
    /// key is untouched.
    pub fn incr(&mut self, k: &String, by: u32)
        requires
            old(self).wf(),
        ensures
            final(self).wf(),
            final(self).spec_has(k@),
            final(self).spec_get(k@) == sat_add32(old(self).spec_get(k@), by),
            forall|k2: Seq<char>|
                k2 != k@ ==> final(self).spec_has(k2) == old(self).spec_has(k2)
                    && final(self).spec_get(k2) == old(self).spec_get(k2),
    {
        let ghost pre = *self;
        match self.find_key(k.as_str()) {
            Some(i) => {
                proof {
                    pre.lemma_entry(i as int);
                }
                let cur = self.entries[i].1;
                let newc: u32 = if cur <= u32::MAX - by {
                    cur + by
                } else {
                    u32::MAX
                };
                let key_back = self.entries.remove(i);
                self.entries.insert(i, (key_back.0, newc));
                proof {
                    assert(self.entries_view() =~= pre.entries_view().update(
                        i as int,
                        (k@, sat_add32(pre.spec_get(k@), by)),
                    ));
                    assert forall|i2: int, j2: int|
                        0 <= i2 < j2 < self.entries_view().len() implies (
                    #[trigger] self.entries_view()[i2]).0 != (
                    #[trigger] self.entries_view()[j2]).0 by {
                        assert(pre.entries_view()[i2].0 != pre.entries_view()[j2].0);
                    }
                    assert(self.spec_has(k@)) by {
                        assert(self.entries_view()[i as int].0 == k@);
                    }
                    self.lemma_entry(i as int);
                    assert forall|k2: Seq<char>| k2 != k@ implies self.spec_has(k2)
                        == pre.spec_has(k2) && self.spec_get(k2) == pre.spec_get(k2) by {
                        if pre.spec_has(k2) {
                            let j = choose|j: int|
                                0 <= j < pre.entries_view().len() && (
                                #[trigger] pre.entries_view()[j]).0 == k2;
                            assert(self.entries_view()[j].0 == k2);
                            pre.lemma_entry(j);
                            self.lemma_entry(j);
                        }
                        if self.spec_has(k2) {
                            let j = choose|j: int|
                                0 <= j < self.entries_view().len() && (
                                #[trigger] self.entries_view()[j]).0 == k2;
                            assert(pre.entries_view()[j].0 == k2);
                        }
                    }
                }
            },
            None => {
                let kc = to_char_vec(k.as_str());
                let owned = string_from_chars(&kc);
                self.entries.push((owned, by));
                proof {
                    assert(self.entries_view() =~= pre.entries_view().push((k@, by)));
                    let n = pre.entries_view().len() as int;
                    assert(self.entries_view()[n].0 == k@);
                    assert forall|i2: int, j2: int|
                        0 <= i2 < j2 < self.entries_view().len() implies (
                    #[trigger] self.entries_view()[i2]).0 != (
                    #[trigger] self.entries_view()[j2]).0 by {
                        if j2 < n {
                            assert(pre.entries_view()[i2].0 != pre.entries_view()[j2].0);
                        } else {
                            assert(self.entries_view()[j2].0 == k@);
                            assert(self.entries_view()[i2].0 == pre.entries_view()[i2].0);
                            assert(!pre.spec_has(k@));
                        }
                    }
                    assert(self.spec_has(k@));
                    self.lemma_entry(n);
                    assert(sat_add32(pre.spec_get(k@), by) == by);
                    assert forall|k2: Seq<char>| k2 != k@ implies self.spec_has(k2)
                        == pre.spec_has(k2) && self.spec_get(k2) == pre.spec_get(k2) by {
                        if pre.spec_has(k2) {
                            let j = choose|j: int|
                                0 <= j < pre.entries_view().len() && (
                                #[trigger] pre.entries_view()[j]).0 == k2;
                            assert(self.entries_view()[j].0 == k2);
                            pre.lemma_entry(j);
                            self.lemma_entry(j);
                        }
                        if self.spec_has(k2) {
                            let j = choose|j: int|
                                0 <= j < self.entries_view().len() && (
                                #[trigger] self.entries_view()[j]).0 == k2;
                            assert(j < n);
                            assert(pre.entries_view()[j].0 == k2);
                        }
                    }
                }
            },
        }
    }
}

impl CountMap<TokiPonaWord> {
    /// The (word id, count) pairs, in first-seen order.
    pub closed spec fn entries_view(&self) -> Seq<(TokiPonaWord, u32)> {
        self.entries@
    }

    /// Each key is stored at most once.
    pub open spec fn wf(&self) -> bool {
        forall|i: int, j: int|
            0 <= i < j < self.entries_view().len() ==> (#[trigger] self.entries_view()[i]).0 != (
            #[trigger] self.entries_view()[j]).0
    }

    pub open spec fn spec_has(&self, w: TokiPonaWord) -> bool {
        exists|i: int|
            0 <= i < self.entries_view().len() && (#[trigger] self.entries_view()[i]).0 == w
    }

    /// The count stored for `w`, zero when absent.
    pub closed spec fn spec_get(&self, w: TokiPonaWord) -> u32 {
        if self.spec_has(w) {
            self.entries_view()[choose|i: int|
                0 <= i < self.entries_view().len() && (#[trigger] self.entries_view()[i]).0
                    == w].1
        } else {
            0
        }
    }

    /// The stored pair at `i` carries exactly the count of its key.
    pub proof fn lemma_entry(&self, i: int)
        requires
            self.wf(),
            0 <= i < self.entries_view().len(),
        ensures
            self.spec_has(self.entries_view()[i].0),
            self.spec_get(self.entries_view()[i].0) == self.entries_view()[i].1,
    {
        assert(self.spec_has(self.entries_view()[i].0));
        let j = choose|j: int|
            0 <= j < self.entries_view().len() && (#[trigger] self.entries_view()[j]).0
                == self.entries_view()[i].0;
        assert(j == i);
    }

    pub fn new() -> (r: Self)
        ensures
            r.wf(),
            r.entries_view() =~= Seq::<(TokiPonaWord, u32)>::empty(),
            forall|w: TokiPonaWord| !r.spec_has(w),
            forall|w: TokiPonaWord| r.spec_get(w) == 0,
    {
        let r: CountMap<TokiPonaWord> = CountMap { entries: Vec::new() };
        proof {
            assert(forall|w: TokiPonaWord| !r.spec_has(w));
        }
        r
    }

    pub fn num_entries(&self) -> (r: usize)
        ensures
            r == self.entries_view().len(),
    {
        self.entries.len()
    }

    pub fn key_at(&self, i: usize) -> (r: TokiPonaWord)
        requires
            i < self.entries_view().len(),
        ensures
            r == self.entries_view()[i as int].0,
    {
        self.entries[i].0
    }

    pub fn count_at(&self, i: usize) -> (r: u32)
        requires
            i < self.entries_view().len(),
        ensures
            r == self.entries_view()[i as int].1,
    {
        self.entries[i].1
    }

    fn find_key(&self, w: TokiPonaWord) -> (r: Option<usize>)
        ensures
            match r {
                Some(i) => i < self.entries_view().len() && self.entries_view()[i as int].0 == w,
                None => !self.spec_has(w),
            },
    {
        let n = self.entries.len();
        let mut i: usize = 0;
        while i < n
            invariant
                i <= n,
                n == self.entries_view().len(),
                forall|j: int| 0 <= j < i ==> (#[trigger] self.entries_view()[j]).0 != w,
            decreases n - i,
        {
            if self.entries[i].0 == w {
                return Some(i);
            }
            i = i + 1;
        }
        None
    }

    pub fn contains_key(&self, w: &TokiPonaWord) -> (r: bool)
        ensures
            r == self.spec_has(*w),
    {
        match self.find_key(*w) {
            Some(i) => {
                proof {
                    assert(self.spec_has(*w)) by {
                        assert(self.entries_view()[i as int].0 == *w);
                    }
                }
                true
            },
            None => false,
        }
    }

    pub fn get(&self, w: &TokiPonaWord) -> (r: u32)
        requires
            self.wf(),
        ensures
            r == self.spec_get(*w),
    {
        match self.find_key(*w) {
            Some(i) => {
                proof {
                    self.lemma_entry(i as int);
                }
                self.entries[i].1
            },
            None => 0,
        }
    }

    /// Adds `by` to `w`'s count, capping at the counter ceiling; every other
    /// key is untouched.
    pub fn incr(&mut self, w: &TokiPonaWord, by: u32)
        requires
            old(self).wf(),
        ensures
            final(self).wf(),
            final(self).spec_has(*w),
            final(self).spec_get(*w) == sat_add32(old(self).spec_get(*w), by),
            forall|w2: TokiPonaWord|
                w2 != *w ==> final(self).spec_has(w2) == old(self).spec_has(w2)
                    && final(self).spec_get(w2) == old(self).spec_get(w2),
    {
        let ghost pre = *self;
        match self.find_key(*w) {
            Some(i) => {
                proof {
                    pre.lemma_entry(i as int);
                }
                let cur = self.entries[i].1;
                let newc: u32 = if cur <= u32::MAX - by {
                    cur + by
                } else {
                    u32::MAX
                };
                let kw = self.entries[i].0;
                let removed = self.entries.remove(i);
                proof {
                    assert(removed.0 == kw);
                }
                self.entries.insert(i, (kw, newc));
                proof {
                    assert(self.entries_view() =~= pre.entries_view().update(
                        i as int,
                        (*w, sat_add32(pre.spec_get(*w), by)),
                    ));
                    assert forall|i2: int, j2: int|
                        0 <= i2 < j2 < self.entries_view().len() implies (
                    #[trigger] self.entries_view()[i2]).0 != (
                    #[trigger] self.entries_view()[j2]).0 by {
                        assert(pre.entries_view()[i2].0 != pre.entries_view()[j2].0);
                    }
                    assert(self.spec_has(*w)) by {
                        assert(self.entries_view()[i as int].0 == *w);
                    }
                    self.lemma_entry(i as int);
                    assert forall|w2: TokiPonaWord| w2 != *w implies self.spec_has(w2)
                        == pre.spec_has(w2) && self.spec_get(w2) == pre.spec_get(w2) by {
                        if pre.spec_has(w2) {
                            let j = choose|j: int|
                                0 <= j < pre.entries_view().len() && (
                                #[trigger] pre.entries_view()[j]).0 == w2;
                            assert(self.entries_view()[j].0 == w2);
                            pre.lemma_entry(j);
                            self.lemma_entry(j);
                        }
                        if self.spec_has(w2) {
                            let j = choose|j: int|
                                0 <= j < self.entries_view().len() && (
                                #[trigger] self.entries_view()[j]).0 == w2;
                            assert(pre.entries_view()[j].0 == w2);
                        }
                    }
                }
            },
            None => {
                self.entries.push((*w, by));
                proof {
                    assert(self.entries_view() =~= pre.entries_view().push((*w, by)));
                    let n = pre.entries_view().len() as int;
                    assert(self.entries_view()[n].0 == *w);
                    assert forall|i2: int, j2: int|
                        0 <= i2 < j2 < self.entries_view().len() implies (
                    #[trigger] self.entries_view()[i2]).0 != (
                    #[trigger] self.entries_view()[j2]).0 by {
                        if j2 < n {
                            assert(pre.entries_view()[i2].0 != pre.entries_view()[j2].0);
                        } else {
                            assert(self.entries_view()[i2].0 == pre.entries_view()[i2].0);
                            assert(!pre.spec_has(*w));
                        }
                    }
                    assert(self.spec_has(*w));
                    self.lemma_entry(n);
                    assert(sat_add32(pre.spec_get(*w), by) == by);
                    assert forall|w2: TokiPonaWord| w2 != *w implies self.spec_has(w2)
                        == pre.spec_has(w2) && self.spec_get(w2) == pre.spec_get(w2) by {
                        if pre.spec_has(w2) {
                            let j = choose|j: int|
                                0 <= j < pre.entries_view().len() && (
                                #[trigger] pre.entries_view()[j]).0 == w2;
                            assert(self.entries_view()[j].0 == w2);
                            pre.lemma_entry(j);
                            self.lemma_entry(j);
                        }
                        if self.spec_has(w2) {
                            let j = choose|j: int|
                                0 <= j < self.entries_view().len() && (
                                #[trigger] self.entries_view()[j]).0 == w2;
                            assert(j < n);
                            assert(pre.entries_view()[j].0 == w2);
                        }
                    }
                }
            },
        }
    }

    /// Adds every count of `other` into this map, key by key.
    pub fn incr_other(&mut self, other: &Self)
        requires
            old(self).wf(),
            other.wf(),
        ensures
            final(self).wf(),
            forall|w: TokiPonaWord|
                final(self).spec_get(w) == sat_add32(old(self).spec_get(w), other.spec_get(w)),
            forall|w: TokiPonaWord|
                final(self).spec_has(w) == (old(self).spec_has(w) || other.spec_has(w)),
    {
        let ghost pre = *self;
        let n = other.num_entries();
        let mut j: usize = 0;
        while j < n
            invariant
                j <= n,
                n == other.entries_view().len(),
                other.wf(),
                self.wf(),
                forall|w: TokiPonaWord|
                    (exists|i: int|
                        0 <= i < j && (#[trigger] other.entries_view()[i]).0 == w) ==> #[trigger] self.spec_get(
                        w,
                    ) == sat_add32(pre.spec_get(w), other.spec_get(w)) && self.spec_has(w) == (
                    pre.spec_has(w) || other.spec_has(w)),
                forall|w: TokiPonaWord|
                    !(exists|i: int|
                        0 <= i < j && (#[trigger] other.entries_view()[i]).0 == w)
                        ==> #[trigger] self.spec_get(w) == pre.spec_get(w) && self.spec_has(w)
                        == pre.spec_has(w),
            decreases n - j,
        {
            let kw = other.key_at(j);
            let cj = other.count_at(j);
            proof {
                other.lemma_entry(j as int);
                assert(!(exists|i: int|
                    0 <= i < j && (#[trigger] other.entries_view()[i]).0 == kw));
            }
            self.incr(&kw, cj);
            proof {
                assert(other.entries_view()[j as int].0 == kw);
                assert forall|w: TokiPonaWord|
                    (exists|i: int|
                        0 <= i < j + 1 && (#[trigger] other.entries_view()[i]).0
                            == w) implies #[trigger] self.spec_get(w) == sat_add32(
                    pre.spec_get(w),
                    other.spec_get(w),
                ) && self.spec_has(w) == (pre.spec_has(w) || other.spec_has(w)) by {
                    let i = choose|i: int|
                        0 <= i < j + 1 && (#[trigger] other.entries_view()[i]).0 == w;
                    if i < j {
                        assert(w != kw);
                    } else {
                        assert(w == kw);
                        assert(other.spec_has(kw));
                    }
                }
            }
            j = j + 1;
        }
        proof {
            assert forall|w: TokiPonaWord|
                #[trigger] self.spec_get(w) == sat_add32(pre.spec_get(w), other.spec_get(w)) by {
                if other.spec_has(w) {
                    let i = choose|i: int|
                        0 <= i < other.entries_view().len() && (
                        #[trigger] other.entries_view()[i]).0 == w;
                    assert(exists|i2: int|
                        0 <= i2 < n && (#[trigger] other.entries_view()[i2]).0 == w);
                } else {
                    assert(!(exists|i: int|
                        0 <= i < n && (#[trigger] other.entries_view()[i]).0 == w));
                    assert(other.spec_get(w) == 0);
                    assert(sat_add32(pre.spec_get(w), 0) == pre.spec_get(w));
                }
            }
            assert forall|w: TokiPonaWord|
                #[trigger] self.spec_has(w) == (pre.spec_has(w) || other.spec_has(w)) by {
                assert(self.spec_get(w) == sat_add32(pre.spec_get(w), other.spec_get(w)));
                if other.spec_has(w) {
                    let i = choose|i: int|
                        0 <= i < other.entries_view().len() && (
                        #[trigger] other.entries_view()[i]).0 == w;
                    assert(exists|i2: int|
                        0 <= i2 < n && (#[trigger] other.entries_view()[i2]).0 == w);
                } else {
                    assert(!(exists|i: int|
                        0 <= i < n && (#[trigger] other.entries_view()[i]).0 == w));
                }
            }
        }
    }
}

/// `n` capped at the counter ceiling.
pub open spec fn cap32(n: int) -> u32 {
    if n <= u32::MAX {
        n as u32
    } else {
        u32::MAX
    }
}

/// How many tokens equal `t`.
pub open spec fn occ_of(tokens: Seq<Seq<char>>, t: Seq<char>) -> int
    decreases tokens.len(),
{
    if tokens.len() == 0 {
        0
    } else {
        occ_of(tokens.drop_last(), t) + if tokens.last() == t {
            1int
        } else {
            0int
        }
    }
}

/// How many tokens the lexicon resolves to the word with `w`'s id.
pub open spec fn toki_occ(tokens: Seq<Seq<char>>, pu: Pu, w: TokiPonaWord) -> int
    decreases tokens.len(),
{
    if tokens.len() == 0 {
        0
    } else {
        toki_occ(tokens.drop_last(), pu, w) + if pu.spec_lookup(tokens.last()) == Some(w.idx()) {
            1int
        } else {
            0int
        }
    }
}

pub proof fn lemma_occ_nonneg(tokens: Seq<Seq<char>>, t: Seq<char>)
    ensures
        0 <= occ_of(tokens, t) <= tokens.len(),
    decreases tokens.len(),
{
    if tokens.len() > 0 {
        lemma_occ_nonneg(tokens.drop_last(), t);
    }
}

pub proof fn lemma_toki_occ_nonneg(tokens: Seq<Seq<char>>, pu: Pu, w: TokiPonaWord)
    ensures
        0 <= toki_occ(tokens, pu, w) <= tokens.len(),
    decreases tokens.len(),
{
    if tokens.len() > 0 {
        lemma_toki_occ_nonneg(tokens.drop_last(), pu, w);
    }
}

fn contains_word(v: &Vec<TokiPonaWord>, w: TokiPonaWord) -> (r: bool)
    ensures
        r == v@.contains(w),
{
    let n = v.len();
    let mut i: usize = 0;
    while i < n
        invariant
            i <= n,
            n == v@.len(),
            forall|j: int| 0 <= j < i ==> v@[j] != w,
        decreases n - i,
    {
        if v[i] == w {
            assert(v@[i as int] == w);
            return true;
        }
        i = i + 1;
    }
    assert(!v@.contains(w));
    false
}

fn contains_string(v: &Vec<String>, s: &str) -> (r: bool)
    ensures
        r == exists|i: int| 0 <= i < v@.len() && (#[trigger] v@[i])@ == s@,
{
    let n = v.len();
    let mut i: usize = 0;
    while i < n
        invariant
            i <= n,
            n == v@.len(),
            forall|j: int| 0 <= j < i ==> (#[trigger] v@[j])@ != s@,
        decreases n - i,
    {
        if str_eq_str(v[i].as_str(), s) {
            assert((v@[i as int])@ == s@);
            return true;
        }
        i = i + 1;
    }
    false
}

/// Per corpus-pair frequency snapshot: raw English token counts
/// (case-preserving) and counts of recognized, non-particle Toki Pona words.
pub struct TranslationBag {
    pub english_words: CountMap<String>,
    pub toki_pona_words: CountMap<TokiPonaWord>,
}

/// The grammatical particle words excluded from counting.
pub open spec fn ignore_tokens() -> Seq<Seq<char>> {
    seq!["pi"@, "li"@, "la"@, "a"@, "e"@]
}

/// The ids of the tokens the lexicon knows, in order, unknown ones skipped.
pub open spec fn resolved_ids(pu: Pu, toks: Seq<Seq<char>>) -> Seq<int>
    decreases toks.len(),
{
    if toks.len() == 0 {
        Seq::empty()
    } else {
        let pre = resolved_ids(pu, toks.drop_last());
        match pu.spec_lookup(toks.last()) {
            Some(i) => pre.push(i),
            None => pre,
        }
    }
}

/// The fixed ignore set, resolved once against the lexicon and passed by
/// reference into every bag-building call.
pub fn default_ignore_words(pu: &Pu) -> (r: Vec<TokiPonaWord>)
    ensures
        r@.len() == resolved_ids(*pu, ignore_tokens()).len(),
        forall|k: int|
            0 <= k < r@.len() ==> (#[trigger] r@[k]).idx() == resolved_ids(
                *pu,
                ignore_tokens(),
            )[k],
{
    let mut r: Vec<TokiPonaWord> = Vec::new();
    let ghost toks = ignore_tokens();
    proof {
        assert(toks.subrange(0, 0) =~= Seq::<Seq<char>>::empty());
        assert(toks.subrange(0, 1).drop_last() =~= toks.subrange(0, 0));
        assert(toks.subrange(0, 2).drop_last() =~= toks.subrange(0, 1));
        assert(toks.subrange(0, 3).drop_last() =~= toks.subrange(0, 2));
        assert(toks.subrange(0, 4).drop_last() =~= toks.subrange(0, 3));
        assert(toks.subrange(0, 5).drop_last() =~= toks.subrange(0, 4));
        assert(toks.subrange(0, 5) =~= toks);
        assert(toks.subrange(0, 1).last() == "pi"@);
        assert(toks.subrange(0, 2).last() == "li"@);
        assert(toks.subrange(0, 3).last() == "la"@);
        assert(toks.subrange(0, 4).last() == "a"@);
        assert(toks.subrange(0, 5).last() == "e"@);
        assert(resolved_ids(*pu, toks.subrange(0, 0)) =~= Seq::<int>::empty());
    }
    match pu.lookup("pi") {
        Some(w) => { r.push(w); },
        None => {},
    }
    assert(r@.len() == resolved_ids(*pu, toks.subrange(0, 1)).len());
    match pu.lookup("li") {
        Some(w) => { r.push(w); },
        None => {},
    }
    assert(r@.len() == resolved_ids(*pu, toks.subrange(0, 2)).len());
    match pu.lookup("la") {
        Some(w) => { r.push(w); },
        None => {},
    }
    assert(r@.len() == resolved_ids(*pu, toks.subrange(0, 3)).len());
    match pu.lookup("a") {
        Some(w) => { r.push(w); },
        None => {},
    }
    assert(r@.len() == resolved_ids(*pu, toks.subrange(0, 4)).len());
    match pu.lookup("e") {
        Some(w) => { r.push(w); },
        None => {},
    }
    assert(r@.len() == resolved_ids(*pu, toks.subrange(0, 5)).len());
    r
}

impl TranslationBag {
    pub open spec fn wf(&self) -> bool {
        self.english_words.wf() && self.toki_pona_words.wf()
    }

    /// What the bag's English side says: the exact whitespace-token counts
    /// of the English text, capped at the counter ceiling.
    pub open spec fn english_counts_ok(&self, english: Seq<char>) -> bool {
        &&& (forall|t: Seq<char>|
            #[trigger] self.english_words.spec_get(t) == cap32(occ_of(split_ws(english), t)))
        &&& (forall|t: Seq<char>|
            #[trigger] self.english_words.spec_has(t) <==> occ_of(split_ws(english), t) >= 1)
    }

    /// What the bag's Toki Pona side says: counts of recognized tokens,
    /// with the ignore words never counted.
    pub open spec fn toki_counts_ok(
        &self,
        toki_pona: Seq<char>,
        pu: Pu,
        ignore: Seq<TokiPonaWord>,
    ) -> bool {
        &&& (forall|w: TokiPonaWord|
            ignore.contains(w) ==> #[trigger] self.toki_pona_words.spec_get(w) == 0
                && !self.toki_pona_words.spec_has(w))
        &&& (forall|w: TokiPonaWord|
            !ignore.contains(w) ==> #[trigger] self.toki_pona_words.spec_get(w) == cap32(
                toki_occ(split_ws(toki_pona), pu, w),
            ) && (self.toki_pona_words.spec_has(w) <==> toki_occ(split_ws(toki_pona), pu, w)
                >= 1))
    }

    /// Builds one bag from an aligned pair of texts.
    #[verifier::rlimit(50)]
    pub fn new(english: &str, toki_pona: &str, pu: &Pu, ignore: &Vec<TokiPonaWord>) -> (r: Self)
        ensures
            r.wf(),
            r.english_counts_ok(english@),
            r.toki_counts_ok(toki_pona@, *pu, ignore@),
    {
        let english_chars = to_char_vec(english);
        let toki_chars = to_char_vec(toki_pona);
        let etokens = split_whitespace_chars(&english_chars);
        let ttokens = split_whitespace_chars(&toki_chars);
        let ghost ets = etokens@.map_values(|t: Vec<char>| t@);
        let ghost tts = ttokens@.map_values(|t: Vec<char>| t@);
        proof {
            assert(ets =~= split_ws(english@));
            assert(tts =~= split_ws(toki_pona@));
            assert(ets.subrange(0, 0) =~= Seq::<Seq<char>>::empty());
            assert(tts.subrange(0, 0) =~= Seq::<Seq<char>>::empty());
        }
        let mut english_words = CountMap::<String>::new();
        let ne = etokens.len();
        let mut q: usize = 0;
        while q < ne
            invariant
                q <= ne,
                ne == etokens@.len(),
                ets == etokens@.map_values(|t: Vec<char>| t@),
                english_words.wf(),
                forall|t: Seq<char>|
                    #[trigger] english_words.spec_get(t) == cap32(
                        occ_of(ets.subrange(0, q as int), t),
                    ),
                forall|t: Seq<char>|
                    #[trigger] english_words.spec_has(t) <==> occ_of(
                        ets.subrange(0, q as int),
                        t,
                    ) >= 1,
            decreases ne - q,
        {
            let ghost pre = ets.subrange(0, q as int);
            let ghost cur = ets.subrange(0, q + 1 as int);
            proof {
                assert(cur.drop_last() =~= pre);
                assert(cur.last() == ets[q as int]);
                assert(ets[q as int] == etokens@[q as int]@);
            }
            let tok = string_from_chars(&etokens[q]);
            let ghost before = english_words;
            english_words.incr(&tok, 1);
            proof {
                assert forall|t: Seq<char>|
                    #[trigger] english_words.spec_get(t) == cap32(occ_of(cur, t)) by {
                    lemma_occ_nonneg(pre, t);
                    if t == tok@ {
                        assert(occ_of(cur, t) == occ_of(pre, t) + 1);
                        assert(before.spec_get(t) == cap32(occ_of(pre, t)));
                        assert(english_words.spec_get(t) == sat_add32(cap32(occ_of(pre, t)), 1));
                    } else {
                        assert(occ_of(cur, t) == occ_of(pre, t));
                        assert(english_words.spec_get(t) == before.spec_get(t));
                    }
                }
                assert forall|t: Seq<char>|
                    #[trigger] english_words.spec_has(t) <==> occ_of(cur, t) >= 1 by {
                    lemma_occ_nonneg(pre, t);
                    if t == tok@ {
                        assert(occ_of(cur, t) == occ_of(pre, t) + 1);
                    } else {
                        assert(occ_of(cur, t) == occ_of(pre, t));
                        assert(english_words.spec_has(t) == before.spec_has(t));
                    }
                }
            }
            q = q + 1;
        }
        proof {
            assert(ets.subrange(0, ne as int) =~= ets);
        }
        let mut toki_pona_words = CountMap::<TokiPonaWord>::new();
        let nt = ttokens.len();
        let mut q2: usize = 0;
        while q2 < nt
            invariant
                q2 <= nt,
                nt == ttokens@.len(),
                tts == ttokens@.map_values(|t: Vec<char>| t@),
                toki_pona_words.wf(),
                forall|w: TokiPonaWord|
                    #[trigger] ignore@.contains(w) ==> toki_pona_words.spec_get(w) == 0
                        && !toki_pona_words.spec_has(w),
                forall|w: TokiPonaWord|
                    !ignore@.contains(w) ==> #[trigger] toki_pona_words.spec_get(w) == cap32(
                        toki_occ(tts.subrange(0, q2 as int), *pu, w),
                    ) && (toki_pona_words.spec_has(w) <==> toki_occ(
                        tts.subrange(0, q2 as int),
                        *pu,
                        w,
                    ) >= 1),
            decreases nt - q2,
        {
            let ghost pre = tts.subrange(0, q2 as int);
            let ghost cur = tts.subrange(0, q2 + 1 as int);
            proof {
                assert(cur.drop_last() =~= pre);
                assert(cur.last() == tts[q2 as int]);
                assert(tts[q2 as int] == ttokens@[q2 as int]@);
            }
            let tok = string_from_chars(&ttokens[q2]);
            let ghost before = toki_pona_words;
            match pu.lookup(tok.as_str()) {
                Some(wt) => {
                    if !contains_word(ignore, wt) {
                        toki_pona_words.incr(&wt, 1);
                        proof {
                            assert forall|w: TokiPonaWord| !ignore@.contains(w)
                                implies #[trigger] toki_pona_words.spec_get(w) == cap32(
                                toki_occ(cur, *pu, w),
                            ) && (toki_pona_words.spec_has(w) <==> toki_occ(cur, *pu, w)
                                >= 1) by {
                                lemma_toki_occ_nonneg(pre, *pu, w);
                                if w == wt {
                                    assert(toki_occ(cur, *pu, w) == toki_occ(pre, *pu, w) + 1);
                                    assert(before.spec_get(w) == cap32(toki_occ(pre, *pu, w)));
                                    assert(toki_pona_words.spec_get(w) == sat_add32(
                                        cap32(toki_occ(pre, *pu, w)),
                                        1,
                                    ));
                                } else {
                                    crate::pu::lemma_word_id_injective(w, wt);
                                    assert(toki_occ(cur, *pu, w) == toki_occ(pre, *pu, w));
                                    assert(toki_pona_words.spec_has(w) == before.spec_has(w));
                                    assert(toki_pona_words.spec_get(w) == before.spec_get(w));
                                }
                            }
                            assert forall|w: TokiPonaWord| #[trigger] ignore@.contains(w)
                                implies toki_pona_words.spec_get(w) == 0
                                && !toki_pona_words.spec_has(w) by {
                                assert(w != wt);
                                assert(toki_pona_words.spec_get(w) == before.spec_get(w));
                                assert(toki_pona_words.spec_has(w) == before.spec_has(w));
                                assert(before.spec_get(w) == 0 && !before.spec_has(w));
                            }
                        }
                    } else {
                        proof {
                            assert forall|w: TokiPonaWord| !ignore@.contains(w)
                                implies #[trigger] toki_pona_words.spec_get(w) == cap32(
                                toki_occ(cur, *pu, w),
                            ) && (toki_pona_words.spec_has(w) <==> toki_occ(cur, *pu, w)
                                >= 1) by {
                                lemma_toki_occ_nonneg(pre, *pu, w);
                                crate::pu::lemma_word_id_injective(w, wt);
                                assert(w != wt);
                                assert(toki_occ(cur, *pu, w) == toki_occ(pre, *pu, w));
                                assert(toki_pona_words.spec_get(w) == cap32(
                                    toki_occ(pre, *pu, w),
                                ));
                                assert(toki_pona_words.spec_has(w) <==> toki_occ(pre, *pu, w)
                                    >= 1);
                            }
                            assert forall|w: TokiPonaWord| #[trigger] ignore@.contains(w)
                                implies toki_pona_words.spec_get(w) == 0
                                && !toki_pona_words.spec_has(w) by {
                                assert(toki_pona_words.spec_get(w) == before.spec_get(w));
                            }
                        }
                    }
                },
                None => {
                    proof {
                        assert(pu.spec_lookup(cur.last()) is None);
                        assert forall|w: TokiPonaWord| !ignore@.contains(w)
                            implies #[trigger] toki_pona_words.spec_get(w) == cap32(
                            toki_occ(cur, *pu, w),
                        ) && (toki_pona_words.spec_has(w) <==> toki_occ(cur, *pu, w) >= 1) by {
                            lemma_toki_occ_nonneg(pre, *pu, w);
                            assert(pu.spec_lookup(cur.last()) != Some(w.idx()));
                            assert(toki_occ(cur, *pu, w) == toki_occ(pre, *pu, w));
                            assert(toki_pona_words.spec_get(w) == cap32(toki_occ(pre, *pu, w)));
                            assert(toki_pona_words.spec_has(w) <==> toki_occ(pre, *pu, w) >= 1);
                        }
                        assert forall|w: TokiPonaWord| #[trigger] ignore@.contains(w)
                            implies toki_pona_words.spec_get(w) == 0
                            && !toki_pona_words.spec_has(w) by {
                            assert(toki_pona_words.spec_get(w) == before.spec_get(w));
                        }
                    }
                },
            }
            q2 = q2 + 1;
        }
        proof {
            assert(tts.subrange(0, nt as int) =~= tts);
        }
        TranslationBag { english_words, toki_pona_words }
    }
}

/// The corpus-wide count of `w`: every bag's count added up (saturating).
pub open spec fn global_count(bags: Seq<TranslationBag>, w: TokiPonaWord) -> u32
    decreases bags.len(),
{
    if bags.len() == 0 {
        0
    } else {
        sat_add32(global_count(bags.drop_last(), w), bags.last().toki_pona_words.spec_get(w))
    }
}

/// Whether any bag saw `w` at all.
pub open spec fn global_has(bags: Seq<TranslationBag>, w: TokiPonaWord) -> bool {
    exists|b: int| 0 <= b < bags.len() && (#[trigger] bags[b]).toki_pona_words.spec_has(w)
}

/// Whether the word list already holds the text `t`.
pub open spec fn known_english(ae: Seq<String>, t: Seq<char>) -> bool {
    exists|i: int| 0 <= i < ae.len() && (#[trigger] ae[i])@ == t
}

/// Whether any of the given bags saw the English token `t`.
pub open spec fn corpus_has_english(bags: Seq<TranslationBag>, t: Seq<char>) -> bool {
    exists|b: int| 0 <= b < bags.len() && (#[trigger] bags[b]).english_words.spec_has(t)
}

/// Whether one of the first `e` stored pairs of a bag's English side is `t`.
pub open spec fn first_entries_have(view: Seq<(Seq<char>, u32)>, e: int, t: Seq<char>) -> bool {
    exists|ei: int| 0 <= ei < e && (#[trigger] view[ei]).0 == t
}

/// The whole-corpus association state: the bags, the aggregated Toki Pona
/// counts, and the distinct English words seen anywhere.
pub struct Analysis {
    pub bags: Vec<TranslationBag>,
    pub counts: CountMap<TokiPonaWord>,
    pub all_english: Vec<String>,
}

impl Analysis {
    pub open spec fn wf(&self) -> bool {
        &&& self.counts.wf()
        &&& (forall|b: int| 0 <= b < self.bags@.len() ==> (#[trigger] self.bags@[b]).wf())
        &&& (forall|w: TokiPonaWord|
            #[trigger] self.counts.spec_get(w) == global_count(self.bags@, w))
        &&& (forall|w: TokiPonaWord|
            #[trigger] self.counts.spec_has(w) == global_has(self.bags@, w))
        &&& (forall|t: Seq<char>|
            #[trigger] known_english(self.all_english@, t) <==> corpus_has_english(
                self.bags@,
                t,
            ))
        &&& (forall|i: int, j: int|
            0 <= i < j < self.all_english@.len() ==> (#[trigger] self.all_english@[i])@ != (
            #[trigger] self.all_english@[j])@)
    }

    /// Aggregates a finished bag collection into the association state.
    pub fn new(bags: Vec<TranslationBag>) -> (r: Self)
        requires
            forall|b: int| 0 <= b < bags@.len() ==> (#[trigger] bags@[b]).wf(),
        ensures
            r.bags@ == bags@,
            r.wf(),
    {
        let nb = bags.len();
        let mut counts = CountMap::<TokiPonaWord>::new();
        let mut b: usize = 0;
        proof {
            assert(bags@.subrange(0, 0) =~= Seq::<TranslationBag>::empty());
        }
        while b < nb
            invariant
                b <= nb,
                nb == bags@.len(),
                forall|b2: int| 0 <= b2 < bags@.len() ==> (#[trigger] bags@[b2]).wf(),
                counts.wf(),
                forall|w: TokiPonaWord|
                    #[trigger] counts.spec_get(w) == global_count(bags@.subrange(0, b as int), w),
                forall|w: TokiPonaWord|
                    #[trigger] counts.spec_has(w) == global_has(bags@.subrange(0, b as int), w),
            decreases nb - b,
        {
            let ghost pre = bags@.subrange(0, b as int);
            let ghost cur = bags@.subrange(0, b + 1 as int);
            proof {
                assert(cur.drop_last() =~= pre);
                assert(cur.last() == bags@[b as int]);
            }
            let ghost before = counts;
            let bag_ref = &bags[b];
            let ghost o = bag_ref.toki_pona_words;
            proof {
                assert(o == bags@[b as int].toki_pona_words);
            }
            counts.incr_other(&bag_ref.toki_pona_words);
            proof {
                assert forall|w: TokiPonaWord|
                    #[trigger] counts.spec_get(w) == global_count(cur, w) by {
                    assert(counts.spec_get(w) == sat_add32(before.spec_get(w), o.spec_get(w)));
                }
                assert forall|w: TokiPonaWord|
                    #[trigger] counts.spec_has(w) == global_has(cur, w) by {
                    assert(counts.spec_get(w) == sat_add32(before.spec_get(w), o.spec_get(w)));
                    assert(counts.spec_has(w) == (before.spec_has(w) || o.spec_has(w)));
                    if counts.spec_has(w) {
                        if before.spec_has(w) {
                            let b2 = choose|b2: int|
                                0 <= b2 < pre.len() && (#[trigger] pre[b2]).toki_pona_words.spec_has(
                                    w,
                                );
                            assert(cur[b2].toki_pona_words.spec_has(w));
                        } else {
                            assert(cur[b as int].toki_pona_words.spec_has(w));
                        }
                    }
                    if global_has(cur, w) {
                        let b2 = choose|b2: int|
                            0 <= b2 < cur.len() && (#[trigger] cur[b2]).toki_pona_words.spec_has(
                                w,
                            );
                        if b2 < b {
                            assert(pre[b2].toki_pona_words.spec_has(w));
                        }
                    }
                }
            }
            b = b + 1;
        }
        proof {
            assert(bags@.subrange(0, nb as int) =~= bags@);
        }
        let mut all_english: Vec<String> = Vec::new();
        let mut b2: usize = 0;
        while b2 < nb
            invariant
                b2 <= nb,
                nb == bags@.len(),
                forall|b3: int| 0 <= b3 < bags@.len() ==> (#[trigger] bags@[b3]).wf(),
                forall|i: int, j: int|
                    0 <= i < j < all_english@.len() ==> (#[trigger] all_english@[i])@ != (
                    #[trigger] all_english@[j])@,
                forall|t: Seq<char>|
                    #[trigger] known_english(all_english@, t) <==> corpus_has_english(
                        bags@.subrange(0, b2 as int),
                        t,
                    ),
            decreases nb - b2,
        {
            let ne = bags[b2].english_words.num_entries();
            let mut e: usize = 0;
            while e < ne
                invariant
                    e <= ne,
                    b2 < nb,
                    nb == bags@.len(),
                    forall|b3: int| 0 <= b3 < bags@.len() ==> (#[trigger] bags@[b3]).wf(),
                    ne == bags@[b2 as int].english_words.entries_view().len(),
                    forall|i: int, j: int|
                        0 <= i < j < all_english@.len() ==> (#[trigger] all_english@[i])@ != (
                        #[trigger] all_english@[j])@,
                    forall|t: Seq<char>|
                        #[trigger] known_english(all_english@, t) <==> (corpus_has_english(
                            bags@.subrange(0, b2 as int),
                            t,
                        ) || first_entries_have(
                            bags@[b2 as int].english_words.entries_view(),
                            e as int,
                            t,
                        )),
                decreases ne - e,
            {
                let key = bags[b2].english_words.key_at(e);
                let ghost ae_before = all_english@;
                let ghost kv = key@;
                let ghost ev = bags@[b2 as int].english_words.entries_view();
                if !contains_string(&all_english, key) {
                    let kc = to_char_vec(key);
                    let owned = string_from_chars(&kc);
                    all_english.push(owned);
                    proof {
                        assert(all_english@.last()@ == kv);
                        assert forall|i: int, j: int|
                            0 <= i < j < all_english@.len() implies (
                        #[trigger] all_english@[i])@ != (#[trigger] all_english@[j])@ by {
                            if j < ae_before.len() {
                                assert(ae_before[i]@ != ae_before[j]@);
                            } else {
                                assert(all_english@[j]@ == kv);
                                assert(all_english@[i]@ == ae_before[i]@);
                            }
                        }
                    }
                }
                proof {
                    assert(ev[e as int].0 == kv);
                    assert forall|t: Seq<char>|
                        #[trigger] known_english(all_english@, t) <==> (corpus_has_english(
                        bags@.subrange(0, b2 as int),
                        t,
                    ) || first_entries_have(ev, e + 1, t)) by {
                        if t == kv {
                            assert(known_english(all_english@, t)) by {
                                if known_english(ae_before, t) {
                                    let i = choose|i: int|
                                        0 <= i < ae_before.len() && (#[trigger] ae_before[i])@
                                            == t;
                                    assert(all_english@[i]@ == t);
                                } else {
                                    assert(all_english@.last()@ == t);
                                }
                            }
                            assert(first_entries_have(ev, e + 1, t)) by {
                                assert((#[trigger] ev[e as int]).0 == t);
                            }
                        } else {
                            if known_english(ae_before, t) {
                                let i = choose|i: int|
                                    0 <= i < ae_before.len() && (#[trigger] ae_before[i])@ == t;
                                assert(all_english@[i]@ == t);
                                assert(known_english(all_english@, t));
                            }
                            if known_english(all_english@, t) {
                                let i = choose|i: int|
                                    0 <= i < all_english@.len() && (#[trigger] all_english@[i])@
                                        == t;
                                assert(i < ae_before.len() || all_english@[i]@ == kv);
                                assert(ae_before[i]@ == t);
                                assert(known_english(ae_before, t));
                            }
                            if first_entries_have(ev, e + 1, t) {
                                let ei = choose|ei: int|
                                    0 <= ei < e + 1 && (#[trigger] ev[ei]).0 == t;
                                assert(ei < e);
                                assert(first_entries_have(ev, e as int, t));
                            }
                            if first_entries_have(ev, e as int, t) {
                                let ei = choose|ei: int|
                                    0 <= ei < e && (#[trigger] ev[ei]).0 == t;
                                assert(first_entries_have(ev, e + 1, t));
                            }
                        }
                    }
                }
                e = e + 1;
            }
            proof {
                let ghost ev = bags@[b2 as int].english_words.entries_view();
                let ghost pre_bags = bags@.subrange(0, b2 as int);
                let ghost cur_bags = bags@.subrange(0, b2 + 1 as int);
                assert forall|t: Seq<char>|
                    #[trigger] known_english(all_english@, t) <==> corpus_has_english(
                    cur_bags,
                    t,
                ) by {
                    if known_english(all_english@, t) {
                        if corpus_has_english(pre_bags, t) {
                            let b3 = choose|b3: int|
                                0 <= b3 < pre_bags.len() && (
                                #[trigger] pre_bags[b3]).english_words.spec_has(t);
                            assert(cur_bags[b3].english_words.spec_has(t));
                        } else {
                            assert(first_entries_have(ev, ne as int, t));
                            let ei = choose|ei: int| 0 <= ei < ne && (#[trigger] ev[ei]).0 == t;
                            assert(bags@[b2 as int].english_words.spec_has(t)) by {
                                assert(ev[ei].0 == t);
                            }
                            assert(cur_bags[b2 as int].english_words.spec_has(t));
                        }
                        assert(corpus_has_english(cur_bags, t));
                    }
                    if corpus_has_english(cur_bags, t) {
                        let b3 = choose|b3: int|
                            0 <= b3 < cur_bags.len() && (
                            #[trigger] cur_bags[b3]).english_words.spec_has(t);
                        if b3 < b2 {
                            assert(pre_bags[b3].english_words.spec_has(t));
                            assert(corpus_has_english(pre_bags, t));
                        } else {
                            let ei = choose|ei: int|
                                0 <= ei < bags@[b2 as int].english_words.entries_view().len()
                                    && (
                                #[trigger] bags@[b2 as int].english_words.entries_view()[ei]).0
                                    == t;
                            assert(first_entries_have(ev, ne as int, t)) by {
                                assert(ev[ei].0 == t);
                            }
                        }
                        assert(known_english(all_english@, t));
                    }
                }
            }
            b2 = b2 + 1;
        }
        Analysis { bags, counts, all_english }
    }
}

/// An exact association score: the rational `num / den`. The numerator is
/// `corpus size * co-occurrence count`; the denominator is `global count + 1`.
#[derive(Debug, Clone, Copy, PartialEq, Eq, Structural)]
pub struct Score {
    pub num: u128,
    pub den: u64,
}

pub open spec fn score_wf(s: Score) -> bool {
    s.num <= (u64::MAX as u128) * (u32::MAX as u128) && 1 <= s.den <= 0x1_0000_0000u64
}

/// `a` scores at least as high as `b`, compared exactly by cross
/// multiplication.
pub open spec fn score_ge(a: Score, b: Score) -> bool {
    a.num * b.den >= b.num * a.den
}

/// The score strictly exceeds an integer cutoff.
pub open spec fn score_above(s: Score, cutoff: u64) -> bool {
    s.num > cutoff * s.den
}

proof fn lemma_score_product_bound(a: Score, b: Score)
    requires
        score_wf(a),
        score_wf(b),
    ensures
        a.num * b.den <= u128::MAX,
        b.num * a.den <= u128::MAX,
{
    assert(a.num * b.den <= u128::MAX && b.num * a.den <= u128::MAX) by (nonlinear_arith)
        requires
            0 <= a.num <= (u64::MAX as u128) * (u32::MAX as u128),
            0 <= b.num <= (u64::MAX as u128) * (u32::MAX as u128),
            0 <= a.den <= 0x1_0000_0000u64,
            0 <= b.den <= 0x1_0000_0000u64,
    {}
}

pub proof fn lemma_score_ge_trans(a: Score, b: Score, c: Score)
    requires
        score_wf(a),
        score_wf(b),
        score_wf(c),
        score_ge(a, b),
        score_ge(b, c),
    ensures
        score_ge(a, c),
{
    assert(a.num * c.den >= c.num * a.den) by (nonlinear_arith)
        requires
            a.num * b.den >= b.num * a.den,
            b.num * c.den >= c.num * b.den,
            a.den >= 1,
            b.den >= 1,
            c.den >= 1,
            a.num >= 0,
            b.num >= 0,
            c.num >= 0,
    {}
}

/// A higher-or-equal score above the cutoff pulls the other above too.
pub proof fn lemma_score_ge_above(a: Score, b: Score, cutoff: u64)
    requires
        score_wf(a),
        score_wf(b),
        score_ge(a, b),
        score_above(b, cutoff),
    ensures
        score_above(a, cutoff),
{
    assert(a.num > cutoff * a.den) by (nonlinear_arith)
        requires
            a.num * b.den >= b.num * a.den,
            b.num > cutoff * b.den,
            a.den >= 1,
            b.den >= 1,
            cutoff >= 0,
            a.num >= 0,
    {}
}

fn score_ge_exec(a: &Score, b: &Score) -> (r: bool)
    requires
        score_wf(*a),
        score_wf(*b),
    ensures
        r == score_ge(*a, *b),
{
    proof {
        lemma_score_product_bound(*a, *b);
    }
    a.num * (b.den as u128) >= b.num * (a.den as u128)
}

fn score_above_exec(s: &Score, cutoff: u64) -> (r: bool)
    requires
        score_wf(*s),
    ensures
        r == score_above(*s, cutoff),
{
    proof {
        assert((cutoff as u128) * (s.den as u128) <= u128::MAX) by (nonlinear_arith)
            requires
                0 <= cutoff <= u64::MAX,
                0 <= s.den <= 0x1_0000_0000u64,
        {}
    }
    s.num > (cutoff as u128) * (s.den as u128)
}

/// The co-occurrence count of `w` summed over the bags whose English side
/// holds the (already normalized) query word.
pub open spec fn matched_count(bags: Seq<TranslationBag>, q: Seq<char>, w: TokiPonaWord) -> u32
    decreases bags.len(),
{
    if bags.len() == 0 {
        0
    } else {
        let pre = matched_count(bags.drop_last(), q, w);
        if bags.last().english_words.spec_has(q) {
            sat_add32(pre, bags.last().toki_pona_words.spec_get(w))
        } else {
            pre
        }
    }
}

/// `w` co-occurs with the query word in some bag.
pub open spec fn matched_has(bags: Seq<TranslationBag>, q: Seq<char>, w: TokiPonaWord) -> bool {
    exists|b: int|
        0 <= b < bags.len() && (#[trigger] bags[b]).english_words.spec_has(q)
            && bags[b].toki_pona_words.spec_has(w)
}

/// The whole meaning of an association query: every candidate co-occurs
/// with the query, carries the exact score
/// `corpus size * matched count / (global count + 1)`, every co-occurring
/// word appears exactly once, and scores descend.
pub open spec fn lookup_ok(a: Analysis, q: Seq<char>, r: Seq<(TokiPonaWord, Score)>) -> bool {
    &&& (forall|k: int|
        0 <= k < r.len() ==> matched_has(a.bags@, q, (#[trigger] r[k]).0) && r[k].1.num
            == a.bags@.len() * matched_count(a.bags@, q, r[k].0) && r[k].1.den
            == a.counts.spec_get(r[k].0) + 1 && score_wf(r[k].1))
    &&& (forall|w: TokiPonaWord|
        #[trigger] matched_has(a.bags@, q, w) ==> exists|k: int|
            0 <= k < r.len() && (#[trigger] r[k]).0 == w)
    &&& (forall|k1: int, k2: int|
        0 <= k1 < k2 < r.len() ==> (#[trigger] r[k1]).0 != (#[trigger] r[k2]).0)
    &&& (forall|k1: int, k2: int|
        0 <= k1 < k2 < r.len() ==> score_ge((#[trigger] r[k1]).1, (#[trigger] r[k2]).1))
}

fn max_score_index(v: &Vec<(TokiPonaWord, Score)>) -> (mi: usize)
    requires
        v@.len() > 0,
        forall|l: int| 0 <= l < v@.len() ==> score_wf((#[trigger] v@[l]).1),
    ensures
        mi < v@.len(),
        forall|l: int| 0 <= l < v@.len() ==> score_ge(v@[mi as int].1, (#[trigger] v@[l]).1),
{
    let mut mi: usize = 0;
    let n = v.len();
    let mut idx: usize = 1;
    while idx < n
        invariant
            mi < idx <= n,
            n == v@.len(),
            forall|l: int| 0 <= l < v@.len() ==> score_wf((#[trigger] v@[l]).1),
            forall|l: int| 0 <= l < idx ==> score_ge(v@[mi as int].1, (#[trigger] v@[l]).1),
        decreases n - idx,
    {
        if !score_ge_exec(&v[mi].1, &v[idx].1) {
            assert(score_ge(v@[idx as int].1, v@[mi as int].1));
            assert forall|l: int| 0 <= l < idx + 1 implies score_ge(
                v@[idx as int].1,
                (#[trigger] v@[l]).1,
            ) by {
                if l < idx {
                    lemma_score_ge_trans(v@[idx as int].1, v@[mi as int].1, v@[l].1);
                }
            }
            mi = idx;
        }
        idx = idx + 1;
    }
    mi
}

/// Selection sort of candidates by descending score.
fn sort_scores(input: Vec<(TokiPonaWord, Score)>) -> (r: Vec<(TokiPonaWord, Score)>)
    requires
        forall|l: int| 0 <= l < input@.len() ==> score_wf((#[trigger] input@[l]).1),
    ensures
        r@.to_multiset() == input@.to_multiset(),
        r@.len() == input@.len(),
        forall|k1: int, k2: int|
            0 <= k1 < k2 < r@.len() ==> score_ge((#[trigger] r@[k1]).1, (#[trigger] r@[k2]).1),
{
    broadcast use vstd::seq_lib::group_to_multiset_ensures;

    let ghost orig = input@;
    let mut input = input;
    let mut out: Vec<(TokiPonaWord, Score)> = Vec::new();
    proof {
        assert(out@.to_multiset().add(input@.to_multiset()) =~= orig.to_multiset());
    }
    while input.len() > 0
        invariant
            out@.to_multiset().add(input@.to_multiset()) == orig.to_multiset(),
            out@.len() + input@.len() == orig.len(),
            forall|l: int| 0 <= l < input@.len() ==> score_wf((#[trigger] input@[l]).1),
            forall|l: int| 0 <= l < out@.len() ==> score_wf((#[trigger] out@[l]).1),
            forall|k1: int, k2: int|
                0 <= k1 < k2 < out@.len() ==> score_ge(
                    (#[trigger] out@[k1]).1,
                    (#[trigger] out@[k2]).1,
                ),
            forall|i: int, l: int|
                0 <= i < out@.len() && 0 <= l < input@.len() ==> score_ge(
                    (#[trigger] out@[i]).1,
                    (#[trigger] input@[l]).1,
                ),
        decreases input@.len(),
    {
        broadcast use vstd::seq_lib::group_to_multiset_ensures;

        let ghost old_in = input@;
        let ghost old_out = out@;
        let mi = max_score_index(&input);
        let x = input.remove(mi);
        out.push(x);
        proof {
            assert(old_in.contains(old_in[mi as int]));
            assert(old_in.to_multiset().count(x) > 0);
            assert(out@.to_multiset().add(input@.to_multiset()) =~= old_out.to_multiset().add(
                old_in.to_multiset(),
            ));
            assert(forall|l: int|
                0 <= l < input@.len() ==> #[trigger] input@[l] == if l < mi {
                    old_in[l]
                } else {
                    old_in[l + 1]
                });
            assert forall|i: int, l: int|
                0 <= i < out@.len() && 0 <= l < input@.len() implies score_ge(
                (#[trigger] out@[i]).1,
                (#[trigger] input@[l]).1,
            ) by {
                if i < old_out.len() {
                    assert(old_in.contains(input@[l]));
                } else {
                    assert(out@[i] == x);
                    if l < mi {
                        assert(score_ge(x.1, old_in[l].1));
                    } else {
                        assert(score_ge(x.1, old_in[l + 1].1));
                    }
                }
            }
        }
    }
    proof {
        assert(input@.to_multiset() =~= Multiset::<(TokiPonaWord, Score)>::empty());
        assert(out@.to_multiset() =~= orig.to_multiset());
    }
    out
}

impl Analysis {
    /// Ranks every Toki Pona word that co-occurs with the query word.
    ///
    /// The query is ASCII-lowercased; each candidate's score is the exact
    /// rational `corpus size * co-occurrence count / (global count + 1)`,
    /// and candidates come back in descending score order.
    pub fn lookup(&self, english: &str) -> (r: Vec<(TokiPonaWord, Score)>)
        requires
            self.wf(),
        ensures
            lookup_ok(*self, lower_seq(english@), r@),
    {
        let qchars = crate::text::lower_chars(&to_char_vec(english));
        let normalized = string_from_chars(&qchars);
        let ghost qv = lower_seq(english@);
        let nb = self.bags.len();
        let mut acc = CountMap::<TokiPonaWord>::new();
        let mut b: usize = 0;
        proof {
            assert(self.bags@.subrange(0, 0) =~= Seq::<TranslationBag>::empty());
        }
        while b < nb
            invariant
                b <= nb,
                nb == self.bags@.len(),
                self.wf(),
                normalized@ == qv,
                acc.wf(),
                forall|w: TokiPonaWord|
                    #[trigger] acc.spec_get(w) == matched_count(
                        self.bags@.subrange(0, b as int),
                        qv,
                        w,
                    ),
                forall|w: TokiPonaWord|
                    #[trigger] acc.spec_has(w) == matched_has(
                        self.bags@.subrange(0, b as int),
                        qv,
                        w,
                    ),
            decreases nb - b,
        {
            let ghost pre = self.bags@.subrange(0, b as int);
            let ghost cur = self.bags@.subrange(0, b + 1 as int);
            proof {
                assert(cur.drop_last() =~= pre);
                assert(cur.last() == self.bags@[b as int]);
            }
            let bag_ref = &self.bags[b];
            let ghost before = acc;
            if bag_ref.english_words.contains_key(&normalized) {
                let ghost o = bag_ref.toki_pona_words;
                acc.incr_other(&bag_ref.toki_pona_words);
                proof {
                    assert(o == self.bags@[b as int].toki_pona_words);
                    assert forall|w: TokiPonaWord|
                        #[trigger] acc.spec_get(w) == matched_count(cur, qv, w) by {
                        assert(acc.spec_get(w) == sat_add32(before.spec_get(w), o.spec_get(w)));
                    }
                    assert forall|w: TokiPonaWord|
                        #[trigger] acc.spec_has(w) == matched_has(cur, qv, w) by {
                        assert(acc.spec_get(w) == sat_add32(before.spec_get(w), o.spec_get(w)));
                        assert(acc.spec_has(w) == (before.spec_has(w) || o.spec_has(w)));
                        if acc.spec_has(w) {
                            if before.spec_has(w) {
                                let b2 = choose|b2: int|
                                    0 <= b2 < pre.len() && (#[trigger] pre[b2]).english_words.spec_has(
                                        qv,
                                    ) && pre[b2].toki_pona_words.spec_has(w);
                                assert(cur[b2].english_words.spec_has(qv));
                                assert(cur[b2].toki_pona_words.spec_has(w));
                                assert(matched_has(cur, qv, w));
                            } else {
                                assert(cur[b as int].english_words.spec_has(qv));
                                assert(cur[b as int].toki_pona_words.spec_has(w));
                                assert(matched_has(cur, qv, w));
                            }
                        }
                        if matched_has(cur, qv, w) {
                            let b2 = choose|b2: int|
                                0 <= b2 < cur.len() && (#[trigger] cur[b2]).english_words.spec_has(
                                    qv,
                                ) && cur[b2].toki_pona_words.spec_has(w);
                            if b2 < b {
                                assert(pre[b2].english_words.spec_has(qv));
                                assert(pre[b2].toki_pona_words.spec_has(w));
                                assert(matched_has(pre, qv, w));
                            }
                        }
                    }
                }
            } else {
                proof {
                    assert forall|w: TokiPonaWord|
                        #[trigger] acc.spec_get(w) == matched_count(cur, qv, w) by {
                        assert(acc.spec_get(w) == matched_count(pre, qv, w));
                    }
                    assert forall|w: TokiPonaWord|
                        #[trigger] acc.spec_has(w) == matched_has(cur, qv, w) by {
                        assert(acc.spec_get(w) == matched_count(pre, qv, w));
                        if matched_has(cur, qv, w) {
                            let b2 = choose|b2: int|
                                0 <= b2 < cur.len() && (#[trigger] cur[b2]).english_words.spec_has(
                                    qv,
                                ) && cur[b2].toki_pona_words.spec_has(w);
                            assert(b2 < b);
                            assert(pre[b2].english_words.spec_has(qv));
                            assert(pre[b2].toki_pona_words.spec_has(w));
                            assert(matched_has(pre, qv, w));
                        }
                        if matched_has(pre, qv, w) {
                            let b2 = choose|b2: int|
                                0 <= b2 < pre.len() && (#[trigger] pre[b2]).english_words.spec_has(
                                    qv,
                                ) && pre[b2].toki_pona_words.spec_has(w);
                            assert(cur[b2].english_words.spec_has(qv));
                            assert(cur[b2].toki_pona_words.spec_has(w));
                            assert(matched_has(cur, qv, w));
                        }
                    }
                }
            }
            b = b + 1;
        }
        proof {
            assert(self.bags@.subrange(0, nb as int) =~= self.bags@);
        }
        let na = acc.num_entries();
        let mut cands: Vec<(TokiPonaWord, Score)> = Vec::new();
        let mut i: usize = 0;
        while i < na
            invariant
                i <= na,
                na == acc.entries_view().len(),
                acc.wf(),
                self.wf(),
                nb == self.bags@.len(),
                forall|w: TokiPonaWord| #[trigger] acc.spec_get(w) == matched_count(self.bags@, qv, w),
                forall|w: TokiPonaWord| #[trigger] acc.spec_has(w) == matched_has(self.bags@, qv, w),
                cands@.len() == i,
                forall|k: int|
                    0 <= k < i ==> (#[trigger] cands@[k]).0 == acc.entries_view()[k].0,
                forall|k: int|
                    0 <= k < i ==> {
                        let e = #[trigger] cands@[k];
                        &&& matched_has(self.bags@, qv, e.0)
                        &&& e.1.num == self.bags@.len() * matched_count(self.bags@, qv, e.0)
                        &&& e.1.den == self.counts.spec_get(e.0) + 1
                        &&& score_wf(e.1)
                    },
            decreases na - i,
        {
            let w = acc.key_at(i);
            let c = acc.count_at(i);
            proof {
                acc.lemma_entry(i as int);
                assert((nb as u128) * (c as u128) <= (u64::MAX as u128) * (u32::MAX as u128))
                    by (nonlinear_arith)
                    requires
                        0 <= nb <= u64::MAX,
                        0 <= c <= u32::MAX,
                {}
            }
            let num: u128 = (nb as u128) * (c as u128);
            let den: u64 = (self.counts.get(&w) as u64) + 1;
            cands.push((w, Score { num, den }));
            i = i + 1;
        }
        let sorted = sort_scores(cands);
        proof {
            broadcast use vstd::seq_lib::group_to_multiset_ensures;

            let cv = cands@;
            let sv = sorted@;
            assert forall|i2: int, j2: int|
                0 <= i2 < j2 < cv.len() implies cv[i2] != cv[j2] by {
                acc.lemma_entry(i2);
                acc.lemma_entry(j2);
                assert(cv[i2].0 == acc.entries_view()[i2].0);
                assert(cv[j2].0 == acc.entries_view()[j2].0);
            }
            cv.lemma_multiset_has_no_duplicates();
            sv.lemma_multiset_has_no_duplicates_conv();
            assert forall|k: int|
                0 <= k < sv.len() implies matched_has(self.bags@, qv, (#[trigger] sv[k]).0)
                && sv[k].1.num == self.bags@.len() * matched_count(self.bags@, qv, sv[k].0)
                && sv[k].1.den == self.counts.spec_get(sv[k].0) + 1 && score_wf(sv[k].1) by {
                assert(sv.contains(sv[k]));
                assert(sv.to_multiset().count(sv[k]) > 0);
                assert(cv.to_multiset().count(sv[k]) > 0);
                assert(cv.contains(sv[k]));
                let k2 = choose|k2: int| 0 <= k2 < cv.len() && cv[k2] == sv[k];
                assert(cands@[k2] == sv[k]);
            }
            assert forall|w: TokiPonaWord| #[trigger] matched_has(self.bags@, qv, w) implies exists|
                k: int,
            | 0 <= k < sv.len() && (#[trigger] sv[k]).0 == w by {
                assert(acc.spec_has(w));
                let ei = choose|ei: int|
                    0 <= ei < acc.entries_view().len() && (#[trigger] acc.entries_view()[ei]).0
                        == w;
                assert(cv[ei].0 == w);
                assert(cv.contains(cv[ei]));
                assert(cv.to_multiset().count(cv[ei]) > 0);
                assert(sv.to_multiset().count(cv[ei]) > 0);
                assert(sv.contains(cv[ei]));
                let k = choose|k: int| 0 <= k < sv.len() && sv[k] == cv[ei];
                assert(sv[k].0 == w);
            }
            assert forall|k1: int, k2: int|
                0 <= k1 < k2 < sv.len() implies (#[trigger] sv[k1]).0 != (#[trigger] sv[k2]).0 by {
                if sv[k1] == sv[k2] {
                    assert(sv.to_multiset().count(sv[k1]) == 1);
                    let svr = sv.remove(k2);
                    assert(svr.to_multiset() == sv.to_multiset().remove(sv[k2]));
                    assert(svr.to_multiset().count(sv[k1]) == 0);
                    assert(svr[k1] == sv[k1]);
                    assert(svr.contains(sv[k1]));
                    assert(svr.to_multiset().count(sv[k1]) > 0);
                } else {
                    if sv[k1].0 == sv[k2].0 {
                        assert(sv.contains(sv[k1]));
                        assert(cv.to_multiset().count(sv[k1]) > 0);
                        assert(cv.contains(sv[k1]));
                        assert(sv.contains(sv[k2]));
                        assert(cv.to_multiset().count(sv[k2]) > 0);
                        assert(cv.contains(sv[k2]));
                        let i1 = choose|i1: int| 0 <= i1 < cv.len() && cv[i1] == sv[k1];
                        let i2 = choose|i2: int| 0 <= i2 < cv.len() && cv[i2] == sv[k2];
                        assert(i1 != i2);
                        acc.lemma_entry(i1);
                        acc.lemma_entry(i2);
                        assert(acc.entries_view()[i1].0 != acc.entries_view()[i2].0 || i1 == i2);
                    }
                }
            }
        }
        sorted
    }
}

/// One emitted model row: an English word with its ranked candidates and
/// their floored scores.
pub struct ModelRow {
    pub english: String,
    pub candidates: Vec<(TokiPonaWord, u128)>,
}

/// How many leading candidates score strictly above the cutoff.
pub open spec fn above_len(r: Seq<(TokiPonaWord, Score)>, cutoff: u64) -> int
    decreases r.len(),
{
    if r.len() == 0 {
        0
    } else if score_above(r[0].1, cutoff) {
        1 + above_len(r.drop_first(), cutoff)
    } else {
        0
    }
}

proof fn lemma_above_at(r: Seq<(TokiPonaWord, Score)>, cutoff: u64, g: int)
    requires
        0 <= g <= r.len(),
        forall|k: int| 0 <= k < g ==> score_above((#[trigger] r[k]).1, cutoff),
        g == r.len() || !score_above(r[g].1, cutoff),
    ensures
        above_len(r, cutoff) == g,
    decreases r.len(),
{
    if r.len() > 0 && score_above(r[0].1, cutoff) {
        let rest = r.drop_first();
        assert(forall|k: int| 0 <= k < rest.len() ==> rest[k] == r[k + 1]);
        lemma_above_at(rest, cutoff, g - 1);
    }
}

/// The numerator of `w`'s association score, as an unbounded integer.
pub open spec fn score_num_of(a: Analysis, q: Seq<char>, w: TokiPonaWord) -> int {
    a.bags@.len() * matched_count(a.bags@, q, w)
}

/// The denominator of `w`'s association score.
pub open spec fn score_den_of(a: Analysis, w: TokiPonaWord) -> int {
    a.counts.spec_get(w) + 1
}

/// Some co-occurring candidate scores strictly above the cutoff.
pub open spec fn has_candidate_above(a: Analysis, q: Seq<char>, cutoff: u64) -> bool {
    exists|w: TokiPonaWord|
        #[trigger] matched_has(a.bags@, q, w) && score_num_of(a, q, w) > cutoff * score_den_of(
            a,
            w,
        )
}

/// The row renders the leading above-cutoff candidates of a ranked query
/// result, scores floored to integers.
pub open spec fn row_of(
    scored: Seq<(TokiPonaWord, Score)>,
    cutoff: u64,
    eng: Seq<char>,
    row: ModelRow,
) -> bool {
    let g = above_len(scored, cutoff);
    &&& row.english@ == eng
    &&& row.candidates@.len() == g
    &&& (forall|k: int|
        0 <= k < g ==> (#[trigger] row.candidates@[k]).0 == scored[k].0 && row.candidates@[k].1
            == scored[k].1.num / (scored[k].1.den as u128))
}

/// The row is the faithful emission for its own English word.
pub open spec fn emitted_row_ok(a: Analysis, cutoff: u64, row: ModelRow) -> bool {
    exists|scored: Seq<(TokiPonaWord, Score)>|
        #[trigger] lookup_ok(a, lower_seq(row.english@), scored) && row_of(
            scored,
            cutoff,
            row.english@,
            row,
        )
}

/// The English words, in list order, whose queries emit a model row.
pub open spec fn emit_keys(a: Analysis, ae: Seq<String>, cutoff: u64) -> Seq<Seq<char>>
    decreases ae.len(),
{
    if ae.len() == 0 {
        Seq::empty()
    } else {
        let pre = emit_keys(a, ae.drop_last(), cutoff);
        if has_candidate_above(a, lower_seq(ae.last()@), cutoff) {
            pre.push(ae.last()@)
        } else {
            pre
        }
    }
}

impl Analysis {
    /// Emits the model row for one English word: its candidates strictly
    /// above the cutoff, in descending score order, truncated at the first
    /// candidate at or below the cutoff; `None` when no candidate clears it.
    pub fn model_row(&self, english: &str, cutoff: u64) -> (r: Option<ModelRow>)
        requires
            self.wf(),
        ensures
            r is Some <==> has_candidate_above(*self, lower_seq(english@), cutoff),
            r matches Some(row) ==> row.english@ == english@ && emitted_row_ok(
                *self,
                cutoff,
                row,
            ),
    {
        let scored = self.lookup(english);
        let ghost qv = lower_seq(english@);
        let ns = scored.len();
        let mut g: usize = 0;
        let mut candidates: Vec<(TokiPonaWord, u128)> = Vec::new();
        while g < ns && score_above_exec(&scored[g].1, cutoff)
            invariant
                g <= ns,
                ns == scored@.len(),
                lookup_ok(*self, qv, scored@),
                forall|k: int| 0 <= k < g ==> score_above((#[trigger] scored@[k]).1, cutoff),
                candidates@.len() == g,
                forall|k: int|
                    0 <= k < g ==> (#[trigger] candidates@[k]).0 == scored@[k].0
                        && candidates@[k].1 == scored@[k].1.num / (scored@[k].1.den as u128),
            decreases ns - g,
        {
            let w = scored[g].0;
            let fl: u128 = scored[g].1.num / (scored[g].1.den as u128);
            candidates.push((w, fl));
            g = g + 1;
        }
        proof {
            lemma_above_at(scored@, cutoff, g as int);
        }
        if g == 0 {
            proof {
                if has_candidate_above(*self, qv, cutoff) {
                    let w = choose|w: TokiPonaWord|
                        #[trigger] matched_has(self.bags@, qv, w) && score_num_of(*self, qv, w)
                            > cutoff * score_den_of(*self, w);
                    let k = choose|k: int| 0 <= k < scored@.len() && (#[trigger] scored@[k]).0 == w;
                    assert(score_above(scored@[k].1, cutoff));
                    if k > 0 {
                        assert(score_ge(scored@[0].1, scored@[k].1));
                        lemma_score_ge_above(scored@[0].1, scored@[k].1, cutoff);
                    }
                    assert(score_above(scored@[0].1, cutoff));
                    assert(false);
                }
            }
            None
        } else {
            proof {
                assert(matched_has(self.bags@, qv, scored@[0].0));
                assert(score_num_of(*self, qv, scored@[0].0) > cutoff * score_den_of(
                    *self,
                    scored@[0].0,
                )) by {
                    assert(score_above(scored@[0].1, cutoff));
                }
                assert(has_candidate_above(*self, qv, cutoff));
            }
            let echars = to_char_vec(english);
            let row = ModelRow { english: string_from_chars(&echars), candidates };
            proof {
                assert(row_of(scored@, cutoff, english@, row));
                assert(emitted_row_ok(*self, cutoff, row)) by {
                    assert(lookup_ok(*self, lower_seq(row.english@), scored@) && row_of(
                        scored@,
                        cutoff,
                        row.english@,
                        row,
                    ));
                }
            }
            Some(row)
        }
    }

    /// Emits the whole model: one row per distinct English word with at
    /// least one candidate above the cutoff, in word-list order.
    pub fn emit_model(&self, cutoff: u64) -> (r: Vec<ModelRow>)
        requires
            self.wf(),
        ensures
            r@.len() == emit_keys(*self, self.all_english@, cutoff).len(),
            forall|k: int|
                0 <= k < r@.len() ==> (#[trigger] r@[k]).english@ == emit_keys(
                    *self,
                    self.all_english@,
                    cutoff,
                )[k] && emitted_row_ok(*self, cutoff, r@[k]),
    {
        let ne = self.all_english.len();
        let mut out: Vec<ModelRow> = Vec::new();
        let mut e: usize = 0;
        proof {
            assert(self.all_english@.subrange(0, 0) =~= Seq::<String>::empty());
        }
        while e < ne
            invariant
                e <= ne,
                ne == self.all_english@.len(),
                self.wf(),
                out@.len() == emit_keys(*self, self.all_english@.subrange(0, e as int), cutoff).len(),
                forall|k: int|
                    0 <= k < out@.len() ==> (#[trigger] out@[k]).english@ == emit_keys(
                        *self,
                        self.all_english@.subrange(0, e as int),
                        cutoff,
                    )[k] && emitted_row_ok(*self, cutoff, out@[k]),
            decreases ne - e,
        {
            let ghost pre = self.all_english@.subrange(0, e as int);
            let ghost cur = self.all_english@.subrange(0, e + 1 as int);
            proof {
                assert(cur.drop_last() =~= pre);
                assert(cur.last() == self.all_english@[e as int]);
            }
            match self.model_row(self.all_english[e].as_str(), cutoff) {
                Some(row) => {
                    proof {
                        assert(row.english@ == self.all_english@[e as int]@);
                        assert(emit_keys(*self, cur, cutoff) == emit_keys(*self, pre, cutoff).push(
                            self.all_english@[e as int]@,
                        ));
                    }
                    out.push(row);
                },
                None => {
                    proof {
                        assert(emit_keys(*self, cur, cutoff) == emit_keys(*self, pre, cutoff));
                    }
                },
            }
            e = e + 1;
        }
        proof {
            assert(self.all_english@.subrange(0, ne as int) =~= self.all_english@);
        }
        out
    }
}

/// The text of one emitted model line: the English word, then each
/// candidate as `word:score`, tab-separated — the format the re-ingestion
/// step parses.
pub open spec fn model_line_text(
    eng: Seq<char>,
    cands: Seq<(TokiPonaWord, u128)>,
    pu: Pu,
) -> Seq<char>
    decreases cands.len(),
{
    if cands.len() == 0 {
        eng
    } else {
        model_line_text(eng, cands.drop_last(), pu) + seq!['\t'] + pu.spec_word(
            cands.last().0.idx(),
        ) + seq![':'] + dec_digits(cands.last().1 as int)
    }
}

impl ModelRow {
    /// Renders the row in the mined-model line format.
    pub fn to_line(&self, pu: &Pu) -> (r: String)
        requires
            forall|k: int|
                0 <= k < self.candidates@.len() ==> (#[trigger] self.candidates@[k]).0.idx()
                    < pu.word_count(),
        ensures
            r@ == model_line_text(self.english@, self.candidates@, *pu),
    {
        let mut chars = to_char_vec(self.english.as_str());
        let nc = self.candidates.len();
        let mut k: usize = 0;
        proof {
            assert(self.candidates@.subrange(0, 0) =~= Seq::<(TokiPonaWord, u128)>::empty());
        }
        while k < nc
            invariant
                k <= nc,
                nc == self.candidates@.len(),
                forall|k2: int|
                    0 <= k2 < nc ==> (#[trigger] self.candidates@[k2]).0.idx() < pu.word_count(),
                chars@ == model_line_text(
                    self.english@,
                    self.candidates@.subrange(0, k as int),
                    *pu,
                ),
            decreases nc - k,
        {
            let ghost pre = self.candidates@.subrange(0, k as int);
            let ghost cur = self.candidates@.subrange(0, k + 1 as int);
            proof {
                assert(cur.drop_last() =~= pre);
                assert(cur.last() == self.candidates@[k as int]);
            }
            chars.push('\t');
            let w = self.candidates[k].0;
            let mut wchars = to_char_vec(pu.get(&w));
            chars.append(&mut wchars);
            chars.push(':');
            let mut dchars = u128_to_dec(self.candidates[k].1);
            chars.append(&mut dchars);
            proof {
                assert(chars@ =~= model_line_text(self.english@, cur, *pu));
            }
            k = k + 1;
        }
        proof {
            assert(self.candidates@.subrange(0, nc as int) =~= self.candidates@);
        }
        string_from_chars(&chars)
    }
}

} // verus!
