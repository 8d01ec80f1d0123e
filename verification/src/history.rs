//! The history of looked-up words: each word once, in the order it was first
//! added, with a cursor on the word that is due.

use vstd::prelude::*;
use vstd::hash_map::StringHashMap;
use crate::table::{table_codes, table_contains, table_well_shaped};
use crate::text::{
    decimal, ends_with, is_unicode_whitespace, lemma_head_tail, push_decimal, starts_with, trim_chars,
    trim_str,
};
use crate::wubima::Wubima;

verus! {

broadcast use vstd::hash_map::group_hash_map_axioms;

/// No word occurs twice.
pub open spec fn no_repeats(s: Seq<Seq<char>>) -> bool {
    forall|i: int, j: int| 0 <= i < s.len() && 0 <= j < s.len() && s[i] == s[j] ==> i == j
}

/// The cursor after `c` in a history of `len` words: the next word, or the first after the last.
pub open spec fn next_cursor(c: nat, len: nat) -> nat {
    if c + 1 < len { c + 1 } else { 0 }
}

/// The history of words.
pub struct Wubihist {
    wbidx: usize,
    wbhist: Vec<String>,
    wbset: StringHashMap<usize>,
}

impl Wubihist {
    /// The words, in the order they were first added.
    pub closed spec fn words(&self) -> Seq<Seq<char>> {
        self.wbhist@.map_values(|s: String| s@)
    }

    /// The position of the word that is due.
    pub closed spec fn cursor(&self) -> nat {
        self.wbidx as nat
    }

    /// The index maps each word to its position, and the cursor is on a word
    /// (or at zero when there is none).
    pub closed spec fn wf(&self) -> bool {
        &&& forall|i: int|
            0 <= i < self.wbhist@.len() ==> #[trigger] self.wbset@.contains_key(self.wbhist@[i]@)
                && self.wbset@[self.wbhist@[i]@] == i
        &&& forall|k: Seq<char>|
            #[trigger] self.wbset@.contains_key(k) ==> self.wbset@[k] < self.wbhist@.len()
                && self.wbhist@[self.wbset@[k] as int]@ == k
        &&& (self.wbidx < self.wbhist@.len() || self.wbidx == 0)
    }

    /// A well-formed history has no repeated word, and its cursor is on a
    /// word, or at zero when it is empty.
    pub proof fn lemma_wf_shape(&self)
        requires
            self.wf(),
        ensures
            no_repeats(self.words()),
            self.words().len() == 0 ==> self.cursor() == 0,
            self.words().len() > 0 ==> self.cursor() < self.words().len(),
    {
        assert forall|i: int, j: int|
            0 <= i < self.words().len() && 0 <= j < self.words().len() && self.words()[i]
                == self.words()[j] implies i == j by {
            assert(self.wbset@.contains_key(self.wbhist@[i]@));
            assert(self.wbset@.contains_key(self.wbhist@[j]@));
        }
    }

    proof fn lemma_contains(&self, k: Seq<char>)
        requires
            self.wf(),
        ensures
            self.wbset@.contains_key(k) == self.words().contains(k),
    {
        if self.wbset@.contains_key(k) {
            let i = self.wbset@[k] as int;
            assert(self.words()[i] == k);
        }
        if self.words().contains(k) {
            let i = choose|i: int| 0 <= i < self.words().len() && self.words()[i] == k;
            assert(self.wbset@.contains_key(self.wbhist@[i]@));
        }
    }

    /// An empty history.
    pub fn new() -> (r: Self)
        ensures
            r.wf(),
            r.words() == Seq::<Seq<char>>::empty(),
            r.cursor() == 0,
    {
        let r = Wubihist { wbidx: 0usize, wbhist: Vec::with_capacity(256), wbset: StringHashMap::new() };
        assert(r.words() =~= Seq::<Seq<char>>::empty());
        r
    }

    /// Appends the word that is due to `s` and returns its position; `None`
    /// and `s` unchanged when the history is empty.
    pub fn current(&self, s: &mut String) -> (r: Option<usize>)
        requires
            self.wf(),
        ensures
            self.words().len() == 0 ==> r is None && final(s)@ == old(s)@,
            self.words().len() > 0 ==> (r matches Some(i) && i == self.cursor()) && final(s)@ == old(
                s,
            )@ + self.words()[self.cursor() as int],
    {
        let wlen = self.wbhist.len();
        if wlen == 0 {
            return None;
        }
        let idx = if self.wbidx >= wlen { 0usize } else { self.wbidx };
        s.append(self.wbhist[idx].as_str());
        Some(idx)
    }

    /// Moves the cursor to the next word (from the last back to the first),
    /// appends that word to `s` and returns its position; `None`, with the
    /// history and `s` unchanged, when the history is empty.
    pub fn next(&mut self, s: &mut String) -> (r: Option<usize>)
        requires
            old(self).wf(),
        ensures
            final(self).wf(),
            final(self).words() == old(self).words(),
            old(self).words().len() == 0 ==> r is None && final(s)@ == old(s)@ && *final(self)
                == *old(self),
            old(self).words().len() > 0 ==> {
                let n = next_cursor(old(self).cursor(), old(self).words().len());
                &&& final(self).cursor() == n
                &&& (r matches Some(i) && i == n)
                &&& final(s)@ == old(s)@ + old(self).words()[n as int]
            },
    {
        let wlen = self.wbhist.len();
        if wlen == 0 {
            return None;
        }
        let mut idx = self.wbidx + 1;
        if idx >= wlen {
            idx = 0usize;
        }
        self.wbidx = idx;
        s.append(self.wbhist[idx].as_str());
        Some(idx)
    }

    /// Appends a word that the history does not hold; the cursor stays.
    fn push_new(&mut self, w: &str)
        requires
            old(self).wf(),
            !old(self).words().contains(w@),
        ensures
            final(self).wf(),
            final(self).words() == old(self).words().push(w@),
            final(self).wbidx == old(self).wbidx,
            final(self).wbhist@.len() == old(self).wbhist@.len() + 1,
    {
        let ghost old_self = *self;
        proof {
            self.lemma_contains(w@);
        }
        let wnum = self.wbhist.len();
        self.wbset.insert(w.to_owned(), wnum);
        self.wbhist.push(w.to_owned());
        proof {
            assert(self.words() =~= old_self.words().push(w@));
            assert forall|k: Seq<char>| #[trigger] self.wbset@.contains_key(k) implies self.wbset@[k]
                < self.wbhist@.len() && self.wbhist@[self.wbset@[k] as int]@ == k by {
                if k != w@ {
                    assert(old_self.wbset@.contains_key(k));
                }
            }
            assert forall|i: int| 0 <= i < self.wbhist@.len() implies #[trigger] self.wbset@.contains_key(
                self.wbhist@[i]@) && self.wbset@[self.wbhist@[i]@] == i by {
                if i < wnum {
                    assert(old_self.wbset@.contains_key(old_self.wbhist@[i]@));
                    assert(self.wbhist@[i] == old_self.wbhist@[i]);
                    if self.wbhist@[i]@ == w@ {
                        assert(old_self.words()[i] == w@);
                    }
                }
            }
        }
    }

    /// Adds a word that is not in the history yet and puts the cursor on it;
    /// returns whether it was added. A word already there changes nothing.
    pub fn add_word(&mut self, w: &str) -> (r: bool)
        requires
            old(self).wf(),
        ensures
            final(self).wf(),
            r == !old(self).words().contains(w@),
            r ==> final(self).words() == old(self).words().push(w@) && final(self).cursor()
                == old(self).words().len(),
            !r ==> *final(self) == *old(self),
    {
        proof {
            self.lemma_contains(w@);
        }
        if !self.wbset.contains_key(w) {
            let wnum = self.wbhist.len();
            self.push_new(w);
            self.wbidx = wnum;
            true
        } else {
            false
        }
    }

    /// Empties the history before a history file is read.
    fn begin_load(&mut self)
        ensures
            final(self).wf(),
            final(self).words() == Seq::<Seq<char>>::empty(),
            final(self).cursor() == 0,
    {
        self.wbidx = 0;
        self.wbset.clear();
        self.wbhist.clear();
        assert(self.words() =~= Seq::<Seq<char>>::empty());
    }

    /// Takes one line of a history file: the line without surrounding
    /// whitespace is added when the table holds it and the history does not.
    /// Returns whether it was added; the cursor stays where it is.
    fn load_line(&mut self, table: &phf::Map<&'static str, Wubima>, line: &str) -> (r: bool)
        requires
            old(self).wf(),
            table_well_shaped(*table),
        ensures
            final(self).wf(),
            final(self).cursor() == old(self).cursor(),
            r == (table_codes(*table).contains_key(trim_chars(line@)) && !old(self).words().contains(
                trim_chars(line@),
            )),
            r ==> final(self).words() == old(self).words().push(trim_chars(line@)),
            !r ==> *final(self) == *old(self),
    {
        let word: &str = trim_str(line);
        proof {
            self.lemma_contains(word@);
        }
        if table_contains(table, word) && !self.wbset.contains_key(word) {
            self.push_new(word);
            true
        } else {
            false
        }
    }

    /// Replaces the history with the words that the lines of a history file
    /// give (see `loaded_words`), puts the cursor on the first and returns
    /// the report on the load.
    pub fn load_lines(&mut self, table: &phf::Map<&'static str, Wubima>, lines: &Vec<String>) -> (r: String)
        requires
            old(self).wf(),
            table_well_shaped(*table),
        ensures
            final(self).wf(),
            final(self).words() == loaded_words(*table, lines@.map_values(|s: String| s@)),
            final(self).cursor() == 0,
            r@ == load_summary_text(final(self).words()),
    {
        let ghost ls = lines@.map_values(|s: String| s@);
        self.begin_load();
        let n = lines.len();
        let mut i: usize = 0;
        while i < n
            invariant
                n == lines@.len(),
                ls == lines@.map_values(|s: String| s@),
                i <= n,
                self.wf(),
                table_well_shaped(*table),
                self.cursor() == 0,
                self.words() == loaded_words(*table, ls.take(i as int)),
            decreases n - i,
        {
            let _ = self.load_line(table, lines[i].as_str());
            proof {
                assert(ls.take(i + 1).drop_last() =~= ls.take(i as int));
            }
            i = i + 1;
        }
        proof {
            assert(ls.take(n as int) =~= ls);
        }
        self.load_summary()
    }

    /// The words, in order, for writing a history file.
    pub fn word_list(&self) -> (r: &Vec<String>)
        ensures
            r@.map_values(|s: String| s@) == self.words(),
    {
        &self.wbhist
    }

    /// The report after a history file was read.
    fn load_summary(&self) -> (r: String)
        requires
            self.wf(),
        ensures
            r@ == load_summary_text(self.words()),
    {
        let mut res = String::new();
        res.append("历史文件加载成功，共");
        push_decimal(&mut res, self.wbhist.len());
        res.append("个词组。\n第零个词组：\n\t");
        if self.wbhist.len() >= 1 {
            res.append(self.wbhist[0].as_str());
        } else {
            res.append("<無>");
        }
        res
    }

    /// The report after the history was written to a file.
    pub fn store_summary(&self) -> (r: String)
        requires
            self.wf(),
        ensures
            r@ == store_summary_text(self.words(), self.cursor()),
    {
        let mut res = String::new();
        res.append("历史文件写入成功，共 ");
        push_decimal(&mut res, self.wbhist.len());
        res.append(" 个词组。");
        let mut word = String::new();
        if let Some(_) = self.current(&mut word) {
            res.append("\n当前词组：\n\t");
            res.append(word.as_str());
        }
        res
    }
}

/// The report after a history file was read: how many words it gave and the first of them.
pub open spec fn load_summary_text(words: Seq<Seq<char>>) -> Seq<char> {
    "历史文件加载成功，共"@ + decimal(words.len()) + "个词组。\n第零个词组：\n\t"@ + (if words.len()
        >= 1 {
        words[0]
    } else {
        "<無>"@
    })
}

/// The report after the history was written: how many words, and the word that is due.
pub open spec fn store_summary_text(words: Seq<Seq<char>>, cursor: nat) -> Seq<char> {
    "历史文件写入成功，共 "@ + decimal(words.len()) + " 个词组。"@ + (if words.len() > 0 {
        "\n当前词组：\n\t"@ + words[cursor as int]
    } else {
        Seq::empty()
    })
}

/// The cursor after `k` moves from `c` in a history of `len` words.
pub open spec fn advance(c: nat, len: nat, k: nat) -> nat
    decreases k,
{
    if k == 0 {
        c
    } else {
        next_cursor(advance(c, len, (k - 1) as nat), len)
    }
}

proof fn lemma_next_cursor_mod(p: nat, len: nat)
    requires
        p < len,
    ensures
        next_cursor(p, len) == (p + 1) % len,
{
    if p + 1 < len {
        vstd::arithmetic::div_mod::lemma_small_mod(p + 1, len);
    } else {
        vstd::arithmetic::div_mod::lemma_mod_self_0(len as int);
    }
}

proof fn lemma_advance_mod(c: nat, len: nat, k: nat)
    requires
        c < len,
    ensures
        advance(c, len, k) == (c + k) % len,
    decreases k,
{
    if k == 0 {
        vstd::arithmetic::div_mod::lemma_small_mod(c, len);
    } else {
        lemma_advance_mod(c, len, (k - 1) as nat);
        let x = (c + k - 1) as int;
        let p = advance(c, len, (k - 1) as nat);
        assert(p == x % (len as int));
        assert(p < len) by {
            vstd::arithmetic::div_mod::lemma_mod_bound(x, len as int);
        }
        lemma_next_cursor_mod(p, len);
        vstd::arithmetic::div_mod::lemma_add_mod_noop(x, 1, len as int);
        vstd::arithmetic::div_mod::lemma_add_mod_noop(p as int, 1, len as int);
        vstd::arithmetic::div_mod::lemma_mod_twice(x, len as int);
    }
}

/// Moving on from the word that is due goes round the history: after `k`
/// moves the cursor is `k` places further, counted modulo the number of
/// words, so that after as many moves as there are words it is back where it
/// started.
pub proof fn law_next_cycles(c: nat, len: nat, k: nat)
    requires
        c < len,
    ensures
        advance(c, len, k) == (c + k) % len,
        advance(c, len, len) == c,
{
    lemma_advance_mod(c, len, k);
    lemma_advance_mod(c, len, len);
    vstd::arithmetic::div_mod::lemma_mod_add_multiples_vanish(c as int, len as int);
    vstd::arithmetic::div_mod::lemma_small_mod(c, len);
}

/// Position `j` is reached within `len` moves from `c`.
pub open spec fn visited(c: nat, len: nat, j: nat) -> bool {
    exists|k: nat| 1 <= k <= len && #[trigger] advance(c, len, k) == j
}

/// Moving on as many times as there are words visits each word exactly once
/// and ends on the word it started from.
pub proof fn law_next_visits_each_once(c: nat, len: nat)
    requires
        c < len,
    ensures
        forall|k1: nat, k2: nat|
            1 <= k1 <= len && 1 <= k2 <= len && #[trigger] advance(c, len, k1) == #[trigger] advance(
                c,
                len,
                k2,
            ) ==> k1 == k2,
        forall|j: nat| j < len ==> #[trigger] visited(c, len, j),
        advance(c, len, len) == c,
{
    law_next_cycles(c, len, len);
    assert forall|k1: nat, k2: nat|
        1 <= k1 <= len && 1 <= k2 <= len && #[trigger] advance(c, len, k1) == #[trigger] advance(
            c,
            len,
            k2,
        ) implies k1 == k2 by {
        lemma_advance_mod(c, len, k1);
        lemma_advance_mod(c, len, k2);
        if k1 != k2 {
            let (a, b) = if k1 < k2 { (k1, k2) } else { (k2, k1) };
            vstd::arithmetic::div_mod::lemma_mod_equivalence((c + b) as int, (c + a) as int, len as int);
            vstd::arithmetic::div_mod::lemma_small_mod((b - a) as nat, len);
        }
    }
    assert forall|j: nat| j < len implies #[trigger] visited(c, len, j) by {
        let k: nat = if j > c { (j - c) as nat } else { (j + len - c) as nat };
        lemma_advance_mod(c, len, k);
        if j > c {
            vstd::arithmetic::div_mod::lemma_small_mod(j, len);
        } else {
            vstd::arithmetic::div_mod::lemma_mod_add_multiples_vanish(j as int, len as int);
            vstd::arithmetic::div_mod::lemma_small_mod(j, len);
        }
        assert(advance(c, len, k) == j);
    }
}

/// The words that a history file gives: each line without surrounding
/// whitespace, when the table holds it and it has not come before.
pub open spec fn loaded_words(t: phf::Map<&'static str, Wubima>, lines: Seq<Seq<char>>) -> Seq<Seq<char>>
    decreases lines.len(),
{
    if lines.len() == 0 {
        Seq::empty()
    } else {
        let prev = loaded_words(t, lines.drop_last());
        let w = trim_chars(lines.last());
        if table_codes(t).contains_key(w) && !prev.contains(w) {
            prev.push(w)
        } else {
            prev
        }
    }
}

/// Loading a history file keeps exactly the words of the table that the
/// file names: none twice, each one a line of the file, and every line that
/// names a word of the table is among them.
pub proof fn law_load_keeps_table_words(t: phf::Map<&'static str, Wubima>, lines: Seq<Seq<char>>)
    ensures
        no_repeats(loaded_words(t, lines)),
        forall|i: int|
            0 <= i < loaded_words(t, lines).len() ==> table_codes(t).contains_key(
                #[trigger] loaded_words(t, lines)[i],
            ) && exists|j: int| 0 <= j < lines.len() && loaded_words(t, lines)[i] == trim_chars(lines[j]),
        forall|j: int|
            0 <= j < lines.len() && table_codes(t).contains_key(trim_chars(#[trigger] lines[j]))
                ==> loaded_words(t, lines).contains(trim_chars(lines[j])),
    decreases lines.len(),
{
    if lines.len() > 0 {
        let init = lines.drop_last();
        law_load_keeps_table_words(t, init);
        let prev = loaded_words(t, init);
        let w = trim_chars(lines.last());
        let cur = loaded_words(t, lines);
        assert forall|i: int| 0 <= i < cur.len() implies table_codes(t).contains_key(#[trigger] cur[i])
            && exists|j: int| 0 <= j < lines.len() && cur[i] == trim_chars(lines[j]) by {
            if i < prev.len() {
                assert(cur[i] == prev[i]);
                let j = choose|j: int| 0 <= j < init.len() && prev[i] == trim_chars(init[j]);
                assert(lines[j] == init[j]);
            } else {
                assert(cur[i] == trim_chars(lines[lines.len() - 1]));
            }
        }
        assert forall|j: int|
            0 <= j < lines.len() && table_codes(t).contains_key(trim_chars(#[trigger] lines[j])) implies cur.contains(
            trim_chars(lines[j])) by {
            if j < init.len() {
                assert(lines[j] == init[j]);
                assert(prev.contains(trim_chars(init[j])));
                let k = choose|k: int| 0 <= k < prev.len() && prev[k] == trim_chars(init[j]);
                assert(cur[k] == prev[k]);
            } else if !prev.contains(w) {
                assert(cur[cur.len() - 1] == w);
            }
        }
    }
}

/// The lines of a history file written from `words`: one word per line.
pub open spec fn stored_lines(words: Seq<Seq<char>>) -> Seq<Seq<char>> {
    words.map_values(|w: Seq<char>| w.push('\n'))
}

proof fn lemma_trim_shorter(s: Seq<char>)
    ensures
        trim_chars(s).len() <= s.len(),
    decreases s.len(),
{
    if s.len() > 0 && is_unicode_whitespace(s[0]) {
        lemma_trim_shorter(s.drop_first());
    } else if s.len() > 0 && is_unicode_whitespace(s.last()) {
        lemma_trim_shorter(s.drop_last());
    }
}

proof fn lemma_trim_line(w: Seq<char>)
    requires
        trim_chars(w) == w,
    ensures
        trim_chars(w.push('\n')) == w,
{
    let s = w.push('\n');
    assert(is_unicode_whitespace('\n'));
    if w.len() == 0 {
        assert(s.drop_first() =~= Seq::<char>::empty());
        assert(trim_chars(Seq::<char>::empty()) == Seq::<char>::empty());
        assert(trim_chars(s) == trim_chars(s.drop_first()));
    } else {
        if is_unicode_whitespace(w[0]) {
            lemma_trim_shorter(w.drop_first());
            assert(false);
        }
        assert(s[0] == w[0]);
        assert(s.drop_last() =~= w);
        assert(s.last() == '\n');
        assert(trim_chars(s) == trim_chars(s.drop_last()));
    }
}

/// Writing the history to a file and loading that file gives the same
/// words back, in the same order, when the table holds each word and no word
/// has whitespace around it.
pub proof fn law_store_then_load(t: phf::Map<&'static str, Wubima>, words: Seq<Seq<char>>)
    requires
        no_repeats(words),
        forall|i: int|
            0 <= i < words.len() ==> table_codes(t).contains_key(#[trigger] words[i])
                && trim_chars(words[i]) == words[i],
    ensures
        loaded_words(t, stored_lines(words)) == words,
    decreases words.len(),
{
    if words.len() > 0 {
        let init = words.drop_last();
        let w = words.last();
        assert(stored_lines(words).drop_last() =~= stored_lines(init));
        assert forall|i: int| 0 <= i < init.len() implies table_codes(t).contains_key(#[trigger] init[i])
            && trim_chars(init[i]) == init[i] by {
            assert(init[i] == words[i]);
        }
        law_store_then_load(t, init);
        assert(table_codes(t).contains_key(words[words.len() - 1]));
        lemma_trim_line(words[words.len() - 1]);
        assert(stored_lines(words).last() == w.push('\n'));
        if init.contains(w) {
            let k = choose|k: int| 0 <= k < init.len() && init[k] == w;
            assert(words[k] == words[words.len() - 1]);
        }
        assert(init.push(w) =~= words);
    }
}

/// The load report gives the number of words loaded and then names the
/// first of them; only when none was loaded does it end with "<無>".
pub proof fn law_load_report(words: Seq<Seq<char>>)
    ensures
        starts_with(load_summary_text(words), "历史文件加载成功，共"@ + decimal(words.len())),
        words.len() > 0 ==> ends_with(load_summary_text(words), "\n\t"@ + words[0]),
        words.len() == 0 ==> ends_with(load_summary_text(words), "\n\t<無>"@),
{
    let p = "历史文件加载成功，共"@ + decimal(words.len());
    let first = if words.len() >= 1 { words[0] } else { "<無>"@ };
    reveal_strlit("个词组。\n第零个词组：\n\t");
    reveal_strlit("\n\t");
    let m = "个词组。\n第零个词组：\n\t"@;
    let m1 = m.subrange(0, m.len() - 2);
    assert(m =~= m1 + "\n\t"@);
    assert(load_summary_text(words) =~= p + ((m1 + "\n\t"@) + first));
    lemma_head_tail(p, (m1 + "\n\t"@) + first);
    assert((m1 + "\n\t"@) + first =~= m1 + ("\n\t"@ + first));
    lemma_head_tail(m1, "\n\t"@ + first);
    assert(load_summary_text(words) =~= (p + m1) + ("\n\t"@ + first));
    lemma_head_tail(p + m1, "\n\t"@ + first);
    if words.len() == 0 {
        reveal_strlit("<無>");
        reveal_strlit("\n\t<無>");
        assert("\n\t"@ + first =~= "\n\t<無>"@);
    }
}

/// The store report gives the number of words written and, when there is
/// any, ends with the word that is due.
pub proof fn law_store_report(words: Seq<Seq<char>>, cursor: nat)
    ensures
        starts_with(store_summary_text(words, cursor), "历史文件写入成功，共 "@ + decimal(words.len())),
        words.len() > 0 ==> ends_with(store_summary_text(words, cursor), "\n\t"@ + words[cursor as int]),
        words.len() == 0 ==> store_summary_text(words, cursor) == "历史文件写入成功，共 "@ + decimal(0)
            + " 个词组。"@,
{
    let p = "历史文件写入成功，共 "@ + decimal(words.len());
    let c = " 个词组。"@;
    reveal_strlit("\n当前词组：\n\t");
    reveal_strlit("\n\t");
    let m = "\n当前词组：\n\t"@;
    let m1 = m.subrange(0, m.len() - 2);
    assert(m =~= m1 + "\n\t"@);
    if words.len() > 0 {
        let w = words[cursor as int];
        assert(store_summary_text(words, cursor) =~= p + ((c + m1) + ("\n\t"@ + w)));
        lemma_head_tail(p, (c + m1) + ("\n\t"@ + w));
        assert(store_summary_text(words, cursor) =~= (p + (c + m1)) + ("\n\t"@ + w));
        lemma_head_tail(p + (c + m1), "\n\t"@ + w);
    } else {
        assert(store_summary_text(words, cursor) =~= p + c);
        lemma_head_tail(p, c);
    }
}

} // verus!
