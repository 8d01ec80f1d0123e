//! Building the code table from the Wubi dictionary: each line is a code
//! followed by the words that have it.

use vstd::prelude::*;
use vstd::hash_map::StringHashMap;
use vstd::string::*;
use vstd::utf8::encode_utf8;
use crate::table::{build_table, table_codes, table_well_shaped};
use crate::text::{split_words, trim_chars, trim_str, ws_words};
use crate::wubima::{is_valid_code, no_codes, Wubima};

verus! {

broadcast use vstd::hash_map::group_hash_map_axioms;

/// `v` with `b` stored as the code of its length; a string of another length changes nothing.
pub open spec fn with_code(v: Seq<Seq<u8>>, b: Seq<u8>) -> Seq<Seq<u8>> {
    if 1 <= b.len() <= 4 {
        v.update(b.len() - 1, b)
    } else {
        v
    }
}

/// The words in order of first appearance, and the codes of each, after `b`
/// was given to the word `w`.
pub open spec fn add_code_step(
    order: Seq<Seq<char>>,
    m: Map<Seq<char>, Seq<Seq<u8>>>,
    b: Seq<u8>,
    w: Seq<char>,
) -> (Seq<Seq<char>>, Map<Seq<char>, Seq<Seq<u8>>>) {
    if m.contains_key(w) {
        (order, m.insert(w, with_code(m[w], b)))
    } else {
        (order.push(w), m.insert(w, with_code(no_codes(), b)))
    }
}

/// The same after `b` was given to each word of `ws` in turn.
pub open spec fn add_code_all(
    order: Seq<Seq<char>>,
    m: Map<Seq<char>, Seq<Seq<u8>>>,
    b: Seq<u8>,
    ws: Seq<Seq<char>>,
) -> (Seq<Seq<char>>, Map<Seq<char>, Seq<Seq<u8>>>)
    decreases ws.len(),
{
    if ws.len() == 0 {
        (order, m)
    } else {
        let prev = add_code_all(order, m, b, ws.drop_last());
        add_code_step(prev.0, prev.1, b, ws.last())
    }
}

/// Words listed once each and in step with the words that have codes.
pub open spec fn listed_once(order: Seq<Seq<char>>, m: Map<Seq<char>, Seq<Seq<u8>>>) -> bool {
    &&& forall|k: Seq<char>| #[trigger] m.contains_key(k) <==> order.contains(k)
    &&& forall|i: int, j: int|
        0 <= i < order.len() && 0 <= j < order.len() && order[i] == order[j] ==> i == j
}

/// Giving codes keeps the words listed once each, in step with the words
/// that have codes.
pub proof fn law_listed_once(
    order: Seq<Seq<char>>,
    m: Map<Seq<char>, Seq<Seq<u8>>>,
    b: Seq<u8>,
    ws: Seq<Seq<char>>,
)
    requires
        listed_once(order, m),
    ensures
        ({
            let r = add_code_all(order, m, b, ws);
            listed_once(r.0, r.1)
        }),
    decreases ws.len(),
{
    if ws.len() > 0 {
        let init = ws.drop_last();
        law_listed_once(order, m, b, init);
        let p = add_code_all(order, m, b, init);
        let w = ws.last();
        let r = add_code_all(order, m, b, ws);
        if !p.1.contains_key(w) {
            assert(!p.0.contains(w));
            assert forall|k: Seq<char>| #[trigger] r.1.contains_key(k) <==> r.0.contains(k) by {
                if k == w {
                    assert(r.0[r.0.len() - 1] == w);
                } else {
                    if r.0.contains(k) {
                        let i = choose|i: int| 0 <= i < r.0.len() && r.0[i] == k;
                        assert(p.0[i] == k);
                    }
                    if p.0.contains(k) {
                        let i = choose|i: int| 0 <= i < p.0.len() && p.0[i] == k;
                        assert(r.0[i] == k);
                    }
                }
            }
            assert forall|i: int, j: int|
                0 <= i < r.0.len() && 0 <= j < r.0.len() && r.0[i] == r.0[j] implies i == j by {
                if i < p.0.len() && j == p.0.len() {
                    assert(p.0.contains(p.0[i]));
                } else if j < p.0.len() && i == p.0.len() {
                    assert(p.0.contains(p.0[j]));
                }
            }
        } else {
            assert forall|k: Seq<char>| #[trigger] r.1.contains_key(k) <==> r.0.contains(k) by {
                assert(p.1.contains_key(k) <==> p.0.contains(k));
            }
        }
    }
}

/// Each word of `ws` has the code `b` in `r`, every other word is as in `m`,
/// and every word of `r` has four code slots.
pub open spec fn codes_given(
    m: Map<Seq<char>, Seq<Seq<u8>>>,
    b: Seq<u8>,
    ws: Seq<Seq<char>>,
    r: Map<Seq<char>, Seq<Seq<u8>>>,
) -> bool {
    &&& forall|k: Seq<char>| #[trigger] r.contains_key(k) ==> r[k].len() == 4
    &&& forall|i: int|
        0 <= i < ws.len() ==> r.contains_key(#[trigger] ws[i]) && r[ws[i]][b.len() - 1] == b
    &&& forall|k: Seq<char>|
        !ws.contains(k) ==> (#[trigger] r.contains_key(k) == m.contains_key(k)) && (m.contains_key(k)
            ==> r[k] == m[k])
}

/// Giving a code of one to four bytes to a list of words gives it to each
/// of them, as the code of its length, and leaves every other word as it was.
pub proof fn law_code_given(
    order: Seq<Seq<char>>,
    m: Map<Seq<char>, Seq<Seq<u8>>>,
    b: Seq<u8>,
    ws: Seq<Seq<char>>,
)
    requires
        1 <= b.len() <= 4,
        forall|k: Seq<char>| #[trigger] m.contains_key(k) ==> m[k].len() == 4,
    ensures
        codes_given(m, b, ws, add_code_all(order, m, b, ws).1),
    decreases ws.len(),
{
    if ws.len() > 0 {
        let init = ws.drop_last();
        law_code_given(order, m, b, init);
        let p = add_code_all(order, m, b, init);
        let w = ws.last();
        let r = add_code_all(order, m, b, ws);
        assert(r == add_code_step(p.0, p.1, b, w));
        assert forall|k: Seq<char>| #[trigger] r.1.contains_key(k) implies r.1[k].len() == 4 by {
            if k != w {
                assert(p.1.contains_key(k));
            }
        }
        assert forall|i: int| 0 <= i < ws.len() implies r.1.contains_key(#[trigger] ws[i])
            && r.1[ws[i]][b.len() - 1] == b by {
            if i < init.len() {
                assert(ws[i] == init[i]);
                if ws[i] != w {
                    assert(p.1.contains_key(init[i]));
                }
            }
        }
        assert forall|k: Seq<char>| !ws.contains(k) implies (#[trigger] r.1.contains_key(k)
            == m.contains_key(k)) && (m.contains_key(k) ==> r.1[k] == m[k]) by {
            assert(ws[ws.len() - 1] == w);
            assert(k != w);
            if init.contains(k) {
                let i = choose|i: int| 0 <= i < init.len() && init[i] == k;
                assert(ws[i] == k);
            }
        }
        assert(codes_given(m, b, ws, r.1));
    } else {
        assert(codes_given(m, b, ws, m));
    }
}

/// A code slot of `n` bytes that holds no code.
pub open spec fn empty_slot(n: nat) -> Seq<u8> {
    Seq::new(n, |x: int| 0u8)
}

/// Every slot of each word of `ws` other than the one of `b`'s length is in
/// `r` as it was in `m`, or empty for a word that `m` does not hold.
pub open spec fn other_slots_kept(
    m: Map<Seq<char>, Seq<Seq<u8>>>,
    b: Seq<u8>,
    ws: Seq<Seq<char>>,
    r: Map<Seq<char>, Seq<Seq<u8>>>,
) -> bool {
    forall|i: int, j: int|
        0 <= i < ws.len() && 0 <= j < 4 && j != b.len() - 1 ==> #[trigger] r[ws[i]][j] == (if m.contains_key(
            ws[i],
        ) {
            m[ws[i]][j]
        } else {
            empty_slot((j + 1) as nat)
        })
}

/// Giving a code of one length to words changes no slot of another length:
/// a word that had codes keeps all of them but the one of that length, and a
/// new word has only that code.
pub proof fn law_code_keeps_other_slots(
    order: Seq<Seq<char>>,
    m: Map<Seq<char>, Seq<Seq<u8>>>,
    b: Seq<u8>,
    ws: Seq<Seq<char>>,
)
    requires
        1 <= b.len() <= 4,
        forall|k: Seq<char>| #[trigger] m.contains_key(k) ==> m[k].len() == 4,
    ensures
        other_slots_kept(m, b, ws, add_code_all(order, m, b, ws).1),
    decreases ws.len(),
{
    if ws.len() > 0 {
        let init = ws.drop_last();
        law_code_keeps_other_slots(order, m, b, init);
        law_code_given(order, m, b, init);
        let p = add_code_all(order, m, b, init);
        let w = ws.last();
        let r = add_code_all(order, m, b, ws);
        assert(r == add_code_step(p.0, p.1, b, w));
        assert forall|i: int, j: int|
            0 <= i < ws.len() && 0 <= j < 4 && j != b.len() - 1 implies #[trigger] r.1[ws[i]][j] == (if m.contains_key(
            ws[i],
        ) {
            m[ws[i]][j]
        } else {
            empty_slot((j + 1) as nat)
        }) by {
            let k = ws[i];
            if k != w {
                assert(i < init.len());
                assert(init[i] == k);
                assert(p.1[init[i]][j] == r.1[k][j]);
            } else if init.contains(w) {
                let i2 = choose|i2: int| 0 <= i2 < init.len() && init[i2] == w;
                assert(p.1[init[i2]][j] == (if m.contains_key(init[i2]) {
                    m[init[i2]][j]
                } else {
                    empty_slot((j + 1) as nat)
                }));
                assert(p.1.contains_key(init[i2]));
                assert(p.1[w].len() == 4);
            } else {
                assert(p.1.contains_key(w) == m.contains_key(w));
                if m.contains_key(w) {
                    assert(p.1[w] == m[w]);
                } else {
                    assert(no_codes()[j] =~= empty_slot((j + 1) as nat));
                }
            }
        }
    }
}

/// What became of one line of the dictionary.
#[derive(PartialEq, Eq, Debug)]
pub enum LineOutcome {
    /// The code was given to the words of the line.
    Added,
    /// The line has fewer than two fields.
    TooFewFields,
    /// The first field is not a Wubi code.
    BadCode,
}

/// The dictionary as read so far: each word once, in order of first
/// appearance, with its codes.
pub struct WordTable {
    index: StringHashMap<usize>,
    words: Vec<String>,
    codes: Vec<Wubima>,
}

impl WordTable {
    /// The words, in order of first appearance.
    pub closed spec fn order(&self) -> Seq<Seq<char>> {
        self.words@.map_values(|s: String| s@)
    }

    /// The codes of each word.
    pub closed spec fn table(&self) -> Map<Seq<char>, Seq<Seq<u8>>> {
        Map::new(
            |k: Seq<char>| self.index@.contains_key(k),
            |k: Seq<char>| self.codes@[self.index@[k] as int]@,
        )
    }

    /// The index maps each word to its position in both lists.
    pub closed spec fn wf(&self) -> bool {
        &&& self.words@.len() == self.codes@.len()
        &&& forall|i: int|
            0 <= i < self.words@.len() ==> #[trigger] self.index@.contains_key(self.words@[i]@)
                && self.index@[self.words@[i]@] == i
        &&& forall|k: Seq<char>|
            #[trigger] self.index@.contains_key(k) ==> self.index@[k] < self.words@.len()
                && self.words@[self.index@[k] as int]@ == k
    }

    /// In a well-formed table the words are those that have codes, each once.
    pub proof fn lemma_wf_shape(&self)
        requires
            self.wf(),
        ensures
            forall|k: Seq<char>| self.table().contains_key(k) <==> self.order().contains(k),
            forall|i: int, j: int|
                0 <= i < self.order().len() && 0 <= j < self.order().len() && self.order()[i]
                    == self.order()[j] ==> i == j,
    {
        assert forall|k: Seq<char>| self.table().contains_key(k) <==> self.order().contains(k) by {
            if self.index@.contains_key(k) {
                assert(self.order()[self.index@[k] as int] == k);
            }
            if self.order().contains(k) {
                let i = choose|i: int| 0 <= i < self.order().len() && self.order()[i] == k;
                assert(self.index@.contains_key(self.words@[i]@));
            }
        }
        assert forall|i: int, j: int|
            0 <= i < self.order().len() && 0 <= j < self.order().len() && self.order()[i]
                == self.order()[j] implies i == j by {
            assert(self.index@.contains_key(self.words@[i]@));
            assert(self.index@.contains_key(self.words@[j]@));
        }
    }

    /// An empty table.
    pub fn new() -> (r: Self)
        ensures
            r.wf(),
            r.order() == Seq::<Seq<char>>::empty(),
            r.table() == Map::<Seq<char>, Seq<Seq<u8>>>::empty(),
    {
        let r = WordTable { index: StringHashMap::new(), words: Vec::new(), codes: Vec::new() };
        assert(r.order() =~= Seq::<Seq<char>>::empty());
        assert(r.table() =~= Map::<Seq<char>, Seq<Seq<u8>>>::empty());
        r
    }

    /// The number of words.
    pub fn len(&self) -> (r: usize)
        requires
            self.wf(),
        ensures
            r == self.order().len(),
    {
        self.words.len()
    }

    /// The word at position `i` and its codes.
    pub fn entry(&self, i: usize) -> (r: (&str, Wubima))
        requires
            self.wf(),
            i < self.order().len(),
        ensures
            r.0@ == self.order()[i as int],
            r.1@ == self.table()[self.order()[i as int]],
    {
        assert(self.index@.contains_key(self.words@[i as int]@));
        (self.words[i].as_str(), self.codes[i])
    }

    /// Lays the table out as the `phf` code table used for lookups: the
    /// code table holds exactly these words, each with these codes.
    pub fn code_table(&self) -> (t: phf::Map<&'static str, Wubima>)
        requires
            self.wf(),
            self.order().len() <= u32::MAX,
        ensures
            table_well_shaped(t),
            table_codes(t) == self.table(),
    {
        proof {
            self.lemma_wf_shape();
        }
        let n = self.words.len();
        let mut entries: Vec<(String, Wubima)> = Vec::with_capacity(n);
        let mut i: usize = 0;
        while i < n
            invariant
                self.wf(),
                n == self.order().len(),
                i <= n,
                entries@.len() == i,
                forall|j: int|
                    0 <= j < i ==> (#[trigger] entries@[j]).0@ == self.order()[j] && entries@[j].1@
                        == self.table()[self.order()[j]],
            decreases n - i,
        {
            let (w, c) = self.entry(i);
            entries.push((w.to_owned(), c));
            i = i + 1;
        }
        let ghost keys = entries@.map_values(|e: (String, Wubima)| e.0@);
        proof {
            assert(keys =~= self.order());
        }
        let t = build_table(entries);
        proof {
            assert forall|k: Seq<char>| #[trigger] table_codes(t).contains_key(k) <==> self.table().contains_key(k) by {
                assert(keys.to_set().contains(k) <==> keys.contains(k));
            }
            assert forall|k: Seq<char>| #[trigger] table_codes(t).contains_key(k) implies table_codes(t)[k]
                == self.table()[k] by {
                assert(keys.to_set().contains(k));
                let j = choose|j: int| 0 <= j < keys.len() && keys[j] == k;
                assert(entries@[j].0@ == k);
            }
            assert(table_codes(t) =~= self.table());
        }
        t
    }

    /// Gives the code `bm` to one word.
    fn add_code(&mut self, bm: &str, word: &str)
        requires
            old(self).wf(),
        ensures
            final(self).wf(),
            (final(self).order(), final(self).table()) == add_code_step(
                old(self).order(),
                old(self).table(),
                bm.spec_bytes(),
                word@,
            ),
    {
        let ghost old_self = *self;
        match self.index.get(word) {
            Some(idx) => {
                let idx: usize = *idx;
                let mut wbm = self.codes[idx];
                let _ = wbm.update_bm(bm);
                self.codes.set(idx, wbm);
                proof {
                    assert(self.order() =~= old_self.order());
                    assert forall|k: Seq<char>| self.index@.contains_key(k) && k != word@ implies
                        self.index@[k] != idx by {
                        assert(self.words@[self.index@[k] as int]@ == k);
                    }
                    assert(self.table() =~= old_self.table().insert(
                        word@,
                        with_code(old_self.table()[word@], bm.spec_bytes()),
                    ));
                }
            },
            None => {
                let mut wbm = Wubima::new();
                let _ = wbm.update_bm(bm);
                let n = self.words.len();
                self.index.insert(word.to_owned(), n);
                self.words.push(word.to_owned());
                self.codes.push(wbm);
                proof {
                    assert(self.order() =~= old_self.order().push(word@));
                    assert forall|k: Seq<char>| #[trigger] self.index@.contains_key(k) implies self.index@[k]
                        < self.words@.len() && self.words@[self.index@[k] as int]@ == k by {
                        if k != word@ {
                            assert(old_self.index@.contains_key(k));
                        }
                    }
                    assert forall|i: int| 0 <= i < self.words@.len() implies #[trigger] self.index@.contains_key(
                        self.words@[i]@) && self.index@[self.words@[i]@] == i by {
                        if i < n {
                            assert(old_self.index@.contains_key(old_self.words@[i]@));
                            assert(self.words@[i] == old_self.words@[i]);
                            if self.words@[i]@ == word@ {
                                assert(old_self.words@[i]@ == word@);
                            }
                        }
                    }
                    assert(self.table() =~= old_self.table().insert(
                        word@,
                        with_code(no_codes(), bm.spec_bytes()),
                    ));
                }
            },
        }
    }

    /// Gives the code `bm` to each word of `wlist`, in order.
    pub fn new_bm(&mut self, bm: &str, wlist: &[&str])
        requires
            old(self).wf(),
        ensures
            final(self).wf(),
            (final(self).order(), final(self).table()) == add_code_all(
                old(self).order(),
                old(self).table(),
                bm.spec_bytes(),
                wlist@.map_values(|w: &str| w@),
            ),
    {
        let ghost ws = wlist@.map_values(|w: &str| w@);
        let n = wlist.len();
        let mut i: usize = 0;
        while i < n
            invariant
                n == wlist@.len(),
                ws == wlist@.map_values(|w: &str| w@),
                i <= n,
                self.wf(),
                (self.order(), self.table()) == add_code_all(
                    old(self).order(),
                    old(self).table(),
                    bm.spec_bytes(),
                    ws.take(i as int),
                ),
            decreases n - i,
        {
            self.add_code(bm, wlist[i]);
            proof {
                assert(ws.take(i + 1).drop_last() =~= ws.take(i as int));
            }
            i = i + 1;
        }
        proof {
            assert(ws.take(n as int) =~= ws);
        }
    }

    /// Reads one line of the dictionary: a code, then the words that have it.
    pub fn process_line(&mut self, line: &str) -> (r: LineOutcome)
        requires
            old(self).wf(),
        ensures
            final(self).wf(),
            ({
                let fields = ws_words(trim_chars(line@));
                if fields.len() <= 1 {
                    r == LineOutcome::TooFewFields && *final(self) == *old(self)
                } else if !is_valid_code(encode_utf8(fields[0])) {
                    r == LineOutcome::BadCode && *final(self) == *old(self)
                } else {
                    &&& r == LineOutcome::Added
                    &&& (final(self).order(), final(self).table()) == add_code_all(
                        old(self).order(),
                        old(self).table(),
                        encode_utf8(fields[0]),
                        fields.skip(1),
                    )
                }
            }),
    {
        let cline: &str = trim_str(line);
        let words: Vec<&str> = split_words(cline);
        if words.len() <= 1 {
            return LineOutcome::TooFewFields;
        }
        if Wubima::validate_bm(words[0]) {
            let rest: &[&str] = words.as_slice().split_at(1).1;
            proof {
                assert(rest@.map_values(|w: &str| w@) =~= ws_words(trim_chars(line@)).skip(1));
            }
            self.new_bm(words[0], rest);
            LineOutcome::Added
        } else {
            LineOutcome::BadCode
        }
    }
}

} // verus!
