//! Small text builders with exact specifications.

use vstd::prelude::*;

verus! {

/// The ASCII digit character for a value below ten.
pub open spec fn digit_char(d: nat) -> char {
    if d == 0 { '0' } else if d == 1 { '1' } else if d == 2 { '2' } else if d == 3 { '3' }
    else if d == 4 { '4' } else if d == 5 { '5' } else if d == 6 { '6' } else if d == 7 { '7' }
    else if d == 8 { '8' } else { '9' }
}

/// The decimal notation of `n`, most significant digit first, without leading zeros.
pub open spec fn decimal(n: nat) -> Seq<char>
    decreases n,
{
    if n < 10 {
        seq![digit_char(n)]
    } else {
        decimal(n / 10).push(digit_char(n % 10))
    }
}

/// The number that a string of decimal digits denotes.
pub open spec fn decimal_value(s: Seq<char>) -> int
    decreases s.len(),
{
    if s.len() == 0 {
        0
    } else {
        decimal_value(s.drop_last()) * 10 + (s.last() as int - '0' as int)
    }
}

proof fn lemma_digit_value(d: nat)
    requires
        d < 10,
    ensures
        digit_char(d) as int - '0' as int == d,
        '0' <= digit_char(d) <= '9',
{
}

/// `decimal(n)` is a string of ASCII digits with no leading zero (but for
/// zero itself) that denotes `n`.
pub proof fn law_decimal(n: nat)
    ensures
        decimal_value(decimal(n)) == n,
        decimal(n).len() >= 1,
        forall|i: int| 0 <= i < decimal(n).len() ==> '0' <= #[trigger] decimal(n)[i] <= '9',
        decimal(n)[0] == '0' ==> n == 0,
    decreases n,
{
    if n < 10 {
        lemma_digit_value(n);
        assert(decimal(n).drop_last() =~= Seq::<char>::empty());
        assert(decimal(n).last() == digit_char(n));
        assert(decimal_value(decimal(n).drop_last()) == 0);
        assert(decimal_value(decimal(n)) == n);
    } else {
        lemma_digit_value(n % 10);
        law_decimal(n / 10);
        let s = decimal(n);
        assert(s.drop_last() =~= decimal(n / 10));
        vstd::arithmetic::div_mod::lemma_fundamental_div_mod(n as int, 10);
        assert(s.last() == digit_char(n % 10));
        assert(decimal_value(s) == decimal_value(decimal(n / 10)) * 10 + (n % 10));
        assert(decimal_value(s) == n);
        assert forall|i: int| 0 <= i < s.len() implies '0' <= #[trigger] s[i] <= '9' by {
            if i < s.len() - 1 {
                assert(s[i] == decimal(n / 10)[i]);
            }
        }
    }
}

/// `s` ends with `t`.
pub open spec fn ends_with(s: Seq<char>, t: Seq<char>) -> bool {
    t.len() <= s.len() && s.subrange(s.len() - t.len(), s.len() as int) == t
}

/// `s` starts with `t`.
pub open spec fn starts_with(s: Seq<char>, t: Seq<char>) -> bool {
    t.len() <= s.len() && s.subrange(0, t.len() as int) == t
}

/// A text made of a head and a tail starts with the head and ends with the tail.
pub proof fn lemma_head_tail(head: Seq<char>, tail: Seq<char>)
    ensures
        starts_with(head + tail, head),
        ends_with(head + tail, tail),
{
    assert((head + tail).subrange(0, head.len() as int) =~= head);
    assert((head + tail).subrange(head.len() as int, (head + tail).len() as int) =~= tail);
}

fn digit_str(d: usize) -> (r: &'static str)
    requires
        d < 10,
    ensures
        r@ == seq![digit_char(d as nat)],
{
    proof {
        reveal_strlit("0");
        reveal_strlit("1");
        reveal_strlit("2");
        reveal_strlit("3");
        reveal_strlit("4");
        reveal_strlit("5");
        reveal_strlit("6");
        reveal_strlit("7");
        reveal_strlit("8");
        reveal_strlit("9");
    }
    match d {
        0 => "0",
        1 => "1",
        2 => "2",
        3 => "3",
        4 => "4",
        5 => "5",
        6 => "6",
        7 => "7",
        8 => "8",
        _ => "9",
    }
}

/// Appends the decimal notation of `n` to `s`.
pub fn push_decimal(s: &mut String, n: usize)
    ensures
        final(s)@ == old(s)@ + decimal(n as nat),
    decreases n,
{
    if n >= 10 {
        push_decimal(s, n / 10);
    }
    s.append(digit_str(n % 10));
}

/// The characters with the Unicode `White_Space` property.
pub open spec fn is_unicode_whitespace(c: char) -> bool {
    let u = c as u32;
    ||| 0x09 <= u <= 0x0d
    ||| u == 0x20
    ||| u == 0x85
    ||| u == 0xa0
    ||| u == 0x1680
    ||| 0x2000 <= u <= 0x200a
    ||| u == 0x2028
    ||| u == 0x2029
    ||| u == 0x202f
    ||| u == 0x205f
    ||| u == 0x3000
}

/// `s` without its leading and trailing whitespace.
pub open spec fn trim_chars(s: Seq<char>) -> Seq<char>
    decreases s.len(),
{
    if s.len() > 0 && is_unicode_whitespace(s[0]) {
        trim_chars(s.drop_first())
    } else if s.len() > 0 && is_unicode_whitespace(s.last()) {
        trim_chars(s.drop_last())
    } else {
        s
    }
}

/// The maximal runs of non-whitespace characters of `s`, in order.
pub open spec fn ws_words(s: Seq<char>) -> Seq<Seq<char>>
    decreases s.len(),
{
    if s.len() == 0 {
        Seq::empty()
    } else {
        let w = ws_words(s.drop_last());
        let c = s.last();
        if is_unicode_whitespace(c) {
            w
        } else if s.len() >= 2 && !is_unicode_whitespace(s[s.len() - 2]) {
            w.drop_last().push(w.last().push(c))
        } else {
            w.push(seq![c])
        }
    }
}

/// `t` sits in `s` at `a` with nothing but whitespace before and after it.
pub open spec fn ws_framed(s: Seq<char>, t: Seq<char>, a: int) -> bool {
    &&& 0 <= a && a + t.len() <= s.len()
    &&& s.subrange(a, a + t.len()) == t
    &&& forall|i: int| 0 <= i < a ==> is_unicode_whitespace(#[trigger] s[i])
    &&& forall|i: int| a + t.len() <= i < s.len() ==> is_unicode_whitespace(#[trigger] s[i])
}

proof fn lemma_framed_first(s: Seq<char>, t: Seq<char>, a: int)
    requires
        s.len() > 0,
        is_unicode_whitespace(s[0]),
        ws_framed(s.drop_first(), t, a),
    ensures
        ws_framed(s, t, a + 1),
{
    let s1 = s.drop_first();
    assert(s.subrange(a + 1, a + 1 + t.len()) =~= s1.subrange(a, a + t.len()));
    assert forall|i: int| 0 <= i < a + 1 implies is_unicode_whitespace(#[trigger] s[i]) by {
        if i > 0 {
            assert(s[i] == s1[i - 1]);
        }
    }
    assert forall|i: int| a + 1 + t.len() <= i < s.len() implies is_unicode_whitespace(#[trigger] s[i]) by {
        assert(s[i] == s1[i - 1]);
    }
}

proof fn lemma_framed_last(s: Seq<char>, t: Seq<char>, a: int)
    requires
        s.len() > 0,
        is_unicode_whitespace(s.last()),
        ws_framed(s.drop_last(), t, a),
    ensures
        ws_framed(s, t, a),
{
    let s1 = s.drop_last();
    assert(s.subrange(a, a + t.len()) =~= s1.subrange(a, a + t.len()));
    assert forall|i: int| 0 <= i < a implies is_unicode_whitespace(#[trigger] s[i]) by {
        assert(s[i] == s1[i]);
    }
    assert forall|i: int| a + t.len() <= i < s.len() implies is_unicode_whitespace(#[trigger] s[i]) by {
        if i < s.len() - 1 {
            assert(s[i] == s1[i]);
        }
    }
}

/// Trimming removes whitespace from both ends and nothing else: the result
/// is a stretch of the text with only whitespace around it, and it neither
/// starts nor ends with whitespace.
pub proof fn law_trim(s: Seq<char>)
    ensures
        exists|a: int| ws_framed(s, trim_chars(s), a),
        trim_chars(s).len() > 0 ==> !is_unicode_whitespace(trim_chars(s)[0])
            && !is_unicode_whitespace(trim_chars(s).last()),
    decreases s.len(),
{
    let t = trim_chars(s);
    if s.len() > 0 && is_unicode_whitespace(s[0]) {
        law_trim(s.drop_first());
        let a1 = choose|a: int| ws_framed(s.drop_first(), t, a);
        lemma_framed_first(s, t, a1);
    } else if s.len() > 0 && is_unicode_whitespace(s.last()) {
        law_trim(s.drop_last());
        let a1 = choose|a: int| ws_framed(s.drop_last(), t, a);
        lemma_framed_last(s, t, a1);
    } else {
        assert(s.subrange(0, s.len() as int) =~= s);
        assert(ws_framed(s, t, 0));
    }
}

/// The words of a list written one after the other.
pub open spec fn concat_words(ws: Seq<Seq<char>>) -> Seq<char>
    decreases ws.len(),
{
    if ws.len() == 0 {
        Seq::empty()
    } else {
        concat_words(ws.drop_last()) + ws.last()
    }
}

/// The characters of `s` that are not whitespace, in order.
pub open spec fn non_ws_chars(s: Seq<char>) -> Seq<char> {
    s.filter(|c: char| !is_unicode_whitespace(c))
}

/// Splitting on whitespace gives non-empty words without whitespace that,
/// written one after the other, are exactly the characters of the text that
/// are not whitespace, in order.
pub proof fn law_split(s: Seq<char>)
    ensures
        forall|i: int|
            0 <= i < ws_words(s).len() ==> (#[trigger] ws_words(s)[i]).len() > 0 && forall|j: int|
                0 <= j < ws_words(s)[i].len() ==> !is_unicode_whitespace(#[trigger] ws_words(s)[i][j]),
        concat_words(ws_words(s)) == non_ws_chars(s),
        s.len() > 0 && !is_unicode_whitespace(s.last()) ==> ws_words(s).len() > 0,
    decreases s.len(),
{
    reveal_with_fuel(Seq::filter, 1);
    if s.len() > 0 {
        let s1 = s.drop_last();
        law_split(s1);
        let w = ws_words(s1);
        let c = s.last();
        let r = ws_words(s);
        assert(non_ws_chars(s) == if !is_unicode_whitespace(c) {
            non_ws_chars(s1).push(c)
        } else {
            non_ws_chars(s1)
        });
        if is_unicode_whitespace(c) {
        } else if s.len() >= 2 && !is_unicode_whitespace(s[s.len() - 2]) {
            assert(s1.last() == s[s.len() - 2]);
            assert(w.len() > 0);
            assert(r == w.drop_last().push(w.last().push(c)));
            assert(r.drop_last() =~= w.drop_last());
            assert(concat_words(w) == concat_words(w.drop_last()) + w.last());
            assert(concat_words(r) =~= concat_words(w).push(c));
            assert forall|i: int|
                0 <= i < r.len() implies (#[trigger] r[i]).len() > 0 && forall|j: int|
                    0 <= j < r[i].len() ==> !is_unicode_whitespace(#[trigger] r[i][j]) by {
                if i < r.len() - 1 {
                    assert(r[i] == w[i]);
                } else {
                    assert(r[i] == w.last().push(c));
                    assert(w.last() == w[w.len() - 1]);
                    assert forall|j: int| 0 <= j < r[i].len() implies !is_unicode_whitespace(#[trigger] r[i][j]) by {
                        if j < r[i].len() - 1 {
                            assert(r[i][j] == w[w.len() - 1][j]);
                        }
                    }
                }
            }
        } else {
            assert(r == w.push(seq![c]));
            assert(r.drop_last() =~= w);
            assert(concat_words(r) =~= concat_words(w).push(c));
            assert forall|i: int|
                0 <= i < r.len() implies (#[trigger] r[i]).len() > 0 && forall|j: int|
                    0 <= j < r[i].len() ==> !is_unicode_whitespace(#[trigger] r[i][j]) by {
                if i < r.len() - 1 {
                    assert(r[i] == w[i]);
                }
            }
        }
    } else {
        assert(non_ws_chars(s) =~= Seq::<char>::empty());
    }
}

/// Removes leading and trailing whitespace.
///
/// Calls `str::trim`, which the standard library documents as removing the
/// leading and trailing characters that have the Unicode `White_Space` property.
#[verifier::external_body]
pub(crate) fn trim_str(s: &str) -> (r: &str)
    ensures
        r@ == trim_chars(s@),
{
    s.trim()
}

/// Splits a line into its whitespace-separated words.
///
/// Calls `str::split_whitespace` and collects the words; the standard library
/// documents the words as the non-empty runs between characters with the
/// Unicode `White_Space` property.
#[verifier::external_body]
pub(crate) fn split_words(s: &str) -> (r: Vec<&str>)
    ensures
        r@.len() == ws_words(s@).len(),
        forall|i: int| 0 <= i < r@.len() ==> (#[trigger] r@[i])@ == ws_words(s@)[i],
{
    s.split_whitespace().collect()
}

} // verus!
