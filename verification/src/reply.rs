//! The replies to a front end's requests: look a word up, and check a typed
//! word against the word that is due.

use vstd::prelude::*;
use crate::history::{next_cursor, Wubihist};
use crate::table::{table_codes, table_get, table_well_shaped};
use crate::text::{decimal, ends_with, lemma_head_tail, push_decimal, starts_with};
use crate::wubima::{dump_text, Wubima};

verus! {

/// The reply to a word that the table does not hold.
pub open spec fn not_found_text(word: Seq<char>) -> Seq<char> {
    "抱歉！五笔编码未找到：\n\t"@ + word + "\n"@
}

/// The reply to a check when the history is empty.
pub open spec fn empty_history_text() -> Seq<char> {
    "错误！当前历史记录为空！"@
}

/// The reply when the typed word is the one due: the position and the word that are due next.
pub open spec fn matched_text(n: nat, word: Seq<char>) -> Seq<char> {
    "对比成功！下一个词组，序号 "@ + decimal(n) + "：\n\t"@ + word + "\n"@
}

/// The reply when the typed word is not the one due: its position and the word, again.
pub open spec fn mismatch_text(i: nat, word: Seq<char>) -> Seq<char> {
    "对比不一致！请重新输入，序号 "@ + decimal(i) + "：\n\t"@ + word + "\n"@
}

fn not_found_reply(word: &str) -> (r: (i32, String))
    ensures
        r.0 == -1,
        r.1@ == not_found_text(word@),
{
    let mut msg = String::new();
    msg.append("抱歉！五笔编码未找到：\n\t");
    msg.append(word);
    msg.append("\n");
    (-1, msg)
}

/// Looks `word` up without recording it: `0` and the report on its codes when
/// the table holds it, `-1` and the not-found reply otherwise.
pub fn lookup_reply(table: &phf::Map<&'static str, Wubima>, word: &str) -> (r: (i32, String))
    requires
        table_well_shaped(*table),
    ensures
        table_codes(*table).contains_key(word@) ==> r.0 == 0 && r.1@ == dump_text(
            word@,
            table_codes(*table)[word@],
        ),
        !table_codes(*table).contains_key(word@) ==> r.0 == -1 && r.1@ == not_found_text(word@),
{
    match table_get(table, word) {
        Some(wbm) => (0, wbm.dump(word)),
        None => not_found_reply(word),
    }
}

/// Looks `word` up: when the table holds it, the word is added to the
/// history (unless it is there already) and the reply is `0` with the report
/// on its codes; otherwise the history stays and the reply is `-1` with the
/// not-found message.
pub fn query_word(table: &phf::Map<&'static str, Wubima>, hist: &mut Wubihist, word: &str) -> (r: (
    i32,
    String,
))
    requires
        old(hist).wf(),
        table_well_shaped(*table),
    ensures
        final(hist).wf(),
        table_codes(*table).contains_key(word@) ==> {
            &&& r.0 == 0
            &&& r.1@ == dump_text(word@, table_codes(*table)[word@])
            &&& !old(hist).words().contains(word@) ==> final(hist).words() == old(hist).words().push(
                word@,
            ) && final(hist).cursor() == old(hist).words().len()
            &&& old(hist).words().contains(word@) ==> *final(hist) == *old(hist)
        },
        !table_codes(*table).contains_key(word@) ==> r.0 == -1 && r.1@ == not_found_text(word@)
            && *final(hist) == *old(hist),
{
    match table_get(table, word) {
        Some(wbm) => {
            let _ = hist.add_word(word);
            (0, wbm.dump(word))
        },
        None => not_found_reply(word),
    }
}

/// Checks a typed word against the word that is due. When they are equal the
/// cursor moves on and the reply names the next word; otherwise the cursor
/// stays and the reply repeats the word that is due. An empty history gets
/// its own reply.
pub fn compare_next(hist: &mut Wubihist, input: &str) -> (r: String)
    requires
        old(hist).wf(),
    ensures
        final(hist).wf(),
        final(hist).words() == old(hist).words(),
        old(hist).words().len() == 0 ==> r@ == empty_history_text() && *final(hist) == *old(hist),
        old(hist).words().len() > 0 ==> {
            let c = old(hist).cursor();
            let w = old(hist).words();
            let n = next_cursor(c, w.len());
            &&& input@ == w[c as int] ==> final(hist).cursor() == n && r@ == matched_text(n, w[n as int])
            &&& input@ != w[c as int] ==> *final(hist) == *old(hist) && r@ == mismatch_text(c, w[c as int])
        },
{
    proof {
        hist.lemma_wf_shape();
    }
    let mut word = String::new();
    let Some(idx) = hist.current(&mut word) else {
        return "错误！当前历史记录为空！".to_owned();
    };
    let typed: String = input.to_owned();
    let mut msg = String::new();
    if typed == word {
        let mut nword = String::new();
        if let Some(nidx) = hist.next(&mut nword) {
            msg.append("对比成功！下一个词组，序号 ");
            push_decimal(&mut msg, nidx);
            msg.append("：\n\t");
            msg.append(nword.as_str());
            msg.append("\n");
        } else {
            msg.append("对比成功！但找不到下一个词组！");
        }
    } else {
        msg.append("对比不一致！请重新输入，序号 ");
        push_decimal(&mut msg, idx);
        msg.append("：\n\t");
        msg.append(word.as_str());
        msg.append("\n");
    }
    msg
}

/// Each reply names what it is about: the not-found reply ends with the
/// word that was looked up, and both check replies begin with their verdict
/// and the position and end with the word they name, whatever the position.
pub proof fn law_replies_name_their_word(n: nat, w: Seq<char>)
    ensures
        ends_with(not_found_text(w), w.push('\n')),
        starts_with(matched_text(n, w), "对比成功！下一个词组，序号 "@ + decimal(n)),
        ends_with(matched_text(n, w), w.push('\n')),
        starts_with(mismatch_text(n, w), "对比不一致！请重新输入，序号 "@ + decimal(n)),
        ends_with(mismatch_text(n, w), w.push('\n')),
{
    let nl = "\n"@;
    reveal_strlit("\n");
    assert(w + nl =~= w.push('\n'));
    let a = "抱歉！五笔编码未找到：\n\t"@;
    assert(not_found_text(w) =~= a + (w + nl));
    lemma_head_tail(a, w + nl);
    let p = "对比成功！下一个词组，序号 "@ + decimal(n);
    let q = "：\n\t"@;
    assert(matched_text(n, w) =~= p + (q + (w + nl)));
    lemma_head_tail(p, q + (w + nl));
    assert(q + (w + nl) =~= q + (w + nl));
    lemma_head_tail(q, w + nl);
    assert((p + (q + (w + nl))).subrange((p + (q + (w + nl))).len() - (w + nl).len(), (p + (q + (
    w + nl))).len() as int) =~= w + nl);
    let p2 = "对比不一致！请重新输入，序号 "@ + decimal(n);
    assert(mismatch_text(n, w) =~= p2 + (q + (w + nl)));
    lemma_head_tail(p2, q + (w + nl));
    assert((p2 + (q + (w + nl))).subrange((p2 + (q + (w + nl))).len() - (w + nl).len(), (p2 + (q + (
    w + nl))).len() as int) =~= w + nl);
}

} // verus!
