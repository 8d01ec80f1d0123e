//! The codes of one word: up to four Wubi codes, one of each length.

use vstd::prelude::*;
use vstd::string::*;
use vstd::utf8::*;

verus! {

broadcast use vstd::utf8::encode_utf8_valid_utf8, vstd::array::group_array_axioms;

/// A code slot is filled when its first byte is not zero; a filled slot
/// holds the UTF-8 bytes of the string that was stored in it.
pub open spec fn slot_ok(b: Seq<u8>) -> bool {
    b[0] != 0 ==> valid_utf8(b)
}

/// A Wubi code: one to four lower-case ASCII letters.
pub open spec fn is_valid_code(b: Seq<u8>) -> bool {
    &&& 1 <= b.len() <= 4
    &&& forall|i: int| 0 <= i < b.len() ==> 0x61 <= #[trigger] b[i] <= 0x7a
}

/// The codes of a word that has none yet.
pub open spec fn no_codes() -> Seq<Seq<u8>> {
    seq![seq![0u8], seq![0u8, 0u8], seq![0u8, 0u8, 0u8], seq![0u8, 0u8, 0u8, 0u8]]
}

/// The codes of a word by length: the slot at index `k` holds the code of length `k + 1`.
#[derive(Clone, Copy)]
pub struct Wubima {
    bm1: [u8; 1],
    bm2: [u8; 2],
    bm3: [u8; 3],
    bm4: [u8; 4],
}

impl View for Wubima {
    type V = Seq<Seq<u8>>;

    closed spec fn view(&self) -> Seq<Seq<u8>> {
        seq![self.bm1@, self.bm2@, self.bm3@, self.bm4@]
    }
}

/// The four slots have lengths one to four and each is either empty or valid UTF-8.
pub open spec fn codes_ok(v: Seq<Seq<u8>>) -> bool {
    &&& v.len() == 4
    &&& forall|k: int| 0 <= k < 4 ==> (#[trigger] v[k]).len() == k + 1 && slot_ok(v[k])
}

/// The line that a filled slot adds to a report; an empty slot adds nothing.
pub open spec fn slot_line(b: Seq<u8>) -> Seq<char> {
    if b[0] != 0 {
        "\t"@ + decode_utf8(b) + "\n"@
    } else {
        Seq::empty()
    }
}

/// The report on `word` and its codes, shortest code first.
pub open spec fn dump_text(word: Seq<char>, v: Seq<Seq<u8>>) -> Seq<char> {
    "结果：  "@ + word + " =>\n"@ + slot_line(v[0]) + slot_line(v[1]) + slot_line(v[2])
        + slot_line(v[3])
}

/// Decodes UTF-8 bytes.
///
/// Calls `std::str::from_utf8`, whose documentation says that it returns a
/// string slice with exactly these bytes when they are valid UTF-8, and an
/// error otherwise; the error is dropped here.
#[verifier::external_body]
fn utf8_str(bytes: &[u8]) -> (r: Option<&str>)
    ensures
        r is Some <==> valid_utf8(bytes@),
        r matches Some(s) ==> s.spec_bytes() == bytes@,
{
    std::str::from_utf8(bytes).ok()
}

/// Appends the line of one filled slot.
fn push_slot(res: &mut String, bytes: &[u8])
    requires
        valid_utf8(bytes@),
        bytes@.len() > 0,
        bytes@[0] != 0,
    ensures
        final(res)@ == old(res)@ + slot_line(bytes@),
{
    let s = utf8_str(bytes).unwrap();
    proof {
        vstd::utf8::encode_utf8_decode_utf8(s@);
    }
    res.append("\t");
    res.append(s);
    res.append("\n");
}

/// One report line for each filled slot of `slots`, in slot order: the
/// decoded code between a tab and a newline.
pub open spec fn filled_lines(slots: Seq<Seq<u8>>) -> Seq<char>
    decreases slots.len(),
{
    if slots.len() == 0 {
        Seq::empty()
    } else {
        let b = slots.last();
        filled_lines(slots.drop_last()) + (if b[0] != 0 {
            seq!['\t'] + decode_utf8(b) + seq!['\n']
        } else {
            Seq::empty()
        })
    }
}

/// The report on a word is its header followed by one line per filled slot,
/// in slot order: whether a slot's line appears depends on that slot alone.
pub proof fn law_dump_lists_filled_slots(word: Seq<char>, v: Seq<Seq<u8>>)
    requires
        v.len() == 4,
    ensures
        dump_text(word, v) == "结果：  "@ + word + " =>\n"@ + filled_lines(v),
{
    reveal_strlit("\t");
    reveal_strlit("\n");
    let v3 = v.drop_last();
    let v2 = v3.drop_last();
    let v1 = v2.drop_last();
    let v0 = v1.drop_last();
    assert(v0 =~= Seq::<Seq<u8>>::empty());
    assert(filled_lines(v0) == Seq::<char>::empty());
    assert(v1.last() == v[0]);
    assert(v2.last() == v[1]);
    assert(v3.last() == v[2]);
    assert(v.last() == v[3]);
    assert forall|b: Seq<u8>| slot_line(b) == (if b[0] != 0 {
        seq!['\t'] + decode_utf8(b) + seq!['\n']
    } else {
        Seq::<char>::empty()
    }) by {
        assert("\t"@ =~= seq!['\t']);
        assert("\n"@ =~= seq!['\n']);
    }
    assert(filled_lines(v1) =~= slot_line(v[0]));
    assert(filled_lines(v2) =~= slot_line(v[0]) + slot_line(v[1]));
    assert(filled_lines(v3) =~= slot_line(v[0]) + slot_line(v[1]) + slot_line(v[2]));
    assert(filled_lines(v) =~= slot_line(v[0]) + slot_line(v[1]) + slot_line(v[2]) + slot_line(v[3]));
    assert(dump_text(word, v) =~= "结果：  "@ + word + " =>\n"@ + filled_lines(v));
}

/// A Wubi code is exactly a string of one to four bytes, each a lower-case
/// ASCII letter: every such string is a code, and every code is one.
pub proof fn law_valid_code(b: Seq<u8>)
    ensures
        is_valid_code(b) <==> (1 <= b.len() <= 4 && forall|i: int|
            0 <= i < b.len() ==> ('a' as u8) <= #[trigger] b[i] && b[i] <= ('z' as u8)),
        is_valid_code(b) ==> 1 <= b.len() <= 4,
{
}

impl Wubima {
    #[verifier::type_invariant]
    spec fn inv(&self) -> bool {
        codes_ok(self@)
    }

    /// A word with no code yet.
    pub fn new() -> (r: Self)
        ensures
            r@ == no_codes(),
    {
        let bm1 = [0u8];
        let bm2 = [0u8, 0u8];
        let bm3 = [0u8, 0u8, 0u8];
        let bm4 = [0u8, 0u8, 0u8, 0u8];
        assert(bm1@ =~= seq![0u8]);
        assert(bm2@ =~= seq![0u8, 0u8]);
        assert(bm3@ =~= seq![0u8, 0u8, 0u8]);
        assert(bm4@ =~= seq![0u8, 0u8, 0u8, 0u8]);
        let r = Wubima { bm1, bm2, bm3, bm4 };
        assert(r@ =~= no_codes());
        r
    }

    /// The report on `word` and the codes of this word.
    pub fn dump(&self, word: &str) -> (r: String)
        ensures
            codes_ok(self@),
            r@ == dump_text(word@, self@),
    {
        proof {
            use_type_invariant(self);
        }
        let mut res = String::new();
        res.append("结果：  ");
        res.append(word);
        res.append(" =>\n");
        if self.bm1[0] != 0 {
            push_slot(&mut res, self.bm1.as_slice());
        }
        if self.bm2[0] != 0 {
            push_slot(&mut res, self.bm2.as_slice());
        }
        if self.bm3[0] != 0 {
            push_slot(&mut res, self.bm3.as_slice());
        }
        if self.bm4[0] != 0 {
            push_slot(&mut res, self.bm4.as_slice());
        }
        assert(res@ =~= dump_text(word@, self@));
        res
    }

    /// Stores `bm` as the code of its length; a string of any length but one
    /// to four bytes is refused and leaves the codes as they were.
    pub fn update_bm(&mut self, bm: &str) -> (r: bool)
        ensures
            r == (1 <= bm.spec_bytes().len() <= 4),
            r ==> final(self)@ == old(self)@.update(bm.spec_bytes().len() - 1, bm.spec_bytes()),
            !r ==> final(self)@ == old(self)@,
    {
        proof {
            use_type_invariant(&*self);
        }
        let bmc: &[u8] = bm.as_bytes();
        let n = bm.len();
        assert(valid_utf8(bmc@));
        match n {
            1 => {
                let a = [bmc[0]];
                assert(a@ =~= bmc@);
                self.bm1 = a;
            },
            2 => {
                let a = [bmc[0], bmc[1]];
                assert(a@ =~= bmc@);
                self.bm2 = a;
            },
            3 => {
                let a = [bmc[0], bmc[1], bmc[2]];
                assert(a@ =~= bmc@);
                self.bm3 = a;
            },
            4 => {
                let a = [bmc[0], bmc[1], bmc[2], bmc[3]];
                assert(a@ =~= bmc@);
                self.bm4 = a;
            },
            _ => {
                return false;
            },
        }
        assert(self@ =~= old(self)@.update(n - 1, bmc@));
        true
    }

    /// Whether `bm` is a Wubi code: one to four lower-case ASCII letters.
    pub fn validate_bm(bm: &str) -> (r: bool)
        ensures
            r == is_valid_code(bm.spec_bytes()),
    {
        let b: &[u8] = bm.as_bytes();
        let n = b.len();
        match n {
            1 => b[0] >= 0x61u8 && b[0] <= 0x7au8,
            2 => b[0] >= 0x61u8 && b[0] <= 0x7au8 && b[1] >= 0x61u8 && b[1] <= 0x7au8,
            3 => b[0] >= 0x61u8 && b[0] <= 0x7au8 && b[1] >= 0x61u8 && b[1] <= 0x7au8 && b[2] >= 0x61u8
                && b[2] <= 0x7au8,
            4 => b[0] >= 0x61u8 && b[0] <= 0x7au8 && b[1] >= 0x61u8 && b[1] <= 0x7au8 && b[2] >= 0x61u8
                && b[2] <= 0x7au8 && b[3] >= 0x61u8 && b[3] <= 0x7au8,
            _ => false,
        }
    }
}

} // verus!
