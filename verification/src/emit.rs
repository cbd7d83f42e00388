//! Rendering of the patch document: a small textual dialect that lists, per
//! changed character entry, its position in the database list and the new
//! value of its slot-count field. Key hashes are written in the hexadecimal
//! form `0x` followed by ten lowercase hex digits.

use vstd::prelude::*;
use vstd::string::StrSliceExecFns;

verus! {

/// The decimal digit `d` as a character.
pub open spec fn digit_to_char(d: int) -> char {
    (48 + d) as char
}

/// The hexadecimal digit `d` as a lowercase character.
pub open spec fn hex_digit_char(d: int) -> char {
    if d < 10 {
        (48 + d) as char
    } else {
        (87 + d) as char
    }
}

/// The decimal numeral of a non-negative number.
pub open spec fn dec_chars(n: int) -> Seq<char>
    recommends
        n >= 0,
    decreases n,
{
    if n < 10 {
        seq![digit_to_char(n)]
    } else {
        dec_chars(n / 10).push(digit_to_char(n % 10))
    }
}

/// The ten-digit lowercase hexadecimal numeral of a hash value.
pub open spec fn hex10_chars(n: u64) -> Seq<char> {
    Seq::new(10, |i: int| hex_digit_char(((n >> (((9 - i) * 4) as u64)) & 0xf) as int))
}

/// One record of the patch document: the changed entry's position, its
/// slot-field key hash, and the new slot count.
pub open spec fn change_chars(c: (int, u64, u8)) -> Seq<char> {
    "    <struct index=\""@ + dec_chars(c.0) + "\">\n      <byte hash=\"0x"@ + hex10_chars(c.1)
        + "\">"@ + dec_chars(c.2 as int) + "</byte>\n    </struct>\n"@
}

/// The records of the patch document, in order.
pub open spec fn changes_chars(cs: Seq<(int, u64, u8)>) -> Seq<char>
    decreases cs.len(),
{
    if cs.len() == 0 {
        Seq::empty()
    } else {
        changes_chars(cs.drop_last()) + change_chars(cs.last())
    }
}

/// The head of the patch document, up to and including the opened list tag.
pub open spec fn doc_head(root_key: u64) -> Seq<char> {
    "<?xml version=\"1.0\" encoding=\"utf-8\"?>\n<struct>\n  <list hash=\"0x"@ + hex10_chars(
        root_key,
    ) + "\">\n"@
}

/// The tail of the patch document: the closing tags.
pub open spec fn doc_tail() -> Seq<char> {
    "  </list>\n</struct>\n"@
}

/// The whole patch document for a database list keyed `root_key` and the
/// given change records.
pub open spec fn spec_patch_doc(root_key: u64, cs: Seq<(int, u64, u8)>) -> Seq<char> {
    doc_head(root_key) + changes_chars(cs) + doc_tail()
}

/// Appends the characters of `s`.
fn push_str_chars(out: &mut Vec<char>, s: &str)
    ensures
        final(out)@ == old(out)@ + s@,
{
    let n = s.unicode_len();
    let mut i: usize = 0;
    while i < n
        invariant
            i <= n,
            n == s@.len(),
            out@ == old(out)@ + s@.take(i as int),
        decreases n - i,
    {
        let c = s.get_char(i);
        out.push(c);
        proof {
            assert(s@.take(i as int + 1) =~= s@.take(i as int).push(c));
            assert(old(out)@ + s@.take(i as int + 1) =~= (old(out)@ + s@.take(i as int)).push(c));
        }
        i = i + 1;
    }
    proof {
        assert(s@.take(n as int) =~= s@);
    }
}

/// The decimal digit `d` as a character.
fn char_of_digit(d: u8) -> (c: char)
    requires
        d < 10,
    ensures
        c == digit_to_char(d as int),
{
    if d == 0 { '0' }
    else if d == 1 { '1' }
    else if d == 2 { '2' }
    else if d == 3 { '3' }
    else if d == 4 { '4' }
    else if d == 5 { '5' }
    else if d == 6 { '6' }
    else if d == 7 { '7' }
    else if d == 8 { '8' }
    else { '9' }
}

/// The hexadecimal digit `d` as a lowercase character.
fn char_of_nibble(d: u8) -> (c: char)
    requires
        d < 16,
    ensures
        c == hex_digit_char(d as int),
{
    if d < 10 {
        char_of_digit(d)
    } else if d == 10 { 'a' }
    else if d == 11 { 'b' }
    else if d == 12 { 'c' }
    else if d == 13 { 'd' }
    else if d == 14 { 'e' }
    else { 'f' }
}

/// Appends the decimal numeral of `n`.
fn push_dec(out: &mut Vec<char>, n: usize)
    ensures
        final(out)@ == old(out)@ + dec_chars(n as int),
    decreases n,
{
    if n >= 10 {
        push_dec(out, n / 10);
    }
    let c = char_of_digit((n % 10) as u8);
    out.push(c);
    proof {
        if n < 10 {
            assert(dec_chars(n as int) =~= seq![digit_to_char(n as int)]);
            assert(old(out)@ + dec_chars(n as int) =~= old(out)@.push(c));
        } else {
            assert(old(out)@ + dec_chars(n as int) =~= (old(out)@ + dec_chars(n as int / 10)).push(
                c,
            ));
        }
    }
}

/// Appends the ten-digit lowercase hexadecimal numeral of `n`.
fn push_hex10(out: &mut Vec<char>, n: u64)
    ensures
        final(out)@ == old(out)@ + hex10_chars(n),
{
    let mut i: usize = 0;
    while i < 10
        invariant
            i <= 10,
            out@ == old(out)@ + hex10_chars(n).take(i as int),
        decreases 10 - i,
    {
        let shift: u64 = ((9 - i) * 4) as u64;
        let nibble: u64 = (n >> shift) & 0xf;
        proof {
            assert((n >> shift) & 0xf < 16) by (bit_vector);
            assert(shift == ((9 - i as int) * 4) as u64);
        }
        let c = char_of_nibble(nibble as u8);
        out.push(c);
        proof {
            assert(c == hex10_chars(n)[i as int]);
            assert(hex10_chars(n).take(i as int + 1) =~= hex10_chars(n).take(i as int).push(c));
            assert(old(out)@ + hex10_chars(n).take(i as int + 1) =~= (old(out)@ + hex10_chars(
                n,
            ).take(i as int)).push(c));
        }
        i = i + 1;
    }
    proof {
        assert(hex10_chars(n).take(10) =~= hex10_chars(n));
    }
}

/// One change record of the diff, as the patcher computes it.
pub struct SlotChange {
    /// Position of the changed entry in the database list.
    pub index: usize,
    /// Key hash of the entry's slot-count field.
    pub key: u64,
    /// The new slot count.
    pub value: u8,
}

impl View for SlotChange {
    type V = (int, u64, u8);

    open spec fn view(&self) -> (int, u64, u8) {
        (self.index as int, self.key, self.value)
    }
}

/// The view of a sequence of change records.
pub open spec fn changes_view(s: Seq<SlotChange>) -> Seq<(int, u64, u8)> {
    s.map_values(|c: SlotChange| c@)
}

/// Renders the patch document for the given change records, as a sequence of
/// characters.
#[verifier::loop_isolation(false)]
pub fn emit_patch_doc(root_key: u64, changes: &Vec<SlotChange>) -> (r: Vec<char>)
    ensures
        r@ == spec_patch_doc(root_key, changes_view(changes@)),
{
    let ghost cv = changes_view(changes@);
    let mut out: Vec<char> = Vec::new();
    push_str_chars(&mut out, "<?xml version=\"1.0\" encoding=\"utf-8\"?>\n<struct>\n  <list hash=\"0x");
    push_hex10(&mut out, root_key);
    push_str_chars(&mut out, "\">\n");
    proof {
        assert(out@ =~= doc_head(root_key));
        assert(changes_chars(cv.take(0)) =~= Seq::<char>::empty());
        assert(out@ =~= doc_head(root_key) + changes_chars(cv.take(0)));
    }
    let n = changes.len();
    let mut i: usize = 0;
    while i < n
        invariant
            i <= n,
            out@ == doc_head(root_key) + changes_chars(cv.take(i as int)),
        decreases n - i,
    {
        let ghost at_start = out@;
        let c = &changes[i];
        push_str_chars(&mut out, "    <struct index=\"");
        push_dec(&mut out, c.index);
        push_str_chars(&mut out, "\">\n      <byte hash=\"0x");
        push_hex10(&mut out, c.key);
        push_str_chars(&mut out, "\">");
        push_dec(&mut out, c.value as usize);
        push_str_chars(&mut out, "</byte>\n    </struct>\n");
        proof {
            assert(cv[i as int] == c@);
            assert(out@ =~= at_start + change_chars(cv[i as int]));
            assert(cv.take(i as int + 1).drop_last() =~= cv.take(i as int));
            assert(out@ =~= doc_head(root_key) + changes_chars(cv.take(i as int + 1)));
        }
        i = i + 1;
    }
    push_str_chars(&mut out, "  </list>\n</struct>\n");
    proof {
        assert(cv.take(n as int) =~= cv);
        assert(out@ =~= spec_patch_doc(root_key, cv));
    }
    out
}

} // verus!
