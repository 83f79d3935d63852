//! Positions in a document as an editor counts them, and the edits a
//! formatting request is answered with.
use vstd::prelude::*;
use crate::text::str_eq;

verus! {

/// A position: a zero-based line and a character offset in UTF-16 code
/// units within that line.
#[derive(Debug, Clone, Copy, PartialEq, Eq, Structural)]
pub struct Position {
    pub line: u32,
    pub character: u32,
}

/// A range between two positions.
#[derive(Debug, Clone, Copy, PartialEq, Eq, Structural)]
pub struct Range {
    pub start: Position,
    pub end: Position,
}

/// An edit: the text that replaces a range.
pub struct TextEdit {
    pub range: Range,
    pub new_text: String,
}

/// The number of line breaks in `s`.
pub open spec fn newline_count(s: Seq<char>) -> nat
    decreases s.len(),
{
    if s.len() == 0 {
        0
    } else {
        newline_count(s.drop_last()) + if s.last() == '\n' { 1nat } else { 0nat }
    }
}

/// The number of UTF-16 code units that encode `c`: two above the basic
/// multilingual plane, else one.
pub open spec fn utf16_len(c: char) -> nat {
    if (c as u32) >= 0x10000 { 2 } else { 1 }
}

/// The number of UTF-16 code units that encode `s`.
pub open spec fn utf16_units(s: Seq<char>) -> nat
    decreases s.len(),
{
    if s.len() == 0 {
        0
    } else {
        utf16_units(s.drop_last()) + utf16_len(s.last())
    }
}

/// The characters after the last line break, or all of `s` if it has none.
pub open spec fn last_line(s: Seq<char>) -> Seq<char>
    decreases s.len(),
{
    if s.len() == 0 {
        Seq::empty()
    } else if s.last() == '\n' {
        Seq::empty()
    } else {
        last_line(s.drop_last()).push(s.last())
    }
}

/// The position after the last character of `source`: its line is the
/// number of line breaks, its character the UTF-16 length of the last
/// line, each kept to 32 bits.
pub fn end_position(source: &str) -> (p: Position)
    ensures
        p.line as int == newline_count(source@) as int % 0x1_0000_0000,
        p.character as int == utf16_units(last_line(source@)) as int % 0x1_0000_0000,
{
    let n = source.unicode_len();
    let mut lines: usize = 0;
    let mut character: u32 = 0;
    let mut i: usize = 0;
    while i < n
        invariant
            0 <= i <= n,
            n == source@.len(),
            lines == newline_count(source@.take(i as int)),
            lines <= i,
            character as int == utf16_units(last_line(source@.take(i as int))) as int % 0x1_0000_0000,
        decreases n - i,
    {
        let c = source.get_char(i);
        let ghost t = source@.take(i + 1);
        proof {
            assert(t.drop_last() =~= source@.take(i as int));
            assert(t.last() == c);
        }
        if c == '\n' {
            lines += 1;
            character = 0;
        } else {
            let k: u32 = if (c as u32) >= 0x10000 { 2 } else { 1 };
            let ghost total = utf16_units(last_line(source@.take(i as int))) as int;
            proof {
                assert(last_line(t) == last_line(source@.take(i as int)).push(c));
                assert(last_line(t).drop_last() =~= last_line(source@.take(i as int)));
                assert(utf16_units(last_line(t)) == total + k);
                vstd::arithmetic::div_mod::lemma_add_mod_noop(total, k as int, 0x1_0000_0000);
                vstd::arithmetic::div_mod::lemma_small_mod(k as nat, 0x1_0000_0000);
                vstd::arithmetic::div_mod::lemma_mod_bound(total, 0x1_0000_0000);
                if character + k >= 0x1_0000_0000 {
                    vstd::arithmetic::div_mod::lemma_small_mod((character + k - 0x1_0000_0000) as nat, 0x1_0000_0000);
                    vstd::arithmetic::div_mod::lemma_mod_sub_multiples_vanish((character + k) as int, 0x1_0000_0000);
                } else {
                    vstd::arithmetic::div_mod::lemma_small_mod((character + k) as nat, 0x1_0000_0000);
                }
            }
            character = character.wrapping_add(k);
        }
        i += 1;
    }
    assert(source@.take(n as int) =~= source@);
    let wide: u64 = lines as u64;
    Position { line: (wide % 0x1_0000_0000) as u32, character }
}

/// The answer to a formatting request, given the document's text and its
/// formatted text (`None` where the document did not parse): no answer
/// without a formatted text, no edit where formatting changes nothing, and
/// otherwise one edit that replaces the whole document.
pub fn formatting_edits(source: &str, formatted: Option<String>) -> (r: Option<Vec<TextEdit>>)
    ensures
        match formatted {
            None => r is None,
            Some(f) => r is Some && if f@ == source@ {
                r->Some_0@.len() == 0
            } else {
                r->Some_0@.len() == 1 && r->Some_0@[0].new_text@ == f@
                    && r->Some_0@[0].range.start == (Position { line: 0, character: 0 })
                    && r->Some_0@[0].range.end.line as int == newline_count(source@) as int % 0x1_0000_0000
                    && r->Some_0@[0].range.end.character as int == utf16_units(last_line(source@)) as int % 0x1_0000_0000
            },
        },
{
    match formatted {
        None => None,
        Some(f) => {
            if str_eq(f.as_str(), source) {
                Some(Vec::new())
            } else {
                let end = end_position(source);
                let edit = TextEdit { range: Range { start: Position { line: 0, character: 0 }, end }, new_text: f };
                Some(vec![edit])
            }
        },
    }
}

} // verus!
