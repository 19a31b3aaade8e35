//! Wraps a single Markdown paragraph to a target column width.
//!
//! Line-break opportunities come from the Unicode line-breaking algorithm
//! (the `unicode-linebreak` crate); they are filtered so that no break lands
//! inside a backtick code span or in a visually confusing position (after a
//! hyphen, at an image marker `![`, or at a link boundary `](` / `][`), and
//! a greedy pass packs as many characters as fit into every line.
use vstd::prelude::*;
use vstd::string::StrSliceExecFns;

pub mod codespan_parser;
pub mod oracle;
pub mod pwrap;
pub mod textindex;

use crate::oracle::char_breaks;
use crate::oracle::find_linebreaks;
use crate::oracle::linebreaks_of;
use crate::oracle::to_char_breaks;
use crate::pwrap::wrap_all;
use crate::pwrap::wrap_core;

verus! {

/// The wrapped form of the paragraph `s`: the greedy line assembly applied
/// to the Unicode break opportunities of `s`, taken as character
/// indices.  Lines after the first are measured against `width`, the first
/// line against `flw`; widths count characters (Unicode scalar values).
pub open spec fn wrapped_paragraph(s: Seq<char>, width: int, flw: int) -> Seq<char> {
    wrap_all(s, char_breaks(s, linebreaks_of(s)), width, flw)
}

/// Relies on `String::push`: appends one character at the end of the
/// string.
#[verifier::external_body]
fn push_char(s: &mut String, c: char)
    ensures
        final(s)@ == old(s)@.push(c),
{
    s.push(c);
}

/// Wrap one Markdown paragraph.  Lines after the first are at most `width`
/// characters, the first line at most `first_line_width`, except where a
/// single unbreakable token (or a code span) exceeds the budget; lines are
/// joined by `'\n'`, and hard breaks already in the text are kept verbatim.
pub fn ulb_wrap_paragraph(text: &str, width: usize, first_line_width: usize) -> (r: String)
    ensures
        r@ == wrapped_paragraph(text@, width as int, first_line_width as int),
{
    let n = text.unicode_len();
    let mut chars: Vec<char> = Vec::new();
    let mut i: usize = 0;
    while i < n
        invariant
            i <= n,
            n as nat == text@.len(),
            chars@ == text@.subrange(0, i as int),
        decreases n - i,
    {
        let c = text.get_char(i);
        chars.push(c);
        i = i + 1;
        proof {
            assert(text@.subrange(0, i as int) =~= text@.subrange(0, i as int - 1).push(
                text@[i as int - 1],
            ));
        }
    }
    proof {
        assert(chars@ =~= text@);
    }
    let raw = find_linebreaks(text);
    let cb = to_char_breaks(&chars, &raw);
    let out = wrap_core(&chars, &cb, width, first_line_width);
    let mut r = String::new();
    let mut t: usize = 0;
    while t < out.len()
        invariant
            t <= out@.len(),
            r@ == out@.subrange(0, t as int),
        decreases out@.len() - t,
    {
        push_char(&mut r, out[t]);
        t = t + 1;
        proof {
            assert(out@.subrange(0, t as int) =~= out@.subrange(0, t as int - 1).push(
                out@[t as int - 1],
            ));
        }
    }
    proof {
        assert(r@ =~= out@);
        assert(out@ == wrapped_paragraph(text@, width as int, first_line_width as int));
    }
    r
}

} // verus!
