//! The break oracle: Unicode line-break opportunities for a paragraph.
//!
//! The classification itself comes from the `unicode-linebreak` crate
//! (UAX #14); this module wraps that call behind a contract and converts
//! the oracle's byte offsets into character indices for the assembler.
use vstd::prelude::*;

use crate::textindex::byte_boundary;
use crate::textindex::byte_offset;
use crate::textindex::char_of_byte;
use crate::textindex::lemma_byte_offset_le;
use crate::textindex::lemma_byte_offset_lt;
use crate::textindex::lemma_byte_offset_step;
use crate::textindex::lemma_char_of_byte_offset;
use crate::textindex::utf8_len;

verus! {

/// A break list as a mathematical sequence: pairs of a position and a flag
/// that is true for a mandatory break, false for an allowed one.
pub open spec fn break_model(v: Seq<(usize, bool)>) -> Seq<(int, bool)> {
    v.map_values(|p: (usize, bool)| (p.0 as int, p.1))
}

/// The line-break opportunities of `s` per the Unicode line-breaking
/// algorithm, as (byte offset, is-mandatory) pairs in ascending order.
/// Named, not spelled out: the classification fills the tables of UAX #14.
pub uninterp spec fn linebreaks_of(s: Seq<char>) -> Seq<(int, bool)>;

/// Relies on `unicode_linebreak::linebreaks`: it yields the break
/// opportunities of the text as `(byte offset, kind)` pairs, where each
/// offset is the byte index of the character succeeding the break (hence a
/// character boundary), offsets are strictly ascending, and for nonempty
/// text the final pair is a mandatory break at the end of the text.
#[verifier::external_body]
pub(crate) fn find_linebreaks(text: &str) -> (r: Vec<(usize, bool)>)
    ensures
        break_model(r@) == linebreaks_of(text@),
        forall|k1: int, k2: int| 0 <= k1 < k2 < r@.len() ==> r@[k1].0 < r@[k2].0,
        forall|k: int| 0 <= k < r@.len() ==> byte_boundary(text@, #[trigger] r@[k].0 as int),
        text@.len() > 0 ==> r@.len() > 0,
        text@.len() > 0 ==> r@[r@.len() - 1].0 as int == byte_offset(text@, text@.len() as int),
        text@.len() > 0 ==> r@[r@.len() - 1].1 == true,
{
    unicode_linebreak::linebreaks(text)
        .map(|(offset, kind)| {
            (offset, match kind {
                unicode_linebreak::BreakOpportunity::Mandatory => true,
                unicode_linebreak::BreakOpportunity::Allowed => false,
            })
        })
        .collect()
}

/// A break list with byte offsets replaced by character indices.
pub open spec fn char_breaks(s: Seq<char>, raw: Seq<(int, bool)>) -> Seq<(int, bool)> {
    raw.map_values(|p: (int, bool)| (char_of_byte(s, p.0), p.1))
}

/// A break list over character indices is well formed for a text of `n`
/// characters when its positions are within `0..=n` and strictly ascending.
pub open spec fn breaks_wf(n: int, bs: Seq<(int, bool)>) -> bool {
    &&& forall|k: int| 0 <= k < bs.len() ==> 0 <= (#[trigger] bs[k]).0 <= n
    &&& forall|k1: int, k2: int| 0 <= k1 < k2 < bs.len() ==> bs[k1].0 < bs[k2].0
}

/// Turn the oracle's byte offsets into character indices by walking
/// the characters once and accumulating their UTF-8 widths.
pub fn to_char_breaks(chars: &Vec<char>, raw: &Vec<(usize, bool)>) -> (r: Vec<(usize, bool)>)
    requires
        forall|k1: int, k2: int| 0 <= k1 < k2 < raw@.len() ==> raw@[k1].0 < raw@[k2].0,
        forall|k: int| 0 <= k < raw@.len() ==> byte_boundary(chars@, #[trigger] raw@[k].0 as int),
    ensures
        break_model(r@) == char_breaks(chars@, break_model(raw@)),
        breaks_wf(chars@.len() as int, break_model(r@)),
{
    let ghost s = chars@;
    let n = chars.len();
    let mut r: Vec<(usize, bool)> = Vec::new();
    let mut i: usize = 0;
    let mut cum: usize = 0;
    let mut k: usize = 0;
    while k < raw.len()
        invariant
            k <= raw@.len(),
            i <= n,
            n == s.len(),
            s == chars@,
            cum as int == byte_offset(s, i as int),
            k == 0 ==> i == 0,
            k > 0 ==> cum as int == raw@[k - 1].0 as int,
            r@.len() == k,
            forall|k1: int, k2: int| 0 <= k1 < k2 < raw@.len() ==> raw@[k1].0 < raw@[k2].0,
            forall|kk: int| 0 <= kk < raw@.len() ==> byte_boundary(s, #[trigger] raw@[kk].0 as int),
            forall|kk: int| 0 <= kk < k ==> (#[trigger] r@[kk]).0 <= i,
            forall|kk: int|
                0 <= kk < k ==> byte_offset(s, (#[trigger] r@[kk]).0 as int) == raw@[kk].0 as int,
            forall|kk: int|
                0 <= kk < k ==> (#[trigger] r@[kk]).0 as int == char_of_byte(s, raw@[kk].0 as int),
            forall|kk: int| 0 <= kk < k ==> (#[trigger] r@[kk]).1 == raw@[kk].1,
        decreases raw@.len() - k,
    {
        let b = raw[k].0;
        proof {
            assert(byte_boundary(s, b as int));
            assert(cum <= b) by {
                if k > 0 {
                    assert(raw@[k as int - 1].0 < raw@[k as int].0);
                }
            }
        }
        let ghost i0 = choose|i0: int| 0 <= i0 <= s.len() && byte_offset(s, i0) == b as int;
        proof {
            assert((i as int) <= i0) by {
                if i0 < i as int {
                    lemma_byte_offset_lt(s, i0, i as int);
                }
            }
        }
        while cum < b
            invariant
                i as int <= i0,
                0 <= i0 <= s.len(),
                byte_offset(s, i0) == b as int,
                cum as int == byte_offset(s, i as int),
                cum <= b,
                n == s.len(),
                s == chars@,
                r@.len() == k,
                forall|kk: int| 0 <= kk < r@.len() ==> (#[trigger] r@[kk]).0 <= i,
            decreases b - cum,
        {
            proof {
                assert((i as int) < i0) by {
                    if i0 <= i as int {
                        lemma_byte_offset_le(s, i0, i as int);
                    }
                }
                lemma_byte_offset_step(s, i as int + 1);
                lemma_byte_offset_le(s, i as int + 1, i0);
            }
            let w = utf8_len(chars[i]);
            cum = cum + w;
            i = i + 1;
        }
        proof {
            assert(cum as int == b as int);
            lemma_char_of_byte_offset(s, i as int);
        }
        r.push((i, raw[k].1));
        k = k + 1;
    }
    proof {
        assert(break_model(r@) =~= char_breaks(s, break_model(raw@)));
        assert forall|k1: int, k2: int|
            0 <= k1 < k2 < r@.len() implies r@[k1].0 < r@[k2].0 by {
            if r@[k2].0 <= r@[k1].0 {
                lemma_byte_offset_le(s, r@[k2].0 as int, r@[k1].0 as int);
            }
        }
        assert(breaks_wf(s.len() as int, break_model(r@)));
    }
    r
}

} // verus!
