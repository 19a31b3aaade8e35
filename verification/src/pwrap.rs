//! The line assembler: greedy paragraph wrapping over oracle breaks.
//!
//! Candidate break positions (character indices, ascending) are filtered by
//! the code-span scanner and by Markdown veto rules; per line the assembler
//! greedily extends the break to the farthest accepted candidate whose line
//! still fits the active width, then emits the line.  Lines ended by a
//! mandatory break keep their original terminator characters verbatim;
//! lines ended by an allowed break are trimmed of trailing whitespace and
//! get exactly one `'\n'`.
use vstd::prelude::*;

use crate::codespan_parser::in_text_at;
use crate::codespan_parser::lemma_scanner_stays_in_text;
use crate::codespan_parser::scan_prefix;
use crate::codespan_parser::MarkdownCodespanParser;
use crate::oracle::break_model;
use crate::oracle::breaks_wf;

verus! {

/// True for the characters that `trim_end` removes: the Unicode
/// `White_Space` code points.
pub open spec fn is_trimmable(c: char) -> bool {
    let u = c as u32;
    ||| u == 0x09
    ||| u == 0x0A
    ||| u == 0x0B
    ||| u == 0x0C
    ||| u == 0x0D
    ||| u == 0x20
    ||| u == 0x85
    ||| u == 0xA0
    ||| u == 0x1680
    ||| (0x2000 <= u && u <= 0x200A)
    ||| u == 0x2028
    ||| u == 0x2029
    ||| u == 0x202F
    ||| u == 0x205F
    ||| u == 0x3000
}

/// `t` with every trailing whitespace character removed.
pub open spec fn trim_end_spec(t: Seq<char>) -> Seq<char>
    decreases t.len(),
{
    if t.len() > 0 && is_trimmable(t.last()) {
        trim_end_spec(t.drop_last())
    } else {
        t
    }
}

/// The Markdown veto rules for an allowed break at position `p`: never
/// break right after a hyphen, at an image marker (after `!`, before `[`),
/// or at a link boundary (after `]`, before `(` or `[`).
pub open spec fn vetoed_at(s: Seq<char>, p: int) -> bool {
    1 <= p < s.len() && {
        let prev = s[p - 1];
        ||| prev == '-'
        ||| (prev == '!' && s[p] == '[')
        ||| (prev == ']' && (s[p] == '(' || s[p] == '['))
    }
}

/// Whether a break at position `p` is accepted.  A break must not lie
/// inside a code span (checked only when `scan` is set, which is the
/// assembler's normal mode), and an allowed break must not be vetoed.
pub open spec fn break_accepted(s: Seq<char>, p: int, mandatory: bool, scan: bool) -> bool {
    &&& (scan ==> in_text_at(s, p))
    &&& (mandatory || !vetoed_at(s, p))
}

/// Index of the first accepted candidate at or after `j`, if any.
pub open spec fn first_accepted(s: Seq<char>, bs: Seq<(int, bool)>, j: int, scan: bool) -> Option<
    int,
>
    decreases bs.len() - j,
{
    if j < 0 || j >= bs.len() {
        None
    } else if break_accepted(s, bs[j].0, bs[j].1, scan) {
        Some(j)
    } else {
        first_accepted(s, bs, j + 1, scan)
    }
}

/// Greedy extension of a chosen allowed break.  `anchor` is the best
/// candidate so far; candidates from `m` on are probed in order.  A
/// rejected candidate is skipped; an accepted one that no longer fits the
/// width ends the search; a fitting mandatory one terminates the line
/// there; a fitting allowed one becomes the new anchor.
pub open spec fn extend_scan(
    s: Seq<char>,
    bs: Seq<(int, bool)>,
    active: int,
    last_i: int,
    anchor: int,
    m: int,
    scan: bool,
) -> int
    decreases bs.len() - m,
{
    if m < 0 || m >= bs.len() {
        anchor
    } else if !break_accepted(s, bs[m].0, bs[m].1, scan) {
        extend_scan(s, bs, active, last_i, anchor, m + 1, scan)
    } else if !(bs[m].0 - last_i - 1 <= active) {
        anchor
    } else if bs[m].1 {
        m
    } else {
        extend_scan(s, bs, active, last_i, m, m + 1, scan)
    }
}

/// The break chosen for the current line: the first accepted candidate,
/// taken as is when mandatory and greedily extended when allowed.  The
/// first accepted candidate is chosen even when it exceeds the width, which
/// guarantees forward progress.
pub open spec fn chosen_break(
    s: Seq<char>,
    bs: Seq<(int, bool)>,
    active: int,
    last_i: int,
    j: int,
    scan: bool,
) -> Option<int> {
    match first_accepted(s, bs, j, scan) {
        None => None,
        Some(k1) => if bs[k1].1 {
            Some(k1)
        } else {
            Some(extend_scan(s, bs, active, last_i, k1, k1 + 1, scan))
        },
    }
}

/// One emitted line: the characters from `a` up to the break at `p`,
/// verbatim for a mandatory break, trimmed plus one `'\n'` for an allowed
/// one.
pub open spec fn line_piece(s: Seq<char>, a: int, p: int, mandatory: bool) -> Seq<char> {
    if mandatory {
        s.subrange(a, p)
    } else {
        trim_end_spec(s.subrange(a, p)) + seq!['\n']
    }
}

/// First accepted candidates lie in `[j, bs.len())` and are accepted.
pub proof fn lemma_first_accepted_bounds(s: Seq<char>, bs: Seq<(int, bool)>, j: int, scan: bool)
    ensures
        first_accepted(s, bs, j, scan) matches Some(k) ==> j <= k < bs.len() && break_accepted(
            s,
            bs[k].0,
            bs[k].1,
            scan,
        ),
    decreases bs.len() - j,
{
    if 0 <= j < bs.len() && !break_accepted(s, bs[j].0, bs[j].1, scan) {
        lemma_first_accepted_bounds(s, bs, j + 1, scan);
    }
}

/// Greedy extension stays within `[anchor, bs.len())` and lands on an
/// accepted candidate.
pub proof fn lemma_extend_scan_bounds(
    s: Seq<char>,
    bs: Seq<(int, bool)>,
    active: int,
    last_i: int,
    anchor: int,
    m: int,
    scan: bool,
)
    requires
        0 <= anchor < bs.len(),
        anchor < m,
        break_accepted(s, bs[anchor as int].0, bs[anchor as int].1, scan),
    ensures
        anchor <= extend_scan(s, bs, active, last_i, anchor, m, scan) < bs.len(),
        break_accepted(
            s,
            bs[extend_scan(s, bs, active, last_i, anchor, m, scan)].0,
            bs[extend_scan(s, bs, active, last_i, anchor, m, scan)].1,
            scan,
        ),
    decreases bs.len() - m,
{
    if m < 0 || m >= bs.len() {
    } else if !break_accepted(s, bs[m].0, bs[m].1, scan) {
        lemma_extend_scan_bounds(s, bs, active, last_i, anchor, m + 1, scan);
    } else if !(bs[m].0 - last_i - 1 <= active) {
    } else if bs[m].1 {
    } else {
        lemma_extend_scan_bounds(s, bs, active, last_i, m, m + 1, scan);
    }
}

/// The chosen break lies in `[j, bs.len())` and is accepted.
pub proof fn lemma_chosen_break_bounds(
    s: Seq<char>,
    bs: Seq<(int, bool)>,
    active: int,
    last_i: int,
    j: int,
    scan: bool,
)
    ensures
        chosen_break(s, bs, active, last_i, j, scan) matches Some(k) ==> j <= k < bs.len()
            && break_accepted(s, bs[k].0, bs[k].1, scan),
{
    lemma_first_accepted_bounds(s, bs, j, scan);
    match first_accepted(s, bs, j, scan) {
        None => {},
        Some(k1) => {
            if !bs[k1].1 {
                lemma_extend_scan_bounds(s, bs, active, last_i, k1, k1 + 1, scan);
            }
        },
    }
}

/// The wrapped tail of the text: all lines from `line_start` on, with
/// candidates from `j` on.  The first line is measured against `flw`,
/// every later one against `width`; when no accepted candidate is left, or
/// the chosen break sits at the end of the text, the rest of the text is
/// emitted verbatim as the final line.
pub open spec fn wrap_from(
    s: Seq<char>,
    bs: Seq<(int, bool)>,
    width: int,
    flw: int,
    line_start: int,
    j: int,
    first: bool,
    scan: bool,
) -> Seq<char>
    decreases bs.len() - j,
    via wrap_from_dec
{
    let n = s.len() as int;
    let last_i: int = if line_start == 0 {
        0
    } else {
        line_start - 1
    };
    let active: int = if first {
        flw
    } else {
        width
    };
    match chosen_break(s, bs, active, last_i, j, scan) {
        None => s.subrange(line_start, n),
        Some(k) => {
            let p = bs[k].0;
            if p >= n {
                s.subrange(line_start, n)
            } else {
                line_piece(s, line_start, p, bs[k].1) + wrap_from(
                    s,
                    bs,
                    width,
                    flw,
                    p,
                    k + 1,
                    false,
                    scan,
                )
            }
        },
    }
}

#[via_fn]
proof fn wrap_from_dec(
    s: Seq<char>,
    bs: Seq<(int, bool)>,
    width: int,
    flw: int,
    line_start: int,
    j: int,
    first: bool,
    scan: bool,
) {
    let last_i: int = if line_start == 0 {
        0
    } else {
        line_start - 1
    };
    let active: int = if first {
        flw
    } else {
        width
    };
    lemma_chosen_break_bounds(s, bs, active, last_i, j, scan);
}

/// The breaks the assembler takes, in order: the position and the
/// mandatory flag of every chosen break that ends a line strictly inside
/// the text.  These are exactly the positions at which [`wrap_from`] cuts
/// the text into lines.
pub open spec fn taken_breaks(
    s: Seq<char>,
    bs: Seq<(int, bool)>,
    width: int,
    flw: int,
    line_start: int,
    j: int,
    first: bool,
    scan: bool,
) -> Seq<(int, bool)>
    decreases bs.len() - j,
    via taken_breaks_dec
{
    let n = s.len() as int;
    let last_i: int = if line_start == 0 {
        0
    } else {
        line_start - 1
    };
    let active: int = if first {
        flw
    } else {
        width
    };
    match chosen_break(s, bs, active, last_i, j, scan) {
        None => seq![],
        Some(k) => {
            let p = bs[k].0;
            if p >= n {
                seq![]
            } else {
                seq![(p, bs[k].1)] + taken_breaks(s, bs, width, flw, p, k + 1, false, scan)
            }
        },
    }
}

#[via_fn]
proof fn taken_breaks_dec(
    s: Seq<char>,
    bs: Seq<(int, bool)>,
    width: int,
    flw: int,
    line_start: int,
    j: int,
    first: bool,
    scan: bool,
) {
    let last_i: int = if line_start == 0 {
        0
    } else {
        line_start - 1
    };
    let active: int = if first {
        flw
    } else {
        width
    };
    lemma_chosen_break_bounds(s, bs, active, last_i, j, scan);
}

/// Every break the assembler takes is accepted.  In particular no output
/// line ends inside a code span — a code span is never split across two
/// output lines — and no taken allowed break immediately follows `-`,
/// precedes `[` after `!`, or precedes `(` or `[` after `]`.
pub proof fn lemma_taken_breaks_accepted(
    s: Seq<char>,
    bs: Seq<(int, bool)>,
    width: int,
    flw: int,
    line_start: int,
    j: int,
    first: bool,
)
    ensures
        forall|t: int|
            0 <= t < taken_breaks(s, bs, width, flw, line_start, j, first, true).len()
                ==> in_text_at(
                s,
                (#[trigger] taken_breaks(s, bs, width, flw, line_start, j, first, true)[t]).0,
            ),
        forall|t: int|
            0 <= t < taken_breaks(s, bs, width, flw, line_start, j, first, true).len() ==> (!(
            #[trigger] taken_breaks(s, bs, width, flw, line_start, j, first, true)[t]).1
                ==> !vetoed_at(s, taken_breaks(s, bs, width, flw, line_start, j, first, true)[t].0)),
    decreases bs.len() - j,
{
    let n = s.len() as int;
    let last_i: int = if line_start == 0 {
        0
    } else {
        line_start - 1
    };
    let active: int = if first {
        flw
    } else {
        width
    };
    lemma_chosen_break_bounds(s, bs, active, last_i, j, true);
    match chosen_break(s, bs, active, last_i, j, true) {
        None => {},
        Some(k) => {
            let p = bs[k].0;
            if p < n {
                lemma_taken_breaks_accepted(s, bs, width, flw, p, k + 1, false);
                let head = seq![(p, bs[k].1)];
                let tail = taken_breaks(s, bs, width, flw, p, k + 1, false, true);
                assert forall|t: int|
                    0 <= t < (head + tail).len() implies in_text_at(s, ((head + tail)[t]).0) && ((
                head + tail)[t].1 || !vetoed_at(s, (head + tail)[t].0)) by {
                    if t > 0 {
                        assert((head + tail)[t] == tail[t - 1]);
                    }
                }
            }
        },
    }
}

/// A whole paragraph, wrapped: the assembler run from the start of the
/// text with the scanner active.
pub open spec fn wrap_all(s: Seq<char>, bs: Seq<(int, bool)>, width: int, flw: int) -> Seq<char> {
    wrap_from(s, bs, width, flw, 0, 0, true, true)
}

/// The same greedy wrap with the code-span scanner switched off: breaks
/// are filtered by the veto rules alone.
pub open spec fn wrap_all_veto_only(
    s: Seq<char>,
    bs: Seq<(int, bool)>,
    width: int,
    flw: int,
) -> Seq<char> {
    wrap_from(s, bs, width, flw, 0, 0, true, false)
}

/// In a text without backticks, acceptance does not depend on the scanner.
proof fn lemma_no_backticks_accepted(s: Seq<char>, p: int, mandatory: bool)
    requires
        forall|t: int| 0 <= t < s.len() ==> s[t] != '`',
        0 <= p <= s.len(),
    ensures
        break_accepted(s, p, mandatory, true) == break_accepted(s, p, mandatory, false),
{
    lemma_scanner_stays_in_text(s, p);
}

/// In a text without backticks, the first accepted candidate does not
/// depend on the scanner.
proof fn lemma_no_backticks_first_accepted(s: Seq<char>, bs: Seq<(int, bool)>, j: int)
    requires
        forall|t: int| 0 <= t < s.len() ==> s[t] != '`',
        breaks_wf(s.len() as int, bs),
    ensures
        first_accepted(s, bs, j, true) == first_accepted(s, bs, j, false),
    decreases bs.len() - j,
{
    if 0 <= j < bs.len() {
        lemma_no_backticks_accepted(s, bs[j].0, bs[j].1);
        if !break_accepted(s, bs[j].0, bs[j].1, true) {
            lemma_no_backticks_first_accepted(s, bs, j + 1);
        }
    }
}

/// In a text without backticks, greedy extension does not depend on the
/// scanner.
proof fn lemma_no_backticks_extend_scan(
    s: Seq<char>,
    bs: Seq<(int, bool)>,
    active: int,
    last_i: int,
    anchor: int,
    m: int,
)
    requires
        forall|t: int| 0 <= t < s.len() ==> s[t] != '`',
        breaks_wf(s.len() as int, bs),
    ensures
        extend_scan(s, bs, active, last_i, anchor, m, true) == extend_scan(
            s,
            bs,
            active,
            last_i,
            anchor,
            m,
            false,
        ),
    decreases bs.len() - m,
{
    if 0 <= m < bs.len() {
        lemma_no_backticks_accepted(s, bs[m].0, bs[m].1);
        if !break_accepted(s, bs[m].0, bs[m].1, true) {
            lemma_no_backticks_extend_scan(s, bs, active, last_i, anchor, m + 1);
        } else if bs[m].0 - last_i - 1 <= active && !bs[m].1 {
            lemma_no_backticks_extend_scan(s, bs, active, last_i, m, m + 1);
        }
    }
}

/// In a text without backticks, the wrapped tail does not depend on the
/// scanner.
proof fn lemma_no_backticks_wrap_from(
    s: Seq<char>,
    bs: Seq<(int, bool)>,
    width: int,
    flw: int,
    line_start: int,
    j: int,
    first: bool,
)
    requires
        forall|t: int| 0 <= t < s.len() ==> s[t] != '`',
        breaks_wf(s.len() as int, bs),
    ensures
        wrap_from(s, bs, width, flw, line_start, j, first, true) == wrap_from(
            s,
            bs,
            width,
            flw,
            line_start,
            j,
            first,
            false,
        ),
    decreases bs.len() - j,
{
    let n = s.len() as int;
    let last_i: int = if line_start == 0 {
        0
    } else {
        line_start - 1
    };
    let active: int = if first {
        flw
    } else {
        width
    };
    lemma_no_backticks_first_accepted(s, bs, j);
    lemma_chosen_break_bounds(s, bs, active, last_i, j, true);
    match first_accepted(s, bs, j, true) {
        None => {},
        Some(k1) => {
            if !bs[k1].1 {
                lemma_no_backticks_extend_scan(s, bs, active, last_i, k1, k1 + 1);
            }
            let k = chosen_break(s, bs, active, last_i, j, true)->Some_0;
            assert(chosen_break(s, bs, active, last_i, j, false) == Some(k));
            if bs[k].0 < n {
                lemma_no_backticks_wrap_from(s, bs, width, flw, bs[k].0, k + 1, false);
            }
        },
    }
}

/// In a text with no code spans (no backtick character) the scanner never
/// rejects a break: every position is in ordinary text, and the wrapped
/// output equals the greedy wrap filtered by the punctuation veto rules
/// alone.
pub proof fn lemma_wrap_no_code_spans(s: Seq<char>, bs: Seq<(int, bool)>, width: int, flw: int)
    requires
        forall|t: int| 0 <= t < s.len() ==> s[t] != '`',
        breaks_wf(s.len() as int, bs),
    ensures
        forall|i: int| 0 <= i <= s.len() ==> in_text_at(s, i),
        wrap_all(s, bs, width, flw) == wrap_all_veto_only(s, bs, width, flw),
{
    assert forall|i: int| 0 <= i <= s.len() implies in_text_at(s, i) by {
        lemma_scanner_stays_in_text(s, i);
    }
    lemma_no_backticks_wrap_from(s, bs, width, flw, 0, 0, true);
}

/// A chosen break never lies inside a code span: the position of every
/// break the assembler takes is in ordinary text, so a closed code span is
/// never split across two output lines.
pub proof fn lemma_chosen_break_outside_code_span(
    s: Seq<char>,
    bs: Seq<(int, bool)>,
    active: int,
    last_i: int,
    j: int,
)
    ensures
        chosen_break(s, bs, active, last_i, j, true) matches Some(k) ==> in_text_at(s, bs[k].0),
{
    lemma_chosen_break_bounds(s, bs, active, last_i, j, true);
}

/// No chosen allowed break immediately follows `-`, precedes `[` after
/// `!`, or precedes `(` or `[` after `]`.
pub proof fn lemma_chosen_break_not_vetoed(
    s: Seq<char>,
    bs: Seq<(int, bool)>,
    active: int,
    last_i: int,
    j: int,
)
    ensures
        chosen_break(s, bs, active, last_i, j, true) matches Some(k) ==> ((!bs[k].1 && 1 <= bs[k].0
            < s.len()) ==> {
            let p = bs[k].0;
            &&& s[p - 1] != '-'
            &&& !(s[p - 1] == '!' && s[p] == '[')
            &&& !(s[p - 1] == ']' && (s[p] == '(' || s[p] == '['))
        }),
{
    lemma_chosen_break_bounds(s, bs, active, last_i, j, true);
}

/// No candidate from `j` on is accepted: the search comes back empty.
proof fn lemma_first_accepted_none(s: Seq<char>, bs: Seq<(int, bool)>, j: int, scan: bool)
    requires
        0 <= j,
        forall|k: int| j <= k < bs.len() ==> !break_accepted(s, bs[k].0, bs[k].1, scan),
    ensures
        first_accepted(s, bs, j, scan) is None,
    decreases bs.len() - j,
{
    if j < bs.len() {
        lemma_first_accepted_none(s, bs, j + 1, scan);
    }
}

/// An unterminated code span suppresses breaking to the end of the text:
/// once no position at or after `a` is in ordinary text and all remaining
/// candidates lie at or after `a`, the rest of the text is emitted
/// verbatim as a single final line, however long it is.
pub proof fn lemma_unbreakable_tail(
    s: Seq<char>,
    bs: Seq<(int, bool)>,
    width: int,
    flw: int,
    line_start: int,
    j: int,
    first: bool,
    a: int,
)
    requires
        0 <= j,
        breaks_wf(s.len() as int, bs),
        forall|i: int| a <= i <= s.len() ==> !in_text_at(s, i),
        forall|k: int| j <= k < bs.len() ==> a <= #[trigger] bs[k].0,
    ensures
        wrap_from(s, bs, width, flw, line_start, j, first, true) == s.subrange(
            line_start,
            s.len() as int,
        ),
{
    assert forall|k: int| j <= k < bs.len() implies !break_accepted(s, bs[k].0, bs[k].1, true) by {
        assert(a <= bs[k].0 <= s.len());
    }
    lemma_first_accepted_none(s, bs, j, true);
}

/// Trimming removes exactly the trailing whitespace: the result is the
/// prefix of `t` left after dropping every trailing whitespace character,
/// and it does not end in whitespace.
pub proof fn lemma_trim_end_spec(t: Seq<char>)
    ensures
        trim_end_spec(t).len() <= t.len(),
        trim_end_spec(t) == t.subrange(0, trim_end_spec(t).len() as int),
        forall|i: int| trim_end_spec(t).len() <= i < t.len() ==> is_trimmable(t[i]),
        trim_end_spec(t).len() > 0 ==> !is_trimmable(t[trim_end_spec(t).len() - 1]),
    decreases t.len(),
{
    if t.len() > 0 && is_trimmable(t.last()) {
        lemma_trim_end_spec(t.drop_last());
        assert forall|i: int| 0 <= i < t.len() - 1 implies t.drop_last()[i] == t[i] by {}
        assert(trim_end_spec(t) == t.subrange(0, trim_end_spec(t).len() as int)) by {
            assert(t.drop_last().subrange(0, trim_end_spec(t).len() as int) =~= t.subrange(
                0,
                trim_end_spec(t).len() as int,
            ));
        }
    } else {
        assert(trim_end_spec(t) == t);
        assert(t.subrange(0, t.len() as int) =~= t);
    }
}

/// Terminator handling of an emitted line.  A mandatory break reproduces
/// the original characters verbatim, its terminator bytes included; an
/// allowed break strips trailing whitespace and inserts exactly one
/// `'\n'`, which ends the emitted line.
pub proof fn lemma_line_terminators(s: Seq<char>, a: int, p: int)
    requires
        0 <= a <= p <= s.len(),
    ensures
        line_piece(s, a, p, true) == s.subrange(a, p),
        line_piece(s, a, p, false) == trim_end_spec(s.subrange(a, p)) + seq!['\n'],
        line_piece(s, a, p, false).last() == '\n',
        trim_end_spec(s.subrange(a, p)) == s.subrange(a, a + trim_end_spec(s.subrange(a, p)).len()),
        forall|i: int|
            a + trim_end_spec(s.subrange(a, p)).len() <= i < p ==> is_trimmable(#[trigger] s[i]),
        trim_end_spec(s.subrange(a, p)).len() > 0 ==> !is_trimmable(
            s[a + trim_end_spec(s.subrange(a, p)).len() - 1],
        ),
{
    let t = s.subrange(a, p);
    lemma_trim_end_spec(t);
    let m = trim_end_spec(t).len() as int;
    assert(t.subrange(0, m) =~= s.subrange(a, a + m));
    assert forall|i: int| a + m <= i < p implies is_trimmable(s[i]) by {
        assert(t[i - a] == s[i]);
    }
    if m > 0 {
        assert(t[m - 1] == s[a + m - 1]);
    }
}

/// Walking `extend_scan` to the first accepted candidate at or after `m`
/// only skips rejected candidates: the result is unchanged, and when no
/// accepted candidate is left the anchor wins.
proof fn lemma_extend_scan_to_first(
    s: Seq<char>,
    bs: Seq<(int, bool)>,
    active: int,
    last_i: int,
    anchor: int,
    m: int,
    scan: bool,
)
    requires
        0 <= m,
    ensures
        match first_accepted(s, bs, m, scan) {
            None => extend_scan(s, bs, active, last_i, anchor, m, scan) == anchor,
            Some(k2) => m <= k2 && extend_scan(s, bs, active, last_i, anchor, m, scan)
                == extend_scan(s, bs, active, last_i, anchor, k2, scan),
        },
    decreases bs.len() - m,
{
    if m >= bs.len() {
    } else if break_accepted(s, bs[m].0, bs[m].1, scan) {
    } else {
        lemma_extend_scan_to_first(s, bs, active, last_i, anchor, m + 1, scan);
    }
}

/// True exactly when `trim_end` removes `c`: executable form of
/// [`is_trimmable`].
pub fn is_space_char(c: char) -> (r: bool)
    ensures
        r == is_trimmable(c),
{
    let u = c as u32;
    u == 0x09 || u == 0x0A || u == 0x0B || u == 0x0C || u == 0x0D || u == 0x20 || u == 0x85 || u
        == 0xA0 || u == 0x1680 || (0x2000 <= u && u <= 0x200A) || u == 0x2028 || u == 0x2029 || u
        == 0x202F || u == 0x205F || u == 0x3000
}

/// Drive the scanner forward to character position `p`.
fn advance_scanner(chars: &Vec<char>, scanner: &mut MarkdownCodespanParser, p: usize)
    requires
        old(scanner).inv(),
        old(scanner).abs() == scan_prefix(chars@, old(scanner).characters_i as int),
        old(scanner).characters_i <= p,
        p <= chars@.len(),
    ensures
        final(scanner).inv(),
        final(scanner).characters_i == p,
        final(scanner).abs() == scan_prefix(chars@, p as int),
        final(scanner).state == old(scanner).state,
{
    while scanner.characters_i < p
        invariant
            scanner.inv(),
            scanner.abs() == scan_prefix(chars@, scanner.characters_i as int),
            scanner.characters_i <= p,
            p <= chars@.len(),
            scanner.state == old(scanner).state,
        decreases p - scanner.characters_i,
    {
        let c = chars[scanner.characters_i];
        scanner.parse_character(c);
    }
}

/// Decide a single candidate: advance the scanner to the break position
/// and apply the code-span and veto rules.
fn break_ok(chars: &Vec<char>, scanner: &mut MarkdownCodespanParser, p: usize, mandatory: bool) -> (r:
    bool)
    requires
        old(scanner).inv(),
        old(scanner).abs() == scan_prefix(chars@, old(scanner).characters_i as int),
        old(scanner).characters_i <= p,
        p <= chars@.len(),
    ensures
        final(scanner).inv(),
        final(scanner).characters_i == p,
        final(scanner).abs() == scan_prefix(chars@, p as int),
        final(scanner).state == old(scanner).state,
        r == break_accepted(chars@, p as int, mandatory, true),
{
    advance_scanner(chars, scanner, p);
    let mut ok = scanner.could_wrap();
    if ok && !mandatory && p >= 1 && p < chars.len() {
        let prev = chars[p - 1];
        let cur = chars[p];
        if prev == '-' {
            ok = false;
        } else if prev == '!' && cur == '[' {
            ok = false;
        } else if prev == ']' && (cur == '(' || cur == '[') {
            ok = false;
        }
    }
    ok
}

/// Find the first accepted candidate at or after `j`, advancing the
/// scanner to each probed position in turn.
fn find_first_accepted(
    chars: &Vec<char>,
    breaks: &Vec<(usize, bool)>,
    scanner: &mut MarkdownCodespanParser,
    j: usize,
) -> (r: Option<usize>)
    requires
        breaks_wf(chars@.len() as int, break_model(breaks@)),
        old(scanner).inv(),
        old(scanner).abs() == scan_prefix(chars@, old(scanner).characters_i as int),
        old(scanner).characters_i <= chars@.len(),
        j <= breaks@.len(),
        j < breaks@.len() ==> old(scanner).characters_i <= breaks@[j as int].0,
    ensures
        final(scanner).inv(),
        final(scanner).abs() == scan_prefix(chars@, final(scanner).characters_i as int),
        final(scanner).characters_i <= chars@.len(),
        final(scanner).state == old(scanner).state,
        match r {
            Some(k) => {
                &&& first_accepted(chars@, break_model(breaks@), j as int, true) == Some(k as int)
                &&& j <= k < breaks@.len()
                &&& break_accepted(chars@, breaks@[k as int].0 as int, breaks@[k as int].1, true)
                &&& final(scanner).characters_i == breaks@[k as int].0
            },
            None => first_accepted(chars@, break_model(breaks@), j as int, true) is None,
        },
{
    let ghost s = chars@;
    let ghost bsm = break_model(breaks@);
    let mut k = j;
    while k < breaks.len()
        invariant
            s == chars@,
            bsm == break_model(breaks@),
            breaks_wf(s.len() as int, bsm),
            j <= k <= breaks@.len(),
            first_accepted(s, bsm, j as int, true) == first_accepted(s, bsm, k as int, true),
            scanner.inv(),
            scanner.abs() == scan_prefix(s, scanner.characters_i as int),
            scanner.characters_i <= s.len(),
            k < breaks@.len() ==> scanner.characters_i <= breaks@[k as int].0,
            scanner.state == old(scanner).state,
        decreases breaks@.len() - k,
    {
        let p = breaks[k].0;
        let mand = breaks[k].1;
        let ok = break_ok(chars, scanner, p, mand);
        if ok {
            return Some(k);
        }
        k = k + 1;
        proof {
            if k < breaks@.len() {
                assert(bsm[k as int - 1].0 < bsm[k as int].0);
            }
        }
    }
    None
}

/// Append the characters `chars[a..b]` to `out`.
fn push_range(out: &mut Vec<char>, chars: &Vec<char>, a: usize, b: usize)
    requires
        a <= b,
        b <= chars@.len(),
    ensures
        final(out)@ == old(out)@ + chars@.subrange(a as int, b as int),
{
    let mut t = a;
    while t < b
        invariant
            a <= t <= b,
            b <= chars@.len(),
            out@ == old(out)@ + chars@.subrange(a as int, t as int),
        decreases b - t,
    {
        out.push(chars[t]);
        t = t + 1;
        proof {
            assert(chars@.subrange(a as int, t as int) =~= chars@.subrange(a as int, t as int - 1)
                .push(chars@[t as int - 1]));
        }
    }
}

/// Append the line `chars[a..p]`, trimmed of trailing whitespace and ended
/// with exactly one `'\n'`, to `out`.
fn push_trimmed_line(out: &mut Vec<char>, chars: &Vec<char>, a: usize, p: usize)
    requires
        a <= p,
        p <= chars@.len(),
    ensures
        final(out)@ == old(out)@ + line_piece(chars@, a as int, p as int, false),
{
    let mut e = p;
    while e > a && is_space_char(chars[e - 1])
        invariant
            a <= e <= p,
            p <= chars@.len(),
            trim_end_spec(chars@.subrange(a as int, p as int)) == trim_end_spec(
                chars@.subrange(a as int, e as int),
            ),
        decreases e,
    {
        proof {
            let t = chars@.subrange(a as int, e as int);
            assert(t.last() == chars@[e as int - 1]);
            assert(t.drop_last() =~= chars@.subrange(a as int, e as int - 1));
        }
        e = e - 1;
    }
    proof {
        let t = chars@.subrange(a as int, e as int);
        if e > a {
            assert(t.last() == chars@[e as int - 1]);
        }
        assert(trim_end_spec(t) == t);
    }
    push_range(out, chars, a, e);
    out.push('\n');
    proof {
        assert(old(out)@ + line_piece(chars@, a as int, p as int, false) =~= (old(out)@
            + chars@.subrange(a as int, e as int)).push('\n'));
    }
}

/// Wrap a paragraph given as a character table and a break list over
/// character indices: the verified core of the library.  Returns the
/// concatenation of all emitted lines.
pub fn wrap_core(
    chars: &Vec<char>,
    breaks: &Vec<(usize, bool)>,
    width: usize,
    first_line_width: usize,
) -> (out: Vec<char>)
    requires
        breaks_wf(chars@.len() as int, break_model(breaks@)),
    ensures
        out@ == wrap_all(chars@, break_model(breaks@), width as int, first_line_width as int),
{
    let ghost s = chars@;
    let ghost bsm = break_model(breaks@);
    let ghost gw = width as int;
    let ghost gf = first_line_width as int;
    let n = chars.len();
    let bn = breaks.len();
    let mut out: Vec<char> = Vec::new();
    let mut scanner = MarkdownCodespanParser::new();
    let mut j: usize = 0;
    let mut line_start: usize = 0;
    let mut first: bool = true;
    loop
        invariant
            s == chars@,
            bsm == break_model(breaks@),
            n == s.len(),
            gw == width as int,
            gf == first_line_width as int,
            breaks_wf(n as int, bsm),
            bn == breaks@.len(),
            j <= breaks@.len(),
            line_start <= n,
            first ==> j == 0 && line_start == 0,
            !first ==> 1 <= j && breaks@[j as int - 1].0 == line_start,
            scanner.inv(),
            scanner.abs() == scan_prefix(s, scanner.characters_i as int),
            scanner.characters_i == line_start,
            out@ + wrap_from(s, bsm, gw, gf, line_start as int, j as int, first, true) == wrap_all(
                s,
                bsm,
                gw,
                gf,
            ),
        decreases breaks@.len() - j,
    {
        let ghost last_g: int = if line_start == 0 {
            0int
        } else {
            line_start as int - 1
        };
        let ghost active_g: int = if first {
            gf
        } else {
            gw
        };
        let last_e: usize = if line_start == 0 {
            0
        } else {
            line_start - 1
        };
        let active_e: usize = if first {
            first_line_width
        } else {
            width
        };
        proof {
            if j < breaks@.len() && !first {
                assert(bsm[j as int - 1] == (breaks@[j as int - 1].0 as int, breaks@[j as int
                    - 1].1));
                assert(bsm[j as int] == (breaks@[j as int].0 as int, breaks@[j as int].1));
                assert(bsm[j as int - 1].0 < bsm[j as int].0);
            }
        }
        let r1 = find_first_accepted(chars, breaks, &mut scanner, j);
        match r1 {
            None => {
                proof {
                    assert(chosen_break(s, bsm, active_g, last_g, j as int, true) is None);
                    assert(wrap_from(s, bsm, gw, gf, line_start as int, j as int, first, true)
                        == s.subrange(line_start as int, n as int));
                }
                push_range(&mut out, chars, line_start, n);
                proof {
                    assert(out@ =~= wrap_all(s, bsm, gw, gf));
                }
                return out;
            },
            Some(k1) => {
                let mut kc = k1;
                proof {
                    if !first {
                        assert(bsm[j as int - 1] == (breaks@[j as int - 1].0 as int, breaks@[j
                            as int - 1].1));
                        assert(bsm[k1 as int] == (breaks@[k1 as int].0 as int, breaks@[k1 as int].1));
                        assert(bsm[j as int - 1].0 < bsm[k1 as int].0);
                    }
                }
                if !breaks[k1].1 {
                    loop
                        invariant_except_break
                            !breaks@[kc as int].1,
                            extend_scan(s, bsm, active_g, last_g, k1 as int, k1 as int + 1, true)
                                == extend_scan(
                                s,
                                bsm,
                                active_g,
                                last_g,
                                kc as int,
                                kc as int + 1,
                                true,
                            ),
                        invariant
                            s == chars@,
                            bsm == break_model(breaks@),
                            n == s.len(),
                            breaks_wf(n as int, bsm),
                            bn == breaks@.len(),
                            j <= k1 <= kc < breaks@.len(),
                            line_start <= n,
                            line_start <= breaks@[kc as int].0,
                            last_g <= line_start as int,
                            last_g == last_e as int,
                            active_g == active_e as int,
                            break_accepted(s, bsm[kc as int].0, bsm[kc as int].1, true),
                            scanner.inv(),
                            scanner.abs() == scan_prefix(s, scanner.characters_i as int),
                            scanner.characters_i == breaks@[kc as int].0,
                        ensures
                            j <= k1 <= kc < breaks@.len(),
                            extend_scan(s, bsm, active_g, last_g, k1 as int, k1 as int + 1, true)
                                == kc as int,
                            break_accepted(s, bsm[kc as int].0, bsm[kc as int].1, true),
                            scanner.inv(),
                            scanner.abs() == scan_prefix(s, scanner.characters_i as int),
                            scanner.characters_i == breaks@[kc as int].0,
                            line_start <= breaks@[kc as int].0,
                        decreases breaks@.len() - kc,
                    {
                        scanner.backup_state();
                        let r2 = find_first_accepted(chars, breaks, &mut scanner, kc + 1);
                        proof {
                            lemma_extend_scan_to_first(
                                s,
                                bsm,
                                active_g,
                                last_g,
                                kc as int,
                                kc as int + 1,
                                true,
                            );
                        }
                        match r2 {
                            None => {
                                scanner.restore_state();
                                break ;
                            },
                            Some(k2) => {
                                let p2 = breaks[k2].0;
                                proof {
                                    assert(bsm[kc as int].0 < bsm[k2 as int].0);
                                }
                                if p2 - last_e - 1 <= active_e {
                                    if breaks[k2].1 {
                                        kc = k2;
                                        break ;
                                    } else {
                                        kc = k2;
                                    }
                                } else {
                                    scanner.restore_state();
                                    break ;
                                }
                            },
                        }
                    }
                }
                proof {
                    assert(chosen_break(s, bsm, active_g, last_g, j as int, true) == Some(
                        kc as int,
                    ));
                }
                let p = breaks[kc].0;
                let mand = breaks[kc].1;
                proof {
                    assert(wrap_from(s, bsm, gw, gf, line_start as int, j as int, first, true) == (
                    if p as int >= n as int {
                        s.subrange(line_start as int, n as int)
                    } else {
                        line_piece(s, line_start as int, p as int, mand) + wrap_from(
                            s,
                            bsm,
                            gw,
                            gf,
                            p as int,
                            kc as int + 1,
                            false,
                            true,
                        )
                    }));
                }
                if p >= n {
                    push_range(&mut out, chars, line_start, n);
                    proof {
                        assert(out@ =~= wrap_all(s, bsm, gw, gf));
                    }
                    return out;
                }
                if mand {
                    push_range(&mut out, chars, line_start, p);
                } else {
                    push_trimmed_line(&mut out, chars, line_start, p);
                }
                proof {
                    assert(out@ + wrap_from(s, bsm, gw, gf, p as int, kc as int + 1, false, true)
                        =~= wrap_all(s, bsm, gw, gf));
                }
                j = kc + 1;
                line_start = p;
                first = false;
            },
        }
    }
}

} // verus!
