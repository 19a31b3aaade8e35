//! Character-driven scanner that tracks whether the current position of a
//! Markdown paragraph lies inside a backtick code span.
//!
//! A code span opens with a run of backticks and closes only with a run of
//! exactly the same length (CommonMark's matching rule); a shorter or longer
//! closing run is a false alarm and the span stays open.  An unterminated
//! span keeps the scanner away from `InsideText` through the end of the
//! text, which suppresses all further wrapping there.
use vstd::prelude::*;

verus! {

/// The scanner's position relative to a code span.
#[derive(Clone, Copy, Debug)]
pub enum SpanContext {
    /// Ordinary paragraph text: breaking is permitted here.
    InsideText,
    /// Inside the run of backticks that opens a code span.
    EnteringCodespan,
    /// Inside the content of a code span.
    InsideCodespan,
    /// Inside a run of backticks that may close the current code span.
    ExitingCodespan,
}

/// Mathematical state of the scanner: the context together with the length
/// of the opening backtick run and of the most recent candidate closing run.
pub struct ScanState {
    pub context: SpanContext,
    pub open_run: int,
    pub close_run: int,
}

/// The scanner's state before any character has been consumed.
pub open spec fn scan_init() -> ScanState {
    ScanState { context: SpanContext::InsideText, open_run: 0, close_run: 0 }
}

/// One transition of the scanner on a single character.
pub open spec fn scan_step(st: ScanState, c: char) -> ScanState {
    match st.context {
        SpanContext::InsideText => if c == '`' {
            ScanState { context: SpanContext::EnteringCodespan, open_run: 1, close_run: st.close_run }
        } else {
            st
        },
        SpanContext::EnteringCodespan => if c == '`' {
            ScanState { context: SpanContext::EnteringCodespan, open_run: st.open_run + 1, close_run: st.close_run }
        } else {
            ScanState { context: SpanContext::InsideCodespan, open_run: st.open_run, close_run: st.close_run }
        },
        SpanContext::InsideCodespan => if c == '`' {
            ScanState { context: SpanContext::ExitingCodespan, open_run: st.open_run, close_run: st.close_run + 1 }
        } else {
            st
        },
        SpanContext::ExitingCodespan => if c == '`' {
            ScanState { context: SpanContext::ExitingCodespan, open_run: st.open_run, close_run: st.close_run + 1 }
        } else {
            if st.close_run == st.open_run {
                ScanState { context: SpanContext::InsideText, open_run: 0, close_run: 0 }
            } else {
                ScanState { context: SpanContext::InsideCodespan, open_run: st.open_run, close_run: 0 }
            }
        },
    }
}

/// The scanner's state after consuming the first `i` characters of `s`.
pub open spec fn scan_prefix(s: Seq<char>, i: int) -> ScanState
    decreases i,
{
    if i <= 0 {
        scan_init()
    } else {
        scan_step(scan_prefix(s, i - 1), s[i - 1])
    }
}

/// True when position `i` of `s` (a gap between characters, measured in
/// characters consumed) lies in ordinary text, where breaking is permitted.
pub open spec fn in_text_at(s: Seq<char>, i: int) -> bool {
    scan_prefix(s, i).context == SpanContext::InsideText
}

/// In a text without backticks there is no code span: the scanner stays
/// in ordinary text at every position.
pub proof fn lemma_scanner_stays_in_text(s: Seq<char>, i: int)
    requires
        forall|t: int| 0 <= t < s.len() ==> s[t] != '`',
        0 <= i <= s.len(),
    ensures
        in_text_at(s, i),
    decreases i,
{
    if i > 0 {
        lemma_scanner_stays_in_text(s, i - 1);
    }
}

/// The executable scanner.  `context` is the current state, `characters_i`
/// counts the characters consumed so far, and `state` holds the snapshot
/// written by [`MarkdownCodespanParser::backup_state`].
pub struct MarkdownCodespanParser {
    pub context: SpanContext,
    pub backticks_at_start: usize,
    pub backticks_inside: usize,
    pub characters_i: usize,
    pub state: (SpanContext, usize, usize, usize),
}

impl MarkdownCodespanParser {
    /// The mathematical state that the scanner's fields represent.
    pub open spec fn abs(self) -> ScanState {
        ScanState {
            context: self.context,
            open_run: self.backticks_at_start as int,
            close_run: self.backticks_inside as int,
        }
    }

    /// The mathematical state and cursor held in the snapshot.
    pub open spec fn saved_abs(self) -> (ScanState, int) {
        (
            ScanState {
                context: self.state.0,
                open_run: self.state.1 as int,
                close_run: self.state.2 as int,
            },
            self.state.3 as int,
        )
    }

    /// Backtick-run counters never exceed the number of characters consumed,
    /// in the live fields as well as in the snapshot.
    pub open spec fn inv(self) -> bool {
        &&& self.backticks_at_start <= self.characters_i
        &&& self.backticks_inside <= self.characters_i
        &&& self.state.1 <= self.state.3
        &&& self.state.2 <= self.state.3
    }

    /// A fresh scanner, before any character, with an initial snapshot.
    pub fn new() -> (r: Self)
        ensures
            r.abs() == scan_init(),
            r.characters_i == 0,
            r.saved_abs() == (scan_init(), 0int),
            r.inv(),
    {
        MarkdownCodespanParser {
            context: SpanContext::InsideText,
            backticks_at_start: 0,
            backticks_inside: 0,
            characters_i: 0,
            state: (SpanContext::InsideText, 0, 0, 0),
        }
    }

    /// Consume one character, taking one `scan_step` and advancing the
    /// cursor.  The snapshot is untouched.
    pub fn parse_character(&mut self, character: char)
        requires
            old(self).inv(),
            old(self).characters_i < usize::MAX,
        ensures
            final(self).inv(),
            final(self).abs() == scan_step(old(self).abs(), character),
            final(self).characters_i == old(self).characters_i + 1,
            final(self).state == old(self).state,
    {
        match self.context {
            SpanContext::InsideText => {
                if character == '`' {
                    self.context = SpanContext::EnteringCodespan;
                    self.backticks_at_start = 1;
                }
            },
            SpanContext::EnteringCodespan => {
                if character == '`' {
                    self.backticks_at_start = self.backticks_at_start + 1;
                } else {
                    self.context = SpanContext::InsideCodespan;
                }
            },
            SpanContext::InsideCodespan => {
                if character == '`' {
                    self.context = SpanContext::ExitingCodespan;
                    self.backticks_inside = self.backticks_inside + 1;
                }
            },
            SpanContext::ExitingCodespan => {
                if character == '`' {
                    self.backticks_inside = self.backticks_inside + 1;
                } else {
                    if self.backticks_inside == self.backticks_at_start {
                        self.context = SpanContext::InsideText;
                        self.backticks_at_start = 0;
                        self.backticks_inside = 0;
                    } else {
                        self.context = SpanContext::InsideCodespan;
                        self.backticks_inside = 0;
                    }
                }
            },
        }
        self.characters_i = self.characters_i + 1;
    }

    /// True exactly when the current position lies in ordinary text.
    pub fn could_wrap(&self) -> (r: bool)
        ensures
            r == (self.abs().context == SpanContext::InsideText),
    {
        matches!(self.context, SpanContext::InsideText)
    }

    /// Record the current state and cursor as an immutable snapshot, so a
    /// caller can probe ahead and later return here with
    /// [`MarkdownCodespanParser::restore_state`].
    pub fn backup_state(&mut self)
        requires
            old(self).inv(),
        ensures
            final(self).inv(),
            final(self).abs() == old(self).abs(),
            final(self).characters_i == old(self).characters_i,
            final(self).saved_abs() == (old(self).abs(), old(self).characters_i as int),
    {
        self.state = (self.context, self.backticks_at_start, self.backticks_inside, self.characters_i);
    }

    /// Return to the state and cursor recorded by the last
    /// [`MarkdownCodespanParser::backup_state`].
    pub fn restore_state(&mut self)
        requires
            old(self).inv(),
        ensures
            final(self).inv(),
            final(self).abs() == old(self).saved_abs().0,
            final(self).characters_i as int == old(self).saved_abs().1,
            final(self).saved_abs() == old(self).saved_abs(),
    {
        self.context = self.state.0;
        self.backticks_at_start = self.state.1;
        self.backticks_inside = self.state.2;
        self.characters_i = self.state.3;
    }
}

} // verus!
