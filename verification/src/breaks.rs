use vstd::prelude::*;

use crate::metrics::{metrics_ok, GlyphMetrics};

verus! {

// ---------------------------------------------------------------------------
// Character streams
//
// The engine consumes a text as the stream of its characters paired with
// their byte offsets, exactly as UTF-8 encoding lays them out.  Working on
// such a stream keeps every computed offset on a character boundary by
// construction.
// ---------------------------------------------------------------------------

/// Number of bytes the UTF-8 encoding of `c` occupies.
pub open spec fn char_len(c: char) -> int {
    if (c as u32) < 0x80 {
        1
    } else if (c as u32) < 0x800 {
        2
    } else if (c as u32) < 0x10000 {
        3
    } else {
        4
    }
}

/// Number of bytes the UTF-8 encoding of `c` occupies.
pub fn char_utf8_len(c: char) -> (n: usize)
    ensures
        n as int == char_len(c),
{
    let u = c as u32;
    if u < 0x80 {
        1
    } else if u < 0x800 {
        2
    } else if u < 0x10000 {
        3
    } else {
        4
    }
}

/// Character `j` of the stream starts where character `j - 1` ends.
pub open spec fn stream_link(chars: Seq<(usize, char)>, j: int) -> bool {
    chars[j].0 == chars[j - 1].0 + char_len(chars[j - 1].1)
}

/// The stream is the character/offset sequence of one text: the first
/// character sits at byte offset zero and each later character starts
/// where the previous one ends.
pub open spec fn wf_stream(chars: Seq<(usize, char)>) -> bool {
    &&& (chars.len() > 0 ==> chars[0].0 == 0)
    &&& (forall|j: int| 1 <= j < chars.len() ==> #[trigger] stream_link(chars, j))
}

/// Byte length of the streamed text.
pub open spec fn end_offset(chars: Seq<(usize, char)>) -> int {
    if chars.len() == 0 {
        0
    } else {
        chars.last().0 + char_len(chars.last().1)
    }
}

/// Byte offset at which the `i`-th character starts; one past the last
/// character it is the total byte length.
pub open spec fn off_at(chars: Seq<(usize, char)>, i: int) -> int {
    if i < chars.len() {
        chars[i].0 as int
    } else {
        end_offset(chars)
    }
}

/// `off` is a character boundary of the streamed text: the start of some
/// character, or the end of the text.
pub open spec fn is_char_boundary(chars: Seq<(usize, char)>, off: int) -> bool {
    off == end_offset(chars) || exists|j: int| 0 <= j < chars.len() && (#[trigger] chars[j]).0 == off
}

/// In a well-formed stream the character start offsets grow strictly.
pub proof fn lemma_off_at_mono(chars: Seq<(usize, char)>, i: int, j: int)
    requires
        wf_stream(chars),
        0 <= i <= j <= chars.len(),
    ensures
        off_at(chars, i) <= off_at(chars, j),
        i < j ==> off_at(chars, i) < off_at(chars, j),
    decreases j - i,
{
    if i < j {
        lemma_off_at_mono(chars, i, j - 1);
        assert(char_len(chars[j - 1].1) >= 1);
        if j < chars.len() {
            assert(stream_link(chars, j));
        }
    }
}

// ---------------------------------------------------------------------------
// Line breaks
// ---------------------------------------------------------------------------

/// Why a line break occurred; an inside-word break asks for a trailing
/// hyphen on the line it ends.
#[derive(Copy, Clone, PartialEq, Eq, Structural, Debug)]
pub enum BreakStyle {
    Hard,
    AtWhitespaceOrWordBoundary,
    InsideWord,
}

/// One visual line boundary.
#[derive(Copy, Clone, PartialEq, Eq, Structural, Debug)]
pub struct LineBreak {
    /// Byte offset of the first character **after** the line-break.
    pub offset: usize,
    /// Pixel width accumulated since the previous break, up to and
    /// including the character that triggered this break.
    pub width: i32,
    pub style: BreakStyle,
}

/// Mathematical image of a [`LineBreak`].
pub ghost struct GBreak {
    pub offset: int,
    pub width: int,
    pub style: BreakStyle,
}

impl View for LineBreak {
    type V = GBreak;

    open spec fn view(&self) -> GBreak {
        GBreak { offset: self.offset as int, width: self.width as int, style: self.style }
    }
}

/// Mathematical images of a sequence of line breaks.
pub open spec fn views_of(s: Seq<LineBreak>) -> Seq<GBreak> {
    s.map_values(|b: LineBreak| b@)
}

/// Breaking policy: wrap only at whitespace, or also inside words with an
/// inserted hyphen.
#[derive(Copy, Clone, PartialEq, Eq, Structural, Debug)]
pub enum LineBreaking {
    /// Break lines only at whitespace; very long words overflow the line.
    BreakAtWhitespace,
    /// Break words into several lines, inserting a hyphen before the line
    /// break.
    BreakWordsAndInsertHyphen,
}

pub open spec fn is_newline(c: char) -> bool {
    c == '\n' || c == '\r'
}

pub open spec fn is_space(c: char) -> bool {
    c == ' ' || c == '\t'
}

// ---------------------------------------------------------------------------
// The greedy scan, as a mathematical function
//
// The engine walks the stream once.  Across the walk it carries the best
// breakable point proposed so far, the pixel width accumulated on the
// current line, and whether the current line has seen any whitespace.
// ---------------------------------------------------------------------------

/// Scanner state between two characters.
pub ghost struct GState {
    pub proposed: Option<GBreak>,
    pub line_width: int,
    pub found_ws: bool,
}

pub open spec fn init_state() -> GState {
    GState { proposed: None, line_width: 0, found_ws: false }
}

/// One step of the greedy scan over the character at byte offset
/// `offset`: the successor state and the break committed here, if any.
#[verifier::opaque]
pub open spec fn step<F: GlyphMetrics, G: GlyphMetrics>(
    st: GState,
    offset: int,
    ch: char,
    text_font: F,
    hyphen_font: G,
    breaking: LineBreaking,
    available_width: int,
) -> (GState, Option<GBreak>) {
    let cw = text_font.spec_char_width(ch);
    let hw = hyphen_font.spec_char_width('-');
    let exceeds_available_width = st.line_width + cw > available_width;
    let have_space_for_break = st.line_width + cw + hw <= available_width;
    let can_break_word = breaking is BreakWordsAndInsertHyphen || !st.found_ws;
    let next_offset = offset + char_len(ch);
    let next_line_width = st.line_width + cw;
    if is_newline(ch) {
        // Immediate hard break just after the terminator.
        let b = GBreak { offset: next_offset, width: next_line_width, style: BreakStyle::Hard };
        (GState { proposed: None, line_width: next_line_width - b.width, found_ws: false }, Some(b))
    } else if is_space(ch) {
        // Propose a break just after the whitespace, replacing any
        // earlier proposal.
        let p = GBreak {
            offset: next_offset,
            width: next_line_width,
            style: BreakStyle::AtWhitespaceOrWordBoundary,
        };
        (GState { proposed: Some(p), line_width: next_line_width, found_ws: true }, None)
    } else if have_space_for_break && can_break_word {
        // Propose a word break just after this character; a following
        // whitespace proposal replaces it.
        let p = GBreak { offset: next_offset, width: next_line_width, style: BreakStyle::InsideWord };
        (GState { proposed: Some(p), line_width: next_line_width, found_ws: st.found_ws }, None)
    } else if exceeds_available_width {
        // Commit the proposed break, or hard-break right before this
        // character when nothing was proposed: the first character of the
        // line alone does not fit.
        let b = match st.proposed {
            Some(p) => p,
            None => GBreak { offset: offset, width: st.line_width, style: BreakStyle::Hard },
        };
        (GState { proposed: None, line_width: next_line_width - b.width, found_ws: false }, Some(b))
    } else {
        (GState { proposed: st.proposed, line_width: next_line_width, found_ws: st.found_ws }, None)
    }
}

/// Scanner state after the first `i` characters.
pub open spec fn state_at<F: GlyphMetrics, G: GlyphMetrics>(
    chars: Seq<(usize, char)>,
    i: int,
    text_font: F,
    hyphen_font: G,
    breaking: LineBreaking,
    available_width: int,
) -> GState
    decreases i,
{
    if i <= 0 {
        init_state()
    } else {
        step(
            state_at(chars, i - 1, text_font, hyphen_font, breaking, available_width),
            chars[i - 1].0 as int,
            chars[i - 1].1,
            text_font,
            hyphen_font,
            breaking,
            available_width,
        ).0
    }
}

/// Line breaks committed within the first `i` characters, in scan order.
pub open spec fn breaks_upto<F: GlyphMetrics, G: GlyphMetrics>(
    chars: Seq<(usize, char)>,
    i: int,
    text_font: F,
    hyphen_font: G,
    breaking: LineBreaking,
    available_width: int,
) -> Seq<GBreak>
    decreases i,
{
    if i <= 0 {
        Seq::empty()
    } else {
        let prev = breaks_upto(chars, i - 1, text_font, hyphen_font, breaking, available_width);
        match step(
            state_at(chars, i - 1, text_font, hyphen_font, breaking, available_width),
            chars[i - 1].0 as int,
            chars[i - 1].1,
            text_font,
            hyphen_font,
            breaking,
            available_width,
        ).1 {
            Some(b) => prev.push(b),
            None => prev,
        }
    }
}

/// All line breaks of the streamed text, in ascending offset order.
pub open spec fn line_breaks<F: GlyphMetrics, G: GlyphMetrics>(
    chars: Seq<(usize, char)>,
    text_font: F,
    hyphen_font: G,
    breaking: LineBreaking,
    available_width: int,
) -> Seq<GBreak> {
    breaks_upto(chars, chars.len() as int, text_font, hyphen_font, breaking, available_width)
}

/// Total pixel width of the streamed characters.
pub open spec fn stream_width<F: GlyphMetrics>(chars: Seq<(usize, char)>, text_font: F) -> int
    decreases chars.len(),
{
    if chars.len() == 0 {
        0
    } else {
        stream_width(chars.drop_last(), text_font) + text_font.spec_char_width(chars.last().1)
    }
}

pub proof fn lemma_stream_width_take_succ<F: GlyphMetrics>(
    chars: Seq<(usize, char)>,
    text_font: F,
    i: int,
)
    requires
        0 <= i < chars.len(),
    ensures
        stream_width(chars.take(i + 1), text_font) == stream_width(chars.take(i), text_font)
            + text_font.spec_char_width(chars[i].1),
{
    assert(chars.take(i + 1).drop_last() =~= chars.take(i));
    assert(chars.take(i + 1).last() == chars[i]);
}

pub proof fn lemma_stream_width_take_le<F: GlyphMetrics>(
    chars: Seq<(usize, char)>,
    text_font: F,
    i: int,
)
    requires
        metrics_ok(text_font),
        0 <= i <= chars.len(),
    ensures
        stream_width(chars.take(i), text_font) <= stream_width(chars, text_font),
    decreases chars.len() - i,
{
    if i == chars.len() {
        assert(chars.take(i) =~= chars);
    } else {
        lemma_stream_width_take_succ(chars, text_font, i);
        lemma_stream_width_take_le(chars, text_font, i + 1);
    }
}

/// There is at most one break per character scanned.
pub proof fn lemma_breaks_upto_len<F: GlyphMetrics, G: GlyphMetrics>(
    chars: Seq<(usize, char)>,
    i: int,
    text_font: F,
    hyphen_font: G,
    breaking: LineBreaking,
    available_width: int,
)
    requires
        0 <= i <= chars.len(),
    ensures
        breaks_upto(chars, i, text_font, hyphen_font, breaking, available_width).len() <= i,
    decreases i,
{
    if i > 0 {
        lemma_breaks_upto_len(chars, i - 1, text_font, hyphen_font, breaking, available_width);
    }
}

pub proof fn lemma_off_at_boundary(chars: Seq<(usize, char)>, i: int)
    requires
        wf_stream(chars),
        0 <= i <= chars.len(),
    ensures
        is_char_boundary(chars, off_at(chars, i)),
{
    if i < chars.len() {
        assert(chars[i].0 == off_at(chars, i));
    }
}

/// Invariant of the committed breaks after `i` characters: they sit on
/// character boundaries of the text, in almost-ascending offset order
/// (two consecutive breaks may share an offset, never three), and every
/// inside-word break leaves room for the hyphen glyph.  `hw` is the
/// hyphen glyph width and `aw` the available width.
pub open spec fn breaks_inv(
    chars: Seq<(usize, char)>,
    i: int,
    bs: Seq<GBreak>,
    hw: int,
    aw: int,
) -> bool {
    &&& bs.len() <= i
    &&& (forall|k: int| 0 <= k < bs.len() ==> 0 <= (#[trigger] bs[k]).offset <= off_at(chars, i))
    &&& (forall|k: int| 0 <= k < bs.len() ==> 0 <= (#[trigger] bs[k]).width)
    &&& (forall|k: int| 0 <= k < bs.len() ==> is_char_boundary(chars, (#[trigger] bs[k]).offset))
    &&& (forall|k: int|
        0 <= k < bs.len() ==> ((#[trigger] bs[k]).style is InsideWord ==> bs[k].width + hw <= aw))
    &&& (forall|k: int| 1 <= k < bs.len() ==> 0 < (#[trigger] bs[k]).offset)
    &&& (forall|k: int| 0 <= k && k + 1 < bs.len() ==> (#[trigger] bs[k]).offset <= (#[trigger] bs[k + 1]).offset)
    &&& (forall|k: int| 0 <= k && k + 2 < bs.len() ==> (#[trigger] bs[k]).offset < (#[trigger] bs[k + 2]).offset)
    &&& (bs.len() >= 2 ==> (bs[bs.len() - 2].offset < bs[bs.len() - 1].offset || bs[bs.len()
        - 1].offset < off_at(chars, i)))
}

/// The scan invariant after `i` characters, over the scanner state `st`
/// and the breaks `bs` committed so far.
pub open spec fn scan_inv(
    chars: Seq<(usize, char)>,
    i: int,
    st: GState,
    bs: Seq<GBreak>,
    hw: int,
    aw: int,
) -> bool {
    &&& 0 <= st.line_width
    &&& (match st.proposed {
        Some(p) => {
            &&& 0 <= p.width <= st.line_width
            &&& (p.style is InsideWord ==> p.width + hw <= aw)
            &&& is_char_boundary(chars, p.offset)
            &&& 0 < p.offset <= off_at(chars, i)
            &&& (bs.len() > 0 ==> bs.last().offset < p.offset)
        },
        None => true,
    })
    &&& breaks_inv(chars, i, bs, hw, aw)
}

/// Scanning one more character without committing a break keeps the
/// break invariant: the bound `off_at` only grows.
proof fn lemma_breaks_inv_relax(chars: Seq<(usize, char)>, i: int, bs: Seq<GBreak>, hw: int, aw: int)
    requires
        wf_stream(chars),
        1 <= i <= chars.len(),
        breaks_inv(chars, i - 1, bs, hw, aw),
    ensures
        breaks_inv(chars, i, bs, hw, aw),
{
    lemma_off_at_mono(chars, i - 1, i);
}

/// Appending a suitable new break keeps the break invariant.
proof fn lemma_breaks_inv_push(
    chars: Seq<(usize, char)>,
    i: int,
    bs: Seq<GBreak>,
    b: GBreak,
    hw: int,
    aw: int,
)
    requires
        wf_stream(chars),
        1 <= i <= chars.len(),
        breaks_inv(chars, i - 1, bs, hw, aw),
        0 <= b.offset <= off_at(chars, i),
        0 <= b.width,
        is_char_boundary(chars, b.offset),
        b.style is InsideWord ==> b.width + hw <= aw,
        bs.len() > 0 ==> bs[bs.len() - 1].offset <= b.offset,
        bs.len() > 0 ==> (b.offset > bs[bs.len() - 1].offset || b.offset >= off_at(chars, i - 1)),
        bs.len() > 0 && b.offset == bs[bs.len() - 1].offset ==> b.offset < off_at(chars, i),
        bs.len() > 0 ==> 0 < b.offset,
    ensures
        breaks_inv(chars, i, bs.push(b), hw, aw),
{
    lemma_off_at_mono(chars, i - 1, i);
    let bs1 = bs.push(b);
    let n0 = bs.len() as int;
    assert(forall|k: int| 0 <= k < n0 ==> #[trigger] bs1[k] == bs[k]);
    assert(bs1[n0] == b);
    assert(n0 >= 2 ==> bs[n0 - 2].offset < b.offset) by {
        if n0 >= 2 {
            assert(bs[n0 - 2].offset <= bs[n0 - 2 + 1].offset);
            assert(bs[n0 - 2 + 1] == bs[n0 - 1]);
            if bs[n0 - 2].offset == bs[n0 - 1].offset {
                assert(bs[n0 - 1].offset < off_at(chars, i - 1));
            }
        }
    }
    assert forall|k: int|
        0 <= k < bs1.len() implies 0 <= (#[trigger] bs1[k]).offset <= off_at(chars, i) by {
        if k < n0 {
            assert(bs1[k] == bs[k]);
        }
    }
    assert forall|k: int| 0 <= k < bs1.len() implies 0 <= (#[trigger] bs1[k]).width by {
        if k < n0 {
            assert(bs1[k] == bs[k]);
        }
    }
    assert forall|k: int|
        0 <= k < bs1.len() implies is_char_boundary(chars, (#[trigger] bs1[k]).offset) by {
        if k < n0 {
            assert(bs1[k] == bs[k]);
        }
    }
    assert forall|k: int|
        0 <= k < bs1.len() && (#[trigger] bs1[k]).style is InsideWord implies bs1[k].width + hw
            <= aw by {
        if k < n0 {
            assert(bs1[k] == bs[k]);
        }
    }
    assert forall|k: int| 1 <= k < bs1.len() implies 0 < (#[trigger] bs1[k]).offset by {
        if k < n0 {
            assert(bs1[k] == bs[k]);
        }
    }
    assert forall|k: int|
        0 <= k && k + 1 < bs1.len() implies (#[trigger] bs1[k]).offset <= (#[trigger] bs1[k + 1]).offset by {
        assert(bs1[k] == bs[k]);
        if k + 1 < n0 {
            assert(bs1[k + 1] == bs[k + 1]);
        } else {
            assert(bs1[k + 1] == b);
        }
    }
    assert forall|k: int|
        0 <= k && k + 2 < bs1.len() implies (#[trigger] bs1[k]).offset < (#[trigger] bs1[k + 2]).offset by {
        assert(bs1[k] == bs[k]);
        if k + 2 < n0 {
            assert(bs1[k + 2] == bs[k + 2]);
        } else {
            assert(bs1[k + 2] == b);
            assert(k == n0 - 2);
        }
    }
}

/// One scan step preserves the invariant.
proof fn lemma_step_inv<F: GlyphMetrics, G: GlyphMetrics>(
    chars: Seq<(usize, char)>,
    i: int,
    st0: GState,
    bs0: Seq<GBreak>,
    text_font: F,
    hyphen_font: G,
    breaking: LineBreaking,
    available_width: int,
)
    requires
        wf_stream(chars),
        metrics_ok(text_font),
        metrics_ok(hyphen_font),
        1 <= i <= chars.len(),
        scan_inv(chars, i - 1, st0, bs0, hyphen_font.spec_char_width('-'), available_width),
    ensures
        ({
            let r = step(
                st0,
                chars[i - 1].0 as int,
                chars[i - 1].1,
                text_font,
                hyphen_font,
                breaking,
                available_width,
            );
            let bs1 = match r.1 {
                Some(b) => bs0.push(b),
                None => bs0,
            };
            scan_inv(chars, i, r.0, bs1, hyphen_font.spec_char_width('-'), available_width)
        }),
{
    lemma_off_at_mono(chars, i - 1, i);
    lemma_off_at_boundary(chars, i);
    lemma_off_at_boundary(chars, i - 1);
    let off = chars[i - 1].0 as int;
    let ch = chars[i - 1].1;
    let cw = text_font.spec_char_width(ch);
    let hw = hyphen_font.spec_char_width('-');
    let aw = available_width;
    assert(0 <= cw);
    assert(off == off_at(chars, i - 1));
    if i < chars.len() {
        assert(stream_link(chars, i));
    } else {
        assert(chars.last() == chars[i - 1]);
    }
    assert(off + char_len(ch) == off_at(chars, i));
    assert(char_len(ch) >= 1);
    assert(off_at(chars, i - 1) < off_at(chars, i));
    let n0 = bs0.len() as int;
    assert(n0 > 0 ==> 0 <= bs0[n0 - 1].offset <= off_at(chars, i - 1));
    if n0 > 0 {
        assert(n0 <= i - 1);
        lemma_off_at_mono(chars, 0, i - 1);
        assert(off_at(chars, 0) == 0);
    }
    let r = step(st0, off, ch, text_font, hyphen_font, breaking, available_width);
    let next_offset = off + char_len(ch);
    let next_line_width = st0.line_width + cw;
    let exceeds_available_width = st0.line_width + cw > aw;
    let have_space_for_break = st0.line_width + cw + hw <= aw;
    let can_break_word = breaking is BreakWordsAndInsertHyphen || !st0.found_ws;
    if is_newline(ch) {
        let b = GBreak { offset: next_offset, width: next_line_width, style: BreakStyle::Hard };
        assert(r == (
            GState { proposed: None::<GBreak>, line_width: next_line_width - b.width, found_ws: false },
            Some(b),
        )) by {
            reveal(crate::breaks::step);
        }
        lemma_breaks_inv_push(chars, i, bs0, b, hw, aw);
    } else if is_space(ch) {
        let p = GBreak {
            offset: next_offset,
            width: next_line_width,
            style: BreakStyle::AtWhitespaceOrWordBoundary,
        };
        assert(r == (
            GState { proposed: Some(p), line_width: next_line_width, found_ws: true },
            None::<GBreak>,
        )) by {
            reveal(crate::breaks::step);
        }
        lemma_breaks_inv_relax(chars, i, bs0, hw, aw);
    } else if have_space_for_break && can_break_word {
        let p = GBreak { offset: next_offset, width: next_line_width, style: BreakStyle::InsideWord };
        assert(r == (
            GState { proposed: Some(p), line_width: next_line_width, found_ws: st0.found_ws },
            None::<GBreak>,
        )) by {
            reveal(crate::breaks::step);
        }
        lemma_breaks_inv_relax(chars, i, bs0, hw, aw);
    } else if exceeds_available_width {
        match st0.proposed {
            Some(p) => {
                assert(r == (
                    GState {
                        proposed: None::<GBreak>,
                        line_width: next_line_width - p.width,
                        found_ws: false,
                    },
                    Some(p),
                )) by {
                    reveal(crate::breaks::step);
                }
                lemma_breaks_inv_push(chars, i, bs0, p, hw, aw);
            },
            None => {
                let b = GBreak { offset: off, width: st0.line_width, style: BreakStyle::Hard };
                assert(r == (
                    GState {
                        proposed: None::<GBreak>,
                        line_width: next_line_width - b.width,
                        found_ws: false,
                    },
                    Some(b),
                )) by {
                    reveal(crate::breaks::step);
                }
                lemma_breaks_inv_push(chars, i, bs0, b, hw, aw);
            },
        }
    } else {
        assert(r == (
            GState {
                proposed: st0.proposed,
                line_width: next_line_width,
                found_ws: st0.found_ws,
            },
            None::<GBreak>,
        )) by {
            reveal(crate::breaks::step);
        }
        lemma_breaks_inv_relax(chars, i, bs0, hw, aw);
    }
}

/// The scan invariant holds after any number of characters.
pub proof fn lemma_scan_ok<F: GlyphMetrics, G: GlyphMetrics>(
    chars: Seq<(usize, char)>,
    i: int,
    text_font: F,
    hyphen_font: G,
    breaking: LineBreaking,
    available_width: int,
)
    requires
        wf_stream(chars),
        metrics_ok(text_font),
        metrics_ok(hyphen_font),
        0 <= i <= chars.len(),
    ensures
        scan_inv(
            chars,
            i,
            state_at(chars, i, text_font, hyphen_font, breaking, available_width),
            breaks_upto(chars, i, text_font, hyphen_font, breaking, available_width),
            hyphen_font.spec_char_width('-'),
            available_width,
        ),
    decreases i,
{
    if i > 0 {
        lemma_scan_ok(chars, i - 1, text_font, hyphen_font, breaking, available_width);
        lemma_step_inv(
            chars,
            i,
            state_at(chars, i - 1, text_font, hyphen_font, breaking, available_width),
            breaks_upto(chars, i - 1, text_font, hyphen_font, breaking, available_width),
            text_font,
            hyphen_font,
            breaking,
            available_width,
        );
    }
}

/// No break offset splits a character: every committed break falls on a
/// character boundary of the streamed text.
pub proof fn lemma_breaks_on_char_boundaries<F: GlyphMetrics, G: GlyphMetrics>(
    chars: Seq<(usize, char)>,
    text_font: F,
    hyphen_font: G,
    breaking: LineBreaking,
    available_width: int,
)
    requires
        wf_stream(chars),
        metrics_ok(text_font),
        metrics_ok(hyphen_font),
    ensures
        ({
            let bs = line_breaks(chars, text_font, hyphen_font, breaking, available_width);
            forall|k: int|
                0 <= k < bs.len() ==> is_char_boundary(chars, (#[trigger] bs[k]).offset)
        }),
{
    lemma_scan_ok(chars, chars.len() as int, text_font, hyphen_font, breaking, available_width);
}

/// Every line that ends in an inserted hyphen fits the available width
/// together with the hyphen glyph.
pub proof fn lemma_hyphen_breaks_fit<F: GlyphMetrics, G: GlyphMetrics>(
    chars: Seq<(usize, char)>,
    text_font: F,
    hyphen_font: G,
    breaking: LineBreaking,
    available_width: int,
)
    requires
        wf_stream(chars),
        metrics_ok(text_font),
        metrics_ok(hyphen_font),
    ensures
        ({
            let bs = line_breaks(chars, text_font, hyphen_font, breaking, available_width);
            forall|k: int|
                0 <= k < bs.len() ==> ((#[trigger] bs[k]).style is InsideWord ==> bs[k].width
                    + hyphen_font.spec_char_width('-') <= available_width)
        }),
{
    lemma_scan_ok(chars, chars.len() as int, text_font, hyphen_font, breaking, available_width);
}

/// Break offsets never decrease, never repeat more than twice, stay on
/// or after the first byte, and never pass the end of the text.
pub proof fn lemma_breaks_ordered<F: GlyphMetrics, G: GlyphMetrics>(
    chars: Seq<(usize, char)>,
    text_font: F,
    hyphen_font: G,
    breaking: LineBreaking,
    available_width: int,
)
    requires
        wf_stream(chars),
        metrics_ok(text_font),
        metrics_ok(hyphen_font),
    ensures
        ({
            let bs = line_breaks(chars, text_font, hyphen_font, breaking, available_width);
            &&& (forall|k: int|
                0 <= k < bs.len() ==> 0 <= (#[trigger] bs[k]).offset <= end_offset(chars))
            &&& (forall|k: int| 1 <= k < bs.len() ==> 0 < (#[trigger] bs[k]).offset)
            &&& (forall|k: int|
                0 <= k && k + 1 < bs.len() ==> (#[trigger] bs[k]).offset <= (#[trigger] bs[k + 1]).offset)
            &&& (forall|k: int|
                0 <= k && k + 2 < bs.len() ==> (#[trigger] bs[k]).offset < (#[trigger] bs[k + 2]).offset)
        }),
{
    lemma_scan_ok(chars, chars.len() as int, text_font, hyphen_font, breaking, available_width);
}

/// No character of the stream is whitespace or a line terminator.
pub open spec fn plain_text(chars: Seq<(usize, char)>) -> bool {
    forall|j: int|
        0 <= j < chars.len() ==> !is_space((#[trigger] chars[j]).1) && !is_newline(chars[j].1)
}

/// The break ends a line that consists of one single character wider
/// than the available width: the line's width equals that character's
/// width alone.
pub open spec fn overwide_char_line<F: GlyphMetrics>(
    chars: Seq<(usize, char)>,
    text_font: F,
    b: GBreak,
    available_width: int,
) -> bool {
    exists|j: int|
        0 <= j < chars.len() && b.offset == (#[trigger] chars[j]).0 + char_len(chars[j].1)
            && b.width == text_font.spec_char_width(chars[j].1) && b.width > available_width
}

/// The width-budget invariant on whitespace-free text with a zero-width
/// hyphen glyph: any live proposal covers the whole current line and
/// fits, the current line can exceed the budget only as a lone overwide
/// character, and every committed line fits or is such a character.
pub open spec fn tight_inv<F: GlyphMetrics>(
    chars: Seq<(usize, char)>,
    i: int,
    st: GState,
    bs: Seq<GBreak>,
    text_font: F,
    aw: int,
) -> bool {
    &&& !st.found_ws
    &&& (match st.proposed {
        Some(p) => p.width == st.line_width && p.width <= aw,
        None => st.line_width <= aw || (1 <= i && i <= chars.len() && st.line_width
            == text_font.spec_char_width(chars[i - 1].1) && st.line_width > aw),
    })
    &&& (forall|k: int|
        0 <= k < bs.len() ==> ((#[trigger] bs[k]).width <= aw || overwide_char_line(
            chars,
            text_font,
            bs[k],
            aw,
        )))
}

proof fn lemma_step_tight<F: GlyphMetrics, G: GlyphMetrics>(
    chars: Seq<(usize, char)>,
    i: int,
    st0: GState,
    bs0: Seq<GBreak>,
    text_font: F,
    hyphen_font: G,
    breaking: LineBreaking,
    available_width: int,
)
    requires
        wf_stream(chars),
        metrics_ok(text_font),
        plain_text(chars),
        hyphen_font.spec_char_width('-') == 0,
        0 < available_width,
        1 <= i <= chars.len(),
        tight_inv(chars, i - 1, st0, bs0, text_font, available_width),
    ensures
        ({
            let r = step(
                st0,
                chars[i - 1].0 as int,
                chars[i - 1].1,
                text_font,
                hyphen_font,
                breaking,
                available_width,
            );
            let bs1 = match r.1 {
                Some(b) => bs0.push(b),
                None => bs0,
            };
            tight_inv(chars, i, r.0, bs1, text_font, available_width)
        }),
{
    let off = chars[i - 1].0 as int;
    let ch = chars[i - 1].1;
    let cw = text_font.spec_char_width(ch);
    let aw = available_width;
    assert(!is_space(ch) && !is_newline(ch));
    assert(0 <= cw);
    let r = step(st0, off, ch, text_font, hyphen_font, breaking, available_width);
    let next_offset = off + char_len(ch);
    let next_line_width = st0.line_width + cw;
    if st0.line_width + cw <= aw {
        // The character fits together with the (zero-width) hyphen, so a
        // word break covering the whole line is proposed.
        let p = GBreak { offset: next_offset, width: next_line_width, style: BreakStyle::InsideWord };
        assert(r == (
            GState { proposed: Some(p), line_width: next_line_width, found_ws: st0.found_ws },
            None::<GBreak>,
        )) by {
            reveal(crate::breaks::step);
        }
    } else {
        match st0.proposed {
            Some(p) => {
                assert(r == (
                    GState {
                        proposed: None::<GBreak>,
                        line_width: next_line_width - p.width,
                        found_ws: false,
                    },
                    Some(p),
                )) by {
                    reveal(crate::breaks::step);
                }
                // The proposal covered the whole line, so the remainder
                // is exactly this character.
                assert(next_line_width - p.width == cw);
                let bs1 = bs0.push(p);
                assert forall|k: int|
                    0 <= k < bs1.len() implies ((#[trigger] bs1[k]).width <= aw
                        || overwide_char_line(chars, text_font, bs1[k], aw)) by {
                    if k < bs0.len() {
                        assert(bs1[k] == bs0[k]);
                    } else {
                        assert(bs1[k] == p);
                    }
                }
            },
            None => {
                let b = GBreak { offset: off, width: st0.line_width, style: BreakStyle::Hard };
                assert(r == (
                    GState {
                        proposed: None::<GBreak>,
                        line_width: next_line_width - b.width,
                        found_ws: false,
                    },
                    Some(b),
                )) by {
                    reveal(crate::breaks::step);
                }
                assert(next_line_width - b.width == cw);
                assert(b.width <= aw || overwide_char_line(chars, text_font, b, aw)) by {
                    if !(b.width <= aw) {
                        // The current line is a lone overwide character,
                        // which ends right where this break falls.
                        assert(st0.line_width == text_font.spec_char_width(chars[i - 2].1));
                        assert(stream_link(chars, i - 1));
                        assert(chars[i - 1].0 == chars[i - 2].0 + char_len(chars[i - 2].1));
                        assert(0 <= i - 2 < chars.len() && b.offset == chars[i - 2].0 + char_len(
                            chars[i - 2].1,
                        ) && b.width == text_font.spec_char_width(chars[i - 2].1) && b.width > aw);
                    }
                }
                let bs1 = bs0.push(b);
                assert forall|k: int|
                    0 <= k < bs1.len() implies ((#[trigger] bs1[k]).width <= aw
                        || overwide_char_line(chars, text_font, bs1[k], aw)) by {
                    if k < bs0.len() {
                        assert(bs1[k] == bs0[k]);
                    } else {
                        assert(bs1[k] == b);
                    }
                }
            },
        }
    }
}

proof fn lemma_tight_ok<F: GlyphMetrics, G: GlyphMetrics>(
    chars: Seq<(usize, char)>,
    i: int,
    text_font: F,
    hyphen_font: G,
    breaking: LineBreaking,
    available_width: int,
)
    requires
        wf_stream(chars),
        metrics_ok(text_font),
        plain_text(chars),
        hyphen_font.spec_char_width('-') == 0,
        0 < available_width,
        0 <= i <= chars.len(),
    ensures
        tight_inv(
            chars,
            i,
            state_at(chars, i, text_font, hyphen_font, breaking, available_width),
            breaks_upto(chars, i, text_font, hyphen_font, breaking, available_width),
            text_font,
            available_width,
        ),
    decreases i,
{
    if i > 0 {
        lemma_tight_ok(chars, i - 1, text_font, hyphen_font, breaking, available_width);
        lemma_step_tight(
            chars,
            i,
            state_at(chars, i - 1, text_font, hyphen_font, breaking, available_width),
            breaks_upto(chars, i - 1, text_font, hyphen_font, breaking, available_width),
            text_font,
            hyphen_font,
            breaking,
            available_width,
        );
    }
}

/// On whitespace-free text with a zero-width hyphen glyph, the width of
/// every line never exceeds the available width, except a line that
/// consists of a single character wider than the available width.  A
/// line ending in whitespace may exceed the width by its trailing
/// whitespace, and a hyphen glyph of nonzero width may regroup
/// characters past the budget, so those inputs are left out here; see
/// `lemma_hyphen_breaks_fit` for the bound that holds of every
/// hyphenated line regardless.
pub proof fn lemma_line_widths_within_budget<F: GlyphMetrics, G: GlyphMetrics>(
    chars: Seq<(usize, char)>,
    text_font: F,
    hyphen_font: G,
    breaking: LineBreaking,
    available_width: int,
)
    requires
        wf_stream(chars),
        metrics_ok(text_font),
        plain_text(chars),
        hyphen_font.spec_char_width('-') == 0,
        0 < available_width,
    ensures
        ({
            let bs = line_breaks(chars, text_font, hyphen_font, breaking, available_width);
            forall|k: int|
                0 <= k < bs.len() ==> ((#[trigger] bs[k]).width <= available_width
                    || overwide_char_line(chars, text_font, bs[k], available_width))
        }),
{
    lemma_tight_ok(chars, chars.len() as int, text_font, hyphen_font, breaking, available_width);
}

// ---------------------------------------------------------------------------
// The executable scan
// ---------------------------------------------------------------------------

/// Mathematical image of an optional break.
pub open spec fn opt_view(o: Option<LineBreak>) -> Option<GBreak> {
    match o {
        Some(b) => Some(b@),
        None => None,
    }
}

/// Walks the character stream once and returns every line break, in
/// ascending offset order.
pub fn select_line_breaks<F: GlyphMetrics, G: GlyphMetrics>(
    chars: &Vec<(usize, char)>,
    text_font: &F,
    hyphen_font: &G,
    breaking: LineBreaking,
    available_width: i32,
) -> (r: Vec<LineBreak>)
    requires
        wf_stream(chars@),
        0 < available_width,
        metrics_ok(*text_font),
        metrics_ok(*hyphen_font),
        stream_width(chars@, *text_font) + (*hyphen_font).spec_char_width('-') <= i32::MAX as int,
        end_offset(chars@) <= usize::MAX as int,
    ensures
        views_of(r@) == line_breaks(chars@, *text_font, *hyphen_font, breaking, available_width as int),
{
    let ghost tf = *text_font;
    let ghost hf = *hyphen_font;
    let ghost aw = available_width as int;
    let hyphen_width = hyphen_font.char_width('-');
    let mut proposed: Option<LineBreak> = None;
    let mut line_width: i32 = 0;
    let mut found_any_whitespace = false;
    let mut out: Vec<LineBreak> = Vec::new();
    let mut i: usize = 0;
    while i < chars.len()
        invariant
            0 <= i <= chars.len(),
            wf_stream(chars@),
            metrics_ok(tf),
            metrics_ok(hf),
            tf == *text_font,
            hf == *hyphen_font,
            aw == available_width as int,
            stream_width(chars@, tf) + hf.spec_char_width('-') <= i32::MAX as int,
            end_offset(chars@) <= usize::MAX as int,
            hyphen_width as int == hf.spec_char_width('-'),
            line_width as int == state_at(chars@, i as int, tf, hf, breaking, aw).line_width,
            opt_view(proposed) == state_at(chars@, i as int, tf, hf, breaking, aw).proposed,
            found_any_whitespace == state_at(chars@, i as int, tf, hf, breaking, aw).found_ws,
            0 <= line_width as int,
            line_width as int <= stream_width(chars@.take(i as int), tf),
            (match proposed {
                Some(p) => 0 <= p.width && p.width <= line_width,
                None => true,
            }),
            views_of(out@) == breaks_upto(chars@, i as int, tf, hf, breaking, aw),
        decreases chars.len() - i,
    {
        let pair = chars[i];
        let offset = pair.0;
        let ch = pair.1;
        let char_width = text_font.char_width(ch);
        proof {
            reveal(crate::breaks::step);
            lemma_stream_width_take_succ(chars@, tf, i as int);
            lemma_stream_width_take_le(chars@, tf, i as int + 1);
            lemma_off_at_mono(chars@, i as int + 1, chars@.len() as int);
            if i as int + 1 < chars@.len() {
                assert(stream_link(chars@, i as int + 1));
            }
            assert(offset as int + char_len(ch) == off_at(chars@, i as int + 1));
        }
        let next_offset = offset + char_utf8_len(ch);
        let next_line_width = line_width + char_width;
        let exceeds_available_width = next_line_width > available_width;
        let have_space_for_break = next_line_width + hyphen_width <= available_width;
        let can_break_word = (match breaking {
            LineBreaking::BreakWordsAndInsertHyphen => true,
            LineBreaking::BreakAtWhitespace => false,
        }) || !found_any_whitespace;

        let break_line: Option<LineBreak> = if ch == '\n' || ch == '\r' {
            Some(LineBreak { offset: next_offset, width: next_line_width, style: BreakStyle::Hard })
        } else if ch == ' ' || ch == '\t' {
            proposed = Some(
                LineBreak {
                    offset: next_offset,
                    width: next_line_width,
                    style: BreakStyle::AtWhitespaceOrWordBoundary,
                },
            );
            found_any_whitespace = true;
            None
        } else if have_space_for_break && can_break_word {
            proposed = Some(
                LineBreak { offset: next_offset, width: next_line_width, style: BreakStyle::InsideWord },
            );
            None
        } else if exceeds_available_width {
            Some(
                match proposed {
                    Some(p) => p,
                    None => LineBreak { offset: offset, width: line_width, style: BreakStyle::Hard },
                },
            )
        } else {
            None
        };
        if let Some(br) = break_line {
            proposed = None;
            line_width = next_line_width - br.width;
            found_any_whitespace = false;
            out.push(br);
            proof {
                assert(views_of(out@) =~= breaks_upto(chars@, i as int + 1, tf, hf, breaking, aw));
            }
        } else {
            line_width = next_line_width;
        }
        i = i + 1;
    }
    proof {
        assert(chars@.take(chars@.len() as int) =~= chars@);
    }
    out
}

/// Number of visual lines of the streamed text: one more than the number
/// of line breaks, since the remainder after the last break is itself a
/// line, even when it is empty.
pub fn count_lines<F: GlyphMetrics, G: GlyphMetrics>(
    chars: &Vec<(usize, char)>,
    text_font: &F,
    hyphen_font: &G,
    breaking: LineBreaking,
    available_width: i32,
) -> (n: usize)
    requires
        wf_stream(chars@),
        0 < available_width,
        metrics_ok(*text_font),
        metrics_ok(*hyphen_font),
        stream_width(chars@, *text_font) + (*hyphen_font).spec_char_width('-') <= i32::MAX as int,
        end_offset(chars@) <= usize::MAX as int,
        chars@.len() < usize::MAX as int,
    ensures
        n as int == line_breaks(
            chars@,
            *text_font,
            *hyphen_font,
            breaking,
            available_width as int,
        ).len() + 1,
{
    let breaks = select_line_breaks(chars, text_font, hyphen_font, breaking, available_width);
    proof {
        lemma_breaks_upto_len(
            chars@,
            chars@.len() as int,
            *text_font,
            *hyphen_font,
            breaking,
            available_width as int,
        );
        assert(views_of(breaks@).len() == breaks@.len());
    }
    breaks.len() + 1
}

/// Keeps only as many leading breaks as whole lines fit into
/// `available_height`.
pub fn limit_line_breaks(
    breaks: &Vec<LineBreak>,
    line_height: i32,
    available_height: i32,
) -> (r: Vec<LineBreak>)
    requires
        1 <= line_height,
        0 <= available_height,
    ensures
        r@ == breaks@.take(
            ({
                let n = available_height as int / line_height as int;
                if breaks@.len() <= n {
                    breaks@.len() as int
                } else {
                    n
                }
            }),
        ),
{
    let n: usize = (available_height as usize) / (line_height as usize);
    let mut r: Vec<LineBreak> = Vec::new();
    let mut i: usize = 0;
    while i < breaks.len() && i < n
        invariant
            0 <= i <= breaks.len(),
            i <= n,
            n == available_height as int / line_height as int,
            r@ == breaks@.take(i as int),
        decreases breaks.len() - i,
    {
        r.push(breaks[i]);
        proof {
            assert(r@ =~= breaks@.take(i as int + 1));
        }
        i = i + 1;
    }
    proof {
        assert(r@ =~= breaks@.take(i as int));
    }
    r
}

} // verus!
