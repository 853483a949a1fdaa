use vstd::prelude::*;

use crate::breaks::{
    char_utf8_len, end_offset, is_char_boundary, lemma_off_at_boundary, lemma_scan_ok,
    line_breaks, off_at, select_line_breaks, stream_width, views_of, wf_stream, BreakStyle,
    GBreak, LineBreaking,
};
use crate::metrics::{metrics_ok, GlyphMetrics};

verus! {

/// What must be drawn after a line's text: nothing, or a hyphen for a
/// line that ends in the middle of a word.
#[derive(Copy, Clone, PartialEq, Eq, Structural, Debug)]
pub enum Appendix {
    Nothing,
    Hyphen,
}

/// The renderable content of one visual line: the byte range
/// `[start, end)` of the text, plus the appendix to draw after it.
#[derive(Copy, Clone, PartialEq, Eq, Structural, Debug)]
pub struct Span {
    pub start: usize,
    pub end: usize,
    pub append: Appendix,
}

/// Mathematical image of a [`Span`].
pub ghost struct GSpan {
    pub start: int,
    pub end: int,
    pub append: Appendix,
}

impl View for Span {
    type V = GSpan;

    open spec fn view(&self) -> GSpan {
        GSpan { start: self.start as int, end: self.end as int, append: self.append }
    }
}

/// Mathematical images of a sequence of spans.
pub open spec fn span_views(s: Seq<Span>) -> Seq<GSpan> {
    s.map_values(|x: Span| x@)
}

/// The appendix a break style asks for: only an inside-word break needs
/// a hyphen.
pub open spec fn appendix_of(style: BreakStyle) -> Appendix {
    match style {
        BreakStyle::InsideWord => Appendix::Hyphen,
        _ => Appendix::Nothing,
    }
}

/// The spans determined by a break sequence over a text of `text_end`
/// bytes: one span between consecutive breaks, and one final span from
/// the last break to the end of the text.  There is always at least one
/// span, even for an empty text.
pub open spec fn spans_of(bs: Seq<GBreak>, text_end: int) -> Seq<GSpan> {
    Seq::new(
        bs.len() + 1,
        |i: int|
            GSpan {
                start: if i == 0 {
                    0
                } else {
                    bs[i - 1].offset
                },
                end: if i < bs.len() {
                    bs[i].offset
                } else {
                    text_end
                },
                append: if i < bs.len() {
                    appendix_of(bs[i].style)
                } else {
                    Appendix::Nothing
                },
            },
    )
}

/// Breaks the streamed text into renderable spans: one per line break,
/// with a hyphen appendix exactly on inside-word breaks, and one final
/// span covering the remainder of the text.
pub fn break_text_to_spans<F: GlyphMetrics, G: GlyphMetrics>(
    chars: &Vec<(usize, char)>,
    text_font: &F,
    hyphen_font: &G,
    breaking: LineBreaking,
    available_width: i32,
) -> (r: Vec<Span>)
    requires
        wf_stream(chars@),
        0 < available_width,
        metrics_ok(*text_font),
        metrics_ok(*hyphen_font),
        stream_width(chars@, *text_font) + (*hyphen_font).spec_char_width('-') <= i32::MAX as int,
        end_offset(chars@) <= usize::MAX as int,
    ensures
        span_views(r@) == spans_of(
            line_breaks(chars@, *text_font, *hyphen_font, breaking, available_width as int),
            end_offset(chars@),
        ),
{
    let ghost bsm = line_breaks(chars@, *text_font, *hyphen_font, breaking, available_width as int);
    let ghost goal = spans_of(bsm, end_offset(chars@));
    let breaks = select_line_breaks(chars, text_font, hyphen_font, breaking, available_width);
    let text_end: usize = if chars.len() == 0 {
        0
    } else {
        let last = chars[chars.len() - 1];
        last.0 + char_utf8_len(last.1)
    };
    let mut out: Vec<Span> = Vec::new();
    let mut last_off: usize = 0;
    let mut i: usize = 0;
    while i < breaks.len()
        invariant
            0 <= i <= breaks.len(),
            views_of(breaks@) == bsm,
            goal == spans_of(bsm, end_offset(chars@)),
            text_end as int == end_offset(chars@),
            out@.len() == i,
            forall|j: int| 0 <= j < i ==> #[trigger] out@[j]@ == goal[j],
            last_off as int == (if i == 0 {
                0int
            } else {
                bsm[i as int - 1].offset
            }),
        decreases breaks.len() - i,
    {
        let br = breaks[i];
        proof {
            assert(br@ == bsm[i as int]);
        }
        out.push(
            Span {
                start: last_off,
                end: br.offset,
                append: match br.style {
                    BreakStyle::InsideWord => Appendix::Hyphen,
                    _ => Appendix::Nothing,
                },
            },
        );
        last_off = br.offset;
        i = i + 1;
    }
    out.push(Span { start: last_off, end: text_end, append: Appendix::Nothing });
    proof {
        assert(span_views(out@) =~= goal);
    }
    out
}

/// The emitted spans tile the text: the first starts at byte zero, each
/// next span starts where the previous one ends, the last ends at the
/// end of the text, and every span boundary is a character boundary.
/// Concatenating the spans' byte ranges therefore reproduces the text
/// exactly, with no gaps and no overlaps.  A span carries a hyphen
/// appendix exactly when its line ends at an inside-word break.
pub proof fn lemma_spans_tile_text<F: GlyphMetrics, G: GlyphMetrics>(
    chars: Seq<(usize, char)>,
    text_font: F,
    hyphen_font: G,
    breaking: LineBreaking,
    available_width: int,
)
    requires
        wf_stream(chars),
        metrics_ok(text_font),
        metrics_ok(hyphen_font),
    ensures
        ({
            let bs = line_breaks(chars, text_font, hyphen_font, breaking, available_width);
            let sp = spans_of(bs, end_offset(chars));
            &&& sp.len() == bs.len() + 1
            &&& sp[0].start == 0
            &&& sp[sp.len() - 1].end == end_offset(chars)
            &&& (forall|t: int|
                0 <= t && t + 1 < sp.len() ==> (#[trigger] sp[t]).end == (#[trigger] sp[t
                    + 1]).start)
            &&& (forall|t: int| 0 <= t < sp.len() ==> (#[trigger] sp[t]).start <= sp[t].end)
            &&& (forall|t: int|
                0 <= t < sp.len() ==> is_char_boundary(chars, (#[trigger] sp[t]).start)
                    && is_char_boundary(chars, sp[t].end))
            &&& (forall|t: int|
                0 <= t < sp.len() ==> ((#[trigger] sp[t]).append is Hyphen <==> t + 1 < sp.len()
                    && bs[t].style is InsideWord))
        }),
{
    lemma_scan_ok(chars, chars.len() as int, text_font, hyphen_font, breaking, available_width);
    lemma_off_at_boundary(chars, 0);
    lemma_off_at_boundary(chars, chars.len() as int);
    let bs = line_breaks(chars, text_font, hyphen_font, breaking, available_width);
    let sp = spans_of(bs, end_offset(chars));
    assert(off_at(chars, chars.len() as int) == end_offset(chars));
    assert(off_at(chars, 0) == 0) by {
        if chars.len() > 0 {
            assert(chars[0].0 == 0);
        }
    }
    assert forall|t: int| 0 <= t < sp.len() implies (#[trigger] sp[t]).start <= sp[t].end by {
        if t == 0 {
            if bs.len() == 0 {
                assert(sp[t].end == end_offset(chars));
            } else {
                assert(0 <= bs[0].offset);
            }
        } else if t < bs.len() {
            assert(bs[t - 1].offset <= bs[t - 1 + 1].offset);
            assert(bs[t - 1 + 1] == bs[t]);
        } else {
            assert(bs[t - 1].offset <= off_at(chars, chars.len() as int));
        }
    }
    assert forall|t: int|
        0 <= t < sp.len() implies is_char_boundary(chars, (#[trigger] sp[t]).start)
            && is_char_boundary(chars, sp[t].end) by {
        if t > 0 {
            assert(is_char_boundary(chars, bs[t - 1].offset));
        }
        if t < bs.len() {
            assert(is_char_boundary(chars, bs[t].offset));
        }
    }
}

} // verus!
