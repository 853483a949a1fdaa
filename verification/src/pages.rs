use vstd::prelude::*;

use crate::breaks::{
    end_offset, lemma_breaks_ordered, line_breaks, select_line_breaks, stream_width, views_of,
    wf_stream, GBreak, LineBreaking,
};
use crate::metrics::{metrics_ok, GlyphMetrics};

verus! {

/// The page-start offsets determined by walking a break sequence with a
/// height accumulator: each break adds one line height; when the
/// accumulated height exceeds `avail_h` the current page is closed and
/// its start offset emitted, and the next page starts at that break.
/// One final start offset is always emitted for whatever remains.
pub open spec fn page_scan(bs: Seq<GBreak>, consumed: int, prev: int, line_h: int, avail_h: int) -> Seq<int>
    decreases bs.len(),
{
    if bs.len() == 0 {
        seq![prev]
    } else if consumed + line_h > avail_h {
        seq![prev] + page_scan(bs.drop_first(), 0, bs[0].offset, line_h, avail_h)
    } else {
        page_scan(bs.drop_first(), consumed + line_h, prev, line_h, avail_h)
    }
}

/// The page-start byte offsets of a break sequence: the first page
/// starts at offset zero.
pub open spec fn page_offsets(bs: Seq<GBreak>, line_h: int, avail_h: int) -> Seq<int> {
    page_scan(bs, 0, 0, line_h, avail_h)
}

/// Mathematical images of a sequence of byte offsets.
pub open spec fn offsets_of(s: Seq<usize>) -> Seq<int> {
    s.map_values(|u: usize| u as int)
}

/// The byte offset at which each page starts, for pages of
/// `available_height` pixels: as many whole lines as fit per page,
/// never a partial line.
pub fn select_pages<F: GlyphMetrics, G: GlyphMetrics>(
    chars: &Vec<(usize, char)>,
    text_font: &F,
    hyphen_font: &G,
    breaking: LineBreaking,
    available_width: i32,
    available_height: i32,
) -> (r: Vec<usize>)
    requires
        wf_stream(chars@),
        0 < available_width,
        metrics_ok(*text_font),
        metrics_ok(*hyphen_font),
        stream_width(chars@, *text_font) + (*hyphen_font).spec_char_width('-') <= i32::MAX as int,
        end_offset(chars@) <= usize::MAX as int,
    ensures
        offsets_of(r@) == page_offsets(
            line_breaks(chars@, *text_font, *hyphen_font, breaking, available_width as int),
            (*text_font).spec_line_height(),
            available_height as int,
        ),
{
    let ghost bsm = line_breaks(chars@, *text_font, *hyphen_font, breaking, available_width as int);
    let ghost lh = (*text_font).spec_line_height();
    let ghost ah = available_height as int;
    let line_height = text_font.line_height();
    let breaks = select_line_breaks(chars, text_font, hyphen_font, breaking, available_width);
    let mut consumed_height: i64 = 0;
    let mut previous_page_at: usize = 0;
    let mut out: Vec<usize> = Vec::new();
    let mut i: usize = 0;
    proof {
        assert(bsm.skip(0) =~= bsm);
        assert(offsets_of(out@) =~= Seq::<int>::empty());
        assert(Seq::<int>::empty() + page_scan(bsm, 0, 0, lh, ah) =~= page_scan(bsm, 0, 0, lh, ah));
    }
    while i < breaks.len()
        invariant
            0 <= i <= breaks.len(),
            views_of(breaks@) == bsm,
            line_height as int == lh,
            1 <= lh,
            ah == available_height as int,
            0 <= consumed_height,
            consumed_height <= i32::MAX as i64,
            offsets_of(out@) + page_scan(
                bsm.skip(i as int),
                consumed_height as int,
                previous_page_at as int,
                lh,
                ah,
            ) == page_offsets(bsm, lh, ah),
        decreases breaks.len() - i,
    {
        let ghost rem = bsm.skip(i as int);
        let ghost out0 = out@;
        let ghost c0 = consumed_height as int;
        let ghost p0 = previous_page_at as int;
        proof {
            assert(rem.len() > 0);
            assert(rem[0] == bsm[i as int]);
            assert(rem.drop_first() =~= bsm.skip(i as int + 1));
        }
        consumed_height = consumed_height + line_height as i64;
        if consumed_height > available_height as i64 {
            consumed_height = 0;
            out.push(previous_page_at);
            previous_page_at = breaks[i].offset;
            proof {
                assert(breaks@[i as int]@ == bsm[i as int]);
                assert(page_scan(rem, c0, p0, lh, ah) == seq![p0] + page_scan(
                    bsm.skip(i as int + 1),
                    0,
                    bsm[i as int].offset,
                    lh,
                    ah,
                ));
                assert(offsets_of(out@) =~= offsets_of(out0) + seq![p0]);
                assert((offsets_of(out0) + seq![p0]) + page_scan(
                    bsm.skip(i as int + 1),
                    0,
                    bsm[i as int].offset,
                    lh,
                    ah,
                ) =~= offsets_of(out0) + page_scan(rem, c0, p0, lh, ah));
            }
        } else {
            proof {
                assert(page_scan(rem, c0, p0, lh, ah) == page_scan(
                    bsm.skip(i as int + 1),
                    c0 + lh,
                    p0,
                    lh,
                    ah,
                ));
            }
        }
        i = i + 1;
    }
    proof {
        assert(bsm.skip(i as int) =~= Seq::<GBreak>::empty());
    }
    out.push(previous_page_at);
    proof {
        assert(offsets_of(out@) =~= page_offsets(bsm, lh, ah));
    }
    out
}

/// Walking any suffix of an almost-sorted break sequence yields strictly
/// increasing page starts, beginning with `prev`.
proof fn lemma_page_scan_strict(bs: Seq<GBreak>, consumed: int, prev: int, line_h: int, avail_h: int)
    requires
        1 <= line_h <= avail_h,
        0 <= consumed,
        forall|k: int|
            0 <= k && k + 1 < bs.len() ==> (#[trigger] bs[k]).offset <= (#[trigger] bs[k
                + 1]).offset,
        forall|k: int|
            0 <= k && k + 2 < bs.len() ==> (#[trigger] bs[k]).offset < (#[trigger] bs[k
                + 2]).offset,
        bs.len() >= 1 ==> 0 <= prev <= bs[0].offset,
        bs.len() >= 2 ==> prev < bs[1].offset,
        consumed + line_h > avail_h && bs.len() >= 1 ==> prev < bs[0].offset,
    ensures
        ({
            let ps = page_scan(bs, consumed, prev, line_h, avail_h);
            &&& ps.len() >= 1
            &&& ps[0] == prev
            &&& (forall|a: int, b: int| 0 <= a < b < ps.len() ==> ps[a] < ps[b])
        }),
    decreases bs.len(),
{
    let ps = page_scan(bs, consumed, prev, line_h, avail_h);
    if bs.len() == 0 {
    } else {
        let rest = bs.drop_first();
        assert(forall|k: int| 0 <= k < rest.len() ==> #[trigger] rest[k] == bs[k + 1]);
        assert forall|k: int|
            0 <= k && k + 1 < rest.len() implies (#[trigger] rest[k]).offset <= (#[trigger] rest[k
            + 1]).offset by {
            assert(rest[k] == bs[k + 1]);
            assert(rest[k + 1] == bs[k + 1 + 1]);
            assert(bs[k + 1].offset <= bs[k + 1 + 1].offset);
        }
        assert forall|k: int|
            0 <= k && k + 2 < rest.len() implies (#[trigger] rest[k]).offset < (#[trigger] rest[k
            + 2]).offset by {
            assert(rest[k] == bs[k + 1]);
            assert(rest[k + 2] == bs[k + 1 + 2]);
            assert(bs[k + 1].offset < bs[k + 1 + 2].offset);
        }
        if consumed + line_h > avail_h {
            assert(prev < bs[0].offset);
            assert(rest.len() >= 1 ==> bs[0].offset <= bs[0int + 1].offset);
            assert(rest.len() >= 2 ==> bs[0].offset < bs[0int + 2].offset);
            lemma_page_scan_strict(rest, 0, bs[0].offset, line_h, avail_h);
            let tail = page_scan(rest, 0, bs[0].offset, line_h, avail_h);
            assert(ps == seq![prev] + tail);
            assert(ps[0] == prev);
            assert forall|a: int, b: int| 0 <= a < b < ps.len() implies ps[a] < ps[b] by {
                if a == 0 {
                    assert(ps[b] == tail[b - 1]);
                    if b - 1 > 0 {
                        assert(tail[0] < tail[b - 1]);
                    }
                    assert(prev < tail[0]);
                } else {
                    assert(ps[a] == tail[a - 1]);
                    assert(ps[b] == tail[b - 1]);
                }
            }
        } else {
            assert(rest.len() >= 1 ==> prev <= rest[0].offset) by {
                if rest.len() >= 1 {
                    assert(rest[0] == bs[1]);
                }
            }
            assert(rest.len() >= 2 ==> prev < rest[1].offset) by {
                if rest.len() >= 2 {
                    assert(rest[1] == bs[2]);
                    assert(bs[0].offset < bs[0int + 2].offset);
                    assert(bs[1].offset <= bs[1int + 1].offset);
                    assert(prev < bs[1int + 1].offset);
                }
            }
            assert((consumed + line_h) + line_h > avail_h && rest.len() >= 1 ==> prev
                < rest[0].offset) by {
                if rest.len() >= 1 {
                    assert(rest[0] == bs[1]);
                }
            }
            lemma_page_scan_strict(rest, consumed + line_h, prev, line_h, avail_h);
        }
    }
}

/// Page-start offsets are strictly increasing, beginning at byte zero,
/// and the final page's start is emitted exactly once even when that
/// page is not full.  This holds whenever at least one line fits on a
/// page, that is when the line height does not exceed the available
/// height.
pub proof fn lemma_page_offsets_strictly_increasing<F: GlyphMetrics, G: GlyphMetrics>(
    chars: Seq<(usize, char)>,
    text_font: F,
    hyphen_font: G,
    breaking: LineBreaking,
    available_width: int,
    available_height: int,
)
    requires
        wf_stream(chars),
        metrics_ok(text_font),
        metrics_ok(hyphen_font),
        text_font.spec_line_height() <= available_height,
    ensures
        ({
            let ps = page_offsets(
                line_breaks(chars, text_font, hyphen_font, breaking, available_width),
                text_font.spec_line_height(),
                available_height,
            );
            &&& ps.len() >= 1
            &&& ps[0] == 0
            &&& (forall|a: int, b: int| 0 <= a < b < ps.len() ==> ps[a] < ps[b])
        }),
{
    lemma_breaks_ordered(chars, text_font, hyphen_font, breaking, available_width);
    let bs = line_breaks(chars, text_font, hyphen_font, breaking, available_width);
    assert(bs.len() >= 1 ==> 0 <= bs[0].offset);
    assert(bs.len() >= 2 ==> 0 < bs[1].offset);
    lemma_page_scan_strict(
        bs,
        0,
        0,
        text_font.spec_line_height(),
        available_height,
    );
}

} // verus!
