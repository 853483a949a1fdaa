use vstd::prelude::*;

verus! {

/// Oracle giving per-character pixel widths and the uniform line height
/// of a font. Supplied by the caller; the engine only reads it.
pub trait GlyphMetrics: Sized {
    /// Pixel width of `ch` as a mathematical value.
    spec fn spec_char_width(&self, ch: char) -> int;

    /// Pixel height of one line as a mathematical value.
    spec fn spec_line_height(&self) -> int;

    /// Pixel width of the character `ch`.
    fn char_width(&self, ch: char) -> (w: i32)
        ensures
            w as int == self.spec_char_width(ch),
    ;

    /// Pixel height of one line of this font.
    fn line_height(&self) -> (h: i32)
        ensures
            h as int == self.spec_line_height(),
    ;
}

/// Well-formed metrics: every character has a non-negative width and a
/// line is at least one pixel tall.
pub open spec fn metrics_ok<F: GlyphMetrics>(font: F) -> bool {
    &&& forall|c: char| 0 <= #[trigger] font.spec_char_width(c)
    &&& 1 <= font.spec_line_height()
}

/// Deterministic fixed-width metrics: every character is `width` pixels
/// wide except the newline, which is zero pixels wide.
pub struct Fixed {
    pub width: i32,
    pub height: i32,
}

impl GlyphMetrics for Fixed {
    open spec fn spec_char_width(&self, ch: char) -> int {
        if ch == '\n' {
            0
        } else {
            self.width as int
        }
    }

    open spec fn spec_line_height(&self) -> int {
        self.height as int
    }

    fn char_width(&self, ch: char) -> (w: i32) {
        if ch == '\n' {
            0
        } else {
            self.width
        }
    }

    fn line_height(&self) -> (h: i32) {
        self.height
    }
}

} // verus!
