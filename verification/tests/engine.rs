use linebreak::breaks::{count_lines, limit_line_breaks, select_line_breaks, LineBreaking};
use linebreak::constant::{screen, size};
use linebreak::metrics::{Fixed, GlyphMetrics};
use linebreak::pages::select_pages;
use linebreak::spans::{break_text_to_spans, Appendix};

fn fixed_font() -> Fixed {
    Fixed { width: 1, height: 1 }
}

fn stream(text: &str) -> Vec<(usize, char)> {
    text.char_indices().collect()
}

fn spans_with(text: &str, font: &Fixed, policy: LineBreaking, max_width: i32) -> Vec<(String, bool)> {
    let chars = stream(text);
    break_text_to_spans(&chars, font, font, policy, max_width)
        .iter()
        .map(|span| {
            (
                text[span.start..span.end].to_string(),
                matches!(span.append, Appendix::Hyphen),
            )
        })
        .collect()
}

fn spans_from(text: &str, max_width: i32) -> Vec<(String, bool)> {
    spans_with(text, &fixed_font(), LineBreaking::BreakAtWhitespace, max_width)
}

fn expected(pairs: &[(&str, bool)]) -> Vec<(String, bool)> {
    pairs.iter().map(|(t, h)| (t.to_string(), *h)).collect()
}

#[test]
fn test_span() {
    assert_eq!(spans_from("hello", 5), expected(&[("hello", false)]));
    assert_eq!(spans_from("", 5), expected(&[("", false)]));
    assert_eq!(
        spans_from("hello world", 5),
        expected(&[("hello ", false), ("world", false)])
    );
    assert_eq!(
        spans_from("hello\nworld", 5),
        expected(&[("hello\n", false), ("world", false)])
    );
}

#[test]
fn test_leading_trailing() {
    assert_eq!(
        spans_from("\nhello\nworld\n", 5),
        expected(&[("\n", false), ("hello\n", false), ("world\n", false), ("", false)])
    );
}

#[test]
fn test_long_word() {
    assert_eq!(
        spans_from("Constantinople", 7),
        expected(&[("Consta", true), ("ntinop", true), ("le", false)])
    );

    assert_eq!(
        spans_from("Down with the establishment!", 5),
        expected(&[
            ("Down ", false),
            ("with ", false),
            ("the ", false),
            ("esta", true),
            ("blis", true),
            ("hmen", true),
            ("t!", false),
        ])
    );
}

#[test]
fn test_char_boundary() {
    assert_eq!(
        spans_from("+ěščřžýáíé", 5),
        expected(&[("+ěšč", true), ("řžýá", true), ("íé", false)])
    );
}

#[test]
fn test_hyphenating_policy() {
    assert_eq!(
        spans_with("Constantinople", &fixed_font(), LineBreaking::BreakWordsAndInsertHyphen, 7),
        expected(&[("Consta", true), ("ntinop", true), ("le", false)])
    );
    assert_eq!(
        spans_with("hello world", &fixed_font(), LineBreaking::BreakWordsAndInsertHyphen, 5),
        expected(&[("hello ", false), ("world", false)])
    );
}

#[test]
fn test_char_boundary_offsets() {
    let text = "+ěščřžýáíé";
    let chars = stream(text);
    let font = fixed_font();
    let spans = break_text_to_spans(&chars, &font, &font, LineBreaking::BreakAtWhitespace, 5);
    for span in &spans {
        assert!(text.is_char_boundary(span.start));
        assert!(text.is_char_boundary(span.end));
    }
}

#[test]
fn test_spans_concatenation_reproduces_text() {
    let font = fixed_font();
    for text in ["hello world", "\nhello\nworld\n", "Constantinople", "+ěščřžýáíé", ""] {
        let chars = stream(text);
        let spans = break_text_to_spans(&chars, &font, &font, LineBreaking::BreakAtWhitespace, 5);
        let mut rebuilt = String::new();
        for span in &spans {
            rebuilt.push_str(&text[span.start..span.end]);
        }
        assert_eq!(rebuilt, text);
    }
}

#[test]
fn test_count_lines_matches_breaks() {
    let font = fixed_font();
    for text in ["hello world", "hello", "", "\nhello\nworld\n", "Constantinople"] {
        let chars = stream(text);
        let breaks = select_line_breaks(&chars, &font, &font, LineBreaking::BreakAtWhitespace, 5);
        let lines = count_lines(&chars, &font, &font, LineBreaking::BreakAtWhitespace, 5);
        assert_eq!(lines, breaks.len() + 1);
    }
    let chars = stream("hello world");
    assert_eq!(count_lines(&chars, &font, &font, LineBreaking::BreakAtWhitespace, 5), 2);
    let empty = stream("");
    assert_eq!(count_lines(&empty, &font, &font, LineBreaking::BreakAtWhitespace, 5), 1);
}

#[test]
fn test_line_width_within_budget() {
    let font = fixed_font();
    let chars = stream("Down with the establishment!");
    let breaks = select_line_breaks(&chars, &font, &font, LineBreaking::BreakAtWhitespace, 5);
    for br in &breaks {
        // A hyphenated line leaves room for the hyphen glyph as well.
        if matches!(br.style, linebreak::breaks::BreakStyle::InsideWord) {
            assert!(br.width + 1 <= 5);
        } else {
            assert!(br.width <= 5);
        }
    }
}

#[test]
fn test_unbroken_text_width_budget() {
    let font = fixed_font();
    let chars = stream("Constantinople");
    let breaks = select_line_breaks(&chars, &font, &font, LineBreaking::BreakAtWhitespace, 7);
    for br in &breaks {
        assert!(br.width <= 7);
    }
    let wide = Fixed { width: 2, height: 1 };
    let chars = stream("ab");
    let breaks = select_line_breaks(&chars, &wide, &wide, LineBreaking::BreakAtWhitespace, 1);
    for br in &breaks {
        // Each line fits, or is a single character of width two alone.
        assert!(br.width <= 1 || br.width == 2);
    }
}

#[test]
fn test_overwide_char_gets_own_line() {
    let wide = Fixed { width: 2, height: 1 };
    assert_eq!(
        spans_with("ab", &wide, LineBreaking::BreakAtWhitespace, 1),
        expected(&[("", false), ("a", false), ("b", false)])
    );
}

#[test]
fn test_select_pages() {
    let font = fixed_font();
    let chars = stream("a\nb\nc\nd\ne");
    let pages = select_pages(&chars, &font, &font, LineBreaking::BreakAtWhitespace, 5, 2);
    assert_eq!(pages, vec![0, 6]);
    let increasing = pages.windows(2).all(|w| w[0] < w[1]);
    assert!(increasing);
}

#[test]
fn test_select_pages_single_page() {
    let font = fixed_font();
    let chars = stream("a\nb\nc");
    let pages = select_pages(&chars, &font, &font, LineBreaking::BreakAtWhitespace, 5, 2);
    assert_eq!(pages, vec![0]);
    let empty = stream("");
    let pages = select_pages(&empty, &font, &font, LineBreaking::BreakAtWhitespace, 5, 2);
    assert_eq!(pages, vec![0]);
}

#[test]
fn test_limit_line_breaks() {
    let font = fixed_font();
    let chars = stream("a\nb\nc\nd\ne");
    let breaks = select_line_breaks(&chars, &font, &font, LineBreaking::BreakAtWhitespace, 5);
    assert_eq!(breaks.len(), 4);
    let limited = limit_line_breaks(&breaks, 1, 2);
    assert_eq!(limited.len(), 2);
    assert_eq!(limited[0].offset, 2);
    assert_eq!(limited[1].offset, 4);
    let all = limit_line_breaks(&breaks, 1, 100);
    assert_eq!(all.len(), 4);
}

#[test]
fn test_fixed_metrics() {
    let font = fixed_font();
    assert_eq!(font.char_width('a'), 1);
    assert_eq!(font.char_width('\n'), 0);
    assert_eq!(font.line_height(), 1);
}

#[test]
fn test_screen_constants() {
    let s = size();
    assert_eq!(s.x, 240);
    assert_eq!(s.y, 240);
    let r = screen();
    assert_eq!(r.x0, 0);
    assert_eq!(r.y0, 0);
    assert_eq!(r.x1, 240);
    assert_eq!(r.y1, 240);
}
