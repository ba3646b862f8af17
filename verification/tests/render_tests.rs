use mdchat::render::MarkdownRenderer;
use mdchat::events::{MdEvent, MdTag};

#[test]
fn single_row_table_fast_path() {
    let r = MarkdownRenderer::new(40);
    let out = r.render("| A | B |\n|---|---|\n| 1 | 2 |");
    assert!(out.contains('\u{250c}'), "top border present");
    assert!(out.contains('\u{2510}'));
    assert!(out.contains('\u{2514}'), "bottom border present");
    assert!(out.contains('\u{2518}'));
    assert!(out.contains('A'));
    assert!(out.contains('B'));
    assert!(out.contains('1'));
    assert!(out.contains('2'));
    assert!(!out.contains(':'), "plain dashes, no colon markers");
    assert_eq!(out.lines().count(), 5, "top, header, separator, one data row, bottom");
}

#[test]
fn alignment_row_colon_markers() {
    let r = MarkdownRenderer::new(60);
    let out = r.render("| H1 | H2 | H3 |\n|:--|--:|:-:|\n| a | b | c |");
    let sep = out
        .lines()
        .find(|l| l.contains('\u{251c}'))
        .expect("separator row present");
    assert!(sep.starts_with("  \u{251c}:"), "first column left-aligned: leading colon");
    assert!(sep.ends_with("\u{2524}"));
    assert_eq!(sep.matches(':').count(), 4, "left 1, right 1, center 2");
    let cols: Vec<&str> = sep
        .trim_start_matches("  \u{251c}")
        .trim_end_matches('\u{2524}')
        .split('\u{253c}')
        .collect();
    assert_eq!(cols.len(), 3);
    assert!(cols[0].starts_with(':') && !cols[0].ends_with(':'));
    assert!(!cols[1].starts_with(':') && cols[1].ends_with(':'));
    assert!(cols[2].starts_with(':') && cols[2].ends_with(':'));
}

#[test]
fn code_block_with_language_highlights() {
    let r = MarkdownRenderer::new(80);
    let out = r.render("```rust\nfn main() {}\n```");
    assert!(out.starts_with("\n    "), "code lines are indented four spaces");
    assert!(out.contains("\u{1b}[38;2;"), "a resolved language yields color escapes");
    assert!(out.contains("fn"));
    assert!(out.contains("main"));
}

#[test]
fn code_block_plain_fallback_has_no_escapes() {
    let r = MarkdownRenderer::new(80);
    let out = r.render("```\nlet x = 1;\n```");
    assert!(!out.contains('\u{1b}'), "plain fallback embeds no escapes");
    assert_eq!(out, "\n    let x = 1;");
}

#[test]
fn code_block_unknown_language_falls_back_to_plain() {
    let r = MarkdownRenderer::new(80);
    let out = r.render("```nosuchlanguage9z\nplain text here\n```");
    assert!(!out.contains('\u{1b}'));
    assert!(out.contains("    plain text here"));
}

#[test]
fn code_block_hint_used_when_fence_is_bare() {
    let r = MarkdownRenderer::new(80);
    let out = r.render_with_hint("```\nfn main() {}\n```", Some("rust"));
    assert!(out.contains("\u{1b}[38;2;"), "the hint resolves the language");
}

#[test]
fn bullet_list_items() {
    let r = MarkdownRenderer::new(80);
    let out = r.render("* one\n* two\n* three");
    assert_eq!(out, "  \u{2022} one\n  \u{2022} two\n  \u{2022} three");
}

#[test]
fn list_item_continuation_alignment() {
    let r = MarkdownRenderer::new(24);
    let out = r.render("* alpha beta gamma delta epsilon");
    let lines: Vec<&str> = out.lines().collect();
    assert!(lines.len() >= 2, "narrow width forces a wrap");
    assert!(lines[0].starts_with("  \u{2022} "));
    for l in &lines[1..] {
        assert!(l.starts_with("    "), "continuations align under the text");
        assert!(!l.starts_with("     "), "exactly four blanks");
    }
}

#[test]
fn stray_pipe_in_prose_is_not_a_table() {
    let r = MarkdownRenderer::new(40);
    let out = r.render("use the pipe | here");
    assert!(!out.contains('\u{250c}'));
    assert!(!out.contains('\u{2502}'));
    assert!(!out.contains('\u{2500}'));
    assert!(out.contains("use the pipe | here"));
    assert!(out.starts_with("  "));
}

#[test]
fn plain_text_has_no_box_glyphs() {
    let r = MarkdownRenderer::new(80);
    let out = r.render("just some plain text, nothing more");
    assert!(!out.contains('\u{250c}'));
    assert!(!out.contains('\u{2502}'));
    assert_eq!(out, "  just some plain text, nothing more");
}

#[test]
fn narrow_text_is_unchanged_but_for_indent() {
    let r = MarkdownRenderer::new(80);
    let out = r.render("hello world");
    assert_eq!(out, "  hello world");
}

#[test]
fn greedy_wrap_at_narrow_width() {
    let r = MarkdownRenderer::new(12);
    let out = r.render("aaa bbb ccc");
    assert_eq!(out, "  aaa bbb\n  ccc");
}

#[test]
fn soft_break_becomes_space() {
    let r = MarkdownRenderer::new(80);
    let out = r.render("a\nb");
    assert_eq!(out, "  a b");
}

#[test]
fn emphasis_and_strong_escapes() {
    let r = MarkdownRenderer::new(80);
    let out = r.render("*hi* **yo**");
    assert!(out.contains("\u{1b}[3m"));
    assert!(out.contains("\u{1b}[23m"));
    assert!(out.contains("\u{1b}[1m"));
    assert!(out.contains("\u{1b}[22m"));
}

#[test]
fn inline_code_wrapped_in_backticks() {
    let r = MarkdownRenderer::new(80);
    let out = r.render("use `foo` now");
    assert!(out.contains("`foo`"));
}

#[test]
fn empty_input_renders_empty() {
    let r = MarkdownRenderer::new(80);
    assert_eq!(r.render(""), "");
}

#[test]
fn render_events_direct_paragraph() {
    let r = MarkdownRenderer::new(80);
    let evs = vec![
        MdEvent::Start(MdTag::Paragraph),
        MdEvent::Text(vec!['h', 'i']),
        MdEvent::End(MdTag::Paragraph),
    ];
    assert_eq!(r.render_events(&evs, None), "  hi");
}

#[test]
fn short_row_is_padded_to_header_count() {
    let r = MarkdownRenderer::new(40);
    let out = r.render("| A | B |\n|---|---|\n| 1 |");
    assert_eq!(out.lines().count(), 5);
    assert!(out.contains('1'));
}

#[test]
fn carriage_returns_are_stripped_from_line_ends() {
    let r = MarkdownRenderer::new(80);
    assert_eq!(r.render("a\r\nb"), "  a b");
}

#[test]
fn hard_break_forces_a_visual_break() {
    let r = MarkdownRenderer::new(80);
    assert_eq!(r.render("a\\\nb"), "  a\n\n  b");
}

#[test]
fn escape_sequences_are_zero_width_for_wrapping() {
    let r = MarkdownRenderer::new(12);
    let out = r.render("*aaa* bbb ccc");
    let lines: Vec<&str> = out.lines().collect();
    assert_eq!(lines.len(), 2);
    assert!(
        lines[0].contains("bbb"),
        "decorated text wraps by visible width, not raw length: {:?}",
        out
    );
    assert_eq!(lines[1], "  ccc");
}

#[test]
fn table_inside_larger_document_uses_event_path() {
    let r = MarkdownRenderer::new(60);
    let out = r.render("intro text\n\n| A | B |\n|---|---|\n| 1 | 2 |\n\nafter");
    assert!(out.contains("intro text"));
    assert!(out.contains("after"));
    assert!(out.contains('\u{250c}'), "the in-stream table still renders boxed");
    assert!(out.contains('\u{2502}'));
}
