use lilo::markdown::{
    highlight, line_at_character, toggle_checkbox_at_character, InlineBase,
    SpanStyle,
    StyledSpan,
};

fn spelled(source: &str, spans: &[StyledSpan]) -> String {
    let chars: Vec<char> = source.chars().collect();
    let mut text = String::new();
    for span in spans {
        for c in &chars[span.start..span.end] {
            text.push(*c);
        }
    }
    text
}

#[test]
fn highlighting_never_changes_the_source_text() {
    let source = "# Заголовок\n\n- **жирный** и `код`\n[[Другая заметка|ссылка]] 🦀\n";
    let spans = highlight(source, None);

    assert_eq!(spelled(source, &spans), source);
}

#[test]
fn incomplete_markers_remain_editable() {
    let source = "Незакрытые **звёздочки и [ссылка";
    let spans = highlight(source, Some(0));

    assert_eq!(spelled(source, &spans), source);
}

#[test]
fn cursor_line_is_counted_by_characters_not_utf8_bytes() {
    let source = "ёж 🦀\nвторая строка";
    let first_line_character_count = "ёж 🦀\n".chars().count();

    assert_eq!(line_at_character(source, first_line_character_count), 1);
}

#[test]
fn inactive_line_contains_collapsed_marker_sections() {
    let spans = highlight("**text**", None);

    assert!(spans.iter().any(|span| span.style == SpanStyle::HiddenMarker));
}

#[test]
fn checkbox_toggles_only_from_its_marker() {
    let mut text = "  - [ ] task".to_owned();
    assert!(toggle_checkbox_at_character(&mut text, 4));
    assert_eq!(text, "  - [x] task");
    assert!(!toggle_checkbox_at_character(&mut text, 10));
}

#[test]
fn toggling_twice_restores_the_text() {
    let original = "notes\n\t- [X] done\nafter";
    let mut text = original.to_owned();
    assert!(toggle_checkbox_at_character(&mut text, 8));
    assert_eq!(text, "notes\n\t- [ ] done\nafter");
    assert!(toggle_checkbox_at_character(&mut text, 8));
    assert_eq!(text, "notes\n\t- [x] done\nafter");
}

#[test]
fn checkbox_click_past_the_end_uses_the_last_line() {
    let mut text = "- [ ] a".to_owned();
    assert!(!toggle_checkbox_at_character(&mut text, 100));
    assert_eq!(text, "- [ ] a");
    let mut marker_only = "- [ ] ".to_owned();
    assert!(!toggle_checkbox_at_character(&mut marker_only, 100));
}

#[test]
fn toggling_text_without_a_marker_changes_nothing() {
    let mut text = "aПривет".to_owned();
    assert!(!toggle_checkbox_at_character(&mut text, 0));
    assert_eq!(text, "aПривет");
    let mut euro = "abcde€".to_owned();
    assert!(!toggle_checkbox_at_character(&mut euro, 0));
    assert_eq!(euro, "abcde€");
}

#[test]
fn line_index_counts_newlines_before_the_character() {
    assert_eq!(line_at_character("a\nb\nc", 0), 0);
    assert_eq!(line_at_character("a\nb\nc", 2), 1);
    assert_eq!(line_at_character("a\nb\nc", 99), 2);
}

#[test]
fn active_line_shows_all_markers() {
    let source = "**a**\n**b**";
    let spans = highlight(source, Some(1));
    let chars: Vec<char> = source.chars().collect();
    for span in &spans {
        let line = chars[..span.start].iter().filter(|c| **c == '\n').count();
        if span.style == SpanStyle::HiddenMarker {
            assert_ne!(line, 1);
        }
    }
    assert!(spans.iter().any(|span| span.style == SpanStyle::SourceMarker));
    assert_eq!(spelled(source, &spans), source);
}

#[test]
fn spans_tile_the_source() {
    let source = "> quote *it*\n1. item ~~gone~~\n```\ncode\n```\n---\n## Head\n[l](t) `c` __b__";
    let spans = highlight(source, None);
    assert_eq!(spans[0].start, 0);
    for pair in spans.windows(2) {
        assert_eq!(pair[0].end, pair[1].start);
    }
    assert_eq!(spans.last().unwrap().end, source.chars().count());
    assert!(spans.iter().any(|s| s.style == SpanStyle::CodeBlock));
    assert!(spans.iter().any(|s| s.style == SpanStyle::Heading(2)));
    assert!(spans.iter().any(|s| s.style == SpanStyle::InlineCode));
}

#[test]
fn wiki_link_alias_hides_the_target_on_inactive_lines() {
    let source = "[[Target|label]]";
    let spans = highlight(source, None);
    let hidden: Vec<&StyledSpan> = spans.iter().filter(|s| s.style == SpanStyle::HiddenMarker).collect();
    assert!(hidden.iter().any(|s| s.start == 2 && s.end == 9));
    assert!(spans.iter().any(|s| s.style == SpanStyle::Link && s.start == 9 && s.end == 14));
}

#[test]
fn empty_source_has_no_spans() {
    assert!(highlight("", None).is_empty());
}

#[test]
fn toggling_a_task_twice_restores_it() {
    let mut text = "intro\n\t- [x] done\nlast".to_owned();
    assert!(toggle_checkbox_at_character(&mut text, 9));
    assert_eq!(text, "intro\n\t- [ ] done\nlast");
    assert!(toggle_checkbox_at_character(&mut text, 9));
    assert_eq!(text, "intro\n\t- [x] done\nlast");
}

fn styles(source: &str, active_line: Option<usize>) -> Vec<(usize, usize, SpanStyle)> {
    highlight(source, active_line)
        .into_iter()
        .map(|span| (span.start, span.end, span.style))
        .collect()
}

#[test]
fn headings_collapse_their_hashes_off_the_cursor_line() {
    assert_eq!(
        styles("# Title", None),
        vec![
            (0, 0, SpanStyle::Body),
            (0, 2, SpanStyle::HiddenMarker),
            (2, 7, SpanStyle::Heading(1)),
            (7, 7, SpanStyle::Body),
        ]
    );
    assert_eq!(styles("## T", Some(0))[1], (0, 3, SpanStyle::HeadingMarker(2)));
}

#[test]
fn strong_text_and_wiki_labels() {
    assert_eq!(
        styles("**b**\n", None),
        vec![
            (0, 2, SpanStyle::HiddenMarker),
            (2, 3, SpanStyle::Strong(InlineBase::Body)),
            (3, 5, SpanStyle::HiddenMarker),
            (5, 6, SpanStyle::Body),
        ]
    );
    assert_eq!(
        styles("[[a|b]]", None),
        vec![
            (0, 2, SpanStyle::HiddenMarker),
            (2, 4, SpanStyle::HiddenMarker),
            (4, 5, SpanStyle::Link),
            (5, 7, SpanStyle::HiddenMarker),
            (7, 7, SpanStyle::Body),
        ]
    );
    assert_eq!(
        styles("[[a|b]]", Some(0))[1],
        (2, 5, SpanStyle::Link)
    );
}

#[test]
fn code_fences_switch_code_blocks() {
    assert_eq!(
        styles("```\n*x*\n```\n*x*", Some(3)),
        vec![
            (0, 3, SpanStyle::HiddenMarker),
            (3, 4, SpanStyle::Body),
            (4, 7, SpanStyle::CodeBlock),
            (7, 8, SpanStyle::Body),
            (8, 11, SpanStyle::HiddenMarker),
            (11, 12, SpanStyle::Body),
            (12, 13, SpanStyle::SourceMarker),
            (13, 14, SpanStyle::Italic(InlineBase::Body)),
            (14, 15, SpanStyle::SourceMarker),
            (15, 15, SpanStyle::Body),
        ]
    );
}

#[test]
fn quotes_lists_and_rules() {
    assert_eq!(
        styles("> q", None),
        vec![
            (0, 0, SpanStyle::Body),
            (0, 1, SpanStyle::HiddenMarker),
            (1, 3, SpanStyle::Quote),
            (3, 3, SpanStyle::Body),
        ]
    );
    assert_eq!(
        styles("- [ ] t", None),
        vec![
            (0, 0, SpanStyle::Body),
            (0, 6, SpanStyle::Accent),
            (6, 7, SpanStyle::Body),
            (7, 7, SpanStyle::Body),
        ]
    );
    assert_eq!(styles("- - -", None)[0], (0, 5, SpanStyle::SourceMarker));
}
