use typshow::markdown::{blocks_from_events, MdElement, MdEvent};
use typshow::notes::Notes;
use typshow::notes_db::NotesDb;

fn ratio(n: &Notes) -> f32 {
    n.scroll_ratio.num as f32 / n.scroll_ratio.den as f32
}

#[test]
fn test_new_is_empty() {
    let n = Notes::new();
    assert!(n.db.is_none());
    assert!(n.note_content.is_none());
    assert!(!n.editing);
}

#[test]
fn test_parse_md_empty_string_after_whitespace() {
    let e1 = Notes::parse_md("   \n\n  ");
    let e2 = Notes::parse_md("");
    assert!(e1.is_empty());
    assert!(e2.is_empty());
}

#[test]
fn test_parse_md_paragraphs() {
    let e = Notes::parse_md("Hello world.\n\nSecond para.");
    assert_eq!(e.len(), 2);
    assert!(matches!(e[0], MdElement::Paragraph(ref t) if t == "Hello world."));
    assert!(matches!(e[1], MdElement::Paragraph(ref t) if t == "Second para."));
}

#[test]
fn test_parse_md_headings_and_paragraphs() {
    let e = Notes::parse_md("# Title\n\nSome text.");
    assert_eq!(e.len(), 2);
    assert!(matches!(e[0], MdElement::Heading(1, ref t) if t == "Title"));
    assert!(matches!(e[1], MdElement::Paragraph(ref t) if t == "Some text."));
}

#[test]
fn test_parse_md_bold_and_code() {
    let e = Notes::parse_md("**bold** and `code` here");
    assert_eq!(e.len(), 1);
    if let MdElement::Paragraph(ref t) = e[0] {
        assert_eq!(t, "**bold** and `code` here");
    } else {
        panic!("Expected paragraph");
    }
}

#[test]
fn test_parse_md_unordered_list() {
    let e = Notes::parse_md("- Item A\n- Item B\n- Item C");
    assert_eq!(e.len(), 3);
    for item in &e {
        assert!(matches!(item, MdElement::ListItem(_)));
    }
}

#[test]
fn test_parse_md_code_block() {
    let e = Notes::parse_md("```\nlet x = 1;\n```");
    assert_eq!(e.len(), 1);
    if let MdElement::CodeBlock(ref c) = e[0] {
        assert_eq!(c, "let x = 1;");
    } else {
        panic!("Expected CodeBlock");
    }
}

#[test]
fn test_parse_md_horizontal_rule() {
    let e = Notes::parse_md("Before\n\n---\n\nAfter");
    assert!(e.iter().any(|el| matches!(el, MdElement::HorizontalRule)));
}

#[test]
fn test_format_inline_plain() {
    let rt = Notes::format_inline("hello world");
    assert_eq!(rt.text(), "hello world");
}

#[test]
fn test_format_inline_bold() {
    let rt = Notes::format_inline("**bold text**");
    assert!(!rt.text().contains("**"));
    assert!(rt.text().contains("bold text"));
}

#[test]
fn test_format_inline_code() {
    let rt = Notes::format_inline("use `fn()` here");
    assert!(rt.text().contains("fn()"));
    assert!(!rt.text().contains("`"));
}

#[test]
fn test_format_inline_bold_and_code() {
    let rt = Notes::format_inline("**`x`**");
    assert_eq!(rt.text(), "x");
}

#[test]
fn test_start_edit_copies_content() {
    let mut n = Notes::new();
    n.note_content = Some("Hello".to_string());
    n.start_edit();
    assert!(n.editing);
    assert_eq!(n.edit_buffer, "Hello");
}

#[test]
fn test_cancel_edit_clears() {
    let mut n = Notes::new();
    n.note_content = Some("Hello".to_string());
    n.start_edit();
    n.cancel_edit();
    assert!(!n.editing);
    assert!(n.edit_buffer.is_empty());
}

#[test]
fn test_update_scroll_target_first_page() {
    let mut n = Notes::new();
    n.update_scroll_target(0, 10);
    assert_eq!(ratio(&n), 0.0);
}

#[test]
fn test_update_scroll_target_middle() {
    let mut n = Notes::new();
    n.update_scroll_target(5, 10);
    assert!((ratio(&n) - 0.555).abs() < 0.01);
}

#[test]
fn test_update_scroll_target_last_page() {
    let mut n = Notes::new();
    n.update_scroll_target(9, 10);
    assert!((ratio(&n) - 1.0).abs() < 0.01);
}

#[test]
fn test_update_scroll_target_single_page() {
    let mut n = Notes::new();
    n.update_scroll_target(0, 1);
    assert_eq!(ratio(&n), 0.0);
}

#[test]
fn test_load_page_no_db() {
    let mut n = Notes::new();
    n.load_page(5);
    assert_eq!(n.current_page, 5);
    assert!(n.note_content.is_none());
    assert!(!n.editing);
}

fn deck_notes() -> Notes {
    let typ = "#show: slides.with(\n  title: \"Deck\",\n)\n= One\nalpha\n= Two\nbeta";
    Notes::with_db(Some(NotesDb::new(":memory:")), typ, 4)
}

#[test]
fn with_db_imports_and_shows_page_zero() {
    let n = deck_notes();
    assert!(n.has_content());
    assert_eq!(n.current_page, 0);
    assert_eq!(n.heading.as_deref(), Some("Deck"));
    assert_eq!(n.note_content.as_deref(), Some(""));
    assert!(n.elements.is_empty());
    assert_eq!(n.total_pages, 4);
}

#[test]
fn with_db_without_table_is_blank() {
    let n = Notes::with_db(None, "= One", 3);
    assert!(!n.has_content());
    assert_eq!(n.total_pages, 3);
    assert!(n.note_content.is_none());
}

#[test]
fn save_current_then_reload_shows_text() {
    let mut n = deck_notes();
    n.load_page(1);
    n.start_edit();
    n.edit_buffer = "# New\n\ntext".to_string();
    n.save_current();
    assert!(!n.editing);
    assert_eq!(n.elements.len(), 2);
    n.load_page(2);
    n.load_page(1);
    assert_eq!(n.note_content.as_deref(), Some("# New\n\ntext"));
    assert_eq!(n.heading.as_deref(), Some("One"));
}

#[test]
fn save_current_without_table_changes_nothing() {
    let mut n = Notes::new();
    n.edit_buffer = "x".to_string();
    n.editing = true;
    n.save_current();
    assert!(n.editing);
    assert!(n.note_content.is_none());
}

#[test]
fn delete_current_blanks_the_page() {
    let mut n = deck_notes();
    n.load_page(1);
    n.delete_current();
    assert!(n.note_content.is_none());
    n.load_page(1);
    assert_eq!(n.note_content.as_deref(), Some(""));
    assert!(n.heading.is_none());
}

#[test]
fn insert_note_duplicates_and_shifts() {
    let mut n = deck_notes();
    n.load_page(1);
    n.insert_note();
    assert_eq!(n.total_pages, 5);
    assert!(n.editing);
    assert_eq!(n.edit_buffer, "alpha");
    n.load_page(2);
    assert_eq!(n.heading.as_deref(), Some("One"));
    assert_eq!(n.note_content.as_deref(), Some("alpha"));
    n.load_page(3);
    assert_eq!(n.heading.as_deref(), Some("Two"));
    assert_eq!(n.note_content.as_deref(), Some("beta"));
}

#[test]
fn reimport_restores_the_deck() {
    let mut n = deck_notes();
    n.load_page(1);
    n.set_heading(Some("Changed"));
    assert_eq!(n.heading.as_deref(), Some("Changed"));
    let typ = "= Fresh\nnew text";
    n.reimport(typ, 2);
    assert_eq!(n.total_pages, 2);
    assert_eq!(n.current_page, 1);
    assert_eq!(n.heading.as_deref(), Some("Fresh"));
    assert_eq!(n.note_content.as_deref(), Some("new text"));
}

#[test]
fn heading_editor_trims_and_clears() {
    let mut n = deck_notes();
    n.load_page(1);
    n.start_edit_heading();
    assert_eq!(n.heading_edit_buffer, "One");
    n.heading_edit_buffer = "  Renamed  ".to_string();
    n.save_heading();
    assert!(!n.heading_editing);
    assert_eq!(n.heading.as_deref(), Some("Renamed"));
    n.start_edit_heading();
    n.heading_edit_buffer = "   ".to_string();
    n.save_heading();
    assert!(n.heading.is_none());
    n.load_page(1);
    assert!(n.heading.is_none());
    n.start_edit_heading();
    n.cancel_edit_heading();
    assert!(!n.heading_editing);
    assert!(n.heading_edit_buffer.is_empty());
}

#[test]
fn format_inline_flags() {
    let rt = Notes::format_inline("**a** `b`");
    assert!(rt.strong);
    assert!(rt.code);
    assert_eq!(rt.text(), "a b");
    let plain = Notes::format_inline("*`*");
    assert_eq!(plain.text(), "**");
    assert!(!plain.strong);
}

#[test]
fn parse_md_inline_marks_and_breaks() {
    let e = Notes::parse_md("*em* line\nnext\n\n## Sub");
    assert_eq!(e.len(), 2);
    assert!(matches!(e[0], MdElement::Paragraph(ref t) if t == "*em* line next"));
    assert!(matches!(e[1], MdElement::Heading(2, ref t) if t == "Sub"));
}

#[test]
fn blocks_from_hand_written_events() {
    let s = |t: &str| t.to_string();
    let events = vec![
        MdEvent::Start(s("Heading { level: H3, id: None, classes: [], attrs: [] }")),
        MdEvent::Text(s("Plan")),
        MdEvent::End(s("Heading(H3)")),
        MdEvent::Start(s("Paragraph")),
        MdEvent::Start(s("Strong")),
        MdEvent::Text(s("key")),
        MdEvent::End(s("Strong")),
        MdEvent::SoftBreak,
        MdEvent::Code(s("x")),
        MdEvent::End(s("Paragraph")),
        MdEvent::Rule,
        MdEvent::Other(s("Html(Borrowed(\"<br>\"))")),
        MdEvent::HardBreak,
        MdEvent::Text(s("  tail  ")),
    ];
    let blocks = blocks_from_events(&events);
    assert_eq!(blocks.len(), 4);
    assert!(matches!(blocks[0], MdElement::Heading(3, ref t) if t == "Plan"));
    assert!(matches!(blocks[1], MdElement::Paragraph(ref t) if t == "**key** `x`"));
    assert!(matches!(blocks[2], MdElement::HorizontalRule));
    assert!(matches!(blocks[3], MdElement::Paragraph(ref t) if t == "tail"));
}

#[test]
fn blank_paragraphs_give_no_block() {
    let events = vec![
        MdEvent::Start("Item".to_string()),
        MdEvent::Text("   ".to_string()),
        MdEvent::End("Item".to_string()),
        MdEvent::Start("CodeBlock(Indented)".to_string()),
        MdEvent::End("CodeBlock".to_string()),
    ];
    let blocks = blocks_from_events(&events);
    assert_eq!(blocks.len(), 1);
    assert!(matches!(blocks[0], MdElement::CodeBlock(ref t) if t.is_empty()));
}

#[test]
fn insert_note_refused_when_last_page_is_taken() {
    let mut n = deck_notes();
    n.load_page(1);
    if let Some(db) = n.db.as_mut() {
        db.save(usize::MAX, "end");
    }
    assert!(!n.insert_note());
    assert_eq!(n.total_pages, 4);
    assert!(!n.editing);
}

#[test]
fn insert_note_without_table_does_nothing() {
    let mut n = Notes::new();
    assert!(n.insert_note());
    assert_eq!(n.total_pages, 0);
}
