use typshow::notes_db::{NoteRecord, NotesDb};
use typshow::outline::{
    build_segments, extract_typ_segments, find_pagebreak_lines, parse_typ_headings,
    parse_typ_title, HeadingInfo,
};

fn test_db() -> NotesDb {
    NotesDb::new(":memory:")
}

#[test]
fn test_save_and_load() {
    let mut db = test_db();
    db.save(0, "Hello world");
    let note = db.load(0);
    assert_eq!(note.content, "Hello world");
}

#[test]
fn test_load_missing_page() {
    let db = test_db();
    let note = db.load(99);
    assert_eq!(note.content, "");
    assert!(note.heading.is_none());
}

#[test]
fn test_save_overwrites() {
    let mut db = test_db();
    db.save(0, "v1");
    db.save(0, "v2");
    let note = db.load(0);
    assert_eq!(note.content, "v2");
}

#[test]
fn test_set_heading() {
    let mut db = test_db();
    db.set_heading(0, Some("Intro"));
    let note = db.load(0);
    assert_eq!(note.heading.unwrap(), "Intro");
}

#[test]
fn test_set_heading_none() {
    let mut db = test_db();
    db.set_heading(0, None);
    let note = db.load(0);
    assert!(note.heading.is_none());
}

#[test]
fn test_has_data_empty() {
    let db = test_db();
    assert!(!db.has_data());
}

#[test]
fn test_has_data_with_rows() {
    let mut db = test_db();
    db.save(0, "data");
    assert!(db.has_data());
}

#[test]
fn test_migrate_no_headings() {
    let mut db = test_db();
    db.migrate_from_typ("plain text\nno headings", 3);
    assert_eq!(db.load(0).heading, None);
    assert_eq!(db.load(1).heading, None);
    assert_eq!(db.load(2).heading, None);
}

#[test]
fn test_migrate_with_headings() {
    let mut db = test_db();
    let typ = "= Intro\n\nSome text\n\n= Body\n\nMore text\n\n= Conclusion";
    db.migrate_from_typ(typ, 6);
    assert!(db.has_data());
    // No title: in typ → page 0 = None
    assert_eq!(db.load(0).heading, None);
    // = headings: each gets 1 page
    assert_eq!(db.load(1).heading.unwrap(), "Intro");
    assert_eq!(db.load(2).heading.unwrap(), "Body");
    assert_eq!(db.load(3).heading.unwrap(), "Conclusion");
    // Remaining pages inherit last heading
    assert_eq!(db.load(4).heading.unwrap(), "Conclusion");
    assert_eq!(db.load(5).heading.unwrap(), "Conclusion");
}

#[test]
fn test_migrate_with_title() {
    let mut db = test_db();
    let typ = r##"#show: slides.with(
  title: "Mi Presentación",
  subtitle: "Test",
)

= Intro
Some text
= Body
More text
= End"##;
    db.migrate_from_typ(typ, 5);
    // Page 0: parsed title
    assert_eq!(db.load(0).heading.unwrap(), "Mi Presentación");
    // = headings: each 1 page
    assert_eq!(db.load(1).heading.unwrap(), "Intro");
    assert_eq!(db.load(2).heading.unwrap(), "Body");
    assert_eq!(db.load(3).heading.unwrap(), "End");
    assert_eq!(db.load(4).heading.unwrap(), "End");
}

#[test]
fn test_migrate_idempotent() {
    let mut db = test_db();
    let typ = "= A\n\n= B\n\n= C";
    db.migrate_from_typ(typ, 4);
    db.migrate_from_typ(typ, 4);
    assert_eq!(db.load(0).heading, None);
    assert_eq!(db.load(1).heading.unwrap(), "A");
    assert_eq!(db.load(2).heading.unwrap(), "B");
    assert_eq!(db.load(3).heading.unwrap(), "C");
}

#[test]
fn test_migrate_with_pagebreak() {
    let mut db = test_db();
    let typ = "= A\ncontent\n#pagebreak()\n= B\nmore\n#pagebreak()\n= C";
    db.migrate_from_typ(typ, 4);
    assert!(db.has_data());
    assert_eq!(db.load(0).heading, None);
    assert_eq!(db.load(1).heading.unwrap(), "A");
    assert_eq!(db.load(2).heading.unwrap(), "B");
    assert_eq!(db.load(3).heading.unwrap(), "C");
}

#[test]
fn test_migrate_single_page() {
    let mut db = test_db();
    db.migrate_from_typ("= Title", 1);
    assert_eq!(db.load(0).heading, None);
}

#[test]
fn test_migrate_mixed_levels() {
    let mut db = test_db();
    let typ = "= Title\n== Sec1\n=== SubA\n=== SubB\n== Sec2\n=== SubC";
    db.migrate_from_typ(typ, 10);
    // Page 0: no title: in content
    assert_eq!(db.load(0).heading, None);
    // Fixed (=,==): Title→1, Sec1→2, Sec2→3
    assert_eq!(db.load(1).heading.unwrap(), "Title");
    assert_eq!(db.load(2).heading.unwrap(), "Sec1");
    assert_eq!(db.load(3).heading.unwrap(), "Sec2");
    // Flex (===): SubA, SubB, SubC split pages 4-9 (6 pages, 2 each)
    assert_eq!(db.load(4).heading.unwrap(), "SubA");
    assert_eq!(db.load(5).heading.unwrap(), "SubA");
    assert_eq!(db.load(6).heading.unwrap(), "SubB");
    assert_eq!(db.load(7).heading.unwrap(), "SubB");
    assert_eq!(db.load(8).heading.unwrap(), "SubC");
    assert_eq!(db.load(9).heading.unwrap(), "SubC");
}

#[test]
fn test_parse_typ_title_basic() {
    let src = r##"#show: slides.with(
  title: "Mi Presentación",
)"##;
    assert_eq!(parse_typ_title(src).unwrap(), "Mi Presentación");
}

#[test]
fn test_parse_typ_title_escaped_quote() {
    let src = r##"title: "Hello \"World\"" "##;
    assert_eq!(parse_typ_title(src).unwrap(), r##"Hello \"World\""##);
}

#[test]
fn test_parse_typ_title_not_found() {
    assert!(parse_typ_title("= No title here").is_none());
}

#[test]
fn test_find_pagebreak_lines() {
    let lines = find_pagebreak_lines("a\n#pagebreak()\nb\n#pagebreak");
    assert_eq!(lines, vec![1, 3]);
}

#[test]
fn test_find_pagebreak_lines_none() {
    let lines = find_pagebreak_lines("no breaks here");
    assert!(lines.is_empty());
}

#[test]
fn test_build_segments_empty() {
    let segs = build_segments(&[], &[], 100);
    assert!(segs.is_empty());
}

#[test]
fn test_build_segments_with_headings() {
    let headings = vec![
        HeadingInfo { level: 1, text: "A".into(), line: 0 },
        HeadingInfo { level: 1, text: "B".into(), line: 10 },
    ];
    let segs = build_segments(&headings, &[], 30);
    assert_eq!(segs.len(), 2);
    assert_eq!(segs[0].2, Some("A".into()));
    assert_eq!(segs[0].1, 10);
    assert_eq!(segs[1].2, Some("B".into()));
    assert_eq!(segs[1].1, 30);
}

#[test]
fn test_parse_typ_headings_levels() {
    let src = "= H1\n== H2\n=== H3\n==== H4";
    let h = parse_typ_headings(src);
    assert_eq!(h.len(), 4);
    assert_eq!(h[0].text, "H1");
    assert_eq!(h[1].text, "H2");
    assert_eq!(h[2].text, "H3");
    assert_eq!(h[3].text, "H4");
}

#[test]
fn test_delete_note() {
    let mut db = test_db();
    db.save(0, "content");
    assert!(db.has_data());
    db.delete(0);
    let note = db.load(0);
    assert_eq!(note.content, "");
}

#[test]
fn test_insert_note_existing() {
    let mut db = test_db();
    db.save(0, "existing");
    db.insert_note(0);
    let note = db.load(0);
    assert_eq!(note.content, "existing");
}

#[test]
fn test_clear_all() {
    let mut db = test_db();
    db.save(0, "a");
    db.save(1, "b");
    db.clear_all();
    assert!(!db.has_data());
}

#[test]
fn test_extract_segments_with_headings() {
    let src = "= Intro\nsome intro text\n\n= Body\nthe body content";
    let segs = extract_typ_segments(src);
    assert_eq!(segs.len(), 2);
    assert_eq!(segs[0].heading.as_deref(), Some("Intro"));
    assert_eq!(segs[0].content, "some intro text");
    assert_eq!(segs[1].heading.as_deref(), Some("Body"));
    assert_eq!(segs[1].content, "the body content");
}

#[test]
fn test_extract_segments_with_pagebreak() {
    let src = "= A\ncontent A\n#pagebreak()\n= B\ncontent B";
    let segs = extract_typ_segments(src);
    assert_eq!(segs.len(), 3);
    assert_eq!(segs[0].content, "content A");
    assert!(segs[1].content.is_empty());
    assert_eq!(segs[1].heading.as_deref(), Some("A"));
    assert_eq!(segs[2].content, "content B");
    assert_eq!(segs[2].heading.as_deref(), Some("B"));
}

#[test]
fn test_extract_segments_empty() {
    let segs = extract_typ_segments("");
    assert!(segs.is_empty());
}

#[test]
fn test_migrate_with_content() {
    let mut db = test_db();
    let typ = "= Intro\n\nSlide 1 text\n\n= Body\n\nSlide 2 text";
    db.migrate_from_typ(typ, 4);
    assert_eq!(db.load(1).content, "Slide 1 text");
    assert_eq!(db.load(2).content, "Slide 2 text");
    assert_eq!(db.load(2).heading.unwrap(), "Body");
}

#[test]
fn test_migrate_uses_segment_content() {
    let mut db = test_db();
    let typ = "== Sec1\ndetailed\ncontent here\n== Sec2\nmore\ndetails";
    db.migrate_from_typ(typ, 3);
    assert_eq!(db.load(1).content, "detailed\ncontent here");
    assert_eq!(db.load(2).content, "more\ndetails");
}

#[test]
fn test_shift_up_shifts_pages() {
    let mut db = test_db();
    db.save(0, "page0");
    db.save(1, "page1");
    db.save(2, "page2");
    db.shift_up(1);
    assert_eq!(db.load(0).content, "page0");
    assert_eq!(db.load(1).content, "");
    assert_eq!(db.load(2).content, "page1");
    assert_eq!(db.load(3).content, "page2");
}

#[test]
fn test_shift_up_from_zero() {
    let mut db = test_db();
    db.save(0, "a");
    db.save(1, "b");
    db.shift_up(0);
    assert_eq!(db.load(0).content, "");
    assert_eq!(db.load(1).content, "a");
    assert_eq!(db.load(2).content, "b");
}

#[test]
fn test_shift_up_past_end() {
    let mut db = test_db();
    db.save(0, "a");
    db.shift_up(5);
    assert_eq!(db.load(0).content, "a");
}

#[test]
fn open_keeps_table_beside_document() {
    let db = NotesDb::open("/talks/deck.typ");
    assert_eq!(db.path(), "/talks/deck.typshow.db");
    assert!(!db.has_data());
    let plain = NotesDb::open("notes");
    assert_eq!(plain.path(), "notes.typshow.db");
}

#[test]
fn save_leaves_other_pages() {
    let mut db = test_db();
    db.set_heading(1, Some("One"));
    db.save(2, "two");
    db.save(1, "one");
    assert_eq!(db.load(1).heading.as_deref(), Some("One"));
    assert_eq!(db.load(1).content, "one");
    assert_eq!(db.load(2).content, "two");
    assert!(db.load(2).heading.is_none());
}

#[test]
fn records_hold_each_page_once() {
    let mut db = test_db();
    db.save(3, "c");
    db.save(1, "a");
    db.save(3, "cc");
    let rows = db.records();
    assert_eq!(rows.len(), 2);
    let mut pages: Vec<usize> = rows.iter().map(|r| r.page_number).collect();
    pages.sort();
    assert_eq!(pages, vec![1, 3]);
    assert!(rows.iter().any(|r| r.page_number == 3 && r.content == "cc"));
}

#[test]
fn put_replaces_whole_row() {
    let mut db = test_db();
    db.set_heading(0, Some("Old"));
    db.put(NoteRecord { page_number: 0, heading: None, content: "fresh".to_string() });
    assert!(db.load(0).heading.is_none());
    assert_eq!(db.load(0).content, "fresh");
}

#[test]
fn migrate_shares_remaining_pages_evenly() {
    let mut db = test_db();
    let typ = "= A\n=== x\nx text\n=== y\ny text";
    db.migrate_from_typ(typ, 7);
    assert!(db.load(0).heading.is_none());
    assert_eq!(db.load(1).heading.as_deref(), Some("A"));
    for p in 2..5 {
        assert_eq!(db.load(p).heading.as_deref(), Some("x"));
        assert_eq!(db.load(p).content, "x text");
    }
    for p in 5..7 {
        assert_eq!(db.load(p).heading.as_deref(), Some("y"));
    }
    assert_eq!(db.records().len(), 7);
}

#[test]
fn migrate_without_pages_does_nothing() {
    let mut db = test_db();
    db.migrate_from_typ("= A", 0);
    assert!(!db.has_data());
}

#[test]
fn migrate_fills_rest_with_last_section() {
    let mut db = test_db();
    db.migrate_from_typ("= A\n== B\nb text", 5);
    assert_eq!(db.load(2).heading.as_deref(), Some("B"));
    assert_eq!(db.load(3).heading.as_deref(), Some("B"));
    assert_eq!(db.load(4).content, "b text");
}

#[test]
fn shift_up_then_insert_leaves_gap_filled() {
    let mut db = test_db();
    db.save(0, "zero");
    db.save(1, "one");
    db.shift_up(1);
    assert_eq!(db.load(1).content, "");
    db.insert_note(1);
    assert_eq!(db.load(2).content, "one");
    assert_eq!(db.load(0).content, "zero");
    assert_eq!(db.records().len(), 3);
}

#[test]
fn shift_up_refuses_when_last_page_is_taken() {
    let mut db = test_db();
    db.save(usize::MAX, "end");
    db.save(1, "one");
    assert!(!db.shift_up(0));
    assert_eq!(db.load(1).content, "one");
    assert_eq!(db.load(usize::MAX).content, "end");
    assert!(db.load(2).content.is_empty());
}

#[test]
fn shift_up_below_every_note_changes_nothing() {
    let mut db = test_db();
    db.save(0, "a");
    assert!(db.shift_up(5));
    assert_eq!(db.load(0).content, "a");
    assert_eq!(db.records().len(), 1);
}

#[test]
fn segments_match_built_spans() {
    let source = "#show: x\n= A\ntext\n#pagebreak()\n== B\n\n=== C\nend";
    let segments = extract_typ_segments(source);
    let spans = build_segments(
        &parse_typ_headings(source),
        &find_pagebreak_lines(source),
        source.lines().count(),
    );
    assert_eq!(segments.len(), spans.len());
    for (seg, span) in segments.iter().zip(spans.iter()) {
        assert_eq!((seg.start_line, seg.end_line, seg.heading.clone()), span.clone());
    }
}
