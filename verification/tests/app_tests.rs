use typshow::app::{controller_title, page_label, AppState, NavAction, NavKeys};
use typshow::notes::Notes;
use typshow::notes_db::NotesDb;

#[test]
fn test_new_state() {
    let s = AppState::new();
    assert_eq!(s.current_page, 0);
    assert_eq!(s.total_pages, 0);
    assert!(s.file_path.is_none());
    assert!(!s.dark_mode);
}

#[test]
fn test_next_page_basic() {
    let mut s = AppState::new();
    s.total_pages = 5;
    s.current_page = 0;
    s.next_page();
    assert_eq!(s.current_page, 1);
}

#[test]
fn test_next_page_boundary() {
    let mut s = AppState::new();
    s.total_pages = 3;
    s.current_page = 2;
    s.next_page();
    assert_eq!(s.current_page, 2);
}

#[test]
fn test_next_page_empty() {
    let mut s = AppState::new();
    s.total_pages = 0;
    s.next_page();
    assert_eq!(s.current_page, 0);
}

#[test]
fn test_prev_page_basic() {
    let mut s = AppState::new();
    s.total_pages = 5;
    s.current_page = 3;
    s.prev_page();
    assert_eq!(s.current_page, 2);
}

#[test]
fn test_prev_page_boundary() {
    let mut s = AppState::new();
    s.total_pages = 5;
    s.current_page = 0;
    s.prev_page();
    assert_eq!(s.current_page, 0);
}

#[test]
fn test_first_page() {
    let mut s = AppState::new();
    s.total_pages = 10;
    s.current_page = 7;
    s.first_page();
    assert_eq!(s.current_page, 0);
}

#[test]
fn test_last_page() {
    let mut s = AppState::new();
    s.total_pages = 10;
    s.current_page = 0;
    s.last_page();
    assert_eq!(s.current_page, 9);
}

#[test]
fn test_last_page_empty() {
    let mut s = AppState::new();
    s.total_pages = 0;
    s.current_page = 0;
    s.last_page();
    assert_eq!(s.current_page, 0);
}

fn deck_state(total: usize) -> AppState {
    let mut s = AppState::new();
    let typ = "= Intro\nfirst\n= Body\nsecond\n= End\nthird";
    s.load_file("/tmp/deck.typ", typ, total, Some(NotesDb::new(":memory:")));
    s
}

#[test]
fn next_then_prev_returns() {
    let mut s = AppState::new();
    s.total_pages = 4;
    s.current_page = 1;
    s.next_page();
    s.prev_page();
    assert_eq!(s.current_page, 1);
}

#[test]
fn moves_stay_in_deck_on_concrete_pages() {
    let mut s = AppState::new();
    s.total_pages = 3;
    s.current_page = 2;
    for action in [NavAction::Next, NavAction::Last, NavAction::Prev, NavAction::First, NavAction::Prev] {
        s.apply(action);
        assert!(s.current_page < 3);
    }
    assert_eq!(s.current_page, 0);
}

#[test]
fn apply_keys_in_order() {
    let mut s = AppState::new();
    s.total_pages = 10;
    s.current_page = 4;
    s.apply_keys(NavKeys { first: true, last: false, next: true, prev: false });
    assert_eq!(s.current_page, 1);
    s.apply_keys(NavKeys { first: false, last: true, next: false, prev: true });
    assert_eq!(s.current_page, 8);
}

#[test]
fn can_go_back_and_forward() {
    let mut s = AppState::new();
    s.total_pages = 2;
    assert!(!s.can_go_back());
    assert!(s.can_go_forward());
    s.next_page();
    assert!(s.can_go_back());
    assert!(!s.can_go_forward());
}

#[test]
fn load_file_shows_first_page_and_imports_notes() {
    let s = deck_state(4);
    assert_eq!(s.current_page, 0);
    assert_eq!(s.total_pages, 4);
    assert_eq!(s.file_path.as_deref(), Some("/tmp/deck.typ"));
    assert!(s.notes.has_content());
    assert_eq!(s.notes.current_page, 0);
    assert_eq!(s.notes.note_content.as_deref(), Some(""));
}

#[test]
fn navigate_loads_note_and_scrolls() {
    let mut s = deck_state(4);
    s.navigate(NavAction::Next);
    assert_eq!(s.current_page, 1);
    assert_eq!(s.notes.current_page, 1);
    assert_eq!(s.notes.heading.as_deref(), Some("Intro"));
    assert_eq!(s.notes.note_content.as_deref(), Some("first"));
    assert_eq!(s.notes.scroll_ratio.num, 1);
    assert_eq!(s.notes.scroll_ratio.den, 3);
}

#[test]
fn navigate_saves_dirty_edits() {
    let mut s = deck_state(4);
    s.navigate(NavAction::Next);
    s.notes.start_edit();
    s.notes.edit_buffer = "changed".to_string();
    s.notes.dirty = true;
    s.navigate(NavAction::Next);
    assert_eq!(s.notes.current_page, 2);
    assert!(!s.notes.editing);
    s.navigate(NavAction::Prev);
    assert_eq!(s.notes.note_content.as_deref(), Some("changed"));
}

#[test]
fn navigate_drops_clean_edits() {
    let mut s = deck_state(4);
    s.navigate(NavAction::Next);
    s.notes.start_edit();
    s.notes.edit_buffer = "not saved".to_string();
    s.navigate(NavAction::Next);
    s.navigate(NavAction::Prev);
    assert_eq!(s.notes.note_content.as_deref(), Some("first"));
}

#[test]
fn keys_do_nothing_while_editing() {
    let mut s = deck_state(4);
    s.notes.start_edit();
    s.navigate_keys(NavKeys { first: false, last: true, next: false, prev: false });
    assert_eq!(s.current_page, 0);
    s.notes.cancel_edit();
    s.navigate_keys(NavKeys { first: false, last: true, next: false, prev: false });
    assert_eq!(s.current_page, 3);
    assert_eq!(s.notes.heading.as_deref(), Some("End"));
}

#[test]
fn page_label_counts_from_one() {
    assert_eq!(page_label(0, 12), "Página 1 / 12");
    assert_eq!(page_label(9, 10), "Página 10 / 10");
    assert_eq!(page_label(0, 0), "Sin documento");
}

#[test]
fn controller_title_names_the_file() {
    assert_eq!(controller_title(&None), "Typshow - Controlador");
    assert_eq!(
        controller_title(&Some("/home/me/talks/deck.typ".to_string())),
        "Typshow - Controlador (deck.typ)"
    );
    assert_eq!(controller_title(&Some("/".to_string())), "Typshow - Controlador");
}

#[test]
fn new_state_has_blank_notes() {
    let s = AppState::new();
    assert!(!s.notes.has_content());
    let n = Notes::new();
    assert_eq!(n.scroll_ratio.num, 0);
    assert_eq!(n.scroll_ratio.den, 1);
}
