//! The presentation's shared state: the page shown, the deck's size, the
//! theme, the open file and the notes panel, and how navigation moves
//! through the pages.
use crate::notes::{content_saved, page_loaded, scroll_target, Notes, NotesView};
use crate::notes_db::{note_at, with_content, NotesDb};
use crate::outline::opt_text;
use crate::text::{push_str_chars, string_from_chars};
use vstd::prelude::*;

verus! {

broadcast use vstd::string::group_string_axioms;

/// The state that both windows share.
pub struct AppState {
    pub current_page: usize,
    pub total_pages: usize,
    pub dark_mode: bool,
    pub file_path: Option<String>,
    pub notes: Notes,
}

/// A move through the deck.
pub enum NavAction {
    First,
    Last,
    Next,
    Prev,
}

/// The navigation keys pressed in one frame.
pub struct NavKeys {
    pub first: bool,
    pub last: bool,
    pub next: bool,
    pub prev: bool,
}

/// The page after `page`, or `page` itself on the last page.
pub open spec fn next_of(page: usize, total: usize) -> usize {
    if page + 1 < total {
        (page + 1) as usize
    } else {
        page
    }
}

/// The page before `page`, or `page` itself on the first page.
pub open spec fn prev_of(page: usize) -> usize {
    if page > 0 {
        (page - 1) as usize
    } else {
        page
    }
}

/// The last page, or `page` itself for a deck of no pages.
pub open spec fn last_of(page: usize, total: usize) -> usize {
    if total > 0 {
        (total - 1) as usize
    } else {
        page
    }
}

/// The page that `action` leads to from `page` in a deck of `total` pages.
pub open spec fn moved_to(page: usize, total: usize, action: NavAction) -> usize {
    match action {
        NavAction::First => 0,
        NavAction::Last => last_of(page, total),
        NavAction::Next => next_of(page, total),
        NavAction::Prev => prev_of(page),
    }
}

/// The page that the keys `keys` lead to: first, last, next and previous
/// are applied in that order, each if its key is pressed.
pub open spec fn keys_moved_to(page: usize, total: usize, keys: NavKeys) -> usize {
    let p1 = if keys.first {
        0
    } else {
        page
    };
    let p2 = if keys.last {
        last_of(p1, total)
    } else {
        p1
    };
    let p3 = if keys.next {
        next_of(p2, total)
    } else {
        p2
    };
    if keys.prev {
        prev_of(p3)
    } else {
        p3
    }
}

/// The notes panel after the deck moved from page `from` to page `to` of
/// `total`: on a new page, unsaved edits of the note are saved first and
/// the new page's note is loaded; either way the panel scrolls to the
/// page's place.
pub open spec fn notes_after_move(v: NotesView, from: usize, to: usize, total: usize) -> NotesView {
    let turned = if to != from {
        page_loaded(
            if v.editing && v.dirty {
                content_saved(v)
            } else {
                v
            },
            to,
        )
    } else {
        v
    };
    NotesView { scroll: scroll_target(to, total), ..turned }
}

impl AppState {
    /// Everything but the page shown and the notes panel is as in `other`.
    pub open spec fn same_but_notes(&self, other: &AppState) -> bool {
        &&& self.total_pages == other.total_pages
        &&& self.dark_mode == other.dark_mode
        &&& opt_text(self.file_path) == opt_text(other.file_path)
    }

    /// Everything but the page shown is as in `other`.
    pub open spec fn same_but_page(&self, other: &AppState) -> bool {
        &&& self.total_pages == other.total_pages
        &&& self.dark_mode == other.dark_mode
        &&& opt_text(self.file_path) == opt_text(other.file_path)
        &&& self.notes@ == other.notes@
    }

    /// No deck: page 0 of 0, light theme, no file, a blank notes panel.
    pub fn new() -> (r: AppState)
        ensures
            r.current_page == 0,
            r.total_pages == 0,
            !r.dark_mode,
            r.file_path is None,
            r.notes@ == Notes::new_view(),
    {
        AppState {
            current_page: 0,
            total_pages: 0,
            dark_mode: false,
            file_path: None,
            notes: Notes::new(),
        }
    }

    /// Takes up a deck read from `path`: its Typst source `typ_content`,
    /// its `total_pages` pages, and its notes table `store`, if it could be
    /// opened. Shows page 0.
    pub fn load_file(
        &mut self,
        path: &str,
        typ_content: &str,
        total_pages: usize,
        store: Option<NotesDb>,
    )
        ensures
            final(self).current_page == 0,
            final(self).total_pages == total_pages,
            final(self).dark_mode == old(self).dark_mode,
            opt_text(final(self).file_path) == Some(path@),
            final(self).notes@ == Notes::with_db_view(store, typ_content@, total_pages),
    {
        self.total_pages = total_pages;
        self.current_page = 0;
        self.file_path = Some(path.to_string());
        self.notes = Notes::with_db(store, typ_content, total_pages);
    }

    /// Moves to the next page, if there is one.
    pub fn next_page(&mut self)
        ensures
            final(self).current_page == next_of(old(self).current_page, old(self).total_pages),
            final(self).same_but_page(&*old(self)),
    {
        if self.current_page < self.total_pages && self.current_page + 1 < self.total_pages {
            self.current_page = self.current_page + 1;
        }
    }

    /// Moves to the previous page, if there is one.
    pub fn prev_page(&mut self)
        ensures
            final(self).current_page == prev_of(old(self).current_page),
            final(self).same_but_page(&*old(self)),
    {
        if self.current_page > 0 {
            self.current_page = self.current_page - 1;
        }
    }

    /// Moves to the first page.
    pub fn first_page(&mut self)
        ensures
            final(self).current_page == 0,
            final(self).same_but_page(&*old(self)),
    {
        self.current_page = 0;
    }

    /// Moves to the last page, if the deck has any.
    pub fn last_page(&mut self)
        ensures
            final(self).current_page == last_of(old(self).current_page, old(self).total_pages),
            final(self).same_but_page(&*old(self)),
    {
        if self.total_pages > 0 {
            self.current_page = self.total_pages - 1;
        }
    }

    /// Makes the move `action`.
    pub fn apply(&mut self, action: NavAction)
        ensures
            final(self).current_page == moved_to(old(self).current_page, old(self).total_pages, action),
            final(self).same_but_page(&*old(self)),
    {
        match action {
            NavAction::First => self.first_page(),
            NavAction::Last => self.last_page(),
            NavAction::Next => self.next_page(),
            NavAction::Prev => self.prev_page(),
        }
    }

    /// Makes the move `action` from the presenter window: see
    /// `notes_after_move` for what the notes panel does.
    pub fn navigate(&mut self, action: NavAction)
        ensures
            final(self).current_page == moved_to(old(self).current_page, old(self).total_pages, action),
            final(self).same_but_notes(&*old(self)),
            final(self).notes@ == notes_after_move(
                old(self).notes@,
                old(self).current_page,
                final(self).current_page,
                old(self).total_pages,
            ),
    {
        let from = self.current_page;
        self.apply(action);
        self.follow_with_notes(from);
    }

    /// The notes panel follows the deck from page `from` to the page shown.
    fn follow_with_notes(&mut self, from: usize)
        ensures
            final(self).current_page == old(self).current_page,
            final(self).same_but_notes(&*old(self)),
            final(self).notes@ == notes_after_move(
                old(self).notes@,
                from,
                old(self).current_page,
                old(self).total_pages,
            ),
    {
        let to = self.current_page;
        if to != from {
            if self.notes.editing && self.notes.dirty {
                self.notes.save_current();
            }
            self.notes.load_page(to);
        }
        let total = self.total_pages;
        self.notes.update_scroll_target(to, total);
    }

    /// Makes the moves whose keys are pressed in the presenter window, as
    /// `apply_keys` does, and has the notes panel follow; while a note or
    /// its heading is being edited the keys do nothing.
    pub fn navigate_keys(&mut self, keys: NavKeys)
        ensures
            if old(self).notes@.editing || old(self).notes@.heading_editing {
                *final(self) == *old(self)
            } else {
                &&& final(self).current_page == keys_moved_to(
                    old(self).current_page,
                    old(self).total_pages,
                    keys,
                )
                &&& final(self).same_but_notes(&*old(self))
                &&& final(self).notes@ == notes_after_move(
                    old(self).notes@,
                    old(self).current_page,
                    final(self).current_page,
                    old(self).total_pages,
                )
            },
    {
        if self.notes.editing || self.notes.heading_editing {
            return;
        }
        let from = self.current_page;
        self.apply_keys(keys);
        self.follow_with_notes(from);
    }

    /// Makes the moves whose keys are pressed: first, last, next and
    /// previous, in that order.
    pub fn apply_keys(&mut self, keys: NavKeys)
        ensures
            final(self).current_page == keys_moved_to(
                old(self).current_page,
                old(self).total_pages,
                keys,
            ),
            final(self).same_but_page(&*old(self)),
    {
        if keys.first {
            self.first_page();
        }
        if keys.last {
            self.last_page();
        }
        if keys.next {
            self.next_page();
        }
        if keys.prev {
            self.prev_page();
        }
    }

    /// Whether there is a page before the one shown.
    pub fn can_go_back(&self) -> (r: bool)
        ensures
            r == (self.current_page > 0),
    {
        self.current_page > 0
    }

    /// Whether there is a page after the one shown.
    pub fn can_go_forward(&self) -> (r: bool)
        ensures
            r == (self.current_page + 1 < self.total_pages),
    {
        self.current_page < self.total_pages && self.current_page + 1 < self.total_pages
    }
}

/// The digit character for `d`, below ten.
pub open spec fn digit_char(d: nat) -> char {
    (48 + d) as char
}

/// `n` written in decimal, without leading zeros.
pub open spec fn decimal(n: nat) -> Seq<char>
    decreases n,
{
    if n < 10 {
        seq![digit_char(n)]
    } else {
        decimal(n / 10).push(digit_char(n % 10))
    }
}

/// Appends `n` in decimal to `out`.
fn push_decimal(out: &mut Vec<char>, n: usize)
    ensures
        final(out)@ == old(out)@ + decimal(n as nat),
    decreases n,
{
    if n >= 10 {
        push_decimal(out, n / 10);
    }
    let d: u8 = (n % 10) as u8;
    let c = (48u8 + d) as char;
    proof {
        assert(c == digit_char((n % 10) as nat));
    }
    out.push(c);
    proof {
        if n < 10 {
            assert(final(out)@ =~= old(out)@ + decimal(n as nat));
        } else {
            assert(final(out)@ =~= old(out)@ + decimal(n as nat));
        }
    }
}

/// The text of the page counter: `Página c / t` for page `c`, counted
/// from one, of `t`; `Sin documento` when there is no page.
pub open spec fn page_label_text(current: usize, total: usize) -> Seq<char> {
    if total > 0 {
        "Página "@ + decimal((current + 1) as nat) + " / "@ + decimal(total as nat)
    } else {
        "Sin documento"@
    }
}

/// The page counter of the navigation bar for page `current` (counted
/// from zero) of `total` pages.
pub fn page_label(current: usize, total: usize) -> (r: String)
    requires
        current < usize::MAX,
    ensures
        r@ == page_label_text(current, total),
{
    if total == 0 {
        return "Sin documento".to_string();
    }
    let mut out: Vec<char> = Vec::new();
    push_str_chars(&mut out, "Página ");
    push_decimal(&mut out, current + 1);
    push_str_chars(&mut out, " / ");
    push_decimal(&mut out, total);
    proof {
        assert(out@ =~= page_label_text(current, total));
    }
    string_from_chars(out.as_slice())
}

/// The last component of `path`, as `std::path::Path::file_name` gives it
/// (`None` for a path that ends in `..` or is empty or a root).
pub uninterp spec fn file_name_of(path: Seq<char>) -> Option<Seq<char>>;

/// The last component of `path`. Wraps `std::path::Path::file_name`; the
/// result is named `file_name_of`, a function of the text alone.
#[verifier::external_body]
fn file_name(path: &str) -> (r: Option<String>)
    ensures
        opt_text(r) == file_name_of(path@),
{
    match std::path::Path::new(path).file_name() {
        Some(n) => Some(n.to_string_lossy().into_owned()),
        None => None,
    }
}

/// The title of the controller window: the application's name, and the
/// name of the open file in brackets.
pub open spec fn controller_title_text(name: Option<Seq<char>>) -> Seq<char> {
    match name {
        Some(n) => "Typshow - Controlador ("@ + n + ")"@,
        None => "Typshow - Controlador"@,
    }
}

/// The name shown for the open file: the last component of its path.
pub open spec fn shown_file_name(file_path: Option<Seq<char>>) -> Option<Seq<char>> {
    match file_path {
        Some(p) => file_name_of(p),
        None => None,
    }
}

/// The title of the controller window with the file at `file_path` open.
pub fn controller_title(file_path: &Option<String>) -> (r: String)
    ensures
        r@ == controller_title_text(shown_file_name(opt_text(*file_path))),
{
    let name = match file_path {
        Some(p) => file_name(p.as_str()),
        None => None,
    };
    match name {
        Some(n) => {
            let mut out: Vec<char> = Vec::new();
            push_str_chars(&mut out, "Typshow - Controlador (");
            push_str_chars(&mut out, n.as_str());
            push_str_chars(&mut out, ")");
            proof {
                assert(out@ =~= controller_title_text(Some(n@)));
            }
            string_from_chars(out.as_slice())
        },
        None => "Typshow - Controlador".to_string(),
    }
}


/// Going to the next page and back returns to the page one started from,
/// whenever there was a next page to go to.
pub proof fn next_then_prev(page: usize, total: usize)
    ensures
        next_of(page, total) != page ==> prev_of(next_of(page, total)) == page,
{
}

/// Going to the previous page and on again returns to the page one started
/// from, whenever there was a previous page.
pub proof fn prev_then_next(page: usize, total: usize)
    requires
        page < total,
    ensures
        prev_of(page) != page ==> next_of(prev_of(page), total) == page,
{
}

/// No move leaves the deck: from a page of the deck every move, and every
/// set of keys, leads to a page of the deck.
pub proof fn moves_stay_in_deck(page: usize, total: usize, action: NavAction, keys: NavKeys)
    requires
        page < total,
    ensures
        moved_to(page, total, action) < total,
        keys_moved_to(page, total, keys) < total,
{
}

/// The ends of the deck hold: before the first page and after the last
/// there is nothing, and going to either end twice is going there once.
pub proof fn ends_of_deck(page: usize, total: usize)
    ensures
        prev_of(0) == 0,
        total > 0 ==> next_of(last_of(page, total), total) == last_of(page, total),
        last_of(last_of(page, total), total) == last_of(page, total),
{
}

/// Moving to another page while the note is being edited with changes
/// saves the changes as the note of the page left, and shows the note of
/// the page reached.
pub proof fn move_saves_edits(v: NotesView, from: usize, to: usize, total: usize)
    requires
        v.db is Some,
        v.editing,
        v.dirty,
        v.current_page == from,
        from != to,
    ensures
        ({
            let after = notes_after_move(v, from, to, total);
            let m = with_content(v.db->0, from, v.edit_buffer);
            &&& after.db == Some(m)
            &&& note_at(m, from).content == v.edit_buffer
            &&& after.current_page == to
            &&& after.note_content == Some(note_at(m, to).content)
            &&& !after.editing
        }),
{
}

} // verus!
