//! The notes panel's state: the note of the page shown, its parsed blocks,
//! and the editors for its content and heading.
use crate::markdown::{
    code_mark, element_views, inline_style, strong_mark, markdown_blocks, markdown_to_blocks, InlineText, MdElement,
    MdElementView,
};
use crate::notes_db::{
    note_at, shifted_notes, with_content, with_heading, with_note_for, NoteView, NotesDb,
};
use crate::outline::{opt_text, typ_segments, typ_title};
use crate::notes_db::after_migration;
use crate::text::{chars_of, contains_seq, remove_all, string_from_chars, trim, trimmed};
use vstd::prelude::*;

verus! {

broadcast use vstd::string::group_string_axioms;

/// Where the notes panel is scrolled to, as the fraction `num / den` of
/// its height; the panel's own functions never set `den` to 0.
pub struct ScrollRatio {
    pub num: usize,
    pub den: usize,
}

/// The state of the notes panel.
pub struct Notes {
    pub db: Option<NotesDb>,
    pub current_page: usize,
    pub note_content: Option<String>,
    pub heading: Option<String>,
    pub heading_editing: bool,
    pub heading_edit_buffer: String,
    pub elements: Vec<MdElement>,
    pub editing: bool,
    pub edit_buffer: String,
    pub dirty: bool,
    pub scroll_ratio: ScrollRatio,
    pub total_pages: usize,
}

/// What the notes panel's state holds.
pub struct NotesView {
    pub db: Option<Map<usize, NoteView>>,
    pub current_page: usize,
    pub note_content: Option<Seq<char>>,
    pub heading: Option<Seq<char>>,
    pub heading_editing: bool,
    pub heading_edit_buffer: Seq<char>,
    pub elements: Seq<MdElementView>,
    pub editing: bool,
    pub edit_buffer: Seq<char>,
    pub dirty: bool,
    pub scroll: (usize, usize),
    pub total_pages: usize,
}

/// The notes of an optional table.
pub open spec fn db_notes(db: Option<NotesDb>) -> Option<Map<usize, NoteView>> {
    match db {
        Some(d) => Some(d@),
        None => None,
    }
}

impl View for Notes {
    type V = NotesView;

    open spec fn view(&self) -> NotesView {
        NotesView {
            db: db_notes(self.db),
            current_page: self.current_page,
            note_content: opt_text(self.note_content),
            heading: opt_text(self.heading),
            heading_editing: self.heading_editing,
            heading_edit_buffer: self.heading_edit_buffer@,
            elements: element_views(self.elements@),
            editing: self.editing,
            edit_buffer: self.edit_buffer@,
            dirty: self.dirty,
            scroll: (self.scroll_ratio.num, self.scroll_ratio.den),
            total_pages: self.total_pages,
        }
    }
}

/// The blocks shown for a note's content: none for empty content.
pub open spec fn blocks_of(content: Seq<char>) -> Seq<MdElementView> {
    if content.len() == 0 {
        Seq::empty()
    } else {
        markdown_blocks(content)
    }
}

/// The panel once page `page` is shown: its note loaded from the table (a
/// blank one if none is stored), or nothing without a table; both editors
/// closed and the heading editor emptied.
pub open spec fn page_loaded(v: NotesView, page: usize) -> NotesView {
    let base = NotesView {
        current_page: page,
        editing: false,
        heading_editing: false,
        heading_edit_buffer: Seq::empty(),
        ..v
    };
    match v.db {
        Some(m) => NotesView {
            note_content: Some(note_at(m, page).content),
            heading: note_at(m, page).heading,
            elements: blocks_of(note_at(m, page).content),
            ..base
        },
        None => NotesView { note_content: None, heading: None, elements: Seq::empty(), ..base },
    }
}

/// The panel once the content editor is opened on the note.
pub open spec fn edit_started(v: NotesView) -> NotesView {
    NotesView {
        edit_buffer: match v.note_content {
            Some(c) => c,
            None => Seq::empty(),
        },
        editing: true,
        dirty: false,
        ..v
    }
}

/// The panel once a note is inserted at the page shown: with a table, the
/// notes from that page on move one page on, the page gets a copy of its
/// heading and content (or a blank note if it had no content loaded), the
/// deck has one more page, the page is reloaded and its editor opened.
pub open spec fn note_inserted(v: NotesView) -> NotesView {
    match v.db {
        Some(m) => {
            let p = v.current_page;
            let m1 = shifted_notes(m, p);
            let m2 = match v.heading {
                Some(h) => with_heading(m1, p, Some(h)),
                None => m1,
            };
            let m3 = match v.note_content {
                Some(c) => with_content(m2, p, c),
                None => with_note_for(m2, p),
            };
            edit_started(
                page_loaded(NotesView { db: Some(m3), total_pages: (v.total_pages + 1) as usize, ..v }, p),
            )
        },
        None => v,
    }
}

/// The panel once the content editor's text is saved as the note of the
/// page shown and the editor closed; without a table nothing changes.
pub open spec fn content_saved(v: NotesView) -> NotesView {
    match v.db {
        Some(m) => NotesView {
            db: Some(with_content(m, v.current_page, v.edit_buffer)),
            note_content: Some(v.edit_buffer),
            elements: blocks_of(v.edit_buffer),
            dirty: false,
            editing: false,
            ..v
        },
        None => v,
    }
}

/// Where the panel is scrolled to for page `page` of `total`: as the
/// fraction `page / (total - 1)` of its height, or the top for a deck of at
/// most one page.
pub open spec fn scroll_target(page: usize, total: usize) -> (usize, usize) {
    if total > 1 {
        (page, (total - 1) as usize)
    } else {
        (0usize, 1usize)
    }
}

/// A blank panel, with no table.
fn blank_notes() -> (r: Notes)
    ensures
        r@ == (NotesView {
            db: None,
            current_page: 0,
            note_content: None,
            heading: None,
            heading_editing: false,
            heading_edit_buffer: Seq::empty(),
            elements: Seq::empty(),
            editing: false,
            edit_buffer: Seq::empty(),
            dirty: false,
            scroll: (0, 1),
            total_pages: 0,
        }),
{
    let r = Notes {
        db: None,
        current_page: 0,
        note_content: None,
        heading: None,
        heading_editing: false,
        heading_edit_buffer: String::new(),
        elements: Vec::new(),
        editing: false,
        edit_buffer: String::new(),
        dirty: false,
        scroll_ratio: ScrollRatio { num: 0, den: 1 },
        total_pages: 0,
    };
    proof {
        assert(element_views(r.elements@) =~= Seq::<MdElementView>::empty());
    }
    r
}

/// The borrowed text of an optional string.
fn opt_str(o: &Option<String>) -> (r: Option<&str>)
    ensures
        match r {
            Some(s) => Some(s@),
            None => None::<Seq<char>>,
        } == opt_text(*o),
{
    match o {
        Some(s) => Some(s.as_str()),
        None => None,
    }
}

impl Notes {
    /// A blank panel, with no table.
    pub fn new() -> (r: Notes)
        ensures
            r@ == (NotesView {
                db: None,
                current_page: 0,
                note_content: None,
                heading: None,
                heading_editing: false,
                heading_edit_buffer: Seq::empty(),
                elements: Seq::empty(),
                editing: false,
                edit_buffer: Seq::empty(),
                dirty: false,
                scroll: (0, 1),
                total_pages: 0,
            }),
    {
        blank_notes()
    }

    /// The blocks of the Markdown text `source`.
    pub fn parse_md(source: &str) -> (r: Vec<MdElement>)
        ensures
            element_views(r@) == markdown_blocks(source@),
    {
        markdown_to_blocks(source)
    }

    /// How the block text `text` is drawn.
    pub fn format_inline(text: &str) -> (r: InlineText)
        ensures
            r.strong == contains_seq(text@, strong_mark()),
            r.code == contains_seq(text@, code_mark()),
            r.text@ == remove_all(remove_all(text@, strong_mark()), code_mark()),
    {
        inline_style(text)
    }

    /// The blocks shown for `content`.
    fn blocks_for(content: &str) -> (r: Vec<MdElement>)
        ensures
            element_views(r@) == blocks_of(content@),
    {
        let chars = chars_of(content);
        if chars.len() == 0 {
            let r: Vec<MdElement> = Vec::new();
            proof {
                assert(element_views(r@) =~= Seq::<MdElementView>::empty());
            }
            r
        } else {
            markdown_to_blocks(content)
        }
    }

    /// Shows page `page`: loads its note from the table, if there is one.
    pub fn load_page(&mut self, page: usize)
        ensures
            final(self)@ == page_loaded(old(self)@, page),
    {
        self.current_page = page;
        self.editing = false;
        self.heading_editing = false;
        self.heading_edit_buffer = String::new();
        match &self.db {
            Some(db) => {
                let record = db.load(page);
                self.elements = Self::blocks_for(record.content.as_str());
                self.note_content = Some(record.content);
                self.heading = record.heading;
            },
            None => {
                self.note_content = None;
                self.heading = None;
                self.elements = Vec::new();
                proof {
                    assert(element_views(self.elements@) =~= Seq::<MdElementView>::empty());
                }
            },
        }
        proof {
            assert(self@ =~= page_loaded(old(self)@, page));
        }
    }

    /// A panel over the table `db` for a deck of `total_pages` pages whose
    /// Typst source is `typ_content`: the table, if any, is filled from the
    /// deck when empty, and page 0 is shown.
    pub fn with_db(db: Option<NotesDb>, typ_content: &str, total_pages: usize) -> (r: Notes)
        ensures
            r@ == Notes::with_db_view(db, typ_content@, total_pages),
    {
        let mut notes = Notes::new();
        notes.total_pages = total_pages;
        match db {
            Some(mut d) => {
                d.migrate_from_typ(typ_content, total_pages);
                notes.db = Some(d);
                notes.load_page(0);
            },
            None => {},
        }
        notes
    }

    /// What the panel that `with_db` builds holds.
    pub open spec fn with_db_view(db: Option<NotesDb>, typ_content: Seq<char>, total_pages: usize) -> NotesView {
        match db {
            Some(d) => page_loaded(
                NotesView {
                    db: Some(
                        after_migration(d@, typ_segments(typ_content), typ_title(typ_content), total_pages as nat),
                    ),
                    total_pages,
                    ..Notes::new_view()
                },
                0,
            ),
            None => NotesView { total_pages, ..Notes::new_view() },
        }
    }

    /// What a blank panel holds.
    pub open spec fn new_view() -> NotesView {
        NotesView {
            db: None,
            current_page: 0,
            note_content: None,
            heading: None,
            heading_editing: false,
            heading_edit_buffer: Seq::empty(),
            elements: Seq::empty(),
            editing: false,
            edit_buffer: Seq::empty(),
            dirty: false,
            scroll: (0, 1),
            total_pages: 0,
        }
    }

    /// Saves the content editor's text as the note of the page shown, and
    /// closes the editor. Without a table nothing changes.
    pub fn save_current(&mut self)
        ensures
            final(self)@ == content_saved(old(self)@),
    {
        let page = self.current_page;
        match &mut self.db {
            Some(db) => {
                db.save(page, self.edit_buffer.as_str());
            },
            None => {
                return ;
            },
        }
        self.note_content = Some(self.edit_buffer.clone());
        self.elements = Self::blocks_for(self.edit_buffer.as_str());
        self.dirty = false;
        self.editing = false;
    }

    /// Opens the content editor on the note shown.
    pub fn start_edit(&mut self)
        ensures
            final(self)@ == edit_started(old(self)@),
    {
        self.edit_buffer = match &self.note_content {
            Some(c) => c.clone(),
            None => String::new(),
        };
        self.editing = true;
        self.dirty = false;
    }

    /// Closes the content editor, dropping its text.
    pub fn cancel_edit(&mut self)
        ensures
            final(self)@ == (NotesView {
                edit_buffer: Seq::empty(),
                editing: false,
                dirty: false,
                ..old(self)@
            }),
    {
        self.edit_buffer = String::new();
        self.editing = false;
        self.dirty = false;
    }

    /// Deletes the note of the page shown. Without a table nothing changes.
    pub fn delete_current(&mut self)
        ensures
            final(self)@ == (match old(self)@.db {
                Some(m) => NotesView {
                    db: Some(m.remove(old(self)@.current_page)),
                    note_content: None,
                    heading: None,
                    elements: Seq::empty(),
                    edit_buffer: Seq::empty(),
                    editing: false,
                    dirty: false,
                    ..old(self)@
                },
                None => old(self)@,
            }),
    {
        let page = self.current_page;
        match &mut self.db {
            Some(db) => {
                db.delete(page);
            },
            None => {
                return ;
            },
        }
        self.note_content = None;
        self.heading = None;
        self.elements = Vec::new();
        self.edit_buffer = String::new();
        self.editing = false;
        self.dirty = false;
        proof {
            assert(element_views(self.elements@) =~= Seq::<MdElementView>::empty());
        }
    }

    /// Inserts a note at the page shown, as `note_inserted` states, and
    /// opens its editor. When the table has a note on the last page number,
    /// which cannot move on, nothing changes and the result is `false`.
    pub fn insert_note(&mut self) -> (r: bool)
        requires
            old(self)@.db is Some ==> old(self)@.total_pages < usize::MAX,
        ensures
            r == !(old(self)@.db matches Some(m) && m.contains_key(usize::MAX)),
            r ==> final(self)@ == note_inserted(old(self)@),
            !r ==> final(self)@ == old(self)@,
    {
        let page = self.current_page;
        match &mut self.db {
            Some(db) => {
                if !db.shift_up(page) {
                    return false;
                }
                match &self.heading {
                    Some(h) => {
                        db.set_heading(page, Some(h.as_str()));
                    },
                    None => {},
                }
                match &self.note_content {
                    Some(c) => {
                        db.save(page, c.as_str());
                    },
                    None => {
                        db.insert_note(page);
                    },
                }
            },
            None => {
                return true;
            },
        }
        self.total_pages = self.total_pages + 1;
        self.load_page(page);
        self.start_edit();
        true
    }

    /// Empties the table and fills it afresh from the deck, for a deck of
    /// `total_pages` pages, then reloads the page shown. Without a table
    /// nothing changes.
    pub fn reimport(&mut self, typ_content: &str, total_pages: usize)
        ensures
            final(self)@ == (match old(self)@.db {
                Some(m) => page_loaded(
                    NotesView {
                        db: Some(
                            after_migration(
                                Map::<usize, NoteView>::empty(),
                                typ_segments(typ_content@),
                                typ_title(typ_content@),
                                total_pages as nat,
                            ),
                        ),
                        total_pages,
                        ..old(self)@
                    },
                    old(self)@.current_page,
                ),
                None => old(self)@,
            }),
    {
        match &mut self.db {
            Some(db) => {
                db.clear_all();
                db.migrate_from_typ(typ_content, total_pages);
            },
            None => {
                return ;
            },
        }
        self.total_pages = total_pages;
        let page = self.current_page;
        self.load_page(page);
    }

    /// Sets the heading of the page shown. Without a table nothing changes.
    pub fn set_heading(&mut self, heading: Option<&str>)
        ensures
            ({
                let h = match heading {
                    Some(s) => Some(s@),
                    None => None::<Seq<char>>,
                };
                final(self)@ == (match old(self)@.db {
                    Some(m) => NotesView {
                        db: Some(with_heading(m, old(self)@.current_page, h)),
                        heading: h,
                        ..old(self)@
                    },
                    None => old(self)@,
                })
            }),
    {
        let page = self.current_page;
        match &mut self.db {
            Some(db) => {
                db.set_heading(page, heading);
            },
            None => {
                return ;
            },
        }
        self.heading = match heading {
            Some(s) => Some(s.to_string()),
            None => None,
        };
    }

    /// Opens the heading editor on the heading shown.
    pub fn start_edit_heading(&mut self)
        ensures
            final(self)@ == (NotesView {
                heading_edit_buffer: match old(self)@.heading {
                    Some(h) => h,
                    None => Seq::empty(),
                },
                heading_editing: true,
                ..old(self)@
            }),
    {
        self.heading_edit_buffer = match &self.heading {
            Some(h) => h.clone(),
            None => String::new(),
        };
        self.heading_editing = true;
    }

    /// Saves the heading editor's text, trimmed, as the heading of the page
    /// shown (no heading if it is blank), and closes the editor. The panel
    /// shows that heading even without a table.
    pub fn save_heading(&mut self)
        ensures
            ({
                let t = trim(old(self)@.heading_edit_buffer);
                let h = if t.len() == 0 {
                    None
                } else {
                    Some(t)
                };
                final(self)@ == NotesView {
                    db: match old(self)@.db {
                        Some(m) => Some(with_heading(m, old(self)@.current_page, h)),
                        None => None,
                    },
                    heading: h,
                    heading_editing: false,
                    heading_edit_buffer: Seq::empty(),
                    ..old(self)@
                }
            }),
    {
        let buffer = chars_of(self.heading_edit_buffer.as_str());
        let t = trimmed(buffer.as_slice());
        let new_heading: Option<String> = if t.len() == 0 {
            None
        } else {
            Some(string_from_chars(t.as_slice()))
        };
        self.set_heading(opt_str(&new_heading));
        self.heading = new_heading;
        self.heading_editing = false;
        self.heading_edit_buffer = String::new();
    }

    /// Closes the heading editor, dropping its text.
    pub fn cancel_edit_heading(&mut self)
        ensures
            final(self)@ == (NotesView {
                heading_editing: false,
                heading_edit_buffer: Seq::empty(),
                ..old(self)@
            }),
    {
        self.heading_editing = false;
        self.heading_edit_buffer = String::new();
    }

    /// Aims the panel's scroll at the place of `current_page` among
    /// `total_pages` pages: `current_page / (total_pages - 1)` of the way
    /// down, or the top for a deck of at most one page.
    pub fn update_scroll_target(&mut self, current_page: usize, total_pages: usize)
        ensures
            final(self)@ == (NotesView { scroll: scroll_target(current_page, total_pages), ..old(self)@ }),
    {
        self.scroll_ratio = if total_pages > 1 {
            ScrollRatio { num: current_page, den: total_pages - 1 }
        } else {
            ScrollRatio { num: 0, den: 1 }
        };
    }

    /// Whether the panel has a table.
    pub fn has_content(&self) -> (r: bool)
        ensures
            r == (self@.db is Some),
    {
        self.db.is_some()
    }
}


/// Saving the note being edited and showing its page again shows the
/// saved text.
pub proof fn save_then_reload(v: NotesView)
    requires
        v.db is Some,
    ensures
        page_loaded(content_saved(v), v.current_page).note_content == Some(v.edit_buffer),
        page_loaded(content_saved(v), v.current_page).heading == note_at(v.db->0, v.current_page).heading,
{
}

/// Inserting a note at the page shown duplicates that page's note: the
/// page keeps it, the page after it gets a copy, the notes of the pages
/// after move one page on, those before stay; the deck grows by a page and
/// the copy is opened for editing.
pub proof fn insert_note_duplicates(v: NotesView, page: usize)
    requires
        v.db is Some,
        !v.db->0.contains_key(usize::MAX),
        v.current_page < usize::MAX,
        v.total_pages < usize::MAX,
        v.note_content == Some(note_at(v.db->0, v.current_page).content),
        v.heading == note_at(v.db->0, v.current_page).heading,
    ensures
        ({
            let m = v.db->0;
            let p = v.current_page;
            let r = note_inserted(v);
            let n = r.db->0;
            &&& r.db is Some
            &&& note_at(n, p) == note_at(m, p)
            &&& note_at(n, (p + 1) as usize) == note_at(m, p)
            &&& (p < page < usize::MAX ==> note_at(n, (page + 1) as usize) == note_at(m, page))
            &&& (page < p ==> note_at(n, page) == note_at(m, page))
            &&& r.total_pages == v.total_pages + 1
            &&& r.current_page == p
            &&& r.editing
            &&& r.edit_buffer == note_at(m, p).content
        }),
{
    let m = v.db->0;
    let p = v.current_page;
    crate::notes_db::shift_up_moves_notes(m, p, p);
    crate::notes_db::shift_up_moves_notes(m, p, page);
    let m1 = shifted_notes(m, p);
    let m2 = match v.heading {
        Some(h) => with_heading(m1, p, Some(h)),
        None => m1,
    };
    let m3 = with_content(m2, p, note_at(m, p).content);
    assert(note_at(m3, p) == note_at(m, p));
    assert(note_at(m3, (p + 1) as usize) == note_at(m1, (p + 1) as usize));
    if p < page && page < usize::MAX {
        assert(note_at(m3, (page + 1) as usize) == note_at(m1, (page + 1) as usize));
    }
    if page < p {
        assert(note_at(m3, page) == note_at(m1, page));
    }
}


/// The panel shows the note of the page it loads: with a table, its text,
/// its heading and the Markdown blocks of its text (none for an empty
/// note); without one, nothing.
pub proof fn loaded_panel_shows_its_note(v: NotesView, page: usize)
    ensures
        page_loaded(v, page).current_page == page,
        !page_loaded(v, page).editing,
        v.db matches Some(m) ==> {
            &&& page_loaded(v, page).note_content == Some(note_at(m, page).content)
            &&& page_loaded(v, page).heading == note_at(m, page).heading
            &&& note_at(m, page).content.len() > 0 ==> page_loaded(v, page).elements == markdown_blocks(
                note_at(m, page).content,
            )
            &&& note_at(m, page).content.len() == 0 ==> page_loaded(v, page).elements == Seq::<
                MdElementView,
            >::empty()
        },
        v.db is None ==> page_loaded(v, page).note_content is None && page_loaded(v, page).elements
            == Seq::<MdElementView>::empty(),
{
}

/// The blocks the panel draws are always those of the note it shows:
/// after loading a page, and after saving the editor's text.
pub proof fn panel_blocks_follow_note(v: NotesView, page: usize)
    ensures
        ({
            let r = page_loaded(v, page);
            r.elements == blocks_of(
                match r.note_content {
                    Some(c) => c,
                    None => Seq::empty(),
                },
            )
        }),
        v.db is Some ==> content_saved(v).elements == blocks_of(content_saved(v).note_content->0),
{
}
} // verus!
