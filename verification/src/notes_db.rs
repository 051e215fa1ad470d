//! The table of presenter notes: one row per page, holding an optional
//! heading and the note's content. The table lives in memory here; keeping
//! it on disk is the caller's business.
use crate::outline::{
    TypSegment, extract_typ_segments, opt_text, parse_typ_title, segment_views, typ_segments, typ_title, SegmentView,
};
use vstd::prelude::*;

verus! {

broadcast use vstd::string::group_string_axioms;

/// One page's note as stored.
pub struct NoteRecord {
    pub page_number: usize,
    pub heading: Option<String>,
    pub content: String,
}

/// What a note holds.
pub struct NoteView {
    pub heading: Option<Seq<char>>,
    pub content: Seq<char>,
}

impl View for NoteRecord {
    type V = NoteView;

    open spec fn view(&self) -> NoteView {
        NoteView { heading: opt_text(self.heading), content: self.content@ }
    }
}

/// The note of a page that has none stored: no heading, empty content.
pub open spec fn blank_note() -> NoteView {
    NoteView { heading: None, content: Seq::empty() }
}

/// The notes `m` once `page`'s content is set to `content`, its heading kept.
pub open spec fn with_content(m: Map<usize, NoteView>, page: usize, content: Seq<char>) -> Map<
    usize,
    NoteView,
> {
    m.insert(
        page,
        NoteView {
            heading: if m.contains_key(page) {
                m[page].heading
            } else {
                None
            },
            content,
        },
    )
}

/// The notes `m` once `page`'s heading is set to `heading`, its content kept.
pub open spec fn with_heading(
    m: Map<usize, NoteView>,
    page: usize,
    heading: Option<Seq<char>>,
) -> Map<usize, NoteView> {
    m.insert(
        page,
        NoteView {
            heading,
            content: if m.contains_key(page) {
                m[page].content
            } else {
                Seq::empty()
            },
        },
    )
}

/// The notes `m` once `page` is given a blank note unless it has one.
pub open spec fn with_note_for(m: Map<usize, NoteView>, page: usize) -> Map<usize, NoteView> {
    if m.contains_key(page) {
        m
    } else {
        m.insert(page, blank_note())
    }
}

/// The note `m` holds for `page`, or a blank one.
pub open spec fn note_at(m: Map<usize, NoteView>, page: usize) -> NoteView {
    if m.contains_key(page) {
        m[page]
    } else {
        blank_note()
    }
}

/// Whether some row of `rows` is for `page`.
pub open spec fn has_page(rows: Seq<NoteRecord>, page: usize) -> bool {
    exists|i: int| 0 <= i < rows.len() && rows[i].page_number == page
}

/// The row of `rows` for `page`.
pub open spec fn page_index(rows: Seq<NoteRecord>, page: usize) -> int {
    choose|i: int| 0 <= i < rows.len() && rows[i].page_number == page
}

/// The notes that `rows` hold, by page.
pub open spec fn table_of(rows: Seq<NoteRecord>) -> Map<usize, NoteView> {
    Map::new(|p: usize| has_page(rows, p), |p: usize| rows[page_index(rows, p)]@)
}

/// No two rows are for the same page.
pub open spec fn distinct_pages(rows: Seq<NoteRecord>) -> bool {
    forall|a: int, b: int|
        0 <= a < rows.len() && 0 <= b < rows.len() && a != b ==> rows[a].page_number
            != rows[b].page_number
}

/// The notes of `m` after making room at `from`: each note at `from` or
/// later moves one page on, and `from` is left without a note.
pub open spec fn shifted_notes(m: Map<usize, NoteView>, from: usize) -> Map<usize, NoteView> {
    Map::new(
        |p: usize| (p < from && m.contains_key(p)) || (p > from && m.contains_key((p - 1) as usize)),
        |p: usize|
            if p < from {
                m[p]
            } else {
                m[(p - 1) as usize]
            },
    )
}

/// The segments of `segs` whose heading level lies in `lo..=hi`, in order.
pub open spec fn segments_at_levels(segs: Seq<SegmentView>, lo: u32, hi: u32) -> Seq<SegmentView>
    decreases segs.len(),
{
    if segs.len() == 0 {
        Seq::empty()
    } else {
        let earlier = segments_at_levels(segs.drop_last(), lo, hi);
        if lo <= segs.last().heading_level && segs.last().heading_level <= hi {
            earlier.push(segs.last())
        } else {
            earlier
        }
    }
}

/// The segments that get a page each: those of `=` and `==` headings.
pub open spec fn fixed_segments(segs: Seq<SegmentView>) -> Seq<SegmentView> {
    segments_at_levels(segs, 1, 2)
}

/// The segments that share the remaining pages: those of `===` and deeper.
pub open spec fn flex_segments(segs: Seq<SegmentView>) -> Seq<SegmentView> {
    segments_at_levels(segs, 3, u32::MAX)
}

/// The note a segment gives a page.
pub open spec fn note_of_segment(seg: SegmentView) -> NoteView {
    NoteView { heading: seg.heading, content: seg.content }
}

/// The first page after those of the fixed segments.
pub open spec fn first_shared_page(segs: Seq<SegmentView>, total: int) -> int {
    let f = fixed_segments(segs).len() as int;
    1 + if f < total - 1 {
        f
    } else {
        total - 1
    }
}

/// The first page of the `i`-th shared segment, when the pages from `base`
/// on are shared out `size` each, the first `extra` segments one more.
pub open spec fn share_start(base: int, size: int, extra: int, i: int) -> int {
    base + i * size + if i < extra {
        i
    } else {
        extra
    }
}

/// The shared segment that page `p` falls to.
pub open spec fn share_owner(base: int, size: int, extra: int, n: int, p: int) -> int {
    choose|i: int|
        #![trigger share_start(base, size, extra, i)]
        0 <= i < n && share_start(base, size, extra, i) <= p < share_start(base, size, extra, i + 1)
}

/// The note that importing a deck with segments `segs` and title `title`
/// into `total` pages gives page `p`. Page 0 gets the title and no content.
/// With no segments, every other page is blank. Otherwise each `=` or `==`
/// segment gets one page, in order, from page 1; the pages left are shared
/// out in order among the `===` and deeper segments, as evenly as they go,
/// the earlier segments taking one more; with no such segments, they all
/// take the last segment.
pub open spec fn planned_note(
    segs: Seq<SegmentView>,
    title: Option<Seq<char>>,
    total: int,
    p: int,
) -> NoteView {
    if p == 0 {
        NoteView { heading: title, content: Seq::empty() }
    } else if segs.len() == 0 {
        blank_note()
    } else {
        let fixed = fixed_segments(segs);
        let flex = flex_segments(segs);
        let base = first_shared_page(segs, total);
        if p < base {
            note_of_segment(fixed[p - 1])
        } else if flex.len() > 0 {
            let n = flex.len() as int;
            let size = (total - base) / n;
            let extra = (total - base) % n;
            note_of_segment(flex[share_owner(base, size, extra, n, p)])
        } else {
            note_of_segment(segs.last())
        }
    }
}

/// The notes that importing a deck with segments `segs` and title `title`
/// into `total` pages gives: one for each page below `total`.
pub open spec fn migrated_notes(segs: Seq<SegmentView>, title: Option<Seq<char>>, total: nat) -> Map<
    usize,
    NoteView,
> {
    Map::new(|p: usize| p < total, |p: usize| planned_note(segs, title, total as int, p as int))
}

/// The notes `m` once a deck with segments `segs` and title `title` and
/// `total` pages is imported into them: an import only fills a table that
/// holds no note, and only for a deck with pages.
pub open spec fn after_migration(
    m: Map<usize, NoteView>,
    segs: Seq<SegmentView>,
    title: Option<Seq<char>>,
    total: nat,
) -> Map<usize, NoteView> {
    if m.dom() != Set::<usize>::empty() || total == 0 {
        m
    } else {
        migrated_notes(segs, title, total)
    }
}

/// The planned notes of the pages below `upto`.
spec fn planned_prefix(segs: Seq<SegmentView>, title: Option<Seq<char>>, total: nat, upto: int) -> Map<
    usize,
    NoteView,
> {
    Map::new(|p: usize| p < upto, |p: usize| planned_note(segs, title, total as int, p as int))
}

proof fn lemma_share_step(base: int, size: int, extra: int, i: int)
    requires
        i >= 0,
    ensures
        share_start(base, size, extra, i + 1) == share_start(base, size, extra, i) + size + if i
            < extra {
            1int
        } else {
            0int
        },
{
    assert((i + 1) * size == i * size + size) by (nonlinear_arith);
}

proof fn lemma_share_monotone(base: int, size: int, extra: int, a: int, b: int)
    requires
        0 <= a <= b,
        size >= 0,
        extra >= 0,
    ensures
        share_start(base, size, extra, a) <= share_start(base, size, extra, b),
{
    assert(a * size <= b * size) by (nonlinear_arith)
        requires
            0 <= a <= b,
            size >= 0,
    ;
}

proof fn lemma_share_end(base: int, f: int, n: int)
    requires
        n > 0,
        f >= 0,
    ensures
        share_start(base, f / n, f % n, n) == base + f,
{
    vstd::arithmetic::div_mod::lemma_fundamental_div_mod(f, n);
    assert(n * (f / n) == n * (f / n));
    assert(f % n < n) by {
        vstd::arithmetic::div_mod::lemma_mod_bound(f, n);
    }
    assert(n * (f / n) == (f / n) * n) by (nonlinear_arith);
}

proof fn lemma_share_owner(base: int, size: int, extra: int, n: int, i: int, p: int)
    requires
        0 <= i < n,
        size >= 0,
        extra >= 0,
        share_start(base, size, extra, i) <= p < share_start(base, size, extra, i + 1),
    ensures
        share_owner(base, size, extra, n, p) == i,
{
    let c = share_owner(base, size, extra, n, p);
    assert(0 <= c < n && share_start(base, size, extra, c) <= p < share_start(
        base,
        size,
        extra,
        c + 1,
    ));
    if c < i {
        lemma_share_monotone(base, size, extra, c + 1, i);
    } else if c > i {
        lemma_share_monotone(base, size, extra, i + 1, c);
    }
}

/// The notes of a presentation, by page number.
pub struct NotesDb {
    rows: Vec<NoteRecord>,
    path: String,
}

impl NotesDb {
    #[verifier::type_invariant]
    spec fn rows_distinct(&self) -> bool {
        distinct_pages(self.rows@)
    }

    /// The notes held, by page.
    pub closed spec fn notes(&self) -> Map<usize, NoteView> {
        table_of(self.rows@)
    }

    /// Where the table is kept.
    pub closed spec fn location(&self) -> Seq<char> {
        self.path@
    }
}

impl View for NotesDb {
    type V = Map<usize, NoteView>;

    open spec fn view(&self) -> Map<usize, NoteView> {
        self.notes()
    }
}

/// With distinct pages, the row found for a page is the one on it.
proof fn lemma_row_of_page(rows: Seq<NoteRecord>, i: int)
    requires
        distinct_pages(rows),
        0 <= i < rows.len(),
    ensures
        table_of(rows).contains_key(rows[i].page_number),
        table_of(rows)[rows[i].page_number] == rows[i]@,
{
    let p = rows[i].page_number;
    assert(has_page(rows, p));
    let j = page_index(rows, p);
    assert(rows[j].page_number == p);
}

/// Replacing the row for a page replaces that page's note.
proof fn lemma_table_update(rows: Seq<NoteRecord>, i: int, r: NoteRecord)
    requires
        distinct_pages(rows),
        0 <= i < rows.len(),
        r.page_number == rows[i].page_number,
    ensures
        distinct_pages(rows.update(i, r)),
        table_of(rows.update(i, r)) == table_of(rows).insert(r.page_number, r@),
{
    let new = rows.update(i, r);
    assert forall|p: usize| #[trigger] has_page(new, p) == has_page(rows, p) by {
        if has_page(rows, p) {
            let j = choose|j: int| 0 <= j < rows.len() && rows[j].page_number == p;
            assert(new[j].page_number == p);
        }
        if has_page(new, p) {
            let j = choose|j: int| 0 <= j < new.len() && new[j].page_number == p;
            assert(rows[j].page_number == p);
        }
    }
    assert forall|p: usize| #[trigger] has_page(new, p) implies table_of(new)[p] == table_of(
        rows,
    ).insert(r.page_number, r@)[p] by {
        let j = page_index(new, p);
        if p == r.page_number {
            assert(new[i].page_number == p);
            assert(j == i);
        } else {
            let k = page_index(rows, p);
            assert(j != i);
            assert(new[j] == rows[j]);
            assert(rows[k].page_number == p);
            assert(j == k);
        }
    }
    assert(table_of(new) =~= table_of(rows).insert(r.page_number, r@));
}

/// Adding a row for a page that has none adds that page's note.
proof fn lemma_table_push(rows: Seq<NoteRecord>, r: NoteRecord)
    requires
        distinct_pages(rows),
        !has_page(rows, r.page_number),
    ensures
        distinct_pages(rows.push(r)),
        table_of(rows.push(r)) == table_of(rows).insert(r.page_number, r@),
{
    let new = rows.push(r);
    assert forall|a: int, b: int|
        0 <= a < new.len() && 0 <= b < new.len() && a != b implies new[a].page_number
        != new[b].page_number by {
        if a == rows.len() as int {
            assert(rows[b].page_number != r.page_number);
        } else if b == rows.len() as int {
            assert(rows[a].page_number != r.page_number);
        }
    }
    assert forall|p: usize| #[trigger] has_page(new, p) == (has_page(rows, p) || p == r.page_number) by {
        if has_page(rows, p) {
            let j = choose|j: int| 0 <= j < rows.len() && rows[j].page_number == p;
            assert(new[j].page_number == p);
        }
        if p == r.page_number {
            assert(new[rows.len() as int].page_number == p);
        }
        if has_page(new, p) && p != r.page_number {
            let j = choose|j: int| 0 <= j < new.len() && new[j].page_number == p;
            assert(rows[j].page_number == p);
        }
    }
    assert forall|p: usize| #[trigger] has_page(new, p) implies table_of(new)[p] == table_of(
        rows,
    ).insert(r.page_number, r@)[p] by {
        let j = page_index(new, p);
        if p == r.page_number {
            assert(new[rows.len() as int].page_number == p);
            assert(j == rows.len() as int);
        } else {
            let k = page_index(rows, p);
            assert(rows[k].page_number == p);
            assert(new[k].page_number == p);
            assert(j == k);
        }
    }
    assert(table_of(new) =~= table_of(rows).insert(r.page_number, r@));
}

/// Removing the row for a page removes that page's note.
proof fn lemma_table_remove(rows: Seq<NoteRecord>, i: int)
    requires
        distinct_pages(rows),
        0 <= i < rows.len(),
    ensures
        distinct_pages(rows.remove(i)),
        table_of(rows.remove(i)) == table_of(rows).remove(rows[i].page_number),
{
    let new = rows.remove(i);
    let q = rows[i].page_number;
    rows.remove_ensures(i);
    assert forall|a: int, b: int|
        0 <= a < new.len() && 0 <= b < new.len() && a != b implies new[a].page_number
        != new[b].page_number by {
        let a0 = if a < i {
            a
        } else {
            a + 1
        };
        let b0 = if b < i {
            b
        } else {
            b + 1
        };
        assert(new[a] == rows[a0] && new[b] == rows[b0]);
    }
    assert forall|p: usize| #[trigger] has_page(new, p) == (has_page(rows, p) && p != q) by {
        if has_page(rows, p) && p != q {
            let j = choose|j: int| 0 <= j < rows.len() && rows[j].page_number == p;
            assert(j != i);
            if j < i {
                assert(new[j].page_number == p);
            } else {
                assert(new[j - 1].page_number == p);
            }
        }
        if has_page(new, p) {
            let j = choose|j: int| 0 <= j < new.len() && new[j].page_number == p;
            let j0 = if j < i {
                j
            } else {
                j + 1
            };
            assert(rows[j0].page_number == p);
            assert(j0 != i);
        }
    }
    assert forall|p: usize| #[trigger] has_page(new, p) implies table_of(new)[p] == table_of(
        rows,
    ).remove(q)[p] by {
        let j = page_index(new, p);
        let j0 = if j < i {
            j
        } else {
            j + 1
        };
        assert(new[j] == rows[j0]);
        let k = page_index(rows, p);
        assert(rows[k].page_number == p);
        assert(k == j0);
    }
    assert(table_of(new) =~= table_of(rows).remove(q));
}

/// The page a note at `p` moves to when room is made at `from`.
pub open spec fn shifted_page(p: usize, from: usize) -> int {
    if p >= from {
        p + 1
    } else {
        p as int
    }
}

/// Moving every row at `from` or later one page on shifts the table.
proof fn lemma_table_shift(rows: Seq<NoteRecord>, new: Seq<NoteRecord>, from: usize)
    requires
        distinct_pages(rows),
        !has_page(rows, usize::MAX),
        new.len() == rows.len(),
        forall|j: int|
            0 <= j < rows.len() ==> #[trigger] new[j].page_number == shifted_page(
                rows[j].page_number,
                from,
            ) && new[j]@ == rows[j]@,
    ensures
        distinct_pages(new),
        table_of(new) == shifted_notes(table_of(rows), from),
{
    assert forall|a: int, b: int|
        0 <= a < new.len() && 0 <= b < new.len() && a != b implies new[a].page_number
        != new[b].page_number by {
        assert(new[a].page_number == shifted_page(rows[a].page_number, from));
        assert(new[b].page_number == shifted_page(rows[b].page_number, from));
    }
    let old_t = table_of(rows);
    let want = shifted_notes(old_t, from);
    assert forall|k: usize| #[trigger] has_page(new, k) == want.contains_key(k) by {
        if has_page(new, k) {
            let j = choose|j: int| 0 <= j < new.len() && new[j].page_number == k;
            assert(new[j].page_number == shifted_page(rows[j].page_number, from));
            lemma_row_of_page(rows, j);
        }
        if want.contains_key(k) {
            let q: usize = if k < from {
                k
            } else {
                (k - 1) as usize
            };
            assert(has_page(rows, q));
            let j = choose|j: int| 0 <= j < rows.len() && rows[j].page_number == q;
            assert(new[j].page_number == shifted_page(rows[j].page_number, from));
            assert(new[j].page_number == k);
        }
    }
    assert forall|k: usize| #[trigger] has_page(new, k) implies table_of(new)[k] == want[k] by {
        let j = page_index(new, k);
        assert(new[j].page_number == shifted_page(rows[j].page_number, from));
        lemma_row_of_page(rows, j);
        lemma_row_of_page(new, j);
    }
    assert(table_of(new) =~= want);
}

/// A copy of an optional heading.
fn copy_heading(h: &Option<String>) -> (r: Option<String>)
    ensures
        opt_text(r) == opt_text(*h),
{
    match h {
        Some(s) => Some(s.clone()),
        None => None,
    }
}

/// An owned copy of a borrowed optional heading.
fn owned_heading(h: Option<&str>) -> (r: Option<String>)
    ensures
        opt_text(r) == match h {
            Some(s) => Some(s@),
            None => None::<Seq<char>>,
        },
{
    match h {
        Some(s) => Some(s.to_string()),
        None => None,
    }
}

/// The positions of the `=`/`==` segments and of the `===`-and-deeper
/// segments of `segments`, each in order.
fn split_by_level(segments: &Vec<TypSegment>) -> (r: (Vec<usize>, Vec<usize>))
    ensures
        forall|x: int| 0 <= x < r.0@.len() ==> #[trigger] r.0@[x] < segments@.len(),
        forall|x: int| 0 <= x < r.1@.len() ==> #[trigger] r.1@[x] < segments@.len(),
        r.0@.map_values(|i: usize| segment_views(segments@)[i as int]) == fixed_segments(
            segment_views(segments@),
        ),
        r.1@.map_values(|i: usize| segment_views(segments@)[i as int]) == flex_segments(
            segment_views(segments@),
        ),
{
    let ghost sv = segment_views(segments@);
    let mut fixed: Vec<usize> = Vec::new();
    let mut flex: Vec<usize> = Vec::new();
    let mut k: usize = 0;
    while k < segments.len()
        invariant
            k <= segments@.len(),
            sv == segment_views(segments@),
            forall|j: int| 0 <= j < fixed@.len() ==> #[trigger] fixed@[j] < segments@.len(),
            forall|j: int| 0 <= j < flex@.len() ==> #[trigger] flex@[j] < segments@.len(),
            fixed@.map_values(|i: usize| sv[i as int]) == segments_at_levels(sv.take(k as int), 1, 2),
            flex@.map_values(|i: usize| sv[i as int]) == segments_at_levels(
                sv.take(k as int),
                3,
                u32::MAX,
            ),
        decreases segments.len() - k,
    {
        let level = segments[k].heading_level;
        proof {
            assert(sv.take(k + 1).drop_last() =~= sv.take(k as int));
            assert(sv.take(k + 1).last() == sv[k as int]);
        }
        let ghost fixed_before = fixed@.map_values(|i: usize| sv[i as int]);
        let ghost flex_before = flex@.map_values(|i: usize| sv[i as int]);
        if 1 <= level && level <= 2 {
            fixed.push(k);
            proof {
                assert(fixed@.map_values(|i: usize| sv[i as int]) =~= fixed_before.push(sv[k as int]));
            }
        }
        if level >= 3 {
            flex.push(k);
            proof {
                assert(flex@.map_values(|i: usize| sv[i as int]) =~= flex_before.push(sv[k as int]));
            }
        }
        k += 1;
    }
    proof {
        assert(sv.take(sv.len() as int) =~= sv);
    }
    (fixed, flex)
}

/// The heading an optional string gives, borrowed.
fn heading_ref(h: &Option<String>) -> (r: Option<&str>)
    ensures
        match r {
            Some(s) => Some(s@),
            None => None::<Seq<char>>,
        } == opt_text(*h),
{
    match h {
        Some(s) => Some(s.as_str()),
        None => None,
    }
}

/// The path `path` with its extension set to `ext`, as
/// `std::path::Path::with_extension` gives it.
pub uninterp spec fn path_with_extension(path: Seq<char>, ext: Seq<char>) -> Seq<char>;

/// `path` with its extension set to `ext`. Wraps
/// `std::path::Path::with_extension`; the result is named
/// `path_with_extension`, a function of the two texts alone.
/// `std::path::Path::with_extension` panics when `ext` holds a path
/// separator, so `ext` holds no `/`.
#[verifier::external_body]
fn with_extension(path: &str, ext: &str) -> (r: String)
    requires
        !ext@.contains('/'),
    ensures
        r@ == path_with_extension(path@, ext@),
{
    std::path::Path::new(path).with_extension(ext).to_string_lossy().into_owned()
}

impl NotesDb {
    /// The empty table of notes for the Typst document at `typ_path`, kept
    /// beside it under the same name with the extension `typshow.db`.
    pub fn open(typ_path: &str) -> (r: NotesDb)
        ensures
            r@ == Map::<usize, NoteView>::empty(),
            r.location() == path_with_extension(typ_path@, "typshow.db"@),
    {
        proof {
            reveal_strlit("typshow.db");
        }
        let db_path = with_extension(typ_path, "typshow.db");
        NotesDb::new(db_path.as_str())
    }

    /// An empty table kept at `path`.
    pub fn new(path: &str) -> (r: NotesDb)
        ensures
            r@ == Map::<usize, NoteView>::empty(),
            r.location() == path@,
    {
        let r = NotesDb { rows: Vec::new(), path: path.to_string() };
        proof {
            assert(r@ =~= Map::<usize, NoteView>::empty());
        }
        r
    }

    /// Where the table is kept.
    pub fn path(&self) -> (r: &str)
        ensures
            r@ == self.location(),
    {
        self.path.as_str()
    }

    /// The row for `page`, if any.
    fn find(&self, page: usize) -> (r: Option<usize>)
        ensures
            match r {
                Some(i) => i < self.rows@.len() && self.rows@[i as int].page_number == page,
                None => !has_page(self.rows@, page),
            },
    {
        let mut i: usize = 0;
        while i < self.rows.len()
            invariant
                i <= self.rows@.len(),
                forall|j: int| 0 <= j < i ==> self.rows@[j].page_number != page,
            decreases self.rows.len() - i,
        {
            if self.rows[i].page_number == page {
                return Some(i);
            }
            i += 1;
        }
        None
    }

    /// Whether any note is stored.
    pub fn has_data(&self) -> (r: bool)
        ensures
            r == (self@.dom() != Set::<usize>::empty()),
    {
        proof {
            if self.rows@.len() > 0 {
                assert(self@.dom().contains(self.rows@[0].page_number));
            } else {
                assert(self@.dom() =~= Set::<usize>::empty());
            }
        }
        self.rows.len() > 0
    }

    /// The note of `page`: the stored one, or a blank one if none is stored.
    pub fn load(&self, page: usize) -> (r: NoteRecord)
        ensures
            r.page_number == page,
            r@ == note_at(self@, page),
    {
        proof {
            use_type_invariant(self);
        }
        match self.find(page) {
            Some(i) => {
                proof {
                    lemma_row_of_page(self.rows@, i as int);
                }
                let row = &self.rows[i];
                NoteRecord {
                    page_number: page,
                    heading: copy_heading(&row.heading),
                    content: row.content.clone(),
                }
            },
            None => {
                let r = NoteRecord { page_number: page, heading: None, content: String::new() };
                proof {
                    assert(r@ =~= blank_note());
                }
                r
            },
        }
    }

    /// Stores `row` as the whole note of its page.
    pub fn put(&mut self, row: NoteRecord)
        ensures
            final(self)@ == old(self)@.insert(row.page_number, row@),
            final(self).location() == old(self).location(),
    {
        proof {
            use_type_invariant(&*self);
        }
        let page = row.page_number;
        let found = self.find(page);
        let mut rows: Vec<NoteRecord> = Vec::new();
        std::mem::swap(&mut rows, &mut self.rows);
        match found {
            Some(i) => {
                proof {
                    lemma_table_update(rows@, i as int, row);
                }
                rows.set(i, row);
            },
            None => {
                proof {
                    lemma_table_push(rows@, row);
                }
                rows.push(row);
            },
        }
        self.rows = rows;
    }

    /// Sets the content of `page`'s note, keeping its heading; a page with
    /// no note gets one with no heading.
    pub fn save(&mut self, page: usize, content: &str)
        ensures
            final(self)@ == with_content(old(self)@, page, content@),
            final(self).location() == old(self).location(),
    {
        let current = self.load(page);
        let row = NoteRecord { page_number: page, heading: current.heading, content: content.to_string() };
        self.put(row);
    }

    /// Sets the heading of `page`'s note, keeping its content; a page with
    /// no note gets one with empty content.
    pub fn set_heading(&mut self, page: usize, heading: Option<&str>)
        ensures
            final(self)@ == with_heading(
                old(self)@,
                page,
                match heading {
                    Some(h) => Some(h@),
                    None => None,
                },
            ),
            final(self).location() == old(self).location(),
    {
        let current = self.load(page);
        let row = NoteRecord { page_number: page, heading: owned_heading(heading), content: current.content };
        self.put(row);
    }

    /// Removes `page`'s note.
    pub fn delete(&mut self, page: usize)
        ensures
            final(self)@ == old(self)@.remove(page),
            final(self).location() == old(self).location(),
    {
        proof {
            use_type_invariant(&*self);
        }
        match self.find(page) {
            Some(i) => {
                proof {
                    lemma_table_remove(self.rows@, i as int);
                }
                let mut rows: Vec<NoteRecord> = Vec::new();
                std::mem::swap(&mut rows, &mut self.rows);
                rows.remove(i);
                self.rows = rows;
            },
            None => {
                proof {
                    assert(self@ =~= self@.remove(page));
                }
            },
        }
    }

    /// Gives `page` a blank note unless it has one already.
    pub fn insert_note(&mut self, page: usize)
        ensures
            final(self)@ == with_note_for(old(self)@, page),
            final(self).location() == old(self).location(),
    {
        proof {
            use_type_invariant(&*self);
        }
        match self.find(page) {
            Some(_) => {},
            None => {
                let row = NoteRecord { page_number: page, heading: None, content: String::new() };
                proof {
                    assert(row@ =~= blank_note());
                }
                self.put(row);
            },
        }
    }

    /// Makes room for a note at `from_page`: every note at that page or
    /// later moves one page on, leaving `from_page` without a note. A note
    /// on the last page number cannot move on: then nothing changes and the
    /// result is `false`.
    pub fn shift_up(&mut self, from_page: usize) -> (r: bool)
        ensures
            r == !old(self)@.contains_key(usize::MAX),
            r ==> final(self)@ == shifted_notes(old(self)@, from_page),
            !r ==> final(self)@ == old(self)@,
            final(self).location() == old(self).location(),
    {
        proof {
            use_type_invariant(&*self);
        }
        if self.find(usize::MAX).is_some() {
            return false;
        }
        let mut rows: Vec<NoteRecord> = Vec::new();
        std::mem::swap(&mut rows, &mut self.rows);
        proof {
            if has_page(rows@, usize::MAX) {
                let j = choose|j: int| 0 <= j < rows@.len() && rows@[j].page_number == usize::MAX;
                lemma_row_of_page(rows@, j);
            }
        }
        let mut moved: Vec<NoteRecord> = Vec::new();
        let mut i: usize = 0;
        while i < rows.len()
            invariant
                i <= rows@.len(),
                moved@.len() == i,
                !has_page(rows@, usize::MAX),
                forall|j: int|
                    0 <= j < i ==> #[trigger] moved@[j].page_number == shifted_page(
                        rows@[j].page_number,
                        from_page,
                    ) && moved@[j]@ == rows@[j]@,
            decreases rows.len() - i,
        {
            let row = &rows[i];
            proof {
                if row.page_number == usize::MAX {
                    assert(has_page(rows@, usize::MAX));
                }
            }
            let page = if row.page_number >= from_page {
                row.page_number + 1
            } else {
                row.page_number
            };
            moved.push(
                NoteRecord {
                    page_number: page,
                    heading: copy_heading(&row.heading),
                    content: row.content.clone(),
                },
            );
            i += 1;
        }
        proof {
            lemma_table_shift(rows@, moved@, from_page);
        }
        self.rows = moved;
        true
    }

    /// Copies of all stored notes, one per page.
    pub fn records(&self) -> (r: Vec<NoteRecord>)
        ensures
            distinct_pages(r@),
            table_of(r@) == self@,
    {
        proof {
            use_type_invariant(self);
        }
        let mut out: Vec<NoteRecord> = Vec::new();
        let mut i: usize = 0;
        while i < self.rows.len()
            invariant
                i <= self.rows@.len(),
                out@.len() == i,
                forall|j: int|
                    0 <= j < i ==> #[trigger] out@[j].page_number == self.rows@[j].page_number
                        && out@[j]@ == self.rows@[j]@,
            decreases self.rows.len() - i,
        {
            let row = &self.rows[i];
            out.push(
                NoteRecord {
                    page_number: row.page_number,
                    heading: copy_heading(&row.heading),
                    content: row.content.clone(),
                },
            );
            i += 1;
        }
        proof {
            let rows = self.rows@;
            assert forall|a: int, b: int|
                0 <= a < out@.len() && 0 <= b < out@.len() && a != b implies out@[a].page_number
                != out@[b].page_number by {
                assert(out@[a].page_number == rows[a].page_number);
                assert(out@[b].page_number == rows[b].page_number);
            }
            assert forall|k: usize| #[trigger] has_page(out@, k) == has_page(rows, k) by {
                if has_page(out@, k) {
                    let j = choose|j: int| 0 <= j < out@.len() && out@[j].page_number == k;
                    assert(rows[j].page_number == k);
                }
                if has_page(rows, k) {
                    let j = choose|j: int| 0 <= j < rows.len() && rows[j].page_number == k;
                    assert(out@[j].page_number == k);
                }
            }
            assert forall|k: usize| #[trigger] has_page(out@, k) implies table_of(out@)[k]
                == table_of(rows)[k] by {
                let j = page_index(out@, k);
                assert(out@[j].page_number == rows[j].page_number);
                lemma_row_of_page(rows, j);
            }
            assert(table_of(out@) =~= table_of(rows));
        }
        out
    }

    /// Writes a whole note for `page`, heading then content.
    fn write_note(&mut self, page: usize, heading: &Option<String>, content: &str)
        ensures
            final(self)@ == old(self)@.insert(
                page,
                NoteView { heading: opt_text(*heading), content: content@ },
            ),
            final(self).location() == old(self).location(),
    {
        self.set_heading(page, heading_ref(heading));
        self.save(page, content);
        proof {
            assert(self@ =~= old(self)@.insert(
                page,
                NoteView { heading: opt_text(*heading), content: content@ },
            ));
        }
    }

    /// Writes the same note for pages `lo..hi`, which the plan gives it.
    fn fill_range(
        &mut self,
        heading: &Option<String>,
        content: &str,
        lo: usize,
        hi: usize,
        Ghost(sv): Ghost<Seq<SegmentView>>,
        Ghost(tv): Ghost<Option<Seq<char>>>,
        Ghost(total): Ghost<nat>,
    )
        requires
            lo <= hi,
            old(self)@ == planned_prefix(sv, tv, total, lo as int),
            forall|p: int|
                lo <= p < hi ==> #[trigger] planned_note(sv, tv, total as int, p) == (NoteView {
                    heading: opt_text(*heading),
                    content: content@,
                }),
        ensures
            final(self)@ == planned_prefix(sv, tv, total, hi as int),
            final(self).location() == old(self).location(),
    {
        let mut p = lo;
        while p < hi
            invariant
                lo <= p <= hi,
                self@ == planned_prefix(sv, tv, total, p as int),
                self.location() == old(self).location(),
                forall|q: int|
                    lo <= q < hi ==> #[trigger] planned_note(sv, tv, total as int, q) == (NoteView {
                        heading: opt_text(*heading),
                        content: content@,
                    }),
            decreases hi - p,
        {
            self.write_note(p, heading, content);
            proof {
                assert(planned_note(sv, tv, total as int, p as int) == NoteView {
                    heading: opt_text(*heading),
                    content: content@,
                });
                assert(self@ =~= planned_prefix(sv, tv, total, p + 1));
            }
            p += 1;
        }
    }

    /// Writes a page for each `=` and `==` segment, from page 1, and gives
    /// back the first page left.
    fn fill_fixed(
        &mut self,
        segments: &Vec<TypSegment>,
        fixed: &Vec<usize>,
        total_pages: usize,
        Ghost(tv): Ghost<Option<Seq<char>>>,
    ) -> (page: usize)
        requires
            segments@.len() > 0,
            total_pages > 1,
            forall|x: int| 0 <= x < fixed@.len() ==> #[trigger] fixed@[x] < segments@.len(),
            fixed@.map_values(|i: usize| segment_views(segments@)[i as int]) == fixed_segments(
                segment_views(segments@),
            ),
            old(self)@ == planned_prefix(segment_views(segments@), tv, total_pages as nat, 1),
        ensures
            page == first_shared_page(segment_views(segments@), total_pages as int),
            page <= total_pages,
            final(self)@ == planned_prefix(
                segment_views(segments@),
                tv,
                total_pages as nat,
                page as int,
            ),
            final(self).location() == old(self).location(),
    {
        let ghost sv = segment_views(segments@);
        let ghost total = total_pages as nat;
        let ghost fixed_v = fixed_segments(sv);
        let mut page: usize = 1;
        let mut j: usize = 0;
        while j < fixed.len() && page < total_pages
            invariant
                page == j + 1,
                j <= fixed@.len(),
                page <= total_pages,
                sv == segment_views(segments@),
                sv.len() > 0,
                total == total_pages,
                forall|x: int| 0 <= x < fixed@.len() ==> #[trigger] fixed@[x] < segments@.len(),
                fixed@.map_values(|i: usize| sv[i as int]) == fixed_v,
                fixed_v == fixed_segments(sv),
                self@ == planned_prefix(sv, tv, total, page as int),
                self.location() == old(self).location(),
            decreases fixed.len() - j,
        {
            let seg = &segments[fixed[j]];
            proof {
                assert(fixed_v[j as int] == sv[fixed@[j as int] as int]);
                assert(planned_note(sv, tv, total as int, page as int) == note_of_segment(
                    fixed_v[j as int],
                ));
            }
            self.write_note(page, &seg.heading, seg.content.as_str());
            proof {
                assert(self@ =~= planned_prefix(sv, tv, total, page + 1));
            }
            page += 1;
            j += 1;
        }
        page
    }

    /// Shares the pages from `base` on among the `===` and deeper segments.
    fn fill_shared(
        &mut self,
        segments: &Vec<TypSegment>,
        flex: &Vec<usize>,
        base: usize,
        total_pages: usize,
        Ghost(tv): Ghost<Option<Seq<char>>>,
    )
        requires
            segments@.len() > 0,
            flex@.len() > 0,
            1 <= base < total_pages,
            base == first_shared_page(segment_views(segments@), total_pages as int),
            forall|x: int| 0 <= x < flex@.len() ==> #[trigger] flex@[x] < segments@.len(),
            flex@.map_values(|i: usize| segment_views(segments@)[i as int]) == flex_segments(
                segment_views(segments@),
            ),
            old(self)@ == planned_prefix(
                segment_views(segments@),
                tv,
                total_pages as nat,
                base as int,
            ),
        ensures
            final(self)@ == planned_prefix(
                segment_views(segments@),
                tv,
                total_pages as nat,
                total_pages as int,
            ),
            final(self).location() == old(self).location(),
    {
        let ghost sv = segment_views(segments@);
        let ghost total = total_pages as nat;
        let ghost flex_v = flex_segments(sv);
        let flex_pages = total_pages - base;
        let n = flex.len();
        let size = flex_pages / n;
        let extra = flex_pages % n;
        proof {
            lemma_share_end(base as int, flex_pages as int, n as int);
        }
        let mut page = base;
        let mut i: usize = 0;
        while i < n
            invariant
                n == flex@.len(),
                n > 0,
                i <= n,
                size == flex_pages / n,
                extra == flex_pages % n,
                flex_pages == total_pages - base,
                page == share_start(base as int, size as int, extra as int, i as int),
                share_start(base as int, size as int, extra as int, n as int) == total_pages,
                sv == segment_views(segments@),
                sv.len() > 0,
                total == total_pages,
                1 <= base < total_pages,
                base == first_shared_page(sv, total_pages as int),
                forall|x: int| 0 <= x < flex@.len() ==> #[trigger] flex@[x] < segments@.len(),
                flex@.map_values(|i: usize| sv[i as int]) == flex_v,
                flex_v == flex_segments(sv),
                self@ == planned_prefix(sv, tv, total, page as int),
                self.location() == old(self).location(),
            decreases n - i,
        {
            proof {
                lemma_share_step(base as int, size as int, extra as int, i as int);
                lemma_share_monotone(base as int, size as int, extra as int, i + 1, n as int);
                lemma_share_monotone(base as int, size as int, extra as int, 0, i as int);
            }
            let add: usize = if i < extra {
                1
            } else {
                0
            };
            let seg_end = page + size + add;
            let seg = &segments[flex[i]];
            proof {
                assert(flex_v[i as int] == sv[flex@[i as int] as int]);
                assert forall|p: int| page <= p < seg_end implies #[trigger] planned_note(
                    sv,
                    tv,
                    total as int,
                    p,
                ) == NoteView { heading: opt_text(seg.heading), content: seg.content@ } by {
                    lemma_share_owner(base as int, size as int, extra as int, n as int, i as int, p);
                }
            }
            self.fill_range(
                &seg.heading,
                seg.content.as_str(),
                page,
                seg_end,
                Ghost(sv),
                Ghost(tv),
                Ghost(total),
            );
            page = seg_end;
            i += 1;
        }
    }

    /// Fills an empty table from a Typst deck of `total_pages` pages. Page
    /// 0 gets the deck's title; the other pages get their segments' headings
    /// and contents as `planned_note` lays out. A table that holds notes
    /// already, or a deck of no pages, is left as it is.
    pub fn migrate_from_typ(&mut self, typ_content: &str, total_pages: usize)
        ensures
            final(self).location() == old(self).location(),
            final(self)@ == after_migration(
                old(self)@,
                typ_segments(typ_content@),
                typ_title(typ_content@),
                total_pages as nat,
            ),
    {
        if self.has_data() {
            return ;
        }
        if total_pages == 0 {
            return ;
        }
        let segments = extract_typ_segments(typ_content);
        let title = parse_typ_title(typ_content);
        let ghost sv = segment_views(segments@);
        let ghost tv = typ_title(typ_content@);
        let ghost total = total_pages as nat;
        let empty = String::new();
        proof {
            assert(self@ =~= Map::<usize, NoteView>::empty());
        }
        self.write_note(0, &title, empty.as_str());
        proof {
            assert(self@ =~= planned_prefix(sv, tv, total, 1));
        }
        if total_pages <= 1 {
            proof {
                assert(self@ =~= migrated_notes(sv, tv, total));
            }
            return ;
        }
        if segments.len() == 0 {
            let none: Option<String> = None;
            proof {
                assert forall|p: int| 1 <= p < total_pages implies #[trigger] planned_note(
                    sv,
                    tv,
                    total as int,
                    p,
                ) == NoteView { heading: opt_text(none), content: empty@ } by {}
            }
            self.fill_range(&none, empty.as_str(), 1, total_pages, Ghost(sv), Ghost(tv), Ghost(total));
            proof {
                assert(self@ =~= migrated_notes(sv, tv, total));
            }
            return ;
        }
        let (fixed, flex) = split_by_level(&segments);
        let page = self.fill_fixed(&segments, &fixed, total_pages, Ghost(tv));
        if page < total_pages && flex.len() > 0 {
            self.fill_shared(&segments, &flex, page, total_pages, Ghost(tv));
        } else if page < total_pages {
            let seg = &segments[segments.len() - 1];
            proof {
                assert(flex@.map_values(|i: usize| sv[i as int]).len() == 0);
                assert(sv.last() == seg@);
                assert forall|p: int| page <= p < total_pages implies #[trigger] planned_note(
                    sv,
                    tv,
                    total as int,
                    p,
                ) == NoteView { heading: opt_text(seg.heading), content: seg.content@ } by {}
            }
            self.fill_range(
                &seg.heading,
                seg.content.as_str(),
                page,
                total_pages,
                Ghost(sv),
                Ghost(tv),
                Ghost(total),
            );
        }
        proof {
            assert(self@ =~= migrated_notes(sv, tv, total));
        }
    }

    /// Removes every note.
    pub fn clear_all(&mut self)
        ensures
            final(self)@ == Map::<usize, NoteView>::empty(),
            final(self).location() == old(self).location(),
    {
        self.rows = Vec::new();
        proof {
            assert(self@ =~= Map::<usize, NoteView>::empty());
        }
    }
}


/// Reading a page's note after saving its content gives that content and
/// the heading the page had; no other page's note changes.
pub proof fn save_then_load(m: Map<usize, NoteView>, page: usize, content: Seq<char>, other: usize)
    ensures
        note_at(with_content(m, page, content), page) == (NoteView {
            heading: note_at(m, page).heading,
            content,
        }),
        other != page ==> note_at(with_content(m, page, content), other) == note_at(m, other),
{
}

/// Saving a page's content twice is saving the second content once.
pub proof fn save_overwrites(m: Map<usize, NoteView>, page: usize, first: Seq<char>, second: Seq<char>)
    ensures
        with_content(with_content(m, page, first), page, second) == with_content(m, page, second),
{
    assert(with_content(with_content(m, page, first), page, second) =~= with_content(m, page, second));
}

/// Reading a page's note after setting its heading gives that heading and
/// the content the page had; no other page's note changes.
pub proof fn set_heading_then_load(
    m: Map<usize, NoteView>,
    page: usize,
    heading: Option<Seq<char>>,
    other: usize,
)
    ensures
        note_at(with_heading(m, page, heading), page) == (NoteView {
            heading,
            content: note_at(m, page).content,
        }),
        other != page ==> note_at(with_heading(m, page, heading), other) == note_at(m, other),
{
}

/// A deleted note reads back blank; no other page's note changes.
pub proof fn delete_then_load(m: Map<usize, NoteView>, page: usize, other: usize)
    ensures
        note_at(m.remove(page), page) == blank_note(),
        other != page ==> note_at(m.remove(page), other) == note_at(m, other),
{
}

/// Giving a page a note never changes what any page reads: a page that
/// has a note keeps it, and one that has none reads blank either way.
pub proof fn insert_note_keeps_notes(m: Map<usize, NoteView>, page: usize, other: usize)
    ensures
        with_note_for(m, page).contains_key(page),
        note_at(with_note_for(m, page), other) == note_at(m, other),
        m.contains_key(page) ==> with_note_for(m, page) == m,
{
}

/// Making room at `from` moves each note at `from` or later one page on,
/// keeps those before it, and leaves `from` reading blank; no note appears
/// elsewhere, and with every note before `from` nothing changes.
pub proof fn shift_up_moves_notes(m: Map<usize, NoteView>, from: usize, page: usize)
    ensures
        shifted_notes(m, from).contains_key(page) <==> (page < from && m.contains_key(page)) || (page
            > from && m.contains_key((page - 1) as usize)),
        (forall|q: usize| m.contains_key(q) ==> q < from) ==> shifted_notes(m, from) == m,
        page < from ==> note_at(shifted_notes(m, from), page) == note_at(m, page),
        from <= page < usize::MAX ==> note_at(shifted_notes(m, from), (page + 1) as usize) == note_at(
            m,
            page,
        ),
        note_at(shifted_notes(m, from), from) == blank_note(),
{
    if from <= page && page < usize::MAX {
        assert((((page + 1) as usize) - 1) as usize == page);
    }
    if forall|q: usize| m.contains_key(q) ==> q < from {
        assert(shifted_notes(m, from) =~= m);
    }
}

/// Importing a deck into a table a second time changes nothing: the first
/// import fills the table (for a deck with pages), and an import leaves a
/// table with notes alone.
pub proof fn migration_runs_once(
    m: Map<usize, NoteView>,
    segs: Seq<SegmentView>,
    title: Option<Seq<char>>,
    total: nat,
)
    ensures
        after_migration(after_migration(m, segs, title, total), segs, title, total)
            == after_migration(m, segs, title, total),
{
    if m.dom() == Set::<usize>::empty() && total > 0 {
        assert(migrated_notes(segs, title, total).contains_key(0));
    }
}

/// An import gives every page of the deck a note, and no other page; page
/// 0 holds the deck's title as its heading and no content.
pub proof fn migration_covers_deck(segs: Seq<SegmentView>, title: Option<Seq<char>>, total: nat, page: usize)
    ensures
        migrated_notes(segs, title, total).contains_key(page) <==> page < total,
        total > 0 ==> migrated_notes(segs, title, total)[0] == (NoteView {
            heading: title,
            content: Seq::empty(),
        }),
{
}

/// On import, the `=` and `==` sections get one page each, in order from
/// page 1, while the deck has pages: page `page` holds the section before
/// it in that order.
pub proof fn migration_gives_sections_a_page(
    segs: Seq<SegmentView>,
    title: Option<Seq<char>>,
    total: nat,
    page: usize,
)
    requires
        1 <= page <= fixed_segments(segs).len(),
        page < total,
    ensures
        migrated_notes(segs, title, total)[page] == note_of_segment(fixed_segments(segs)[page - 1]),
{
    assert(segs.len() > 0) by {
        lemma_levels_len(segs, 1, 2);
    }
}

proof fn lemma_levels_len(segs: Seq<SegmentView>, lo: u32, hi: u32)
    ensures
        segments_at_levels(segs, lo, hi).len() <= segs.len(),
    decreases segs.len(),
{
    if segs.len() > 0 {
        lemma_levels_len(segs.drop_last(), lo, hi);
    }
}

/// On import, the pages left after the `=` and `==` sections are shared
/// out among the `===` and deeper sections in order: the `i`-th such
/// section gets the pages from `share_start(.., i)` up to the next one's,
/// `size` pages or one more (the earlier sections take the extra pages),
/// and the shares end exactly at the last page.
pub proof fn migration_shares_evenly(
    segs: Seq<SegmentView>,
    title: Option<Seq<char>>,
    total: nat,
    i: int,
    page: usize,
)
    requires
        total > 0,
        0 <= i < flex_segments(segs).len(),
    ensures
        ({
            let n = flex_segments(segs).len() as int;
            let base = first_shared_page(segs, total as int);
            let size = (total - base) / n;
            let extra = (total - base) % n;
            &&& share_start(base, size, extra, n) == total
            &&& share_start(base, size, extra, i + 1) - share_start(base, size, extra, i) == size + if i
                < extra {
                1int
            } else {
                0int
            }
            &&& (share_start(base, size, extra, i) <= page < share_start(base, size, extra, i + 1)
                ==> migrated_notes(segs, title, total)[page] == note_of_segment(
                flex_segments(segs)[i],
            ))
        }),
{
    let n = flex_segments(segs).len() as int;
    let base = first_shared_page(segs, total as int);
    let f = total - base;
    let size = f / n;
    let extra = f % n;
    lemma_levels_len(segs, 3, u32::MAX);
    assert(f >= 0);
    vstd::arithmetic::div_mod::lemma_div_pos_is_pos(f, n);
    vstd::arithmetic::div_mod::lemma_mod_bound(f, n);
    lemma_share_end(base, f, n);
    lemma_share_step(base, size, extra, i);
    if share_start(base, size, extra, i) <= page < share_start(base, size, extra, i + 1) {
        lemma_share_monotone(base, size, extra, 0, i);
        lemma_share_monotone(base, size, extra, i + 1, n);
        lemma_share_owner(base, size, extra, n, i, page as int);
        assert(page < total);
    }
}


proof fn lemma_levels_filter(segs: Seq<SegmentView>, lo: u32, hi: u32)
    ensures
        segments_at_levels(segs, lo, hi) == segs.filter(
            |x: SegmentView| lo <= x.heading_level && x.heading_level <= hi,
        ),
    decreases segs.len(),
{
    reveal(Seq::filter);
    if segs.len() > 0 {
        lemma_levels_filter(segs.drop_last(), lo, hi);
    }
}

/// The sections that get a page each are exactly the `=` and `==`
/// sections (levels 1 and 2), and the sections that share the pages left
/// are exactly the `===` and deeper ones (level 3 on), each in source
/// order; a page-break segment (level 0) is neither.
pub proof fn migration_section_kinds(segs: Seq<SegmentView>)
    ensures
        fixed_segments(segs) == segs.filter(
            |x: SegmentView| 1 <= x.heading_level && x.heading_level <= 2,
        ),
        flex_segments(segs) == segs.filter(|x: SegmentView| 3 <= x.heading_level),
        forall|i: int|
            0 <= i < flex_segments(segs).len() ==> (#[trigger] flex_segments(segs)[i]).heading_level >= 3,
        forall|j: int|
            0 <= j < segs.len() && (#[trigger] segs[j]).heading_level >= 3 ==> flex_segments(
                segs,
            ).contains(segs[j]),
        forall|i: int|
            0 <= i < fixed_segments(segs).len() ==> 1 <= (#[trigger] fixed_segments(
                segs,
            )[i]).heading_level <= 2,
{
    lemma_levels_filter(segs, 1, 2);
    lemma_levels_filter(segs, 3, u32::MAX);
    let fp = |x: SegmentView| 3 <= x.heading_level && x.heading_level <= u32::MAX;
    let fq = |x: SegmentView| 3 <= x.heading_level;
    assert(fp =~= fq);
    let gp = |x: SegmentView| 1 <= x.heading_level && x.heading_level <= 2;
    assert forall|i: int| 0 <= i < flex_segments(segs).len() implies (#[trigger] flex_segments(
        segs,
    )[i]).heading_level >= 3 by {
        segs.lemma_filter_pred(fq, i);
    }
    assert forall|j: int| 0 <= j < segs.len() && (#[trigger] segs[j]).heading_level >= 3 implies flex_segments(
        segs,
    ).contains(segs[j]) by {
        segs.lemma_filter_contains(fq, j);
    }
    assert forall|i: int| 0 <= i < fixed_segments(segs).len() implies 1 <= (#[trigger] fixed_segments(
        segs,
    )[i]).heading_level <= 2 by {
        segs.lemma_filter_pred(gp, i);
    }
}

/// With no `===` or deeper section, every page after those of the `=` and
/// `==` sections takes the deck's last segment on import.
pub proof fn migration_rest_takes_last_segment(
    segs: Seq<SegmentView>,
    title: Option<Seq<char>>,
    total: nat,
    page: usize,
)
    requires
        segs.len() > 0,
        forall|j: int| 0 <= j < segs.len() ==> (#[trigger] segs[j]).heading_level < 3,
        first_shared_page(segs, total as int) <= page < total,
    ensures
        migrated_notes(segs, title, total)[page] == note_of_segment(segs.last()),
{
    migration_section_kinds(segs);
    if flex_segments(segs).len() > 0 {
        let x = flex_segments(segs)[0];
        assert(x.heading_level >= 3);
        let fq = |x: SegmentView| 3 <= x.heading_level;
        assert(flex_segments(segs).contains(x));
        segs.lemma_filter_contains_rev(fq, x);
        let j = choose|j: int| 0 <= j < segs.len() && segs[j] == x;
        assert(segs[j].heading_level < 3);
    }
}
} // verus!
