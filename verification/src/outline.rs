//! Reading the outline of a Typst slide deck: its title, its headings, its
//! page breaks, and the segments of source text between them.
use crate::text::{
    back_over_white_space, chars_of, find_first, join_with_newlines, copy_range, first_occurrence, has_prefix, join_lines, lines,
    skip_white_space, split_lines, starts_with, starts_with_at, string_from_chars, texts, trim,
    trim_end, trim_start, trimmed, is_white_space, occurs_at, contains_seq,
};
use vstd::prelude::*;

verus! {

broadcast use vstd::slice::group_slice_axioms;

/// A heading line of a Typst source: `=` to `====` followed by a space.
#[derive(Clone, Debug)]
pub struct HeadingInfo {
    pub level: u32,
    pub text: String,
    pub line: usize,
}

/// A stretch of source lines that starts at a heading or a page break.
pub struct TypSegment {
    pub start_line: usize,
    pub end_line: usize,
    pub heading: Option<String>,
    pub content: String,
    pub heading_level: u32,
}

/// What a heading line holds.
pub struct HeadingView {
    pub level: u32,
    pub text: Seq<char>,
    pub line: int,
}

/// What a segment holds.
pub struct SegmentView {
    pub start_line: int,
    pub end_line: int,
    pub heading: Option<Seq<char>>,
    pub content: Seq<char>,
    pub heading_level: u32,
}

impl View for HeadingInfo {
    type V = HeadingView;

    open spec fn view(&self) -> HeadingView {
        HeadingView { level: self.level, text: self.text@, line: self.line as int }
    }
}

/// The text of an optional string.
pub open spec fn opt_text(o: Option<String>) -> Option<Seq<char>> {
    match o {
        Some(s) => Some(s@),
        None => None,
    }
}

impl View for TypSegment {
    type V = SegmentView;

    open spec fn view(&self) -> SegmentView {
        SegmentView {
            start_line: self.start_line as int,
            end_line: self.end_line as int,
            heading: opt_text(self.heading),
            content: self.content@,
            heading_level: self.heading_level,
        }
    }
}

/// The marker that opens a heading of level 1.
pub open spec fn marker1() -> Seq<char> {
    seq!['=', ' ']
}

/// The marker that opens a heading of level 2.
pub open spec fn marker2() -> Seq<char> {
    seq!['=', '=', ' ']
}

/// The marker that opens a heading of level 3.
pub open spec fn marker3() -> Seq<char> {
    seq!['=', '=', '=', ' ']
}

/// The marker that opens a heading of level 4.
pub open spec fn marker4() -> Seq<char> {
    seq!['=', '=', '=', '=', ' ']
}

/// The directive that breaks a page.
pub open spec fn pagebreak_marker() -> Seq<char> {
    seq!['#', 'p', 'a', 'g', 'e', 'b', 'r', 'e', 'a', 'k']
}

/// The key that names the deck's title.
pub open spec fn title_key() -> Seq<char> {
    seq!['t', 'i', 't', 'l', 'e', ':']
}

/// The heading level that text `t` opens with, or 0 if it opens no heading.
pub open spec fn heading_marker_level(t: Seq<char>) -> u32 {
    if starts_with(t, marker4()) {
        4
    } else if starts_with(t, marker3()) {
        3
    } else if starts_with(t, marker2()) {
        2
    } else if starts_with(t, marker1()) {
        1
    } else {
        0
    }
}

/// The heading that line number `index`, holding `line`, opens, if any.
pub open spec fn line_heading(line: Seq<char>, index: int) -> Option<HeadingView> {
    let t = trim_start(line);
    let level = heading_marker_level(t);
    if level > 0 {
        Some(HeadingView { level, text: trim(t.skip(level as int)), line: index })
    } else {
        None
    }
}

/// Whether `line` is a page break.
pub open spec fn is_pagebreak_line(line: Seq<char>) -> bool {
    starts_with(trim(line), pagebreak_marker())
}

/// The headings among `ls`, in order.
pub open spec fn headings_in(ls: Seq<Seq<char>>) -> Seq<HeadingView>
    decreases ls.len(),
{
    if ls.len() == 0 {
        Seq::empty()
    } else {
        let earlier = headings_in(ls.drop_last());
        match line_heading(ls.last(), ls.len() - 1) {
            Some(h) => earlier.push(h),
            None => earlier,
        }
    }
}

/// The numbers of the page-break lines among `ls`, in order.
pub open spec fn pagebreaks_in(ls: Seq<Seq<char>>) -> Seq<int>
    decreases ls.len(),
{
    if ls.len() == 0 {
        Seq::empty()
    } else {
        let earlier = pagebreaks_in(ls.drop_last());
        if is_pagebreak_line(ls.last()) {
            earlier.push(ls.len() - 1)
        } else {
            earlier
        }
    }
}

/// Where a segment starts: a heading with its text and level, or a page
/// break, which has no text and level 0.
pub struct BoundaryView {
    pub line: int,
    pub label: Option<Seq<char>>,
    pub level: u32,
}

/// The boundary that line number `index`, holding `line`, makes, if any.
pub open spec fn line_boundary(line: Seq<char>, index: int) -> Option<BoundaryView> {
    match line_heading(line, index) {
        Some(h) => Some(BoundaryView { line: index, label: Some(h.text), level: h.level }),
        None => if is_pagebreak_line(line) {
            Some(BoundaryView { line: index, label: None, level: 0 })
        } else {
            None
        },
    }
}

/// The boundaries among `ls`, in line order.
pub open spec fn boundaries_in(ls: Seq<Seq<char>>) -> Seq<BoundaryView>
    decreases ls.len(),
{
    if ls.len() == 0 {
        Seq::empty()
    } else {
        let earlier = boundaries_in(ls.drop_last());
        match line_boundary(ls.last(), ls.len() - 1) {
            Some(b) => earlier.push(b),
            None => earlier,
        }
    }
}

/// The nearest label at or before position `k`.
pub open spec fn resolved_label(labels: Seq<Option<Seq<char>>>, k: int) -> Option<Seq<char>>
    decreases k + 1,
{
    if k < 0 || k >= labels.len() {
        None
    } else if labels[k] is Some {
        labels[k]
    } else {
        resolved_label(labels, k - 1)
    }
}

/// Whether `line` is a heading or page-break line, which no segment counts
/// as content.
pub open spec fn is_marker_line(line: Seq<char>) -> bool {
    let t = trim_start(line);
    heading_marker_level(t) > 0 || starts_with(t, pagebreak_marker())
}

/// The content lines among `ls`, trimmed: the non-blank lines that are not
/// heading or page-break lines.
pub open spec fn body_lines(ls: Seq<Seq<char>>) -> Seq<Seq<char>>
    decreases ls.len(),
{
    if ls.len() == 0 {
        Seq::empty()
    } else {
        let earlier = body_lines(ls.drop_last());
        let l = ls.last();
        if !is_marker_line(l) && trim(l).len() > 0 {
            earlier.push(trim(l))
        } else {
            earlier
        }
    }
}

/// The `k`-th segment of the lines `ls`, whose boundaries are `b`.
pub open spec fn segment_at(ls: Seq<Seq<char>>, b: Seq<BoundaryView>, k: int) -> SegmentView {
    let start = b[k].line;
    let end = if k + 1 < b.len() {
        b[k + 1].line
    } else {
        ls.len() as int
    };
    SegmentView {
        start_line: start,
        end_line: end,
        heading: resolved_label(b.map_values(|x: BoundaryView| x.label), k),
        content: join_lines(body_lines(ls.subrange(start, end))),
        heading_level: b[k].level,
    }
}

/// The segments of a Typst source: one per heading or page-break line, in
/// order, each running to the next one or to the end of the source.
pub open spec fn typ_segments(source: Seq<char>) -> Seq<SegmentView> {
    let ls = lines(source);
    let b = boundaries_in(ls);
    Seq::new(b.len(), |k: int| segment_at(ls, b, k))
}

/// The headings of a Typst source.
pub open spec fn typ_headings(source: Seq<char>) -> Seq<HeadingView> {
    headings_in(lines(source))
}

/// Whether `line` starts a segment: a heading of `hs` or a page break of
/// `pbs` lies on it.
pub open spec fn is_boundary_line(hs: Seq<HeadingView>, pbs: Seq<usize>, line: int) -> bool {
    (exists|j: int| 0 <= j < hs.len() && hs[j].line == line) || (exists|j: int|
        0 <= j < pbs.len() && pbs[j] == line)
}

/// Whether `j` is the first of `hs` that lies on `line`.
pub open spec fn is_first_heading_at(hs: Seq<HeadingView>, line: int, j: int) -> bool {
    0 <= j < hs.len() && hs[j].line == line && forall|m: int| 0 <= m < j ==> hs[m].line != line
}

/// The label of a boundary line: the text of the first heading of `hs` on
/// it, or `None` for a bare page break.
pub open spec fn boundary_label(hs: Seq<HeadingView>, line: int) -> Option<Seq<char>> {
    if exists|j: int| 0 <= j < hs.len() && hs[j].line == line {
        Some(hs[choose|j: int| is_first_heading_at(hs, line, j)].text)
    } else {
        None
    }
}

/// The position in `rest`, from `i` on, of the quote that ends a string,
/// where a backslash escapes the character after it.
pub open spec fn closing_quote_from(rest: Seq<char>, i: int, escaped: bool) -> Option<int>
    decreases rest.len() - i,
{
    if i < 0 || i >= rest.len() {
        None
    } else if escaped {
        closing_quote_from(rest, i + 1, false)
    } else if rest[i] == '\\' {
        closing_quote_from(rest, i + 1, true)
    } else if rest[i] == '"' {
        Some(i)
    } else {
        closing_quote_from(rest, i + 1, false)
    }
}

/// The title of a Typst deck: the quoted, non-empty string that follows
/// the first `title:` (after whitespace), with its escapes kept as written.
pub open spec fn typ_title(source: Seq<char>) -> Option<Seq<char>> {
    match first_occurrence(source, title_key()) {
        None => None,
        Some(idx) => {
            let after = trim_start(source.skip(idx + 6));
            if after.len() > 0 && after[0] == '"' {
                let rest = after.drop_first();
                match closing_quote_from(rest, 0, false) {
                    Some(end) => if end > 0 {
                        Some(rest.take(end))
                    } else {
                        None
                    },
                    None => None,
                }
            } else {
                None
            }
        },
    }
}

/// Where the text of `line` starts once leading whitespace is skipped, and
/// the heading level that text opens with.
fn line_marker(line: &[char]) -> (r: (usize, u32))
    ensures
        r.0 <= line@.len(),
        line@.skip(r.0 as int) == trim_start(line@),
        r.1 == heading_marker_level(trim_start(line@)),
{
    let st = skip_white_space(line, 0, line.len());
    proof {
        assert(line@.subrange(0, line@.len() as int) =~= line@);
        assert(line@.skip(st as int) =~= line@.subrange(st as int, line@.len() as int));
    }
    let m4 = ['=', '=', '=', '=', ' '];
    let m3 = ['=', '=', '=', ' '];
    let m2 = ['=', '=', ' '];
    let m1 = ['=', ' '];
    proof {
        assert(m4@ =~= marker4());
        assert(m3@ =~= marker3());
        assert(m2@ =~= marker2());
        assert(m1@ =~= marker1());
    }
    let level = if starts_with_at(line, st, &m4) {
        4
    } else if starts_with_at(line, st, &m3) {
        3
    } else if starts_with_at(line, st, &m2) {
        2
    } else if starts_with_at(line, st, &m1) {
        1
    } else {
        0
    };
    (st, level)
}

/// The text of `line[from..]` with leading and trailing whitespace removed.
fn trimmed_tail(line: &[char], from: usize) -> (r: Vec<char>)
    requires
        from <= line@.len(),
    ensures
        r@ == trim(line@.skip(from as int)),
{
    let a = skip_white_space(line, from, line.len());
    let b = back_over_white_space(line, a, line.len());
    proof {
        assert(line@.skip(from as int) =~= line@.subrange(from as int, line@.len() as int));
    }
    copy_range(line, a, b)
}

/// The level and trimmed text of the heading that `line`, line number
/// `index`, opens, if any.
fn heading_parts(line: &[char], index: usize) -> (r: Option<(u32, Vec<char>)>)
    ensures
        match r {
            Some((level, text)) => line_heading(line@, index as int) == Some(
                HeadingView { level, text: text@, line: index as int },
            ),
            None => line_heading(line@, index as int) is None,
        },
{
    let (st, level) = line_marker(line);
    if level > 0 {
        proof {
            assert(st + level <= line.len()) by {
                assert(marker4().len() == 5 && marker3().len() == 4);
                assert(marker2().len() == 3 && marker1().len() == 2);
            }
            assert(trim_start(line@).skip(level as int) =~= line@.skip(st + level));
        }
        let text = trimmed_tail(line, st + level as usize);
        Some((level, text))
    } else {
        None
    }
}

/// The heading that `line`, line number `index`, opens, if any.
fn heading_of_line(line: &[char], index: usize) -> (r: Option<HeadingInfo>)
    ensures
        match r {
            Some(h) => line_heading(line@, index as int) == Some(h@),
            None => line_heading(line@, index as int) is None,
        },
{
    match heading_parts(line, index) {
        Some((level, text)) => Some(
            HeadingInfo { level, text: string_from_chars(text.as_slice()), line: index },
        ),
        None => None,
    }
}

/// Whether `line` is a page break.
fn is_pagebreak(line: &[char]) -> (r: bool)
    ensures
        r == is_pagebreak_line(line@),
{
    let t = trimmed(line);
    let pb = ['#', 'p', 'a', 'g', 'e', 'b', 'r', 'e', 'a', 'k'];
    proof {
        assert(pb@ =~= pagebreak_marker());
    }
    has_prefix(t.as_slice(), &pb)
}

/// The views of a sequence of headings.
pub open spec fn heading_views(hs: Seq<HeadingInfo>) -> Seq<HeadingView> {
    hs.map_values(|h: HeadingInfo| h@)
}

/// The headings of a Typst source, in order: each line that, once leading
/// whitespace is skipped, opens with `= `, `== `, `=== ` or `==== `. The
/// heading's text is the rest of the line, trimmed.
pub fn parse_typ_headings(source: &str) -> (r: Vec<HeadingInfo>)
    ensures
        heading_views(r@) == typ_headings(source@),
{
    let chars = chars_of(source);
    let ls = split_lines(chars.as_slice());
    let mut out: Vec<HeadingInfo> = Vec::new();
    let mut i: usize = 0;
    while i < ls.len()
        invariant
            i <= ls@.len(),
            texts(ls@) == lines(source@),
            heading_views(out@) == headings_in(texts(ls@).take(i as int)),
        decreases ls.len() - i,
    {
        let line = ls[i].as_slice();
        proof {
            assert(texts(ls@).take(i + 1).drop_last() =~= texts(ls@).take(i as int));
            assert(texts(ls@).take(i + 1).last() == line@);
        }
        match heading_of_line(line, i) {
            Some(h) => {
                let ghost before = heading_views(out@);
                out.push(h);
                proof {
                    assert(heading_views(out@) =~= before.push(h@));
                }
            },
            None => {},
        }
        i += 1;
    }
    proof {
        assert(texts(ls@).take(ls@.len() as int) =~= texts(ls@));
    }
    out
}

/// The numbers of the lines of `source` that, trimmed, begin with
/// `#pagebreak`, in order.
pub fn find_pagebreak_lines(source: &str) -> (r: Vec<usize>)
    ensures
        r@.map_values(|x: usize| x as int) == pagebreaks_in(lines(source@)),
{
    let chars = chars_of(source);
    let ls = split_lines(chars.as_slice());
    let mut out: Vec<usize> = Vec::new();
    let mut i: usize = 0;
    while i < ls.len()
        invariant
            i <= ls@.len(),
            texts(ls@) == lines(source@),
            out@.map_values(|x: usize| x as int) == pagebreaks_in(texts(ls@).take(i as int)),
        decreases ls.len() - i,
    {
        proof {
            assert(texts(ls@).take(i + 1).drop_last() =~= texts(ls@).take(i as int));
            assert(texts(ls@).take(i + 1).last() == ls@[i as int]@);
        }
        if is_pagebreak(ls[i].as_slice()) {
            let ghost before = out@.map_values(|x: usize| x as int);
            out.push(i);
            proof {
                assert(out@.map_values(|x: usize| x as int) =~= before.push(i as int));
            }
        }
        i += 1;
    }
    proof {
        assert(texts(ls@).take(ls@.len() as int) =~= texts(ls@));
    }
    out
}

/// A boundary between segments, as the reader collects them.
struct Boundary {
    line: usize,
    label: Option<Vec<char>>,
    level: u32,
}

/// The text of an optional character vector.
pub open spec fn opt_chars(o: Option<Vec<char>>) -> Option<Seq<char>> {
    match o {
        Some(v) => Some(v@),
        None => None,
    }
}

impl Boundary {
    spec fn view(&self) -> BoundaryView {
        BoundaryView { line: self.line as int, label: opt_chars(self.label), level: self.level }
    }
}

spec fn boundary_views(bs: Seq<Boundary>) -> Seq<BoundaryView> {
    bs.map_values(|b: Boundary| b.view())
}

/// The boundary that `line`, line number `index`, makes, if any.
fn boundary_of_line(line: &[char], index: usize) -> (r: Option<Boundary>)
    ensures
        match r {
            Some(b) => line_boundary(line@, index as int) == Some(b.view()),
            None => line_boundary(line@, index as int) is None,
        },
{
    match heading_parts(line, index) {
        Some((level, text)) => Some(Boundary { line: index, label: Some(text), level }),
        None => if is_pagebreak(line) {
            Some(Boundary { line: index, label: None, level: 0 })
        } else {
            None
        },
    }
}

/// The boundaries lie on lines of `ls`, in strictly increasing order.
proof fn lemma_boundaries_ordered(ls: Seq<Seq<char>>)
    ensures
        forall|k: int|
            0 <= k < boundaries_in(ls).len() ==> 0 <= #[trigger] boundaries_in(ls)[k].line
                < ls.len(),
        forall|j: int, k: int|
            0 <= j < k < boundaries_in(ls).len() ==> #[trigger] boundaries_in(ls)[j].line
                < #[trigger] boundaries_in(ls)[k].line,
    decreases ls.len(),
{
    if ls.len() > 0 {
        lemma_boundaries_ordered(ls.drop_last());
    }
}

/// Whether `line` counts as a heading or page-break line.
fn is_marker(line: &[char]) -> (r: bool)
    ensures
        r == is_marker_line(line@),
{
    let (st, level) = line_marker(line);
    let pb = ['#', 'p', 'a', 'g', 'e', 'b', 'r', 'e', 'a', 'k'];
    proof {
        assert(pb@ =~= pagebreak_marker());
    }
    level > 0 || starts_with_at(line, st, &pb)
}

/// The content of the lines `ls[start..end]`: their trimmed, non-blank,
/// non-marker lines joined by newlines.
fn body_text(ls: &Vec<Vec<char>>, start: usize, end: usize) -> (r: Vec<char>)
    requires
        start <= end <= ls@.len(),
    ensures
        r@ == join_lines(body_lines(texts(ls@).subrange(start as int, end as int))),
{
    let mut kept: Vec<Vec<char>> = Vec::new();
    let mut j = start;
    while j < end
        invariant
            start <= j <= end <= ls@.len(),
            texts(kept@) == body_lines(texts(ls@).subrange(start as int, j as int)),
        decreases end - j,
    {
        let line = ls[j].as_slice();
        proof {
            assert(texts(ls@).subrange(start as int, j + 1).drop_last() =~= texts(ls@).subrange(
                start as int,
                j as int,
            ));
            assert(texts(ls@).subrange(start as int, j + 1).last() == line@);
        }
        if !is_marker(line) {
            let t = trimmed(line);
            if t.len() > 0 {
                let ghost before = texts(kept@);
                kept.push(t);
                proof {
                    assert(texts(kept@) =~= before.push(trim(line@)));
                }
            }
        }
        j += 1;
    }
    join_with_newlines(&kept)
}

/// The views of a sequence of segments.
pub open spec fn segment_views(ss: Seq<TypSegment>) -> Seq<SegmentView> {
    ss.map_values(|t: TypSegment| t@)
}

/// A copy of an optional character vector.
fn copy_label(o: &Option<Vec<char>>) -> (r: Option<Vec<char>>)
    ensures
        opt_chars(r) == opt_chars(*o),
{
    match o {
        Some(v) => Some(copy_range(v.as_slice(), 0, v.len())),
        None => None,
    }
}

/// The optional string holding an optional character vector.
fn label_string(o: &Option<Vec<char>>) -> (r: Option<String>)
    ensures
        opt_text(r) == opt_chars(*o),
{
    match o {
        Some(v) => Some(string_from_chars(v.as_slice())),
        None => None,
    }
}

/// The segments of a Typst source, one per heading or page-break line, in
/// line order. A segment runs from its line to the next such line, or to
/// the end of the source. It carries the level of its heading (0 for a page
/// break), the text of its heading or else of the nearest heading before it,
/// and as content its trimmed, non-blank lines other than heading and
/// page-break lines, joined by newlines.
pub fn extract_typ_segments(source: &str) -> (r: Vec<TypSegment>)
    ensures
        segment_views(r@) == typ_segments(source@),
{
    let chars = chars_of(source);
    let ls = split_lines(chars.as_slice());
    let ghost lv = texts(ls@);
    let mut bs: Vec<Boundary> = Vec::new();
    let mut i: usize = 0;
    while i < ls.len()
        invariant
            i <= ls@.len(),
            lv == texts(ls@),
            boundary_views(bs@) == boundaries_in(lv.take(i as int)),
        decreases ls.len() - i,
    {
        proof {
            assert(lv.take(i + 1).drop_last() =~= lv.take(i as int));
            assert(lv.take(i + 1).last() == ls@[i as int]@);
        }
        match boundary_of_line(ls[i].as_slice(), i) {
            Some(b) => {
                let ghost before = boundary_views(bs@);
                let ghost bv = b.view();
                bs.push(b);
                proof {
                    assert(boundary_views(bs@) =~= before.push(bv));
                }
            },
            None => {},
        }
        i += 1;
    }
    proof {
        assert(lv.take(ls@.len() as int) =~= lv);
        lemma_boundaries_ordered(lv);
    }
    let ghost bv = boundaries_in(lv);
    let ghost labels = bv.map_values(|x: BoundaryView| x.label);
    let mut out: Vec<TypSegment> = Vec::new();
    let mut last_label: Option<Vec<char>> = None;
    let mut k: usize = 0;
    while k < bs.len()
        invariant
            k <= bs@.len(),
            lv == texts(ls@),
            lv == lines(source@),
            bv == boundaries_in(lv),
            boundary_views(bs@) == bv,
            labels == bv.map_values(|x: BoundaryView| x.label),
            forall|m: int| 0 <= m < bv.len() ==> 0 <= #[trigger] bv[m].line < lv.len(),
            forall|a: int, b: int| 0 <= a < b < bv.len() ==> #[trigger] bv[a].line < #[trigger] bv[b].line,
            opt_chars(last_label) == resolved_label(labels, k - 1),
            segment_views(out@) =~= Seq::new(k as nat, |m: int| segment_at(lv, bv, m)),
        decreases bs.len() - k,
    {
        let start = bs[k].line;
        let end = if k + 1 < bs.len() {
            bs[k + 1].line
        } else {
            ls.len()
        };
        proof {
            assert(bv[k as int].line == start);
            if k + 1 < bs.len() {
                assert(bv[k + 1].line == end);
            }
        }
        let resolved = match &bs[k].label {
            Some(t) => {
                last_label = Some(copy_range(t.as_slice(), 0, t.len()));
                Some(copy_range(t.as_slice(), 0, t.len()))
            },
            None => copy_label(&last_label),
        };
        proof {
            assert(labels[k as int] == opt_chars(bs@[k as int].label));
        }
        let content = body_text(&ls, start, end);
        let seg = TypSegment {
            start_line: start,
            end_line: end,
            heading: label_string(&resolved),
            content: string_from_chars(content.as_slice()),
            heading_level: bs[k].level,
        };
        let ghost before = segment_views(out@);
        proof {
            let sa = segment_at(lv, bv, k as int);
            assert(labels.len() == bv.len());
            assert(seg@.start_line == sa.start_line);
            assert(seg@.end_line == sa.end_line);
            assert(seg@.heading == sa.heading);
            assert(seg@.content == sa.content);
            assert(seg@.heading_level == sa.heading_level);
            assert(seg@ == segment_at(lv, bv, k as int));
        }
        out.push(seg);
        proof {
            assert(segment_views(out@) =~= before.push(seg@));
        }
        k += 1;
    }
    out
}

/// A closing quote lies within the text searched.
proof fn lemma_closing_quote_bounds(rest: Seq<char>, i: int, escaped: bool)
    ensures
        closing_quote_from(rest, i, escaped) matches Some(e) ==> i <= e < rest.len(),
    decreases rest.len() - i,
{
    if 0 <= i < rest.len() {
        lemma_closing_quote_bounds(rest, i + 1, false);
        lemma_closing_quote_bounds(rest, i + 1, true);
    }
}

/// The title of a Typst deck: the quoted string after the first `title:`
/// of the source and any whitespace, up to the first quote that no
/// backslash escapes, with the escapes kept as written. A title that is
/// missing, unquoted, unterminated or empty gives `None`.
pub fn parse_typ_title(source: &str) -> (r: Option<String>)
    ensures
        opt_text(r) == typ_title(source@),
{
    let chars = chars_of(source);
    let key = ['t', 'i', 't', 'l', 'e', ':'];
    proof {
        assert(key@ =~= title_key());
    }
    let idx = match find_first(chars.as_slice(), &key) {
        Some(i) => i,
        None => {
            return None;
        },
    };
    proof {
        assert(idx + 6 <= chars.len());
    }
    let a = skip_white_space(chars.as_slice(), idx + 6, chars.len());
    let ghost after = trim_start(source@.skip(idx + 6));
    proof {
        assert(source@.skip(idx + 6) =~= chars@.subrange(idx + 6, chars@.len() as int));
        assert(after == chars@.subrange(a as int, chars@.len() as int));
    }
    if a >= chars.len() || chars[a] != '"' {
        return None;
    }
    let q = a + 1;
    let ghost rest = after.drop_first();
    proof {
        assert(rest =~= chars@.subrange(q as int, chars@.len() as int));
    }
    let mut j = q;
    let mut escaped = false;
    let mut found: Option<usize> = None;
    while j < chars.len()
        invariant_except_break
            q <= j <= chars@.len(),
            rest == chars@.subrange(q as int, chars@.len() as int),
            closing_quote_from(rest, j - q, escaped) == closing_quote_from(rest, 0, false),
            found is None,
        ensures
            match found {
                Some(e) => closing_quote_from(rest, 0, false) == Some(e as int),
                None => closing_quote_from(rest, 0, false) is None,
            },
        decreases chars.len() - j,
    {
        let c = chars[j];
        if escaped {
            escaped = false;
        } else if c == '\\' {
            escaped = true;
        } else if c == '"' {
            found = Some(j - q);
            break;
        }
        j += 1;
    }
    match found {
        Some(e) => {
            if e > 0 {
                proof {
                    lemma_closing_quote_bounds(rest, 0, false);
                    assert(q + e <= chars.len());
                    assert(rest.take(e as int) =~= chars@.subrange(q as int, q + e));
                }
                let title = copy_range(chars.as_slice(), q, q + e);
                Some(string_from_chars(title.as_slice()))
            } else {
                None
            }
        },
        None => None,
    }
}

/// Whether `v` holds `x`.
fn contains_line(v: &Vec<usize>, x: usize) -> (r: bool)
    ensures
        r == v@.contains(x),
{
    let mut m: usize = 0;
    while m < v.len()
        invariant
            m <= v@.len(),
            forall|y: int| 0 <= y < m ==> v@[y] != x,
        decreases v.len() - m,
    {
        if v[m] == x {
            return true;
        }
        m += 1;
    }
    false
}

/// What a sequence holds once `x` is pushed onto it.
proof fn lemma_push_contains(s: Seq<usize>, x: usize)
    ensures
        forall|v: usize| #[trigger] s.push(x).contains(v) <==> s.contains(v) || v == x,
        !s.contains(x) && s.no_duplicates() ==> s.push(x).no_duplicates(),
{
    assert forall|v: usize| #[trigger] s.push(x).contains(v) implies s.contains(v) || v == x by {
        let k = choose|k: int| 0 <= k < s.len() + 1 && s.push(x)[k] == v;
        if k < s.len() {
            assert(s[k] == v);
        }
    }
    assert forall|v: usize| s.contains(v) || v == x implies #[trigger] s.push(x).contains(v) by {
        if v == x {
            assert(s.push(x)[s.len() as int] == v);
        } else {
            let k = choose|k: int| 0 <= k < s.len() && s[k] == v;
            assert(s.push(x)[k] == v);
        }
    }
    if !s.contains(x) && s.no_duplicates() {
        assert forall|a: int, b: int|
            0 <= a < s.push(x).len() && 0 <= b < s.push(x).len() && a != b implies s.push(x)[a]
            != s.push(x)[b] by {
            if a < s.len() && b < s.len() {
            } else if a < s.len() {
                assert(s.contains(s[a]));
            } else if b < s.len() {
                assert(s.contains(s[b]));
            }
        }
    }
}

/// What a sequence holds once `x` is inserted into it at `pos`.
proof fn lemma_insert_contains(s: Seq<usize>, pos: int, x: usize)
    requires
        0 <= pos <= s.len(),
    ensures
        forall|v: usize| #[trigger] s.insert(pos, x).contains(v) <==> s.contains(v) || v == x,
{
    s.insert_ensures(pos, x);
    let t = s.insert(pos, x);
    assert forall|v: usize| #[trigger] t.contains(v) implies s.contains(v) || v == x by {
        let k = choose|k: int| 0 <= k < t.len() && t[k] == v;
        if k < pos {
            assert(s[k] == v);
        } else if k > pos {
            assert(s[k - 1] == v);
        }
    }
    assert forall|v: usize| s.contains(v) || v == x implies #[trigger] t.contains(v) by {
        if v == x {
            assert(t[pos] == v);
        } else {
            let k = choose|k: int| 0 <= k < s.len() && s[k] == v;
            if k < pos {
                assert(t[k] == v);
            } else {
                assert(t[k + 1] == v);
            }
        }
    }
}

/// The lines that hold a heading of `headings` or a page break of
/// `pagebreak_lines`, each once.
fn boundary_lines(headings: &[HeadingInfo], pagebreak_lines: &[usize]) -> (r: Vec<usize>)
    ensures
        r@.no_duplicates(),
        forall|v: usize|
            #[trigger] r@.contains(v) <==> is_boundary_line(
                heading_views(headings@),
                pagebreak_lines@,
                v as int,
            ),
{
    let ghost hs = heading_views(headings@);
    let mut bl: Vec<usize> = Vec::new();
    let mut i: usize = 0;
    while i < headings.len()
        invariant
            i <= headings@.len(),
            bl@.no_duplicates(),
            forall|v: usize|
                #[trigger] bl@.contains(v) <==> exists|j: int|
                    0 <= j < i && headings@[j].line == v,
        decreases headings.len() - i,
    {
        let line = headings[i].line;
        let ghost before = bl@;
        if !contains_line(&bl, line) {
            bl.push(line);
            proof {
                lemma_push_contains(before, line);
            }
        }
        proof {
            assert forall|v: usize| #[trigger] bl@.contains(v) <==> exists|j: int|
                0 <= j < i + 1 && headings@[j].line == v by {
                if bl@.contains(v) && v != line {
                    assert(before.contains(v));
                }
                if exists|j: int| 0 <= j < i + 1 && headings@[j].line == v {
                    let j = choose|j: int| 0 <= j < i + 1 && headings@[j].line == v;
                    if j < i {
                        assert(before.contains(v));
                    }
                }
            }
        }
        i += 1;
    }
    let mut p: usize = 0;
    while p < pagebreak_lines.len()
        invariant
            p <= pagebreak_lines@.len(),
            bl@.no_duplicates(),
            forall|v: usize|
                #[trigger] bl@.contains(v) <==> (exists|j: int|
                    0 <= j < headings@.len() && headings@[j].line == v) || (exists|j: int|
                    0 <= j < p && pagebreak_lines@[j] == v),
        decreases pagebreak_lines.len() - p,
    {
        let line = pagebreak_lines[p];
        let ghost before = bl@;
        if !contains_line(&bl, line) {
            bl.push(line);
            proof {
                lemma_push_contains(before, line);
            }
        }
        proof {
            assert forall|v: usize| #[trigger] bl@.contains(v) <==> (exists|j: int|
                0 <= j < headings@.len() && headings@[j].line == v) || (exists|j: int|
                0 <= j < p + 1 && pagebreak_lines@[j] == v) by {
                if bl@.contains(v) && v != line {
                    assert(before.contains(v));
                }
                if exists|j: int| 0 <= j < p + 1 && pagebreak_lines@[j] == v {
                    let j = choose|j: int| 0 <= j < p + 1 && pagebreak_lines@[j] == v;
                    if j < p {
                        assert(before.contains(v));
                    }
                }
                if v == line {
                    assert(pagebreak_lines@[p as int] == v);
                }
            }
        }
        p += 1;
    }
    proof {
        assert forall|v: usize| #[trigger] bl@.contains(v) <==> is_boundary_line(
            hs,
            pagebreak_lines@,
            v as int,
        ) by {
            if exists|j: int| 0 <= j < headings@.len() && headings@[j].line == v {
                let j = choose|j: int| 0 <= j < headings@.len() && headings@[j].line == v;
                assert(hs[j].line == v);
            }
            if exists|j: int| 0 <= j < hs.len() && hs[j].line == v {
                let j = choose|j: int| 0 <= j < hs.len() && hs[j].line == v;
                assert(headings@[j].line == v);
            }
        }
    }
    bl
}

/// The distinct values of `v`, in increasing order.
fn sorted_lines(v: &Vec<usize>) -> (r: Vec<usize>)
    requires
        v@.no_duplicates(),
    ensures
        forall|a: int, b: int| 0 <= a < b < r@.len() ==> #[trigger] r@[a] < #[trigger] r@[b],
        forall|x: usize| #[trigger] r@.contains(x) <==> v@.contains(x),
{
    let mut out: Vec<usize> = Vec::new();
    let mut i: usize = 0;
    while i < v.len()
        invariant
            i <= v@.len(),
            v@.no_duplicates(),
            forall|a: int, b: int| 0 <= a < b < out@.len() ==> #[trigger] out@[a] < #[trigger] out@[b],
            forall|x: usize| #[trigger] out@.contains(x) <==> v@.take(i as int).contains(x),
        decreases v.len() - i,
    {
        let x = v[i];
        let mut pos: usize = 0;
        while pos < out.len() && out[pos] < x
            invariant
                pos <= out@.len(),
                forall|y: int| 0 <= y < pos ==> out@[y] < x,
            decreases out.len() - pos,
        {
            pos += 1;
        }
        proof {
            assert(v@.take(i + 1) =~= v@.take(i as int).push(x));
            lemma_push_contains(v@.take(i as int), x);
            assert(!v@.take(i as int).contains(x)) by {
                if v@.take(i as int).contains(x) {
                    let k = choose|k: int| 0 <= k < i && v@.take(i as int)[k] == x;
                    assert(v@[k] == v@[i as int]);
                }
            }
            assert forall|y: int| pos <= y < out@.len() implies out@[y] > x by {
                assert(out@.contains(out@[y]));
                if y > pos {
                    assert(out@[pos as int] < out@[y]);
                }
            }
        }
        let ghost before = out@;
        out.insert(pos, x);
        proof {
            before.insert_ensures(pos as int, x);
            lemma_insert_contains(before, pos as int, x);
            assert forall|a: int, b: int| 0 <= a < b < out@.len() implies #[trigger] out@[a]
                < #[trigger] out@[b] by {
                if b < pos {
                } else if b == pos {
                } else if a < pos {
                    assert(out@[b] == before[b - 1]);
                } else if a == pos {
                    assert(out@[b] == before[b - 1]);
                } else {
                    assert(out@[a] == before[a - 1] && out@[b] == before[b - 1]);
                }
            }
        }
        i += 1;
    }
    proof {
        assert(v@.take(v@.len() as int) =~= v@);
    }
    out
}

/// The text of the first heading of `headings` on `line`, if any.
fn label_for(headings: &[HeadingInfo], line: usize) -> (r: Option<Vec<char>>)
    ensures
        opt_chars(r) == boundary_label(heading_views(headings@), line as int),
{
    let ghost hs = heading_views(headings@);
    let mut j: usize = 0;
    while j < headings.len()
        invariant
            j <= headings@.len(),
            hs == heading_views(headings@),
            forall|m: int| 0 <= m < j ==> hs[m].line != line,
        decreases headings.len() - j,
    {
        if headings[j].line == line {
            proof {
                assert(is_first_heading_at(hs, line as int, j as int));
                lemma_first_heading_unique(hs, line as int, j as int);
            }
            return Some(chars_of(headings[j].text.as_str()));
        }
        j += 1;
    }
    None
}

/// Whether `r` holds the spans built from the headings `hs` and page-break
/// lines `pbs` of a source of `total` lines: every line holding a heading
/// or a page break starts exactly one span, in line order; a span ends
/// where the next starts, the last at `total`; a span's label is the text
/// of the first heading on its line, or else the nearest label before it.
pub open spec fn built_spans(
    r: Seq<(usize, usize, Option<String>)>,
    hs: Seq<HeadingView>,
    pbs: Seq<usize>,
    total: usize,
) -> bool {
    &&& forall|k: int| 0 <= k < r.len() ==> is_boundary_line(hs, pbs, (#[trigger] r[k]).0 as int)
    &&& forall|line: usize|
        is_boundary_line(hs, pbs, line as int) ==> exists|k: int| 0 <= k < r.len() && (#[trigger] r[k]).0 == line
    &&& forall|j: int, k: int| 0 <= j < k < r.len() ==> (#[trigger] r[j]).0 < (#[trigger] r[k]).0
    &&& forall|k: int|
        0 <= k < r.len() ==> (#[trigger] r[k]).1 == (if k + 1 < r.len() {
            r[k + 1].0
        } else {
            total
        })
    &&& forall|k: int|
        0 <= k < r.len() ==> opt_text((#[trigger] r[k]).2) == resolved_label(
            Seq::new(r.len(), |m: int| boundary_label(hs, r[m].0 as int)),
            k,
        )
}

/// The first heading that lies on a line is unique.
proof fn lemma_first_heading_unique(hs: Seq<HeadingView>, line: int, j: int)
    requires
        is_first_heading_at(hs, line, j),
    ensures
        boundary_label(hs, line) == Some(hs[j].text),
{
    let c = choose|c: int| is_first_heading_at(hs, line, c);
    assert(is_first_heading_at(hs, line, c));
    if c < j {
        assert(hs[c].line != line);
    } else if c > j {
        assert(hs[j].line != line);
    }
}

/// Segments built from headings and page-break lines, for a source of
/// `total_lines` lines. Every line that holds a heading or a page break
/// starts exactly one segment, in line order; a segment ends where the next
/// one starts, the last at `total_lines`. A segment's label is the text of
/// the first heading on its line, or else the nearest label before it.
pub fn build_segments(headings: &[HeadingInfo], pagebreak_lines: &[usize], total_lines: usize) -> (r:
    Vec<(usize, usize, Option<String>)>)
    ensures
        built_spans(r@, heading_views(headings@), pagebreak_lines@, total_lines),
{
    let ghost hs = heading_views(headings@);
    let bl = boundary_lines(headings, pagebreak_lines);
    let sorted = sorted_lines(&bl);
    let ghost labels = Seq::new(sorted@.len(), |m: int| boundary_label(hs, sorted@[m] as int));
    let mut out: Vec<(usize, usize, Option<String>)> = Vec::new();
    let mut last_label: Option<Vec<char>> = None;
    let mut k: usize = 0;
    while k < sorted.len()
        invariant
            k <= sorted@.len(),
            hs == heading_views(headings@),
            labels == Seq::new(sorted@.len(), |m: int| boundary_label(hs, sorted@[m] as int)),
            opt_chars(last_label) == resolved_label(labels, k - 1),
            out@.len() == k,
            forall|x: int| 0 <= x < k ==> (#[trigger] out@[x]).0 == sorted@[x],
            forall|x: int|
                0 <= x < k ==> (#[trigger] out@[x]).1 == (if x + 1 < sorted@.len() {
                    sorted@[x + 1]
                } else {
                    total_lines
                }),
            forall|x: int| 0 <= x < k ==> opt_text((#[trigger] out@[x]).2) == resolved_label(labels, x),
        decreases sorted.len() - k,
    {
        let start = sorted[k];
        let end = if k + 1 < sorted.len() {
            sorted[k + 1]
        } else {
            total_lines
        };
        let label = label_for(headings, start);
        let resolved = match label {
            Some(t) => {
                last_label = Some(copy_range(t.as_slice(), 0, t.len()));
                Some(t)
            },
            None => copy_label(&last_label),
        };
        out.push((start, end, label_string(&resolved)));
        k += 1;
    }
    proof {
        assert forall|line: usize|
            is_boundary_line(hs, pagebreak_lines@, line as int) implies exists|k: int|
                0 <= k < out@.len() && (#[trigger] out@[k]).0 == line by {
            assert(bl@.contains(line));
            assert(sorted@.contains(line));
            let x = choose|x: int| 0 <= x < sorted@.len() && sorted@[x] == line;
            assert(out@[x].0 == line);
        }
        assert forall|k: int| 0 <= k < out@.len() implies is_boundary_line(
            hs,
            pagebreak_lines@,
            (#[trigger] out@[k]).0 as int,
        ) by {
            assert(sorted@.contains(sorted@[k]));
            assert(bl@.contains(sorted@[k]));
        }
        assert(labels =~= Seq::new(
            out@.len(),
            |m: int| boundary_label(hs, out@[m].0 as int),
        ));
    }
    out
}


/// The segments of a source follow one another without gap or overlap:
/// each starts on a line of the source before it ends, ends where the next
/// one starts, and the last ends with the source.
pub proof fn segments_tile_source(source: Seq<char>, k: int)
    requires
        0 <= k < typ_segments(source).len(),
    ensures
        0 <= typ_segments(source)[k].start_line < typ_segments(source)[k].end_line <= lines(source).len(),
        k + 1 < typ_segments(source).len() ==> typ_segments(source)[k].end_line == typ_segments(
            source,
        )[k + 1].start_line,
        k + 1 == typ_segments(source).len() ==> typ_segments(source)[k].end_line == lines(source).len(),
{
    let ls = lines(source);
    lemma_boundaries_ordered(ls);
    let b = boundaries_in(ls);
    assert(b[k].line < ls.len());
    if k + 1 < b.len() {
        assert(b[k].line < b[k + 1].line);
        assert(b[k + 1].line < ls.len());
    }
}


proof fn lemma_headings_found(ls: Seq<Seq<char>>)
    ensures
        forall|j: int|
            0 <= j < headings_in(ls).len() ==> 0 <= #[trigger] headings_in(ls)[j].line < ls.len()
                && line_heading(ls[headings_in(ls)[j].line], headings_in(ls)[j].line) == Some(
                headings_in(ls)[j],
            ),
        forall|i: int, j: int|
            0 <= i < j < headings_in(ls).len() ==> #[trigger] headings_in(ls)[i].line
                < #[trigger] headings_in(ls)[j].line,
        forall|l: int|
            0 <= l < ls.len() && (#[trigger] line_heading(ls[l], l)) is Some ==> exists|j: int|
                0 <= j < headings_in(ls).len() && headings_in(ls)[j].line == l,
    decreases ls.len(),
{
    if ls.len() > 0 {
        let d = ls.drop_last();
        lemma_headings_found(d);
        let hs = headings_in(ls);
        let e = headings_in(d);
        assert forall|j: int| 0 <= j < hs.len() implies 0 <= #[trigger] hs[j].line < ls.len() && line_heading(
            ls[hs[j].line],
            hs[j].line,
        ) == Some(hs[j]) by {
            if j < e.len() {
                assert(hs[j] == e[j]);
                assert(d[e[j].line] == ls[e[j].line]);
            }
        }
        assert forall|l: int| 0 <= l < ls.len() && (#[trigger] line_heading(ls[l], l)) is Some implies exists|
            j: int,
        | 0 <= j < hs.len() && hs[j].line == l by {
            if l < ls.len() - 1 {
                assert(d[l] == ls[l]);
                assert(line_heading(d[l], l) is Some);
                let j = choose|j: int| 0 <= j < e.len() && e[j].line == l;
                assert(hs[j] == e[j]);
            } else {
                assert(hs[hs.len() - 1].line == l);
            }
        }
    }
}

proof fn lemma_pagebreaks_found(ls: Seq<Seq<char>>)
    ensures
        forall|j: int|
            0 <= j < pagebreaks_in(ls).len() ==> 0 <= #[trigger] pagebreaks_in(ls)[j] < ls.len()
                && is_pagebreak_line(ls[pagebreaks_in(ls)[j]]),
        forall|l: int|
            0 <= l < ls.len() && is_pagebreak_line(#[trigger] ls[l]) ==> exists|j: int|
                0 <= j < pagebreaks_in(ls).len() && pagebreaks_in(ls)[j] == l,
    decreases ls.len(),
{
    if ls.len() > 0 {
        let d = ls.drop_last();
        lemma_pagebreaks_found(d);
        let p = pagebreaks_in(ls);
        let e = pagebreaks_in(d);
        assert forall|j: int| 0 <= j < p.len() implies 0 <= #[trigger] p[j] < ls.len() && is_pagebreak_line(
            ls[p[j]],
        ) by {
            if j < e.len() {
                assert(p[j] == e[j]);
                assert(d[e[j]] == ls[e[j]]);
            }
        }
        assert forall|l: int| 0 <= l < ls.len() && is_pagebreak_line(#[trigger] ls[l]) implies exists|j: int|
            0 <= j < p.len() && p[j] == l by {
            if l < ls.len() - 1 {
                assert(d[l] == ls[l]);
                let j = choose|j: int| 0 <= j < e.len() && e[j] == l;
                assert(p[j] == e[j]);
            } else {
                assert(p[p.len() - 1] == l);
            }
        }
    }
}

proof fn lemma_boundary_on_its_line(line: Seq<char>, index: int)
    ensures
        line_boundary(line, index) matches Some(x) ==> x.line == index,
{
}

/// The boundaries of `ls` are those of all lines but the last, and then
/// the last line's, if it makes one.
proof fn lemma_boundaries_step(ls: Seq<Seq<char>>)
    requires
        ls.len() > 0,
    ensures
        boundaries_in(ls) == match line_boundary(ls[ls.len() - 1], ls.len() - 1) {
            Some(x) => boundaries_in(ls.drop_last()).push(x),
            None => boundaries_in(ls.drop_last()),
        },
        line_boundary(ls[ls.len() - 1], ls.len() - 1) matches Some(x) ==> x.line == ls.len() - 1,
{
    assert(ls.last() == ls[ls.len() - 1]);
    lemma_boundary_on_its_line(ls[ls.len() - 1], ls.len() - 1);
}

/// Each boundary of `ls` is the one its line makes.
#[verifier::spinoff_prover]
proof fn lemma_boundaries_sound(ls: Seq<Seq<char>>)
    ensures
        forall|k: int|
            0 <= k < boundaries_in(ls).len() ==> line_boundary(
                ls[(#[trigger] boundaries_in(ls)[k]).line],
                boundaries_in(ls)[k].line,
            ) == Some(boundaries_in(ls)[k]),
    decreases ls.len(),
{
    if ls.len() > 0 {
        let d = ls.drop_last();
        lemma_boundaries_sound(d);
        lemma_boundaries_ordered(d);
        lemma_boundaries_step(ls);
        let b = boundaries_in(ls);
        let e = boundaries_in(d);
        assert forall|k: int| 0 <= k < b.len() implies line_boundary(ls[(#[trigger] b[k]).line], b[k].line)
            == Some(b[k]) by {
            if k < e.len() {
                assert(b[k] == e[k]);
                assert(d[e[k].line] == ls[e[k].line]);
            }
        }
    }
}

/// Each line of `ls` that makes a boundary is among the boundaries.
#[verifier::spinoff_prover]
proof fn lemma_boundaries_complete(ls: Seq<Seq<char>>)
    ensures
        forall|l: int|
            0 <= l < ls.len() && (#[trigger] line_boundary(ls[l], l)) is Some ==> exists|k: int|
                0 <= k < boundaries_in(ls).len() && boundaries_in(ls)[k].line == l,
    decreases ls.len(),
{
    if ls.len() > 0 {
        let d = ls.drop_last();
        let n = ls.len() - 1;
        lemma_boundaries_complete(d);
        lemma_boundaries_step(ls);
        let b = boundaries_in(ls);
        let e = boundaries_in(d);
        assert forall|l: int| 0 <= l < ls.len() && (#[trigger] line_boundary(ls[l], l)) is Some implies exists|
            k: int,
        | 0 <= k < b.len() && b[k].line == l by {
            if l < n {
                assert(d[l] == ls[l]);
                assert(line_boundary(d[l], l) is Some);
                let k = choose|k: int| 0 <= k < e.len() && e[k].line == l;
                assert(b[k] == e[k]);
            } else {
                assert(b[b.len() - 1].line == l);
            }
        }
    }
}

proof fn lemma_boundaries_found(ls: Seq<Seq<char>>)
    ensures
        forall|k: int|
            0 <= k < boundaries_in(ls).len() ==> line_boundary(
                ls[(#[trigger] boundaries_in(ls)[k]).line],
                boundaries_in(ls)[k].line,
            ) == Some(boundaries_in(ls)[k]),
        forall|l: int|
            0 <= l < ls.len() && (#[trigger] line_boundary(ls[l], l)) is Some ==> exists|k: int|
                0 <= k < boundaries_in(ls).len() && boundaries_in(ls)[k].line == l,
{
    lemma_boundaries_sound(ls);
    lemma_boundaries_complete(ls);
}

/// Two strictly increasing sequences with the same elements are equal.
proof fn lemma_sorted_same(a: Seq<int>, c: Seq<int>)
    requires
        forall|i: int, j: int| 0 <= i < j < a.len() ==> #[trigger] a[i] < #[trigger] a[j],
        forall|i: int, j: int| 0 <= i < j < c.len() ==> #[trigger] c[i] < #[trigger] c[j],
        forall|x: int| a.contains(x) <==> c.contains(x),
    ensures
        a == c,
    decreases a.len() + c.len(),
{
    if a.len() == 0 {
        if c.len() > 0 {
            assert(c.contains(c[0]));
        }
        assert(a =~= c);
    } else if c.len() == 0 {
        assert(a.contains(a[0]));
    } else {
        assert(a.contains(a[0]));
        let i = choose|i: int| 0 <= i < c.len() && c[i] == a[0];
        assert(c.contains(c[0]));
        let j = choose|j: int| 0 <= j < a.len() && a[j] == c[0];
        if i > 0 {
            assert(c[0] < c[i]);
            if j > 0 {
                assert(a[0] < a[j]);
            }
            assert(false);
        }
        let a1 = a.drop_first();
        let c1 = c.drop_first();
        assert forall|x: int| a1.contains(x) implies c1.contains(x) by {
            let k = choose|k: int| 0 <= k < a1.len() && a1[k] == x;
            assert(a[k + 1] == x && a[0] < a[k + 1]);
            assert(a.contains(x));
            let m = choose|m: int| 0 <= m < c.len() && c[m] == x;
            assert(m != 0);
            assert(c1[m - 1] == x);
        }
        assert forall|x: int| c1.contains(x) implies a1.contains(x) by {
            let k = choose|k: int| 0 <= k < c1.len() && c1[k] == x;
            assert(c[k + 1] == x && c[0] < c[k + 1]);
            assert(c.contains(x));
            let m = choose|m: int| 0 <= m < a.len() && a[m] == x;
            assert(m != 0);
            assert(a1[m - 1] == x);
        }
        lemma_sorted_same(a1, c1);
        assert(a =~= c) by {
            assert forall|k: int| 0 <= k < a.len() implies a[k] == c[k] by {
                if k > 0 {
                    assert(a[k] == a1[k - 1]);
                    assert(c[k] == c1[k - 1]);
                }
            }
        }
    }
}

/// Segments and spans agree: the segments of a source start and end on
/// the lines, and carry the labels, of the spans built from the source's
/// headings and page-break lines (as `parse_typ_headings`,
/// `find_pagebreak_lines` and `build_segments` give them) for its
/// `total` lines.
pub proof fn segments_are_built_spans(
    source: Seq<char>,
    hs: Seq<HeadingView>,
    pbs: Seq<usize>,
    total: usize,
    spans: Seq<(usize, usize, Option<String>)>,
)
    requires
        hs == typ_headings(source),
        pbs.map_values(|x: usize| x as int) == pagebreaks_in(lines(source)),
        total == lines(source).len(),
        built_spans(spans, hs, pbs, total),
    ensures
        spans.len() == typ_segments(source).len(),
        forall|k: int|
            0 <= k < spans.len() ==> (#[trigger] spans[k]).0 == typ_segments(source)[k].start_line
                && spans[k].1 == typ_segments(source)[k].end_line && opt_text(spans[k].2)
                == typ_segments(source)[k].heading,
{
    let ls = lines(source);
    let b = boundaries_in(ls);
    let p = pagebreaks_in(ls);
    lemma_headings_found(ls);
    lemma_pagebreaks_found(ls);
    lemma_boundaries_found(ls);
    lemma_boundaries_ordered(ls);
    let sl = Seq::new(spans.len(), |k: int| spans[k].0 as int);
    let bl = Seq::new(b.len(), |k: int| b[k].line);
    assert forall|x: int| sl.contains(x) implies bl.contains(x) by {
        let k = choose|k: int| 0 <= k < sl.len() && sl[k] == x;
        assert(is_boundary_line(hs, pbs, spans[k].0 as int));
        if exists|j: int| 0 <= j < hs.len() && hs[j].line == x {
            let j = choose|j: int| 0 <= j < hs.len() && hs[j].line == x;
            assert(line_heading(ls[x], x) == Some(hs[j]));
        } else {
            let j = choose|j: int| 0 <= j < pbs.len() && pbs[j] == x;
            assert(p[j] == pbs[j] as int);
            assert(is_pagebreak_line(ls[p[j]]));
        }
        assert(line_boundary(ls[x], x) is Some);
        let m = choose|m: int| 0 <= m < b.len() && b[m].line == x;
        assert(bl[m] == x);
    }
    assert forall|x: int| bl.contains(x) implies sl.contains(x) by {
        let k = choose|k: int| 0 <= k < bl.len() && bl[k] == x;
        assert(b[k].line == x);
        assert(line_boundary(ls[x], x) == Some(b[k]));
        if line_heading(ls[x], x) is Some {
            let j = choose|j: int| 0 <= j < hs.len() && hs[j].line == x;
            assert(hs[j].line == x);
        } else {
            assert(is_pagebreak_line(ls[x]));
            let j = choose|j: int| 0 <= j < p.len() && p[j] == x;
            assert(pbs[j] as int == p[j]);
        }
        assert(is_boundary_line(hs, pbs, (x as usize) as int));
        let m = choose|m: int| 0 <= m < spans.len() && (#[trigger] spans[m]).0 == x as usize;
        assert(sl[m] == x);
    }
    assert forall|i: int, j: int| 0 <= i < j < sl.len() implies #[trigger] sl[i] < #[trigger] sl[j] by {
        assert(spans[i].0 < spans[j].0);
    }
    assert forall|i: int, j: int| 0 <= i < j < bl.len() implies #[trigger] bl[i] < #[trigger] bl[j] by {
        assert(b[i].line < b[j].line);
    }
    lemma_sorted_same(sl, bl);
    assert(sl.len() == bl.len());
    let l1 = Seq::new(spans.len(), |m: int| boundary_label(hs, spans[m].0 as int));
    let l2 = b.map_values(|x: BoundaryView| x.label);
    assert forall|m: int| 0 <= m < l1.len() implies l1[m] == l2[m] by {
        assert(sl[m] == bl[m]);
        let x = b[m].line;
        assert(line_boundary(ls[x], x) == Some(b[m]));
        if line_heading(ls[x], x) is Some {
            let j = choose|j: int| 0 <= j < hs.len() && hs[j].line == x;
            assert(line_heading(ls[x], x) == Some(hs[j]));
            assert(is_first_heading_at(hs, x, j));
            lemma_first_heading_unique(hs, x, j);
        } else {
            if exists|j: int| 0 <= j < hs.len() && hs[j].line == x {
                let j = choose|j: int| 0 <= j < hs.len() && hs[j].line == x;
                assert(line_heading(ls[x], x) == Some(hs[j]));
            }
        }
    }
    assert(l1 =~= l2);
    assert forall|k: int| 0 <= k < spans.len() implies (#[trigger] spans[k]).0 == typ_segments(source)[k].start_line
        && spans[k].1 == typ_segments(source)[k].end_line && opt_text(spans[k].2)
        == typ_segments(source)[k].heading by {
        assert(sl[k] == bl[k]);
        if k + 1 < spans.len() {
            assert(sl[k + 1] == bl[k + 1]);
        }
    }
}

proof fn lemma_trim_start_skips(w: Seq<char>, l: Seq<char>)
    requires
        forall|i: int| 0 <= i < w.len() ==> is_white_space(#[trigger] w[i]),
    ensures
        trim_start(w + l) == trim_start(l),
    decreases w.len(),
{
    if w.len() > 0 {
        assert((w + l).drop_first() =~= w.drop_first() + l);
        assert(w[0] == (w + l)[0]);
        lemma_trim_start_skips(w.drop_first(), l);
    } else {
        assert(w + l =~= l);
    }
}

/// Headings ignore indentation: a line read after any run of whitespace
/// opens the same heading (or none) as the line itself.
pub proof fn headings_ignore_indentation(w: Seq<char>, line: Seq<char>, index: int)
    requires
        forall|i: int| 0 <= i < w.len() ==> is_white_space(#[trigger] w[i]),
    ensures
        line_heading(w + line, index) == line_heading(line, index),
{
    lemma_trim_start_skips(w, line);
}

/// The headings of a source are its heading lines, in line order: each
/// is the heading that its line opens, and every line that opens a heading
/// gives one.
pub proof fn headings_are_heading_lines(source: Seq<char>)
    ensures
        forall|j: int|
            0 <= j < typ_headings(source).len() ==> 0 <= #[trigger] typ_headings(source)[j].line < lines(
                source,
            ).len() && line_heading(
                lines(source)[typ_headings(source)[j].line],
                typ_headings(source)[j].line,
            ) == Some(typ_headings(source)[j]),
        forall|i: int, j: int|
            0 <= i < j < typ_headings(source).len() ==> #[trigger] typ_headings(source)[i].line
                < #[trigger] typ_headings(source)[j].line,
        forall|l: int|
            0 <= l < lines(source).len() && (#[trigger] line_heading(lines(source)[l], l)) is Some
                ==> exists|j: int|
                0 <= j < typ_headings(source).len() && typ_headings(source)[j].line == l,
{
    lemma_headings_found(lines(source));
}

proof fn lemma_quote_ends_text(rest: Seq<char>, t: Seq<char>, i: int)
    requires
        0 <= i <= t.len(),
        t.len() < rest.len(),
        rest.take(t.len() as int) == t,
        rest[t.len() as int] == '"',
        forall|k: int| 0 <= k < t.len() ==> #[trigger] t[k] != '"' && t[k] != '\\',
    ensures
        closing_quote_from(rest, i, false) == Some(t.len() as int),
    decreases t.len() - i,
{
    if i < t.len() {
        assert(rest[i] == rest.take(t.len() as int)[i]);
        lemma_quote_ends_text(rest, t, i + 1);
    }
}

/// The title is the text between the quotes after `title: `, up to the
/// first unescaped double quote: for a non-empty text `t` with no quote and
/// no backslash, `title: "t"` followed by anything has the title `t`.
pub proof fn title_is_quoted_text(t: Seq<char>, tail: Seq<char>)
    requires
        t.len() > 0,
        forall|k: int| 0 <= k < t.len() ==> #[trigger] t[k] != '"' && t[k] != '\\',
    ensures
        typ_title(title_key() + seq![' ', '"'] + t + seq!['"'] + tail) == Some(t),
{
    let source = title_key() + seq![' ', '"'] + t + seq!['"'] + tail;
    assert(source.subrange(0, 6) =~= title_key());
    assert(occurs_at(source, title_key(), 0));
    assert(contains_seq(source, title_key()));
    let idx = choose|i: int| occurs_at(source, title_key(), i) && forall|j: int| 0 <= j < i ==> !occurs_at(source, title_key(), j);
    assert(occurs_at(source, title_key(), idx) && forall|j: int| 0 <= j < idx ==> !occurs_at(source, title_key(), j));
    assert(idx == 0);
    let after0 = source.skip(6);
    let q = seq!['"'] + t + seq!['"'] + tail;
    assert(after0 =~= seq![' '] + q);
    assert(is_white_space(' '));
    assert((seq![' '] + q).drop_first() =~= q);
    assert(q[0] == '"');
    assert(trim_start(q) == q);
    assert(trim_start(after0) == q);
    let rest = q.drop_first();
    assert(rest =~= t + seq!['"'] + tail);
    assert(rest.take(t.len() as int) =~= t);
    assert(rest[t.len() as int] == '"');
    lemma_quote_ends_text(rest, t, 0);
}
} // verus!
