//! Markdown notes: the CommonMark parser's event stream, folded into the
//! blocks that the notes panel draws, and the inline styling of a block.
use crate::text::{
    chars_of, contains_chars, contains_seq, has_prefix, occurs_at, remove_all, remove_all_of, starts_with,
    string_from_chars, trim, trimmed,
};
use pulldown_cmark::Event;
use vstd::prelude::*;

verus! {

broadcast use {vstd::string::group_string_axioms, vstd::slice::group_slice_axioms};

/// A block of a note, as the notes panel draws it.
pub enum MdElement {
    Heading(u32, String),
    Paragraph(String),
    ListItem(String),
    CodeBlock(String),
    HorizontalRule,
    EmptyLine,
}

/// What a block holds.
pub enum MdElementView {
    Heading(u32, Seq<char>),
    Paragraph(Seq<char>),
    ListItem(Seq<char>),
    CodeBlock(Seq<char>),
    HorizontalRule,
    EmptyLine,
}

impl View for MdElement {
    type V = MdElementView;

    open spec fn view(&self) -> MdElementView {
        match self {
            MdElement::Heading(l, t) => MdElementView::Heading(*l, t@),
            MdElement::Paragraph(t) => MdElementView::Paragraph(t@),
            MdElement::ListItem(t) => MdElementView::ListItem(t@),
            MdElement::CodeBlock(t) => MdElementView::CodeBlock(t@),
            MdElement::HorizontalRule => MdElementView::HorizontalRule,
            MdElement::EmptyLine => MdElementView::EmptyLine,
        }
    }
}

/// An event of the CommonMark parser. An element that opens is given as
/// the parser's `Debug` form of its tag, such as `Paragraph` or
/// `Heading { level: H2, id: None, classes: [], attrs: [] }`; one that
/// closes as that of its end tag, such as `Paragraph` or `Heading(H2)`. The
/// events that notes do not use are kept as their `Debug` form.
pub enum MdEvent {
    Start(String),
    End(String),
    Text(String),
    Code(String),
    SoftBreak,
    HardBreak,
    Rule,
    Other(String),
}

/// What an event holds.
pub enum MdEventView {
    Start(Seq<char>),
    End(Seq<char>),
    Text(Seq<char>),
    Code(Seq<char>),
    SoftBreak,
    HardBreak,
    Rule,
    Other(Seq<char>),
}

impl View for MdEvent {
    type V = MdEventView;

    open spec fn view(&self) -> MdEventView {
        match self {
            MdEvent::Start(n) => MdEventView::Start(n@),
            MdEvent::End(n) => MdEventView::End(n@),
            MdEvent::Text(t) => MdEventView::Text(t@),
            MdEvent::Code(t) => MdEventView::Code(t@),
            MdEvent::SoftBreak => MdEventView::SoftBreak,
            MdEvent::HardBreak => MdEventView::HardBreak,
            MdEvent::Rule => MdEventView::Rule,
            MdEvent::Other(d) => MdEventView::Other(d@),
        }
    }
}

/// The views of a sequence of events.
pub open spec fn event_views(evs: Seq<MdEvent>) -> Seq<MdEventView> {
    evs.map_values(|e: MdEvent| e@)
}

/// The views of a sequence of blocks.
pub open spec fn element_views(els: Seq<MdElement>) -> Seq<MdElementView> {
    els.map_values(|e: MdElement| e@)
}

/// The events that the CommonMark parser (`pulldown_cmark::Parser` with no
/// extensions) yields for `source`.
pub uninterp spec fn markdown_events(source: Seq<char>) -> Seq<MdEventView>;

/// The events of the CommonMark parser for `source`, each as an `MdEvent`.
/// Wraps `pulldown_cmark::Parser::new`; the result is named
/// `markdown_events`, a function of the source alone.
#[verifier::external_body]
fn parser_events(source: &str) -> (r: Vec<MdEvent>)
    ensures
        event_views(r@) == markdown_events(source@),
{
    let mut events = Vec::new();
    for e in pulldown_cmark::Parser::new(source) {
        events.push(match e {
            Event::Start(tag) => MdEvent::Start(format!("{:?}", tag)),
            Event::End(tag) => MdEvent::End(format!("{:?}", tag)),
            Event::Text(t) => MdEvent::Text(t.to_string()),
            Event::Code(t) => MdEvent::Code(t.to_string()),
            Event::SoftBreak => MdEvent::SoftBreak,
            Event::HardBreak => MdEvent::HardBreak,
            Event::Rule => MdEvent::Rule,
            other => MdEvent::Other(format!("{:?}", other)),
        });
    }
    events
}

/// The name of a paragraph.
pub open spec fn tag_paragraph() -> Seq<char> {
    seq!['P', 'a', 'r', 'a', 'g', 'r', 'a', 'p', 'h']
}

/// The name of a list item.
pub open spec fn tag_item() -> Seq<char> {
    seq!['I', 't', 'e', 'm']
}

/// The name of a code block.
pub open spec fn tag_code_block() -> Seq<char> {
    seq!['C', 'o', 'd', 'e', 'B', 'l', 'o', 'c', 'k']
}

/// The name of emphasis.
pub open spec fn tag_emphasis() -> Seq<char> {
    seq!['E', 'm', 'p', 'h', 'a', 's', 'i', 's']
}

/// The name of strong emphasis.
pub open spec fn tag_strong() -> Seq<char> {
    seq!['S', 't', 'r', 'o', 'n', 'g']
}

/// What the name of a heading starts with.
pub open spec fn tag_heading() -> Seq<char> {
    seq!['H', 'e', 'a', 'd', 'i', 'n', 'g', '(']
}

/// What the name of an opening code block starts with (its kind follows).
pub open spec fn tag_code_block_start() -> Seq<char> {
    seq!['C', 'o', 'd', 'e', 'B', 'l', 'o', 'c', 'k', '(']
}

/// What the name of an opening heading starts with (its level follows).
pub open spec fn tag_heading_start() -> Seq<char> {
    seq!['H', 'e', 'a', 'd', 'i', 'n', 'g', ' ', '{', ' ', 'l', 'e', 'v', 'e', 'l', ':', ' ', 'H']
}

/// Whether `name` opens a heading of level `d` (a digit from 1 to 6).
pub open spec fn opens_heading(name: Seq<char>, d: char) -> bool {
    starts_with(name, tag_heading_start().push(d))
}

/// The level of the heading that the opening name `name` opens, or 0.
pub open spec fn heading_tag_level(name: Seq<char>) -> u32 {
    if opens_heading(name, '1') {
        1
    } else if opens_heading(name, '2') {
        2
    } else if opens_heading(name, '3') {
        3
    } else if opens_heading(name, '4') {
        4
    } else if opens_heading(name, '5') {
        5
    } else if opens_heading(name, '6') {
        6
    } else {
        0
    }
}

/// The blocks found so far, and the text read since the last block began.
pub struct MdState {
    pub elements: Seq<MdElementView>,
    pub pending: Seq<char>,
}

/// The state after event `ev`: a heading opens a block; a paragraph, item
/// or code block starts collecting text afresh and closes into a block of
/// the trimmed text (paragraphs and items only if it is not blank); a
/// heading's close appends the collected text to the heading; emphasis,
/// strong emphasis and inline code are kept as `*`, `**` and backquotes;
/// a line break becomes a space; a rule is a block of its own.
pub open spec fn md_step(st: MdState, ev: MdEventView) -> MdState {
    let els = st.elements;
    let pending = st.pending;
    match ev {
        MdEventView::Start(n) => if heading_tag_level(n) > 0 {
            MdState {
                elements: els.push(MdElementView::Heading(heading_tag_level(n), Seq::empty())),
                pending,
            }
        } else if n == tag_paragraph() || n == tag_item() || starts_with(n, tag_code_block_start()) {
            MdState { elements: els, pending: Seq::empty() }
        } else if n == tag_emphasis() {
            MdState { elements: els, pending: pending.push('*') }
        } else if n == tag_strong() {
            MdState { elements: els, pending: pending + seq!['*', '*'] }
        } else {
            st
        },
        MdEventView::End(n) => if starts_with(n, tag_heading()) {
            if els.len() > 0 && els.last() is Heading && pending.len() > 0 {
                MdState {
                    elements: els.update(
                        els.len() - 1,
                        MdElementView::Heading(els.last()->Heading_0, els.last()->Heading_1 + pending),
                    ),
                    pending: Seq::empty(),
                }
            } else {
                st
            }
        } else if n == tag_paragraph() {
            MdState {
                elements: if trim(pending).len() > 0 {
                    els.push(MdElementView::Paragraph(trim(pending)))
                } else {
                    els
                },
                pending: Seq::empty(),
            }
        } else if n == tag_item() {
            MdState {
                elements: if trim(pending).len() > 0 {
                    els.push(MdElementView::ListItem(trim(pending)))
                } else {
                    els
                },
                pending: Seq::empty(),
            }
        } else if n == tag_code_block() {
            MdState {
                elements: els.push(MdElementView::CodeBlock(trim(pending))),
                pending: Seq::empty(),
            }
        } else if n == tag_emphasis() {
            MdState { elements: els, pending: pending.push('*') }
        } else if n == tag_strong() {
            MdState { elements: els, pending: pending + seq!['*', '*'] }
        } else {
            st
        },
        MdEventView::Text(t) => MdState { elements: els, pending: pending + t },
        MdEventView::Code(t) => MdState { elements: els, pending: pending + seq!['`'] + t + seq!['`'] },
        MdEventView::SoftBreak => MdState { elements: els, pending: pending.push(' ') },
        MdEventView::HardBreak => MdState { elements: els, pending: pending.push(' ') },
        MdEventView::Rule => MdState { elements: els.push(MdElementView::HorizontalRule), pending },
        MdEventView::Other(_) => st,
    }
}

/// The state after the events `evs`, from no blocks and no text.
pub open spec fn md_fold(evs: Seq<MdEventView>) -> MdState
    decreases evs.len(),
{
    if evs.len() == 0 {
        MdState { elements: Seq::empty(), pending: Seq::empty() }
    } else {
        md_step(md_fold(evs.drop_last()), evs.last())
    }
}

/// The blocks that the events `evs` give: those of `md_fold`, and a last
/// paragraph of any text left over that is not blank.
pub open spec fn md_blocks(evs: Seq<MdEventView>) -> Seq<MdElementView> {
    let st = md_fold(evs);
    if trim(st.pending).len() > 0 {
        st.elements.push(MdElementView::Paragraph(trim(st.pending)))
    } else {
        st.elements
    }
}

/// The blocks of the Markdown text `source`.
pub open spec fn markdown_blocks(source: Seq<char>) -> Seq<MdElementView> {
    md_blocks(markdown_events(source))
}

/// Whether the chars of `a` are exactly `b`.
fn same_chars(a: &[char], b: &[char]) -> (r: bool)
    ensures
        r == (a@ == b@),
{
    if a.len() != b.len() {
        return false;
    }
    let r = has_prefix(a, b);
    proof {
        assert(a@ =~= a@.subrange(0, b@.len() as int));
    }
    r
}

/// The level of the heading that the opening name `name` opens, or 0.
fn heading_level_of(name: &[char]) -> (r: u32)
    ensures
        r == heading_tag_level(name@),
{
    let h1 = ['H', 'e', 'a', 'd', 'i', 'n', 'g', ' ', '{', ' ', 'l', 'e', 'v', 'e', 'l', ':', ' ', 'H', '1'];
    let h2 = ['H', 'e', 'a', 'd', 'i', 'n', 'g', ' ', '{', ' ', 'l', 'e', 'v', 'e', 'l', ':', ' ', 'H', '2'];
    let h3 = ['H', 'e', 'a', 'd', 'i', 'n', 'g', ' ', '{', ' ', 'l', 'e', 'v', 'e', 'l', ':', ' ', 'H', '3'];
    let h4 = ['H', 'e', 'a', 'd', 'i', 'n', 'g', ' ', '{', ' ', 'l', 'e', 'v', 'e', 'l', ':', ' ', 'H', '4'];
    let h5 = ['H', 'e', 'a', 'd', 'i', 'n', 'g', ' ', '{', ' ', 'l', 'e', 'v', 'e', 'l', ':', ' ', 'H', '5'];
    let h6 = ['H', 'e', 'a', 'd', 'i', 'n', 'g', ' ', '{', ' ', 'l', 'e', 'v', 'e', 'l', ':', ' ', 'H', '6'];
    proof {
        assert(h1@ =~= tag_heading_start().push('1'));
        assert(h2@ =~= tag_heading_start().push('2'));
        assert(h3@ =~= tag_heading_start().push('3'));
        assert(h4@ =~= tag_heading_start().push('4'));
        assert(h5@ =~= tag_heading_start().push('5'));
        assert(h6@ =~= tag_heading_start().push('6'));
    }
    if has_prefix(name, &h1) {
        1
    } else if has_prefix(name, &h2) {
        2
    } else if has_prefix(name, &h3) {
        3
    } else if has_prefix(name, &h4) {
        4
    } else if has_prefix(name, &h5) {
        5
    } else if has_prefix(name, &h6) {
        6
    } else {
        0
    }
}

/// Appends `extra` to `v`.
fn extend_chars(v: &mut Vec<char>, extra: &[char])
    ensures
        final(v)@ == old(v)@ + extra@,
{
    let mut k: usize = 0;
    while k < extra.len()
        invariant
            k <= extra@.len(),
            v@ == old(v)@ + extra@.take(k as int),
        decreases extra.len() - k,
    {
        proof {
            assert(extra@.take(k + 1) =~= extra@.take(k as int).push(extra@[k as int]));
        }
        v.push(extra[k]);
        k += 1;
    }
    proof {
        assert(extra@.take(extra@.len() as int) =~= extra@);
    }
}

/// The names of the elements that notes keep, as character arrays.
struct TagNames {
    paragraph: Vec<char>,
    item: Vec<char>,
    code_block: Vec<char>,
    code_block_start: Vec<char>,
    emphasis: Vec<char>,
    strong: Vec<char>,
    heading: Vec<char>,
}

impl TagNames {
    spec fn wf(&self) -> bool {
        &&& self.paragraph@ == tag_paragraph()
        &&& self.item@ == tag_item()
        &&& self.code_block@ == tag_code_block()
        &&& self.code_block_start@ == tag_code_block_start()
        &&& self.emphasis@ == tag_emphasis()
        &&& self.strong@ == tag_strong()
        &&& self.heading@ == tag_heading()
    }

    fn new() -> (r: TagNames)
        ensures
            r.wf(),
    {
        let r = TagNames {
            paragraph: vec!['P', 'a', 'r', 'a', 'g', 'r', 'a', 'p', 'h'],
            item: vec!['I', 't', 'e', 'm'],
            code_block: vec!['C', 'o', 'd', 'e', 'B', 'l', 'o', 'c', 'k'],
            code_block_start: vec!['C', 'o', 'd', 'e', 'B', 'l', 'o', 'c', 'k', '('],
            emphasis: vec!['E', 'm', 'p', 'h', 'a', 's', 'i', 's'],
            strong: vec!['S', 't', 'r', 'o', 'n', 'g'],
            heading: vec!['H', 'e', 'a', 'd', 'i', 'n', 'g', '('],
        };
        proof {
            assert(r.paragraph@ =~= tag_paragraph());
            assert(r.item@ =~= tag_item());
            assert(r.code_block@ =~= tag_code_block());
            assert(r.code_block_start@ =~= tag_code_block_start());
            assert(r.emphasis@ =~= tag_emphasis());
            assert(r.strong@ =~= tag_strong());
            assert(r.heading@ =~= tag_heading());
        }
        r
    }
}

/// The block of trimmed text `t` of the kind given, if `t` is not blank
/// (code blocks are kept even when blank).
fn closed_block(kind: u8, t: Vec<char>) -> (r: MdElement)
    requires
        kind < 3,
    ensures
        r@ == (if kind == 0 {
            MdElementView::Paragraph(t@)
        } else if kind == 1 {
            MdElementView::ListItem(t@)
        } else {
            MdElementView::CodeBlock(t@)
        }),
{
    let s = string_from_chars(t.as_slice());
    if kind == 0 {
        MdElement::Paragraph(s)
    } else if kind == 1 {
        MdElement::ListItem(s)
    } else {
        MdElement::CodeBlock(s)
    }
}

/// Applies the event `ev` to the blocks found and the pending text.
fn apply_event(ev: &MdEvent, els: &mut Vec<MdElement>, pending: &mut Vec<char>, names: &TagNames)
    requires
        names.wf(),
    ensures
        ({
            let st = md_step(MdState { elements: element_views(old(els)@), pending: old(pending)@ }, ev@);
            element_views(final(els)@) == st.elements && final(pending)@ == st.pending
        }),
{
    let ghost els0 = element_views(els@);
    match ev {
        MdEvent::Start(n) => {
            let name = chars_of(n.as_str());
            let level = heading_level_of(name.as_slice());
            if level > 0 {
                els.push(MdElement::Heading(level, String::new()));
                proof {
                    assert(element_views(els@) =~= els0.push(MdElementView::Heading(level, Seq::empty())));
                }
            } else if same_chars(name.as_slice(), names.paragraph.as_slice()) || same_chars(
                name.as_slice(),
                names.item.as_slice(),
            ) || has_prefix(name.as_slice(), names.code_block_start.as_slice()) {
                *pending = Vec::new();
            } else if same_chars(name.as_slice(), names.emphasis.as_slice()) {
                pending.push('*');
            } else if same_chars(name.as_slice(), names.strong.as_slice()) {
                pending.push('*');
                pending.push('*');
                proof {
                    assert(pending@ =~= old(pending)@ + seq!['*', '*']);
                }
            }
        },
        MdEvent::End(n) => {
            let name = chars_of(n.as_str());
            if has_prefix(name.as_slice(), names.heading.as_slice()) {
                if els.len() > 0 && pending.len() > 0 {
                    let last = els.pop().unwrap();
                    match last {
                        MdElement::Heading(level, text) => {
                            let mut t = chars_of(text.as_str());
                            extend_chars(&mut t, pending.as_slice());
                            els.push(MdElement::Heading(level, string_from_chars(t.as_slice())));
                            *pending = Vec::new();
                            proof {
                                assert(element_views(els@) =~= els0.update(
                                    els0.len() - 1,
                                    MdElementView::Heading(level, text@ + old(pending)@),
                                ));
                            }
                        },
                        other => {
                            els.push(other);
                            proof {
                                assert(element_views(els@) =~= els0);
                            }
                        },
                    }
                }
            } else if same_chars(name.as_slice(), names.paragraph.as_slice()) || same_chars(
                name.as_slice(),
                names.item.as_slice(),
            ) {
                let kind: u8 = if same_chars(name.as_slice(), names.paragraph.as_slice()) {
                    0
                } else {
                    1
                };
                let t = trimmed(pending.as_slice());
                if t.len() > 0 {
                    let block = closed_block(kind, t);
                    els.push(block);
                    proof {
                        assert(element_views(els@) =~= els0.push(block@));
                    }
                }
                *pending = Vec::new();
            } else if same_chars(name.as_slice(), names.code_block.as_slice()) {
                let t = trimmed(pending.as_slice());
                let block = closed_block(2, t);
                els.push(block);
                proof {
                    assert(element_views(els@) =~= els0.push(block@));
                }
                *pending = Vec::new();
            } else if same_chars(name.as_slice(), names.emphasis.as_slice()) {
                pending.push('*');
            } else if same_chars(name.as_slice(), names.strong.as_slice()) {
                pending.push('*');
                pending.push('*');
                proof {
                    assert(pending@ =~= old(pending)@ + seq!['*', '*']);
                }
            }
        },
        MdEvent::Text(t) => {
            let tc = chars_of(t.as_str());
            extend_chars(pending, tc.as_slice());
        },
        MdEvent::Code(t) => {
            let tc = chars_of(t.as_str());
            pending.push('`');
            extend_chars(pending, tc.as_slice());
            pending.push('`');
            proof {
                assert(pending@ =~= old(pending)@ + seq!['`'] + t@ + seq!['`']);
            }
        },
        MdEvent::SoftBreak => {
            pending.push(' ');
        },
        MdEvent::HardBreak => {
            pending.push(' ');
        },
        MdEvent::Rule => {
            els.push(MdElement::HorizontalRule);
            proof {
                assert(element_views(els@) =~= els0.push(MdElementView::HorizontalRule));
            }
        },
        MdEvent::Other(_) => {},
    }
}

/// The blocks that the parser events `events` give, as `md_blocks` states.
pub fn blocks_from_events(events: &Vec<MdEvent>) -> (r: Vec<MdElement>)
    ensures
        element_views(r@) == md_blocks(event_views(events@)),
{
    let names = TagNames::new();
    let mut els: Vec<MdElement> = Vec::new();
    let mut pending: Vec<char> = Vec::new();
    let ghost evs = event_views(events@);
    proof {
        assert(evs.take(0) =~= Seq::<MdEventView>::empty());
        assert(element_views(els@) =~= Seq::<MdElementView>::empty());
    }
    let mut k: usize = 0;
    while k < events.len()
        invariant
            k <= events@.len(),
            names.wf(),
            evs == event_views(events@),
            md_fold(evs.take(k as int)) == (MdState { elements: element_views(els@), pending: pending@ }),
        decreases events.len() - k,
    {
        proof {
            assert(evs.take(k + 1).drop_last() =~= evs.take(k as int));
            assert(evs.take(k + 1).last() == events@[k as int]@);
        }
        apply_event(&events[k], &mut els, &mut pending, &names);
        k += 1;
    }
    proof {
        assert(evs.take(evs.len() as int) =~= evs);
    }
    let t = trimmed(pending.as_slice());
    if t.len() > 0 {
        let ghost before = element_views(els@);
        let block = closed_block(0, t);
        els.push(block);
        proof {
            assert(element_views(els@) =~= before.push(block@));
        }
    }
    els
}

/// The blocks of the Markdown text `source`.
pub fn markdown_to_blocks(source: &str) -> (r: Vec<MdElement>)
    ensures
        element_views(r@) == markdown_blocks(source@),
{
    let events = parser_events(source);
    blocks_from_events(&events)
}

/// A block's text with its Markdown marks taken out, and whether it is to
/// be drawn strong (it held `**`) and as code (it held a backquote).
pub struct InlineText {
    pub text: String,
    pub strong: bool,
    pub code: bool,
}

impl InlineText {
    /// The text to draw.
    pub fn text(&self) -> (r: &str)
        ensures
            r@ == self.text@,
    {
        self.text.as_str()
    }
}

/// The two asterisks of strong emphasis.
pub open spec fn strong_mark() -> Seq<char> {
    seq!['*', '*']
}

/// The backquote of inline code.
pub open spec fn code_mark() -> Seq<char> {
    seq!['`']
}

/// How `text` is drawn: without `**` and backquotes, strong if it held
/// `**`, as code if it held a backquote.
pub fn inline_style(text: &str) -> (r: InlineText)
    ensures
        r.strong == contains_seq(text@, strong_mark()),
        r.code == contains_seq(text@, code_mark()),
        r.text@ == remove_all(remove_all(text@, strong_mark()), code_mark()),
{
    let chars = chars_of(text);
    let strong = ['*', '*'];
    let code = ['`'];
    proof {
        assert(strong@ =~= strong_mark());
        assert(code@ =~= code_mark());
    }
    let has_bold = contains_chars(chars.as_slice(), &strong);
    let has_code = contains_chars(chars.as_slice(), &code);
    let without_bold = remove_all_of(chars.as_slice(), &strong);
    let clean = remove_all_of(without_bold.as_slice(), &code);
    InlineText { text: string_from_chars(clean.as_slice()), strong: has_bold, code: has_code }
}


proof fn lemma_no_backquote_left(s: Seq<char>)
    ensures
        forall|i: int|
            0 <= i < remove_all(s, code_mark()).len() ==> #[trigger] remove_all(s, code_mark())[i]
                != '`',
    decreases s.len(),
{
    if s.len() > 0 {
        if starts_with(s, code_mark()) {
            lemma_no_backquote_left(s.skip(1));
        } else {
            lemma_no_backquote_left(s.drop_first());
            assert(s.subrange(0, 1) =~= seq![s[0]]);
            let r = remove_all(s, code_mark());
            assert(r == seq![s[0]] + remove_all(s.drop_first(), code_mark()));
            assert forall|i: int| 0 <= i < r.len() implies #[trigger] r[i] != '`' by {
                if i > 0 {
                    assert(r[i] == remove_all(s.drop_first(), code_mark())[i - 1]);
                }
            }
        }
    }
}

/// The text of a block as drawn holds no backquote. (It may hold `**`,
/// which two single asterisks around a backquote leave behind.)
pub proof fn inline_text_has_no_backquote(text: Seq<char>)
    ensures
        !contains_seq(remove_all(remove_all(text, strong_mark()), code_mark()), code_mark()),
{
    let t = remove_all(text, strong_mark());
    let r = remove_all(t, code_mark());
    lemma_no_backquote_left(t);
    if contains_seq(r, code_mark()) {
        let i = choose|i: int| occurs_at(r, code_mark(), i);
        assert(r.subrange(i, i + 1)[0] == r[i]);
    }
}


/// An opening heading tag of level `d`, from 1 to 6, opens a heading
/// block of level `d` with no text yet, whatever follows the level in the
/// tag's name; the text read so far is kept.
pub proof fn heading_tags_open_headings(st: MdState, d: u32, rest: Seq<char>)
    requires
        1 <= d <= 6,
    ensures
        ({
            let name = tag_heading_start().push((48 + d) as char) + rest;
            let after = md_step(st, MdEventView::Start(name));
            &&& heading_tag_level(name) == d
            &&& after.elements == st.elements.push(MdElementView::Heading(d, Seq::empty()))
            &&& after.pending == st.pending
        }),
{
    let c = (48 + d) as char;
    let name = tag_heading_start().push(c) + rest;
    let n = tag_heading_start().len() as int;
    assert(name.subrange(0, n + 1) =~= tag_heading_start().push(c));
    assert forall|e: char| e != c implies !opens_heading(name, e) by {
        assert(tag_heading_start().push(e)[n] == e);
        assert(name.subrange(0, n + 1)[n] == c);
    }
    assert(opens_heading(name, c));
    assert(d == 1 ==> c == '1');
    assert(d == 2 ==> c == '2');
    assert(d == 3 ==> c == '3');
    assert(d == 4 ==> c == '4');
    assert(d == 5 ==> c == '5');
    assert(d == 6 ==> c == '6');
}
} // verus!
