//! What the page renderer decides: which pages to ask the render worker
//! for and when to drop its cache, where Typst packages are looked for,
//! and which system fonts Typst gets.
use crate::outline::opt_text;
use crate::text::{chars_of, contains_chars, contains_seq, push_str_chars, string_from_chars};
use std::collections::HashSet;
use vstd::prelude::*;

verus! {

broadcast use {vstd::string::group_string_axioms, vstd::std_specs::hash::group_hash_axioms};

/// A request to the render worker.
pub enum RenderCommand {
    /// Load the document at this path.
    LoadFile(String),
    /// Render the pages from `start_page` up to `total_pages`, one by one.
    StartPrecache { start_page: usize, total_pages: usize },
    /// Render `page_idx` before anything else.
    PriorityRender { page_idx: usize, total_pages: usize },
}

/// What a request holds.
pub enum RenderCommandView {
    LoadFile(Seq<char>),
    StartPrecache { start_page: usize, total_pages: usize },
    PriorityRender { page_idx: usize, total_pages: usize },
}

impl View for RenderCommand {
    type V = RenderCommandView;

    open spec fn view(&self) -> RenderCommandView {
        match self {
            RenderCommand::LoadFile(p) => RenderCommandView::LoadFile(p@),
            RenderCommand::StartPrecache { start_page, total_pages } => RenderCommandView::StartPrecache {
                start_page: *start_page,
                total_pages: *total_pages,
            },
            RenderCommand::PriorityRender { page_idx, total_pages } => RenderCommandView::PriorityRender {
                page_idx: *page_idx,
                total_pages: *total_pages,
            },
        }
    }
}

/// A step the renderer takes for a page it has not got.
pub enum RenderAction {
    /// Drop every rendered page.
    ClearCache,
    /// Send a request to the worker.
    Send(RenderCommand),
}

/// What a step holds.
pub enum RenderActionView {
    ClearCache,
    Send(RenderCommandView),
}

impl View for RenderAction {
    type V = RenderActionView;

    open spec fn view(&self) -> RenderActionView {
        match self {
            RenderAction::ClearCache => RenderActionView::ClearCache,
            RenderAction::Send(r) => RenderActionView::Send(r@),
        }
    }
}

/// The views of a sequence of steps.
pub open spec fn action_views(a: Seq<RenderAction>) -> Seq<RenderActionView> {
    a.map_values(|x: RenderAction| x@)
}

/// The request the worker turns to after a request: after a priority
/// render, rendering ahead from the page after it.
pub fn follow_up(request: &RenderCommand) -> (r: Option<RenderCommand>)
    requires
        request matches RenderCommand::PriorityRender { page_idx, .. } ==> page_idx < usize::MAX,
    ensures
        match request@ {
            RenderCommandView::PriorityRender { page_idx, total_pages } => r matches Some(f) && f@
                == (RenderCommandView::StartPrecache {
                start_page: (page_idx + 1) as usize,
                total_pages,
            }),
            _ => r is None,
        },
{
    match request {
        RenderCommand::PriorityRender { page_idx, total_pages } => Some(
            RenderCommand::StartPrecache { start_page: *page_idx + 1, total_pages: *total_pages },
        ),
        _ => None,
    }
}

/// What the worker does next while rendering ahead.
pub enum PrecacheStep {
    /// The deck's end is reached: rendering ahead is over.
    Stop,
    /// A new command came in: rendering ahead gives way to it.
    GiveWay,
    /// Render `page`, then go on from `next`.
    Render { page: usize, next: usize },
}

/// The worker's step while rendering ahead from `page` of `total_pages`,
/// where `command_waiting` tells whether a new command has come in: past
/// the last page it stops; otherwise a waiting command comes first;
/// otherwise it renders `page` and goes on with the page after it.
pub fn precache_step(page: usize, total_pages: usize, command_waiting: bool) -> (r: PrecacheStep)
    ensures
        page >= total_pages ==> r is Stop,
        page < total_pages && command_waiting ==> r is GiveWay,
        page < total_pages && !command_waiting ==> r == (PrecacheStep::Render {
            page,
            next: (page + 1) as usize,
        }),
{
    if page >= total_pages {
        PrecacheStep::Stop
    } else if command_waiting {
        PrecacheStep::GiveWay
    } else {
        PrecacheStep::Render { page, next: page + 1 }
    }
}

/// The renderer's record of the pages it has and has asked for, and of the
/// document they belong to.
pub struct PageCache {
    cached: HashSet<usize>,
    requested: HashSet<usize>,
    current_file_path: Option<String>,
}

/// What the record holds.
pub struct PageCacheView {
    pub cached: Set<usize>,
    pub requested: Set<usize>,
    pub current_file_path: Option<Seq<char>>,
}

impl View for PageCache {
    type V = PageCacheView;

    closed spec fn view(&self) -> PageCacheView {
        PageCacheView {
            cached: self.cached@,
            requested: self.requested@,
            current_file_path: opt_text(self.current_file_path),
        }
    }
}

/// The steps `request_page` takes, and the record after them, for `page`
/// of `total` pages of the document at `path`.
pub open spec fn planned_requests(
    c: PageCacheView,
    path: Option<Seq<char>>,
    total: usize,
    page: usize,
) -> (PageCacheView, Seq<RenderActionView>) {
    match path {
        None => (c, Seq::empty()),
        Some(p) => {
            let switched = c.current_file_path != Some(p);
            let c1 = if switched {
                PageCacheView { cached: Set::empty(), requested: Set::empty(), current_file_path: Some(p) }
            } else {
                c
            };
            let a1 = if switched {
                seq![
                    RenderActionView::ClearCache,
                    RenderActionView::Send(RenderCommandView::LoadFile(p)),
                    RenderActionView::Send(
                        RenderCommandView::StartPrecache { start_page: 0, total_pages: total },
                    ),
                ]
            } else {
                Seq::empty()
            };
            if page < total && !c1.requested.contains(page) {
                (
                    PageCacheView { requested: c1.requested.insert(page), ..c1 },
                    a1.push(
                        RenderActionView::Send(
                            RenderCommandView::PriorityRender { page_idx: page, total_pages: total },
                        ),
                    ),
                )
            } else {
                (c1, a1)
            }
        },
    }
}

impl PageCache {
    /// No pages, no requests, no document.
    pub fn new() -> (r: PageCache)
        ensures
            r@ == (PageCacheView {
                cached: Set::empty(),
                requested: Set::empty(),
                current_file_path: None,
            }),
    {
        PageCache { cached: HashSet::new(), requested: HashSet::new(), current_file_path: None }
    }

    /// Whether page `page` is rendered.
    pub fn is_cached(&self, page: usize) -> (r: bool)
        ensures
            r == self@.cached.contains(page),
    {
        self.cached.contains(&page)
    }

    /// Records that the worker delivered page `page`.
    pub fn page_rendered(&mut self, page: usize)
        ensures
            final(self)@ == (PageCacheView {
                cached: old(self)@.cached.insert(page),
                requested: old(self)@.requested.insert(page),
                ..old(self)@
            }),
    {
        self.cached.insert(page);
        self.requested.insert(page);
    }

    /// Forgets every rendered and requested page.
    pub fn clear_cache(&mut self)
        ensures
            final(self)@ == (PageCacheView {
                cached: Set::empty(),
                requested: Set::empty(),
                ..old(self)@
            }),
    {
        self.cached.clear();
        self.requested.clear();
    }

    /// The steps to take for page `page`, not yet rendered, of `total_pages`
    /// pages of the document at `file_path`. A new document drops the cache
    /// and has the worker load it and render ahead from page 0; a page in
    /// the deck that was not asked for yet is asked for first.
    pub fn request_page(&mut self, file_path: &Option<String>, total_pages: usize, page: usize) -> (r:
        Vec<RenderAction>)
        ensures
            final(self)@ == planned_requests(old(self)@, opt_text(*file_path), total_pages, page).0,
            action_views(r@) == planned_requests(old(self)@, opt_text(*file_path), total_pages, page).1,
    {
        let mut actions: Vec<RenderAction> = Vec::new();
        if let Some(path) = file_path {
            let switched = match &self.current_file_path {
                Some(c) => !c.eq(path),
                None => true,
            };
            if switched {
                self.current_file_path = Some(path.clone());
                self.clear_cache();
                actions.push(RenderAction::ClearCache);
                actions.push(RenderAction::Send(RenderCommand::LoadFile(path.clone())));
                actions.push(
                    RenderAction::Send(RenderCommand::StartPrecache { start_page: 0, total_pages }),
                );
            }
            let ghost a1 = action_views(actions@);
            proof {
                if switched {
                    assert(a1 =~= seq![
                        RenderActionView::ClearCache,
                        RenderActionView::Send(RenderCommandView::LoadFile(path@)),
                        RenderActionView::Send(
                            RenderCommandView::StartPrecache { start_page: 0, total_pages },
                        ),
                    ]);
                } else {
                    assert(a1 =~= Seq::<RenderActionView>::empty());
                }
            }
            if page < total_pages && !self.requested.contains(&page) {
                self.requested.insert(page);
                let a = RenderAction::Send(
                    RenderCommand::PriorityRender { page_idx: page, total_pages },
                );
                actions.push(a);
                proof {
                    assert(action_views(actions@) =~= a1.push(a@));
                }
            }
        } else {
            proof {
                assert(action_views(actions@) =~= Seq::<RenderActionView>::empty());
            }
        }
        actions
    }
}

/// `base` joined with `rel` as `PathBuf::join` does on Unix: an absolute
/// `rel` (one that starts with `/`) replaces `base`; otherwise `rel` is
/// appended, with a `/` between them unless `base` is empty or already ends
/// with one.
pub open spec fn join_path(base: Seq<char>, rel: Seq<char>) -> Seq<char> {
    if rel.len() > 0 && rel[0] == '/' {
        rel
    } else if base.len() == 0 || base.last() == '/' {
        base + rel
    } else {
        base + seq!['/'] + rel
    }
}

/// The path `base` joined with `rel`.
pub fn joined_path(base: &str, rel: &str) -> (r: String)
    ensures
        r@ == join_path(base@, rel@),
{
    let rc = chars_of(rel);
    if rc.len() > 0 && rc[0] == '/' {
        return string_from_chars(rc.as_slice());
    }
    let mut out = chars_of(base);
    if out.len() > 0 && out[out.len() - 1] != '/' {
        out.push('/');
    }
    let mut k: usize = 0;
    let ghost start = out@;
    while k < rc.len()
        invariant
            k <= rc@.len(),
            out@ == start + rc@.take(k as int),
        decreases rc.len() - k,
    {
        proof {
            assert(rc@.take(k + 1) =~= rc@.take(k as int).push(rc@[k as int]));
        }
        out.push(rc[k]);
        k += 1;
    }
    proof {
        assert(rc@.take(rc@.len() as int) =~= rc@);
        if base@.len() == 0 || base@.last() == '/' {
            assert(out@ =~= base@ + rel@);
        } else {
            assert(out@ =~= base@ + seq!['/'] + rel@);
        }
    }
    string_from_chars(out.as_slice())
}

/// Where Typst packages live below a data or cache directory.
pub open spec fn typst_packages() -> Seq<char> {
    "typst/packages"@
}

/// The directories searched for Typst packages, given the environment
/// variables `TYPST_PACKAGES_DIR`, `XDG_DATA_HOME`, `XDG_CACHE_HOME` and
/// `HOME` (each `None` when unset): the first as it is; the data packages
/// below `XDG_DATA_HOME`, or else below `HOME/.local/share`; the cached
/// packages below `XDG_CACHE_HOME`, or else below `HOME/.cache`.
pub open spec fn package_search_dirs(
    packages_dir: Option<Seq<char>>,
    data_home: Option<Seq<char>>,
    cache_home: Option<Seq<char>>,
    home: Option<Seq<char>>,
) -> Seq<Seq<char>> {
    let first: Seq<Seq<char>> = match packages_dir {
        Some(d) => seq![d],
        None => Seq::empty(),
    };
    let data: Seq<Seq<char>> = match data_home {
        Some(d) => seq![join_path(d, typst_packages())],
        None => match home {
            Some(h) => seq![join_path(h, ".local/share/typst/packages"@)],
            None => Seq::empty(),
        },
    };
    let cache: Seq<Seq<char>> = match cache_home {
        Some(d) => seq![join_path(d, typst_packages())],
        None => match home {
            Some(h) => seq![join_path(h, ".cache/typst/packages"@)],
            None => Seq::empty(),
        },
    };
    first + data + cache
}

/// The texts of a sequence of strings.
pub open spec fn string_views(v: Seq<String>) -> Seq<Seq<char>> {
    v.map_values(|s: String| s@)
}

/// The directories searched for Typst packages, as `package_search_dirs`
/// states, from the values of the environment variables.
pub fn package_dirs(
    packages_dir: &Option<String>,
    data_home: &Option<String>,
    cache_home: &Option<String>,
    home: &Option<String>,
) -> (r: Vec<String>)
    ensures
        string_views(r@) == package_search_dirs(
            opt_text(*packages_dir),
            opt_text(*data_home),
            opt_text(*cache_home),
            opt_text(*home),
        ),
{
    let mut dirs: Vec<String> = Vec::new();
    let ghost mut expect: Seq<Seq<char>> = Seq::empty();
    match packages_dir {
        Some(d) => {
            dirs.push(d.clone());
            proof {
                expect = seq![d@];
            }
        },
        None => {},
    }
    proof {
        assert(string_views(dirs@) =~= expect);
    }
    let ghost before = expect;
    match data_home {
        Some(d) => {
            let p = joined_path(d.as_str(), "typst/packages");
            proof {
                expect = before.push(p@);
            }
            dirs.push(p);
        },
        None => match home {
            Some(h) => {
                let p = joined_path(h.as_str(), ".local/share/typst/packages");
                proof {
                    expect = before.push(p@);
                }
                dirs.push(p);
            },
            None => {},
        },
    }
    proof {
        assert(string_views(dirs@) =~= expect);
    }
    let ghost before2 = expect;
    match cache_home {
        Some(d) => {
            let p = joined_path(d.as_str(), "typst/packages");
            proof {
                expect = before2.push(p@);
            }
            dirs.push(p);
        },
        None => match home {
            Some(h) => {
                let p = joined_path(h.as_str(), ".cache/typst/packages");
                proof {
                    expect = before2.push(p@);
                }
                dirs.push(p);
            },
            None => {},
        },
    }
    proof {
        assert(string_views(dirs@) =~= expect);
        assert(expect =~= package_search_dirs(
            opt_text(*packages_dir),
            opt_text(*data_home),
            opt_text(*cache_home),
            opt_text(*home),
        ));
    }
    dirs
}

/// `s` without its leading `/` characters, as `trim_start_matches('/')`.
pub open spec fn without_leading_slashes(s: Seq<char>) -> Seq<char>
    decreases s.len(),
{
    if s.len() > 0 && s[0] == '/' {
        without_leading_slashes(s.drop_first())
    } else {
        s
    }
}

/// The path of a package file relative to a package directory:
/// `namespace/name/version/` and the file's path without leading `/`.
pub open spec fn package_file_path(
    namespace: Seq<char>,
    name: Seq<char>,
    version: Seq<char>,
    vpath: Seq<char>,
) -> Seq<char> {
    namespace + seq!['/'] + name + seq!['/'] + version + seq!['/'] + without_leading_slashes(vpath)
}

/// The path of a package file relative to a package directory.
pub fn package_file(namespace: &str, name: &str, version: &str, vpath: &str) -> (r: String)
    ensures
        r@ == package_file_path(namespace@, name@, version@, vpath@),
{
    let mut out: Vec<char> = Vec::new();
    push_str_chars(&mut out, namespace);
    out.push('/');
    push_str_chars(&mut out, name);
    out.push('/');
    push_str_chars(&mut out, version);
    out.push('/');
    let v = chars_of(vpath);
    let mut i: usize = 0;
    proof {
        assert(v@.skip(0) =~= v@);
    }
    while i < v.len() && v[i] == '/'
        invariant
            i <= v@.len(),
            without_leading_slashes(v@.skip(i as int)) == without_leading_slashes(vpath@),
            v@ == vpath@,
        decreases v.len() - i,
    {
        proof {
            assert(v@.skip(i as int).drop_first() =~= v@.skip(i + 1));
        }
        i += 1;
    }
    let ghost head = out@;
    let mut k = i;
    while k < v.len()
        invariant
            i <= k <= v@.len(),
            out@ == head + v@.subrange(i as int, k as int),
        decreases v.len() - k,
    {
        proof {
            assert(v@.subrange(i as int, k + 1) =~= v@.subrange(i as int, k as int).push(v@[k as int]));
        }
        out.push(v[k]);
        k += 1;
    }
    proof {
        assert(v@.subrange(i as int, v@.len() as int) =~= v@.skip(i as int));
        assert(out@ =~= package_file_path(namespace@, name@, version@, vpath@));
    }
    string_from_chars(out.as_slice())
}

/// The lowercase form of `s` as `str::to_lowercase` gives it (by Unicode's
/// lowercase mappings).
pub uninterp spec fn lowercase_of(s: Seq<char>) -> Seq<char>;

/// The lowercase form of `s`. Wraps `str::to_lowercase`; the result is
/// named `lowercase_of`, a function of `s` alone.
#[verifier::external_body]
fn to_lowercase(s: &str) -> (r: String)
    ensures
        r@ == lowercase_of(s@),
{
    s.to_lowercase()
}

/// The family names whose fonts Typst is given, as lowercase fragments.
pub open spec fn font_targets() -> Seq<Seq<char>> {
    seq![
        "cantarell"@,
        "roboto"@,
        "inter"@,
        "arial"@,
        "helvetica"@,
        "liberation sans"@,
        "noto sans"@,
        "dejavu sans"@,
        "liberation serif"@,
        "noto serif"@,
        "dejavu serif"@,
        "liberation mono"@,
        "dejavu sans mono"@,
        "noto mono"@,
    ]
}

/// Whether a font family is one that Typst is given: its lowercase name
/// holds one of `font_targets`.
pub open spec fn is_target_family(family: Seq<char>) -> bool {
    exists|i: int| 0 <= i < font_targets().len() && contains_seq(lowercase_of(family), font_targets()[i])
}

/// Whether the font family `family` is one that Typst is given.
pub fn matches_font_target(family: &str) -> (r: bool)
    ensures
        r == is_target_family(family@),
{
    let targets: [&str; 14] = [
        "cantarell",
        "roboto",
        "inter",
        "arial",
        "helvetica",
        "liberation sans",
        "noto sans",
        "dejavu sans",
        "liberation serif",
        "noto serif",
        "dejavu serif",
        "liberation mono",
        "dejavu sans mono",
        "noto mono",
    ];
    let lower = to_lowercase(family);
    let lc = chars_of(lower.as_str());
    let mut i: usize = 0;
    while i < 14
        invariant
            i <= 14,
            lc@ == lowercase_of(family@),
            forall|j: int| 0 <= j < 14 ==> #[trigger] targets@[j]@ == font_targets()[j],
            forall|j: int| 0 <= j < i ==> !contains_seq(lc@, #[trigger] font_targets()[j]),
        decreases 14 - i,
    {
        let t = chars_of(targets[i]);
        if contains_chars(lc.as_slice(), t.as_slice()) {
            return true;
        }
        i += 1;
    }
    false
}

/// How a system font face is put to use for the interface.
pub struct FaceUse {
    /// The face is of the Cantarell family, the interface's text font.
    pub cantarell: bool,
    /// The face is a monochrome emoji font, a fallback for symbols.
    pub monochrome_emoji: bool,
}

/// How a face whose family names are `families` is put to use: as the
/// text font if a lowercase name is `cantarell`; as an emoji fallback if a
/// lowercase name holds `emoji` and none holds `color`.
pub fn classify_face(families: &Vec<String>) -> (r: FaceUse)
    ensures
        r.cantarell == exists|i: int|
            0 <= i < families@.len() && lowercase_of(#[trigger] families@[i]@) == "cantarell"@,
        r.monochrome_emoji == ((exists|i: int|
            0 <= i < families@.len() && contains_seq(lowercase_of(#[trigger] families@[i]@), "emoji"@))
            && !exists|i: int|
            0 <= i < families@.len() && contains_seq(lowercase_of(#[trigger] families@[i]@), "color"@)),
{
    let cantarell = chars_of("cantarell");
    let emoji = chars_of("emoji");
    let color = chars_of("color");
    let mut is_cantarell = false;
    let mut is_emoji = false;
    let mut is_color = false;
    let mut i: usize = 0;
    while i < families.len()
        invariant
            i <= families@.len(),
            cantarell@ == "cantarell"@,
            emoji@ == "emoji"@,
            color@ == "color"@,
            is_cantarell == exists|j: int|
                0 <= j < i && lowercase_of(#[trigger] families@[j]@) == "cantarell"@,
            is_emoji == exists|j: int|
                0 <= j < i && contains_seq(lowercase_of(#[trigger] families@[j]@), "emoji"@),
            is_color == exists|j: int|
                0 <= j < i && contains_seq(lowercase_of(#[trigger] families@[j]@), "color"@),
        decreases families.len() - i,
    {
        let lower = to_lowercase(families[i].as_str());
        let lc = chars_of(lower.as_str());
        let same = lc.len() == cantarell.len() && contains_chars(lc.as_slice(), cantarell.as_slice());
        proof {
            if lc@.len() == cantarell@.len() {
                if contains_seq(lc@, cantarell@) {
                    let k = choose|k: int| crate::text::occurs_at(lc@, cantarell@, k);
                    assert(k == 0);
                    assert(lc@ =~= lc@.subrange(0, cantarell@.len() as int));
                } else {
                    assert(crate::text::occurs_at(lc@, cantarell@, 0) ==> contains_seq(lc@, cantarell@));
                    if lc@ == cantarell@ {
                        assert(lc@.subrange(0, lc@.len() as int) =~= lc@);
                        assert(crate::text::occurs_at(lc@, cantarell@, 0));
                    }
                }
            }
        }
        is_cantarell = is_cantarell || same;
        is_emoji = is_emoji || contains_chars(lc.as_slice(), emoji.as_slice());
        is_color = is_color || contains_chars(lc.as_slice(), color.as_slice());
        i += 1;
    }
    FaceUse { cantarell: is_cantarell, monochrome_emoji: is_emoji && !is_color }
}


/// The renderer asks the worker for a page once: after a request for a
/// page of the deck, the page counts as asked for, and the same request
/// again changes nothing and sends nothing.
pub proof fn second_request_is_quiet(c: PageCacheView, path: Seq<char>, total: usize, page: usize)
    ensures
        ({
            let first = planned_requests(c, Some(path), total, page);
            &&& page < total ==> first.0.requested.contains(page)
            &&& first.0.current_file_path == Some(path)
            &&& planned_requests(first.0, Some(path), total, page) == (first.0, Seq::<RenderActionView>::empty())
        }),
{
}

} // verus!
