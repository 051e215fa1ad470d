use typshow::render::{
    classify_face, follow_up, joined_path, precache_step, PrecacheStep, matches_font_target, package_dirs, package_file, PageCache,
    RenderAction, RenderCommand,
};
use typshow::theme::{accent, border_color, headerbar_bg, hover_fill, text_color, window_bg};

fn path(p: &str) -> Option<String> {
    Some(p.to_string())
}

#[test]
fn first_request_loads_document_and_asks_for_page() {
    let mut cache = PageCache::new();
    let actions = cache.request_page(&path("/d/a.typ"), 5, 2);
    assert_eq!(actions.len(), 4);
    assert!(matches!(actions[0], RenderAction::ClearCache));
    assert!(matches!(actions[1], RenderAction::Send(RenderCommand::LoadFile(ref p)) if p == "/d/a.typ"));
    assert!(matches!(
        actions[2],
        RenderAction::Send(RenderCommand::StartPrecache { start_page: 0, total_pages: 5 })
    ));
    assert!(matches!(
        actions[3],
        RenderAction::Send(RenderCommand::PriorityRender { page_idx: 2, total_pages: 5 })
    ));
}

#[test]
fn second_request_is_quiet() {
    let mut cache = PageCache::new();
    cache.request_page(&path("/d/a.typ"), 5, 2);
    let again = cache.request_page(&path("/d/a.typ"), 5, 2);
    assert!(again.is_empty());
    let other = cache.request_page(&path("/d/a.typ"), 5, 3);
    assert_eq!(other.len(), 1);
}

#[test]
fn page_outside_deck_is_not_asked_for() {
    let mut cache = PageCache::new();
    let actions = cache.request_page(&path("/d/a.typ"), 5, 5);
    assert_eq!(actions.len(), 3);
}

#[test]
fn no_document_no_requests() {
    let mut cache = PageCache::new();
    assert!(cache.request_page(&None, 5, 0).is_empty());
}

#[test]
fn new_document_drops_cache() {
    let mut cache = PageCache::new();
    cache.request_page(&path("/d/a.typ"), 5, 0);
    cache.page_rendered(0);
    cache.page_rendered(1);
    assert!(cache.is_cached(1));
    let actions = cache.request_page(&path("/d/b.typ"), 3, 1);
    assert!(!cache.is_cached(1));
    assert_eq!(actions.len(), 4);
    assert!(matches!(actions[1], RenderAction::Send(RenderCommand::LoadFile(ref p)) if p == "/d/b.typ"));
}

#[test]
fn rendered_page_is_not_asked_for() {
    let mut cache = PageCache::new();
    cache.request_page(&path("/d/a.typ"), 5, 0);
    cache.page_rendered(4);
    assert!(cache.request_page(&path("/d/a.typ"), 5, 4).is_empty());
    cache.clear_cache();
    assert!(!cache.is_cached(4));
    assert_eq!(cache.request_page(&path("/d/a.typ"), 5, 4).len(), 1);
}

#[test]
fn priority_render_continues_ahead() {
    let next = follow_up(&RenderCommand::PriorityRender { page_idx: 3, total_pages: 9 });
    assert!(matches!(next, Some(RenderCommand::StartPrecache { start_page: 4, total_pages: 9 })));
    assert!(follow_up(&RenderCommand::StartPrecache { start_page: 0, total_pages: 9 }).is_none());
    assert!(follow_up(&RenderCommand::LoadFile("x".to_string())).is_none());
}

#[test]
fn joined_paths() {
    assert_eq!(joined_path("/home/me", "typst/packages"), "/home/me/typst/packages");
    assert_eq!(joined_path("/home/me/", "typst/packages"), "/home/me/typst/packages");
    assert_eq!(joined_path("", "typst"), "typst");
    assert_eq!(joined_path("/home/me", "/opt/typst"), "/opt/typst");
}

#[test]
fn package_dirs_from_environment() {
    let dirs = package_dirs(&None, &None, &None, &path("/home/me"));
    assert_eq!(dirs, vec![
        "/home/me/.local/share/typst/packages".to_string(),
        "/home/me/.cache/typst/packages".to_string(),
    ]);
    let dirs = package_dirs(&path("/pkgs"), &path("/data"), &path("/cache"), &path("/home/me"));
    assert_eq!(dirs, vec![
        "/pkgs".to_string(),
        "/data/typst/packages".to_string(),
        "/cache/typst/packages".to_string(),
    ]);
    assert!(package_dirs(&None, &None, &None, &None).is_empty());
}

#[test]
fn package_file_paths() {
    assert_eq!(package_file("preview", "touying", "0.5.2", "/lib.typ"), "preview/touying/0.5.2/lib.typ");
    assert_eq!(package_file("local", "x", "1.0.0", "src/a.typ"), "local/x/1.0.0/src/a.typ");
}

#[test]
fn font_targets_match_by_lowercase_name() {
    assert!(matches_font_target("Noto Sans CJK"));
    assert!(matches_font_target("DejaVu Sans Mono"));
    assert!(matches_font_target("Cantarell"));
    assert!(!matches_font_target("Comic Neue"));
}

#[test]
fn faces_are_classified() {
    let c = classify_face(&vec!["Cantarell".to_string()]);
    assert!(c.cantarell);
    assert!(!c.monochrome_emoji);
    let e = classify_face(&vec!["Noto Emoji".to_string()]);
    assert!(e.monochrome_emoji);
    let colour = classify_face(&vec!["Noto Color Emoji".to_string()]);
    assert!(!colour.monochrome_emoji);
    let extra = classify_face(&vec!["Cantarell Extra Bold".to_string()]);
    assert!(!extra.cantarell);
}

#[test]
fn palette_colours() {
    let h = headerbar_bg(true);
    assert_eq!((h.r, h.g, h.b, h.a), (48, 48, 48, 255));
    let w = window_bg(false);
    assert_eq!((w.r, w.g, w.b, w.a), (250, 250, 250, 255));
    let t = text_color(true);
    assert_eq!((t.r, t.g, t.b), (255, 255, 255));
    let b = border_color(false);
    assert_eq!((b.r, b.g, b.b, b.a), (0, 0, 0, 18));
    let a = accent();
    assert_eq!((a.r, a.g, a.b, a.a), (53, 132, 228, 255));
    let hv = hover_fill(true);
    assert_eq!(hv.a, 51);
}

#[test]
fn precache_steps() {
    assert!(matches!(precache_step(5, 5, false), PrecacheStep::Stop));
    assert!(matches!(precache_step(7, 5, true), PrecacheStep::Stop));
    assert!(matches!(precache_step(2, 5, true), PrecacheStep::GiveWay));
    assert!(matches!(precache_step(2, 5, false), PrecacheStep::Render { page: 2, next: 3 }));
}
