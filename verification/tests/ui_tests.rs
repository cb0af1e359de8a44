use node_cleaner::ui::{
    get_ticks, iter_pattern_hits, App, ContentWidget, HeaderWidget, PathTreeWidget, SidebarWidget,
    SpinnerTheme,
};

#[test]
fn app_state_defaults() {
    let a = App::new();
    assert_eq!(a.username, "Test");
    assert_eq!(a.sidebar_title, "sidebar_title content from app.rs goes here");
    assert_eq!(a.content_title, "content_title content from app.rs goes here");
}

#[test]
fn widgets_keep_their_text() {
    let h = HeaderWidget::new(String::from("u"));
    assert_eq!(h.username, "u");
    let s = SidebarWidget::new(String::from("side"));
    assert_eq!(s.content, "side");
    let c = ContentWidget::new(String::from("main"));
    assert_eq!(c.content, "main");
    let p = PathTreeWidget::new(vec![String::from("/a"), String::from("/b")]);
    assert_eq!(p.paths.len(), 2);
}

#[test]
fn every_theme_has_twelve_ticks() {
    assert_eq!(get_ticks(SpinnerTheme::FileWalker).len(), 12);
    assert_eq!(get_ticks(SpinnerTheme::SearchScan).len(), 12);
    assert_eq!(get_ticks(SpinnerTheme::PatternMatch).len(), 12);
    assert_eq!(get_ticks(SpinnerTheme::FileWalker)[0], "📁");
    assert_eq!(get_ticks(SpinnerTheme::SearchScan)[0], "🔍");
    assert_eq!(get_ticks(SpinnerTheme::PatternMatch)[0], "🎯");
}

#[test]
fn pattern_hits_come_back_sorted_by_name() {
    let hits = vec![
        (String::from("readme*"), 3u64),
        (String::from("license"), 1u64),
        (String::from("/test/"), 7u64),
    ];
    let sorted = iter_pattern_hits(&hits);
    assert_eq!(
        sorted,
        vec![
            (String::from("/test/"), 7u64),
            (String::from("license"), 1u64),
            (String::from("readme*"), 3u64),
        ]
    );
}

#[test]
fn duplicate_names_survive_sorting() {
    let hits = vec![
        (String::from("b"), 1u64),
        (String::from("a"), 2u64),
        (String::from("b"), 3u64),
    ];
    let sorted = iter_pattern_hits(&hits);
    assert_eq!(sorted.len(), 3);
    assert_eq!(sorted[0].0, "a");
    assert_eq!(sorted[1].0, "b");
    assert_eq!(sorted[2].0, "b");
}
