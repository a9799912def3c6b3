use lxp_scan::context::{ContextPack, UsageExcerpt};
use lxp_scan::dupes::DeclSite;
use lxp_scan::explorer::{Action, App, Key, PackState, SymbolEntry};
use lxp_scan::strmap::{StrMap, StrSet};

fn site(repo: &str, file: &str, line: usize) -> DeclSite {
    DeclSite { repo: repo.to_string(), file: file.to_string(), line }
}

fn app() -> App {
    let exports = vec![
        ("Button".to_string(), vec![site("lib", "src/Button.tsx", 3)]),
        ("ButtonGroup".to_string(), vec![site("lib", "src/ButtonGroup.tsx", 1)]),
        ("Card".to_string(), vec![site("app", "src/Card.tsx", 9)]),
    ];
    let mut roots = StrMap::new();
    roots.insert("lib".to_string(), "/ws/lib".to_string());
    roots.insert("app".to_string(), "/ws/app".to_string());
    App::new(exports, roots, 0)
}

fn ready_pack(app: &mut App, symbol: &str, excerpts: Vec<UsageExcerpt>) {
    let pack = ContextPack {
        symbol: symbol.to_string(),
        total_sites: excerpts.len(),
        total_files: excerpts.len(),
        total_repos: 1,
        prop_counts: vec![],
        definition: None,
        excerpts,
        same_name: vec![],
    };
    app.on_scan_result(symbol.to_string(), Ok(pack));
}

fn excerpt(repo: &str, file: &str, line: usize) -> UsageExcerpt {
    UsageExcerpt {
        repo: repo.to_string(),
        file: file.to_string(),
        line,
        jsx_props: StrSet::new(),
        code: "<Button />".to_string(),
    }
}

fn names(app: &App) -> Vec<&str> {
    app.filtered.iter().map(|&i| app.symbols[i].name.as_str()).collect()
}

#[test]
fn filter_narrows_and_ranks_prefix_first() {
    let mut app = app();
    assert_eq!(app.filtered.len(), 3);
    for c in "but".chars() {
        app.push_filter(c);
    }
    assert_eq!(names(&app), vec!["Button", "ButtonGroup"]);
    app.clear_filter();
    assert_eq!(app.filtered.len(), 3);
}

#[test]
fn selection_clamps_and_resets_excerpt_index() {
    let mut app = app();
    app.excerpt_idx = 2;
    app.move_down();
    assert_eq!(app.selected, 1);
    assert_eq!(app.excerpt_idx, 0);
    app.move_down();
    app.move_down();
    assert_eq!(app.selected, 2);
    app.move_up();
    app.move_up();
    app.move_up();
    assert_eq!(app.selected, 0);
}

#[test]
fn needs_scan_only_for_unloaded_symbols() {
    let mut app = app();
    assert_eq!(app.needs_scan().as_deref(), Some("Button"));
    app.packs.insert("Button".to_string(), PackState::Loading);
    assert_eq!(app.needs_scan(), None);
    app.on_scan_result("Button".to_string(), Err("boom".to_string()));
    assert!(matches!(app.current_pack(), Some(PackState::Failed(msg)) if msg == "boom"));
    assert_eq!(app.needs_scan(), None);
}

#[test]
fn excerpt_cycling_wraps_and_open_targets_the_shown_site() {
    let mut app = app();
    assert_eq!(app.open_target(), Some(Action::OpenEditor("/ws/lib/src/Button.tsx".to_string(), 3)));
    ready_pack(&mut app, "Button", vec![excerpt("app", "src/a.tsx", 10), excerpt("app", "src/b.tsx", 20)]);
    app.next_excerpt();
    assert_eq!(app.excerpt_idx, 1);
    assert_eq!(app.open_target(), Some(Action::OpenEditor("/ws/app/src/b.tsx".to_string(), 20)));
    app.next_excerpt();
    assert_eq!(app.excerpt_idx, 0, "wraps around");
    app.prev_excerpt();
    assert_eq!(app.excerpt_idx, 1);
}

#[test]
fn repos_are_deduped_per_symbol() {
    let entry = SymbolEntry {
        name: "X".to_string(),
        sites: vec![site("a", "1.tsx", 1), site("a", "2.tsx", 1), site("b", "3.tsx", 1)],
    };
    assert_eq!(entry.repos(), vec!["a", "b"]);
}

#[test]
fn keys_drive_filter_selection_and_quit() {
    let mut app = app();
    assert_eq!(app.handle_key(Key::Char('c')), None);
    assert_eq!(names(&app), vec!["Card"]);
    app.handle_key(Key::Backspace);
    assert_eq!(app.filtered.len(), 3);
    app.handle_key(Key::Down);
    assert_eq!(app.selected, 1);
    app.handle_key(Key::Up);
    assert_eq!(app.selected, 0);
    assert_eq!(
        app.handle_key(Key::Enter),
        Some(Action::OpenEditor("/ws/lib/src/Button.tsx".to_string(), 3))
    );
    app.handle_key(Key::Ctrl('c'));
    assert!(app.should_quit);
}

#[test]
fn marking_loading_stops_a_second_scan() {
    let mut app = app();
    let sym = app.needs_scan().unwrap();
    app.mark_loading(sym);
    assert!(matches!(app.current_pack(), Some(PackState::Loading)));
    assert_eq!(app.needs_scan(), None);
    app.move_down();
    assert_eq!(app.needs_scan().as_deref(), Some("ButtonGroup"));
}
