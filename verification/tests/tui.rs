use chaff::model::Reclaimable;
use chaff::tui::{App, Key, Sort, Step};
use std::time::{SystemTime, UNIX_EPOCH};

fn now_nanos() -> i128 {
    SystemTime::now().duration_since(UNIX_EPOCH).unwrap().as_nanos() as i128
}

fn it(label: &'static str, eco: &'static str, size: u64, age_days: u64, path: &str) -> Reclaimable {
    Reclaimable {
        path: path.to_string(),
        ecosystem: eco,
        label,
        size,
        modified: Some(now_nanos() - (age_days as i128) * 86_400 * 1_000_000_000),
    }
}

fn sample() -> Vec<Reclaimable> {
    vec![
        it("node_modules", "node", 100, 1, "/a/app/node_modules"),
        it("target", "rust", 300, 365, "/a/svc/target"),
        it(".venv", "python", 50, 30, "/a/ml/.venv"),
    ]
}

#[test]
fn sorts_by_size_desc_by_default() {
    let items = sample();
    let app = App::new(&items);
    assert_eq!(app.order, vec![1, 0, 2]);
}

#[test]
fn filter_narrows_order() {
    let items = sample();
    let mut app = App::new(&items);
    app.query = "node".into();
    app.recompute();
    assert_eq!(app.order, vec![0]);
}

#[test]
fn age_sort_puts_oldest_first() {
    let items = sample();
    let mut app = App::new(&items);
    app.sort = Sort::Age;
    app.recompute();
    assert_eq!(app.order.first(), Some(&1));
}

#[test]
fn toggle_all_visible_respects_filter() {
    let items = sample();
    let mut app = App::new(&items);
    app.query = "node".into();
    app.recompute();
    app.toggle_all_visible();
    assert_eq!(app.picks(), vec![0]);
}

#[test]
fn sort_cycles_through_modes() {
    assert_eq!(Sort::Size.next(), Sort::Age);
    assert_eq!(Sort::Age.next(), Sort::Name);
    assert_eq!(Sort::Name.next(), Sort::Size);
    assert_eq!(Sort::Name.label(), "name");
}

#[test]
fn filter_is_case_insensitive_and_matches_paths() {
    let items = sample();
    let mut app = App::new(&items);
    app.query = "SVC".into();
    app.recompute();
    assert_eq!(app.order, vec![1]);
    app.query = "zzz".into();
    app.recompute();
    assert!(app.order.is_empty());
    assert_eq!(app.cursor, None);
}

#[test]
fn cursor_wraps_and_settles() {
    let items = sample();
    let mut app = App::new(&items);
    assert_eq!(app.cursor, Some(0));
    app.move_cursor(-1);
    assert_eq!(app.cursor, Some(2));
    app.move_cursor(1);
    assert_eq!(app.cursor, Some(0));
    app.move_cursor(5);
    assert_eq!(app.cursor, Some(2));
    app.query = "node".into();
    app.recompute();
    assert_eq!(app.cursor, Some(0));
}

#[test]
fn keys_drive_the_picker() {
    let items = sample();
    let mut app = App::new(&items);
    assert!(matches!(app.handle_key(Key::Char(' ')), Step::Continue));
    assert_eq!(app.picks(), vec![1]);
    assert!(matches!(app.handle_key(Key::Char(' ')), Step::Continue));
    assert!(app.picks().is_empty());
    app.handle_key(Key::Char('/'));
    assert!(app.filtering);
    app.handle_key(Key::Char('v'));
    app.handle_key(Key::Char('e'));
    assert_eq!(app.query, "ve");
    assert_eq!(app.order, vec![2]);
    app.handle_key(Key::Backspace);
    assert_eq!(app.query, "v");
    app.handle_key(Key::Enter);
    assert!(!app.filtering);
    assert_eq!(app.query, "v");
    assert_eq!(app.order, vec![1, 2]);
    app.handle_key(Key::Char('a'));
    match app.handle_key(Key::Enter) {
        Step::Done(p) => assert_eq!(p, vec![1, 2]),
        Step::Continue => panic!("enter should finish"),
    }
    match app.handle_key(Key::Char('q')) {
        Step::Done(p) => assert!(p.is_empty()),
        Step::Continue => panic!("q should quit"),
    }
}

#[test]
fn escape_clears_the_filter() {
    let items = sample();
    let mut app = App::new(&items);
    app.handle_key(Key::Char('/'));
    app.handle_key(Key::Char('n'));
    app.handle_key(Key::Char('o'));
    assert_eq!(app.order, vec![0]);
    app.handle_key(Key::Esc);
    assert!(!app.filtering);
    assert_eq!(app.query, "");
    assert_eq!(app.order, vec![1, 0, 2]);
    app.handle_key(Key::Char('s'));
    assert_eq!(app.sort, Sort::Age);
    assert_eq!(app.order, vec![1, 2, 0]);
    app.handle_key(Key::Char('s'));
    assert_eq!(app.order, vec![0, 2, 1]);
}

#[test]
fn texts_show_state() {
    let items = sample();
    let mut app = App::new(&items);
    app.handle_key(Key::Char(' '));
    assert_eq!(app.row_text(0), "[x]      300 B  target        /a/svc/target");
    assert_eq!(app.row_text(1), "[ ]      100 B  node_modules  /a/app/node_modules");
    assert_eq!(app.title_text(), " chaff — sort:size · / filter · space · a all · enter reclaim · q quit ");
    assert_eq!(app.selected_size(), Some(300));
    assert_eq!(app.footer_text(), " selected 1 item(s) — 300 B to reclaim (→ trash) ");
    app.handle_key(Key::Char('/'));
    app.handle_key(Key::Char('t'));
    assert_eq!(app.footer_text(), " filter: t▌  (2 shown) ");
}
