use chaff::model::Reclaimable;
use chaff::report::{
    age, age_label, bar_len, checked_total, breakdown_text, chart_lines, chart_rows, eco_totals, human, json_report,
    table_header, table_lines, table_row, total_size, visible_count,
};

const DAY: i128 = 86_400 * 1_000_000_000;

fn mk(path: &str, eco: &'static str, label: &'static str, size: u64, modified: Option<i128>) -> Reclaimable {
    Reclaimable { path: path.to_string(), ecosystem: eco, label, size, modified }
}

fn json_value(items: &[Reclaimable], now: i128) -> serde_json::Value {
    let r = json_report(&items.to_vec(), now);
    let mut top = serde_json::Map::new();
    top.insert("total_bytes".to_string(), serde_json::Value::from(r.total_bytes));
    top.insert("count".to_string(), serde_json::Value::from(r.count));
    let mut list = Vec::new();
    for it in &r.items {
        let mut o = serde_json::Map::new();
        o.insert("path".to_string(), serde_json::Value::from(it.path.clone()));
        o.insert("kind".to_string(), serde_json::Value::from(it.kind));
        o.insert("ecosystem".to_string(), serde_json::Value::from(it.ecosystem));
        o.insert("size_bytes".to_string(), serde_json::Value::from(it.size_bytes));
        o.insert("age_seconds".to_string(), serde_json::Value::from(it.age_seconds));
        list.push(serde_json::Value::Object(o));
    }
    top.insert("items".to_string(), serde_json::Value::Array(list));
    serde_json::Value::Object(top)
}

#[test]
fn json_has_items_and_total() {
    let items = vec![mk("/a/node_modules", "node", "node_modules", 100, None)];
    let v = json_value(&items, 0);
    assert_eq!(v["count"], 1);
    assert_eq!(v["total_bytes"], 100);
    assert_eq!(v["items"][0]["kind"], "node_modules");
    assert_eq!(v["items"][0]["size_bytes"], 100);
    assert_eq!(v["items"][0]["ecosystem"], "node");
}

#[test]
fn json_reports_age_in_seconds() {
    let now: i128 = 1_000 * DAY;
    let items = vec![
        mk("/a", "node", "node_modules", 1, Some(now - 2 * DAY - 999)),
        mk("/b", "rust", "target", 2, Some(now + 5)),
    ];
    let r = json_report(&items, now);
    assert_eq!(r.items[0].age_seconds, Some(2 * 86_400));
    assert_eq!(r.items[1].age_seconds, None);
    assert_eq!(r.total_bytes, 3);
    assert_eq!(r.count, 2);
}

#[test]
fn visible_count_caps() {
    assert_eq!(visible_count(10, None), 10);
    assert_eq!(visible_count(10, Some(3)), 3);
    assert_eq!(visible_count(2, Some(5)), 2);
}

#[test]
fn bar_len_scales() {
    assert_eq!(bar_len(100, 100, 30), 30);
    assert_eq!(bar_len(50, 100, 30), 15);
    assert_eq!(bar_len(0, 100, 30), 0);
    assert_eq!(bar_len(100, 0, 30), 0);
}

#[test]
fn bar_len_rounds_half_up() {
    assert_eq!(bar_len(1, 4, 2), 1);
    assert_eq!(bar_len(1, 3, 1), 0);
    assert_eq!(bar_len(2, 3, 1), 1);
    assert_eq!(bar_len(u64::MAX, u64::MAX, 28), 28);
}

#[test]
fn human_uses_decimal_units() {
    assert_eq!(human(0), "0 B");
    assert_eq!(human(999), "999 B");
    assert_eq!(human(1_000), "1 kB");
    assert_eq!(human(1_500_000_000), "1.50 GB");
}

#[test]
fn age_labels_pick_the_largest_unit() {
    assert_eq!(age_label(None), "-");
    assert_eq!(age_label(Some(59)), "new");
    assert_eq!(age_label(Some(2 * 3_600)), "2h");
    assert_eq!(age_label(Some(3 * 86_400)), "3d");
    assert_eq!(age_label(Some(15 * 86_400)), "2w");
    assert_eq!(age_label(Some(65 * 86_400)), "2mo");
    assert_eq!(age_label(Some(800 * 86_400)), "2y");
    assert_eq!(age(Some(10), 5), "-");
    assert_eq!(age(Some(0), 3 * DAY), "3d");
}

#[test]
fn totals_group_by_ecosystem() {
    let items = vec![
        mk("/a", "rust", "target", 10, None),
        mk("/b", "node", "node_modules", 5, None),
        mk("/c", "rust", "target", 1, None),
    ];
    assert_eq!(eco_totals(&items), vec![("node", 5), ("rust", 11)]);
    assert_eq!(total_size(&items), 16);
    assert_eq!(breakdown_text(&eco_totals(&items)), "5 B node, 11 B rust");
    assert_eq!(chart_rows(&items, 28), vec![("rust", 11, 28), ("node", 5, 13)]);
}

#[test]
fn table_lists_rows_and_summary() {
    let now: i128 = 100 * DAY;
    let items = vec![
        mk("/p/target", "rust", "target", 2_000, Some(now - 3 * DAY)),
        mk("/p/node_modules", "node", "node_modules", 1_000, None),
    ];
    assert_eq!(table_header(), "       SIZE     AGE  TYPE          PATH");
    assert_eq!(table_row(&items[0], now), "       2 kB      3d  target        /p/target");
    let lines = table_lines(&items, Some(1), now);
    assert_eq!(lines.len(), 3);
    assert_eq!(lines[1], "       2 kB      3d  target        /p/target");
    assert_eq!(lines[2], "\nReclaimable: 3 kB across 2 item(s)  (1 kB node, 2 kB rust)  (showing top 1)");
    let all = table_lines(&items, None, now);
    assert_eq!(all.len(), 4);
    assert_eq!(all[3], "\nReclaimable: 3 kB across 2 item(s)  (1 kB node, 2 kB rust)");
    assert_eq!(
        table_lines(&vec![], None, now),
        vec!["Nothing reclaimable found. Your projects are already tidy. 🌾".to_string()]
    );
}

#[test]
fn chart_lines_scale_bars() {
    let items = vec![mk("/a", "rust", "target", 10, None), mk("/b", "node", "node_modules", 5, None)];
    let lines = chart_lines(&items);
    assert_eq!(lines.len(), 3);
    assert_eq!(lines[0], "");
    assert_eq!(lines[1], format!("rust         {} 10 B", "█".repeat(28)));
    assert_eq!(lines[2], format!("node         {}{} 5 B", "█".repeat(14), " ".repeat(14)));
    assert!(chart_lines(&vec![]).is_empty());
}

#[test]
fn checked_total_detects_overflow() {
    let items = vec![mk("/a", "x", "y", u64::MAX, None), mk("/b", "x", "y", 1, None)];
    assert_eq!(checked_total(&items), None);
    assert_eq!(checked_total(&items[..1].to_vec()), Some(u64::MAX));
    assert_eq!(checked_total(&vec![]), Some(0));
}

#[test]
fn breakdown_adds_up_to_total() {
    let items = vec![
        mk("/a", "rust", "target", 10, None),
        mk("/b", "node", "node_modules", 5, None),
        mk("/c", "rust", "target", 1, None),
        mk("/d", "cache", "pip", 100, None),
    ];
    let sum: u64 = eco_totals(&items).iter().map(|(_, s)| s).sum();
    assert_eq!(sum, total_size(&items));
    assert!(bar_len(7, 100, 28) <= bar_len(8, 100, 28));
}

#[test]
fn bar_len_is_capped_at_width() {
    assert_eq!(bar_len(200, 100, 30), 30);
    assert_eq!(bar_len(u64::MAX, 1, 28), 28);
    assert_eq!(bar_len(101, 100, 30), 30);
}
