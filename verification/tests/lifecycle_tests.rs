use dune_ledger::errors::RequestError;
use dune_ledger::inventory::Inventory;
use dune_ledger::lifecycle::{
    bulk_add, update, finish, persisted_rows, request_from_rows, settle_inventory,
    mark_rows_completed, action_token,
};
use dune_ledger::registry::RequestRegistry;
use dune_ledger::rows::{RowStatus, RequestRow, request_rows_from_cells, row_to_cells,
    inventory_to_rows, status_label, read_status_cell};

fn pairs(v: &[(u64, &str)]) -> Vec<(u64, String)> {
    v.iter().map(|(a, n)| (*a, n.to_string())).collect()
}

fn snapshot(entries: &[(&str, u64)]) -> Inventory {
    let mut inv = Inventory::new();
    for (name, amount) in entries {
        inv.set_stock(name.to_string(), *amount);
    }
    inv
}

#[test]
fn second_start_fails_with_already_open() {
    let mut reg = RequestRegistry::new();
    assert!(reg.open(7, "Thumper".to_string(), 1).is_ok());
    let second = reg.open(7, "Another".to_string(), 2);
    assert_eq!(second.unwrap_err(), RequestError::AlreadyOpen);
}

#[test]
fn finish_without_start_fails_with_no_open_request() {
    let mut reg = RequestRegistry::new();
    let r = finish(&mut reg, 7);
    assert_eq!(r.unwrap_err(), RequestError::NoOpenRequest);
}

#[test]
fn start_after_finish_is_allowed_again() {
    let mut reg = RequestRegistry::new();
    reg.open(7, "Thumper".to_string(), 1).unwrap();
    finish(&mut reg, 7).unwrap();
    assert!(reg.open(7, "Thumper".to_string(), 2).is_ok());
}

#[test]
fn requesters_do_not_interfere() {
    let mut reg = RequestRegistry::new();
    reg.open(1, "A".to_string(), 10).unwrap();
    reg.open(2, "B".to_string(), 20).unwrap();
    finish(&mut reg, 1).unwrap();
    assert!(reg.contains(2));
    assert!(!reg.contains(1));
}

#[test]
fn bulk_add_without_open_request_is_refused() {
    let mut reg = RequestRegistry::new();
    let r = bulk_add(&mut reg, 7, "50 x Iron Ore");
    assert_eq!(r.unwrap_err(), RequestError::NoOpenRequest);
}

#[test]
fn bulk_add_replaces_wholesale_and_parse_errors_keep_the_old_list() {
    let mut reg = RequestRegistry::new();
    reg.open(7, "Thumper".to_string(), 1).unwrap();
    bulk_add(&mut reg, 7, "5 Copper Ore").unwrap();
    bulk_add(&mut reg, 7, "9 Iron Ore").unwrap();
    let inv = snapshot(&[]);
    let (_, remaining) = update(&reg, 7, &inv).unwrap();
    // the second bulk add replaced the first outright
    assert_eq!(remaining, pairs(&[(9, "iron ore")]));
    // a failing parse leaves the stored list untouched
    let bad = bulk_add(&mut reg, 7, "99999999999999999999 Iron Ore");
    assert_eq!(bad.unwrap_err(), RequestError::ParseError);
    let (_, remaining) = update(&reg, 7, &inv).unwrap();
    assert_eq!(remaining, pairs(&[(9, "iron ore")]));
}

#[test]
fn end_to_end_start_bulk_add_update_finish() {
    let mut reg = RequestRegistry::new();
    reg.open(42, "Thumper".to_string(), 900).unwrap();
    bulk_add(&mut reg, 42, "50 x Iron Ore\n2 x Spice Residue").unwrap();
    let inv = snapshot(&[("iron ore", 100), ("spice residue", 0)]);
    let (completed, remaining) = update(&reg, 42, &inv).unwrap();
    assert_eq!(completed, pairs(&[(50, "iron ore")]));
    assert_eq!(remaining, pairs(&[(2, "spice residue")]));
    let fin = finish(&mut reg, 42).unwrap();
    assert_eq!(fin.product, "Thumper");
    assert_eq!(fin.resources, pairs(&[(50, "iron ore"), (2, "spice residue")]));
    assert_eq!(fin.request_id.len(), 36);
    assert!(!reg.contains(42));
    let rows = persisted_rows(&fin, &"thread-1".to_string());
    assert_eq!(rows.len(), 2);
    for row in &rows {
        assert_eq!(row.request_id, fin.request_id);
        assert_eq!(row.product, "Thumper");
        assert_eq!(row.status, RowStatus::InProgress);
        assert_eq!(row.thread_ref, "thread-1");
    }
    assert_eq!(rows[0].resource, "iron ore");
    assert_eq!(rows[0].amount, 50);
    assert_eq!(rows[1].resource, "spice residue");
    assert_eq!(rows[1].amount, 2);
}

#[test]
fn fresh_identifiers_differ_between_posts() {
    let mut reg = RequestRegistry::new();
    reg.open(1, "A".to_string(), 0).unwrap();
    let a = finish(&mut reg, 1).unwrap();
    reg.open(1, "B".to_string(), 0).unwrap();
    let b = finish(&mut reg, 1).unwrap();
    assert_eq!(a.request_id.len(), 36);
    assert_eq!(b.request_id.len(), 36);
    assert_ne!(a.request_id, b.request_id);
}

fn demo_rows(id: &str) -> Vec<RequestRow> {
    vec![
        RequestRow {
            request_id: id.to_string(),
            product: "Thumper".to_string(),
            resource: "Iron Ore".to_string(),
            amount: 50,
            status: RowStatus::InProgress,
            thread_ref: "t".to_string(),
        },
        RequestRow {
            request_id: id.to_string(),
            product: "Thumper".to_string(),
            resource: "Spice Residue".to_string(),
            amount: 2,
            status: RowStatus::InProgress,
            thread_ref: "t".to_string(),
        },
        RequestRow {
            request_id: "other".to_string(),
            product: "Blade".to_string(),
            resource: "Iron Ore".to_string(),
            amount: 7,
            status: RowStatus::InProgress,
            thread_ref: "u".to_string(),
        },
    ]
}

#[test]
fn settlement_debits_exactly_the_requested_amounts() {
    let rows = demo_rows("req-1");
    let (product, requirements) = request_from_rows(&rows, &"req-1".to_string());
    assert_eq!(product, "Thumper");
    let inv = snapshot(&[("iron ore", 100), ("spice residue", 5)]);
    let debited = settle_inventory(&requirements, &inv).unwrap();
    assert_eq!(debited.stock_of(&"iron ore".to_string()), 50);
    assert_eq!(debited.stock_of(&"spice residue".to_string()), 3);
}

#[test]
fn settlement_is_all_or_nothing() {
    let rows = demo_rows("req-1");
    let (_, requirements) = request_from_rows(&rows, &"req-1".to_string());
    let inv = snapshot(&[("iron ore", 100), ("spice residue", 1)]);
    let r = settle_inventory(&requirements, &inv);
    assert_eq!(r.unwrap_err(), RequestError::InsufficientStock);
    // nothing was debited: the snapshot still holds its stock
    assert_eq!(inv.stock_of(&"iron ore".to_string()), 100);
    assert_eq!(inv.stock_of(&"spice residue".to_string()), 1);
}

#[test]
fn settling_twice_does_not_double_debit() {
    let rows = demo_rows("req-1");
    let id = "req-1".to_string();
    let (_, requirements) = request_from_rows(&rows, &id);
    let inv = snapshot(&[("iron ore", 100), ("spice residue", 5)]);
    let debited = settle_inventory(&requirements, &inv).unwrap();
    let marked = mark_rows_completed(&rows, &id);
    // second settlement: the marked rows demand nothing
    let (_, second_requirements) = request_from_rows(&marked, &id);
    let settled_again = settle_inventory(&second_requirements, &debited).unwrap();
    assert_eq!(settled_again.stock_of(&"iron ore".to_string()), 50);
    assert_eq!(settled_again.stock_of(&"spice residue".to_string()), 3);
}

#[test]
fn marking_completes_only_the_settled_request() {
    let rows = demo_rows("req-1");
    let marked = mark_rows_completed(&rows, &"req-1".to_string());
    assert_eq!(marked[0].status, RowStatus::Completed);
    assert_eq!(marked[1].status, RowStatus::Completed);
    assert_eq!(marked[2].status, RowStatus::InProgress);
    // a second marking changes nothing further
    let marked_again = mark_rows_completed(&marked, &"req-1".to_string());
    assert_eq!(marked_again[2].status, RowStatus::InProgress);
    assert_eq!(marked_again[0].status, RowStatus::Completed);
}

#[test]
fn duplicate_request_lines_overwrite_in_the_requirement_map() {
    let mut rows = demo_rows("req-1");
    rows.push(RequestRow {
        request_id: "req-1".to_string(),
        product: "Thumper".to_string(),
        resource: "Iron Ore".to_string(),
        amount: 10,
        status: RowStatus::InProgress,
        thread_ref: "t".to_string(),
    });
    let (_, requirements) = request_from_rows(&rows, &"req-1".to_string());
    assert_eq!(requirements.stock_of(&"iron ore".to_string()), 10);
}

#[test]
fn request_rows_coerce_from_cells() {
    let cells: Vec<Vec<String>> = vec![
        vec![
            "req-1".to_string(),
            "Thumper".to_string(),
            "Iron Ore".to_string(),
            "50".to_string(),
            "in_progress".to_string(),
            "t".to_string(),
        ],
        vec!["short".to_string(), "row".to_string()],
        vec![
            "req-1".to_string(),
            "Thumper".to_string(),
            "Water".to_string(),
            "bad".to_string(),
            "completed".to_string(),
        ],
    ];
    let rows = request_rows_from_cells(&cells);
    assert_eq!(rows.len(), 2);
    assert_eq!(rows[0].amount, 50);
    assert_eq!(rows[0].status, RowStatus::InProgress);
    assert_eq!(rows[0].thread_ref, "t");
    assert_eq!(rows[1].amount, 0);
    assert_eq!(rows[1].status, RowStatus::Completed);
    assert_eq!(rows[1].thread_ref, "");
}

#[test]
fn rows_and_cells_round_trip() {
    let rows = demo_rows("req-1");
    let cells = row_to_cells(&rows[0]);
    assert_eq!(
        cells,
        vec!["req-1", "Thumper", "Iron Ore", "50", "in_progress", "t"]
    );
    let back = request_rows_from_cells(&vec![cells]);
    assert_eq!(back.len(), 1);
    assert_eq!(back[0].amount, 50);
    assert_eq!(back[0].status, RowStatus::InProgress);
}

#[test]
fn inventory_rows_render_in_decimal() {
    let inv = snapshot(&[("iron ore", 0), ("water", 18446744073709551615)]);
    let out = inventory_to_rows(&inv);
    assert_eq!(out.len(), 2);
    assert_eq!(out[0], ("iron ore".to_string(), "0".to_string()));
    assert_eq!(out[1], ("water".to_string(), "18446744073709551615".to_string()));
}

#[test]
fn status_labels_round_trip() {
    assert_eq!(status_label(RowStatus::InProgress), "in_progress");
    assert_eq!(status_label(RowStatus::Completed), "completed");
    assert_eq!(read_status_cell(&"completed".to_string()), RowStatus::Completed);
    assert_eq!(read_status_cell(&"in_progress".to_string()), RowStatus::InProgress);
    assert_eq!(read_status_cell(&"anything else".to_string()), RowStatus::InProgress);
}

#[test]
fn action_tokens_split_prefix_and_id() {
    assert_eq!(
        action_token("request_update:abc-123", "request_update:"),
        Some("abc-123".to_string())
    );
    assert_eq!(
        action_token("request_complete:xyz", "request_complete:"),
        Some("xyz".to_string())
    );
    assert_eq!(action_token("request_update:abc", "request_complete:"), None);
    assert_eq!(action_token("short", "request_update:"), None);
    assert_eq!(action_token("request_update:", "request_update:"), Some(String::new()));
}

#[test]
fn error_kinds_describe_themselves() {
    assert_eq!(RequestError::AlreadyOpen.describe(), "already open");
    assert_eq!(RequestError::NoOpenRequest.describe(), "no open request");
    assert_eq!(RequestError::ParseError.describe(), "unparseable quantity");
    assert_eq!(RequestError::InsufficientStock.describe(), "insufficient stock");
    assert_eq!(RequestError::CollaboratorError.describe(), "collaborator failure");
}
