use dune_ledger::inventory::Inventory;
use dune_ledger::rows::{RowStatus, RequestRow};
use dune_ledger::submission::{
    eq_ignore_case, resource_is_known, credit_stock, advance_requests, contains_ignore_case,
};

fn snapshot(entries: &[(&str, u64)]) -> Inventory {
    let mut inv = Inventory::new();
    for (name, amount) in entries {
        inv.set_stock(name.to_string(), *amount);
    }
    inv
}

#[test]
fn case_insensitive_equality() {
    assert!(eq_ignore_case(&"Iron Ore".to_string(), &"IRON ore".to_string()));
    assert!(!eq_ignore_case(&"Iron Ore".to_string(), &"Iron  Ore".to_string()));
    assert!(!eq_ignore_case(&"Iron".to_string(), &"Iron Ore".to_string()));
}

#[test]
fn substring_search_ignores_case() {
    assert!(contains_ignore_case(&"Iron Ore".to_string(), &"ron o".to_string()));
    assert!(contains_ignore_case(&"Iron Ore".to_string(), &"IRON".to_string()));
    assert!(contains_ignore_case(&"Iron Ore".to_string(), &"".to_string()));
    assert!(!contains_ignore_case(&"Iron Ore".to_string(), &"copper".to_string()));
    assert!(!contains_ignore_case(&"Ore".to_string(), &"Iron Ore".to_string()));
}

#[test]
fn catalog_lookup_ignores_case() {
    let catalog: Vec<String> =
        vec!["Iron Ore".to_string(), "Spice Residue".to_string(), "Corpse".to_string()];
    assert!(resource_is_known(&catalog, &"iron ORE".to_string()));
    assert!(!resource_is_known(&catalog, &"Melange".to_string()));
}

#[test]
fn crediting_adds_to_existing_stock() {
    let mut inv = snapshot(&[("iron ore", 10)]);
    credit_stock(&mut inv, &"Iron Ore".to_string(), 5);
    assert_eq!(inv.stock_of(&"iron ore".to_string()), 15);
}

#[test]
fn crediting_an_unknown_resource_creates_its_entry() {
    let mut inv = snapshot(&[]);
    credit_stock(&mut inv, &" \"Water\" ".to_string(), 3);
    assert_eq!(inv.stock_of(&"water".to_string()), 3);
    assert!(inv.contains_key(&"water".to_string()));
}

#[test]
fn crediting_saturates_instead_of_overflowing() {
    let mut inv = snapshot(&[("iron ore", u64::MAX - 1)]);
    credit_stock(&mut inv, &"iron ore".to_string(), 5);
    assert_eq!(inv.stock_of(&"iron ore".to_string()), u64::MAX);
}

fn open_row(id: &str, product: &str, resource: &str, amount: u64) -> RequestRow {
    RequestRow {
        request_id: id.to_string(),
        product: product.to_string(),
        resource: resource.to_string(),
        amount,
        status: RowStatus::InProgress,
        thread_ref: "t".to_string(),
    }
}

#[test]
fn stock_is_distributed_over_rows_in_order() {
    let rows = vec![
        open_row("r1", "Thumper", "Iron Ore", 30),
        open_row("r2", "Blade", "Iron Ore", 30),
        open_row("r3", "Suit", "Plant Fiber", 10),
    ];
    let inv = snapshot(&[("iron ore", 40)]);
    let (updated, left, progress) = advance_requests(&rows, &"Iron Ore".to_string(), &inv);
    // the first row is fully covered, the second takes what is left
    assert_eq!(updated[0].amount, 0);
    assert_eq!(updated[1].amount, 20);
    assert_eq!(updated[2].amount, 10);
    assert_eq!(left.stock_of(&"iron ore".to_string()), 0);
    assert_eq!(progress.len(), 2);
    assert_eq!(progress[0].product, "Thumper");
    assert!(progress[0].covered);
    assert_eq!(progress[0].amount, 30);
    assert_eq!(progress[1].product, "Blade");
    assert!(!progress[1].covered);
    assert_eq!(progress[1].amount, 20);
}

#[test]
fn leftover_stock_stays_on_the_ledger() {
    let rows = vec![open_row("r1", "Thumper", "Iron Ore", 30)];
    let inv = snapshot(&[("iron ore", 100), ("water", 7)]);
    let (updated, left, progress) = advance_requests(&rows, &"Iron Ore".to_string(), &inv);
    assert_eq!(updated[0].amount, 0);
    assert_eq!(left.stock_of(&"iron ore".to_string()), 70);
    assert_eq!(left.stock_of(&"water".to_string()), 7);
    assert_eq!(progress.len(), 1);
}

#[test]
fn completed_rows_are_not_touched_by_submissions() {
    let mut row = open_row("r1", "Thumper", "Iron Ore", 30);
    row.status = RowStatus::Completed;
    let rows = vec![row];
    let inv = snapshot(&[("iron ore", 100)]);
    let (updated, left, progress) = advance_requests(&rows, &"Iron Ore".to_string(), &inv);
    assert_eq!(updated[0].amount, 30);
    assert_eq!(left.stock_of(&"iron ore".to_string()), 100);
    assert!(progress.is_empty());
}
