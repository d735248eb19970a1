use dune_ledger::inventory::Inventory;
use dune_ledger::reconcile::compute_completed_remaining;
use dune_ledger::rows::inventory_from_rows;

fn pairs(v: &[(u64, &str)]) -> Vec<(u64, String)> {
    v.iter().map(|(a, n)| (*a, n.to_string())).collect()
}

fn snapshot(entries: &[(&str, u64)]) -> Inventory {
    let mut inv = Inventory::new();
    for (name, amount) in entries {
        inv.set_stock(name.to_string(), *amount);
    }
    inv
}

#[test]
fn exact_stock_counts_as_completed() {
    let resources = pairs(&[(10, "iron ore")]);
    let inv = snapshot(&[("iron ore", 10)]);
    let (completed, remaining) = compute_completed_remaining(&resources, &inv);
    assert_eq!(completed, pairs(&[(10, "iron ore")]));
    assert_eq!(remaining, vec![]);
}

#[test]
fn shortfall_is_reported_not_the_request() {
    let resources = pairs(&[(10, "iron ore")]);
    let inv = snapshot(&[("iron ore", 4)]);
    let (completed, remaining) = compute_completed_remaining(&resources, &inv);
    assert_eq!(completed, vec![]);
    assert_eq!(remaining, pairs(&[(6, "iron ore")]));
}

#[test]
fn missing_key_counts_as_zero_stock() {
    let resources = pairs(&[(3, "opafire gem")]);
    let inv = snapshot(&[("iron ore", 100)]);
    let (completed, remaining) = compute_completed_remaining(&resources, &inv);
    assert_eq!(completed, vec![]);
    assert_eq!(remaining, pairs(&[(3, "opafire gem")]));
}

#[test]
fn lines_are_judged_independently_against_one_snapshot() {
    // two lines for the same resource both see the same unmutated stock
    let resources = pairs(&[(6, "iron ore"), (6, "iron ore")]);
    let inv = snapshot(&[("iron ore", 10)]);
    let (completed, remaining) = compute_completed_remaining(&resources, &inv);
    assert_eq!(completed, pairs(&[(6, "iron ore"), (6, "iron ore")]));
    assert_eq!(remaining, vec![]);
}

#[test]
fn names_are_normalized_before_lookup() {
    let resources = pairs(&[(5, " \"Iron Ore\" ")]);
    let inv = snapshot(&[("iron ore", 5)]);
    let (completed, remaining) = compute_completed_remaining(&resources, &inv);
    assert_eq!(completed, pairs(&[(5, " \"Iron Ore\" ")]));
    assert_eq!(remaining, vec![]);
}

#[test]
fn snapshot_ops_behave_like_a_map() {
    let mut inv = Inventory::new();
    assert_eq!(inv.stock_of(&"iron ore".to_string()), 0);
    assert!(!inv.contains_key(&"iron ore".to_string()));
    inv.set_stock("iron ore".to_string(), 7);
    assert_eq!(inv.stock_of(&"iron ore".to_string()), 7);
    assert!(inv.contains_key(&"iron ore".to_string()));
    inv.set_stock("iron ore".to_string(), 2);
    assert_eq!(inv.stock_of(&"iron ore".to_string()), 2);
    assert_eq!(inv.len(), 1);
}

#[test]
fn inventory_rows_coerce_and_overwrite() {
    let rows: Vec<Vec<String>> = vec![
        vec!["\"Iron Ore\"".to_string(), "10".to_string()],
        vec!["short row".to_string()],
        vec!["Water".to_string(), " 3 ".to_string()],
        vec!["IRON ORE".to_string(), "25".to_string()],
        vec!["Bad Amount".to_string(), "x".to_string()],
    ];
    let inv = inventory_from_rows(&rows);
    assert_eq!(inv.stock_of(&"iron ore".to_string()), 25);
    assert_eq!(inv.stock_of(&"water".to_string()), 3);
    assert_eq!(inv.stock_of(&"bad amount".to_string()), 0);
    assert!(inv.contains_key(&"bad amount".to_string()));
    assert!(!inv.contains_key(&"short row".to_string()));
}
