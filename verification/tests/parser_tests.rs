use dune_ledger::errors::RequestError;
use dune_ledger::parse::{
    parse_resources, parse_raw_items, preview_resources, convert_resources, parse_u64_cell,
    PreviewLine, WATER_PER_CORPSE,
};

fn pairs(v: &[(u64, &str)]) -> Vec<(u64, String)> {
    v.iter().map(|(a, n)| (*a, n.to_string())).collect()
}

#[test]
fn water_converts_at_forty_five_thousand_to_one() {
    let out = parse_resources("100 Iron Ore, 45000 Water").unwrap();
    assert_eq!(out, pairs(&[(100, "iron ore"), (1, "corpse")]));
}

#[test]
fn water_below_threshold_is_dropped_from_the_list() {
    let out = parse_resources("20000 Water").unwrap();
    assert!(out.is_empty());
}

#[test]
fn water_below_threshold_still_appears_in_the_preview() {
    let raw = parse_raw_items("20000 Water").unwrap();
    let preview = preview_resources(&raw);
    assert_eq!(
        preview,
        vec![PreviewLine::Converted { water: 20000, corpses: 0 }]
    );
}

#[test]
fn preview_shows_conversion_arithmetic() {
    let raw = parse_raw_items("100 Iron Ore, 90000 Water").unwrap();
    let preview = preview_resources(&raw);
    assert_eq!(
        preview,
        vec![
            PreviewLine::Plain { amount: 100, name: "iron ore".to_string() },
            PreviewLine::Converted { water: 90000, corpses: 2 },
        ]
    );
}

#[test]
fn water_conversion_drops_the_remainder() {
    let out = parse_resources("91000 Water").unwrap();
    assert_eq!(out, pairs(&[(2, "corpse")]));
    assert_eq!(WATER_PER_CORPSE, 45000);
}

#[test]
fn separators_and_bullets_are_sanitized() {
    let out = parse_resources("• 50 x Iron Ore\n- 2 x Spice Residue: extra").unwrap();
    assert_eq!(out, pairs(&[(50, "iron ore"), (2, "spice residue extra")]));
}

#[test]
fn thousands_separators_are_removed() {
    let out = parse_resources("1,500 Granite Stone").unwrap();
    assert_eq!(out, pairs(&[(1500, "granite stone")]));
}

#[test]
fn input_order_is_preserved_and_duplicates_kept() {
    let out = parse_resources("5 Copper Ore 3 Iron Ore 7 Copper Ore").unwrap();
    assert_eq!(out, pairs(&[(5, "copper ore"), (3, "iron ore"), (7, "copper ore")]));
}

#[test]
fn unmatched_text_yields_empty_list_not_error() {
    assert_eq!(parse_resources("no numbers here").unwrap(), vec![]);
    assert_eq!(parse_resources("").unwrap(), vec![]);
    assert_eq!(parse_resources("123 456").unwrap(), vec![]);
}

#[test]
fn overflowing_quantity_is_a_parse_error() {
    let r = parse_resources("99999999999999999999 Iron Ore");
    assert_eq!(r.unwrap_err(), RequestError::ParseError);
}

#[test]
fn overflow_in_a_later_fragment_fails_the_whole_parse() {
    let r = parse_resources("5 Copper Ore 99999999999999999999 Iron Ore");
    assert_eq!(r.unwrap_err(), RequestError::ParseError);
}

#[test]
fn digit_run_without_name_is_passed_over() {
    let out = parse_resources("100 45000 Water").unwrap();
    // the first run has no name; the second matches and converts
    assert_eq!(out, pairs(&[(1, "corpse")]));
}

#[test]
fn conversion_leaves_non_water_untouched() {
    let items = pairs(&[(7, "water jug"), (45000, "water")]);
    let out = convert_resources(&items);
    assert_eq!(out, pairs(&[(7, "water jug"), (1, "corpse")]));
}

#[test]
fn quantity_cells_parse_with_zero_default() {
    assert_eq!(parse_u64_cell(&" 42 ".to_string()), 42);
    assert_eq!(parse_u64_cell(&"0".to_string()), 0);
    assert_eq!(parse_u64_cell(&"".to_string()), 0);
    assert_eq!(parse_u64_cell(&"abc".to_string()), 0);
    assert_eq!(parse_u64_cell(&"12c".to_string()), 0);
    assert_eq!(parse_u64_cell(&"99999999999999999999".to_string()), 0);
    assert_eq!(parse_u64_cell(&"18446744073709551615".to_string()), u64::MAX);
}
