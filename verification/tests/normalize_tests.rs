use dune_ledger::normalize::normalize_resource_key;

#[test]
fn quoted_padded_name_equals_plain_lowercase() {
    assert_eq!(
        normalize_resource_key(" \"Water\" "),
        normalize_resource_key("water")
    );
    assert_eq!(normalize_resource_key(" \"Water\" "), "water");
}

#[test]
fn normalization_is_idempotent_on_samples() {
    let samples = [
        " \"Water\" ",
        "\u{a0}Iron Ore\u{a0}",
        "\"\"Spice  Residue\"\"",
        "already lower",
        "",
        "  \"  \"  ",
    ];
    for s in samples {
        let once = normalize_resource_key(s);
        let twice = normalize_resource_key(&once);
        assert_eq!(once, twice);
    }
}

#[test]
fn nonbreaking_spaces_become_ordinary_inside() {
    assert_eq!(normalize_resource_key("Iron\u{a0}Ore"), "iron ore");
}

#[test]
fn case_is_folded() {
    assert_eq!(normalize_resource_key("IRON ORE"), "iron ore");
    assert_eq!(normalize_resource_key("Iron Ore"), normalize_resource_key("iron ORE"));
}

#[test]
fn interior_quotes_survive() {
    assert_eq!(normalize_resource_key("a\"b"), "a\"b");
}

#[test]
fn all_marks_input_normalizes_to_empty() {
    assert_eq!(normalize_resource_key("  \"\" \u{a0} "), "");
}
