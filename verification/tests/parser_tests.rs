use hanzi_store::parser::parse_decomposition;

#[test]
fn operator_then_two_components() {
    // An "above-below" operator followed by two literal components yields
    // exactly those components, in order.
    let r = parse_decomposition("\u{2FF1}\u{4E00}\u{53E3}");
    assert_eq!(r, vec!["\u{4E00}".to_string(), "\u{53E3}".to_string()]);
}

#[test]
fn empty_input_yields_empty_list() {
    let r = parse_decomposition("");
    assert!(r.is_empty());
}

#[test]
fn operator_only_input_yields_empty_list() {
    let r = parse_decomposition("\u{2FF0}\u{2FF1}\u{2FFB}");
    assert!(r.is_empty());
}

#[test]
fn duplicates_are_kept_in_order() {
    let r = parse_decomposition("\u{2FF0}\u{53E3}\u{53E3}");
    assert_eq!(r, vec!["\u{53E3}".to_string(), "\u{53E3}".to_string()]);
}

#[test]
fn non_ideographic_text_passes_through() {
    let r = parse_decomposition("ab");
    assert_eq!(r, vec!["a".to_string(), "b".to_string()]);
}

#[test]
fn operator_block_boundaries() {
    // U+2FF0 and U+2FFB are operators; U+2FEF and U+2FFC are not.
    let r = parse_decomposition("\u{2FEF}\u{2FF0}\u{2FFB}\u{2FFC}");
    assert_eq!(r, vec!["\u{2FEF}".to_string(), "\u{2FFC}".to_string()]);
}
