use schema_store::{alphanumeric_filter, Tainted};

#[test]
fn single_alphanumeric_passes() {
    assert_eq!(alphanumeric_filter(String::from("a")), "a");
    assert_eq!(alphanumeric_filter(String::from("Z")), "Z");
    assert_eq!(alphanumeric_filter(String::from("7")), "7");
}

#[test]
fn everything_else_fails_closed() {
    // the filter returns the neutral value, never the raw input
    assert_eq!(alphanumeric_filter(String::from("!")), "");
    assert_eq!(alphanumeric_filter(String::from("ab")), "");
    assert_eq!(alphanumeric_filter(String::from("")), "");
    assert_eq!(alphanumeric_filter(String::from("a b")), "");
    assert_eq!(alphanumeric_filter(String::from("ü")), "");
    assert_eq!(alphanumeric_filter(String::from("'; drop")), "");
}

#[test]
fn tainted_resolves_through_its_filter() {
    let safe = Tainted::new(String::from("x"), alphanumeric_filter).safe();
    assert_eq!(safe, "x");

    let scrubbed = Tainted::new(String::from("<script>"), alphanumeric_filter).safe();
    assert_eq!(scrubbed, "");
}
