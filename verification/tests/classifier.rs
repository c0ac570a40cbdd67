use naming::classify::{get_naming_style, Naming};

#[test]
fn test_get_naming_style() {
    assert_eq!(get_naming_style("PascalCase"), Naming::Pascal);
    assert_eq!(get_naming_style("camelCase"), Naming::Camel);
    assert_eq!(get_naming_style("snake_case"), Naming::Snake);
    assert_eq!(get_naming_style("kebab-case"), Naming::Kebab);
    assert_eq!(get_naming_style("lower"), Naming::Lower);
    assert_eq!(get_naming_style("UPPER"), Naming::Upper);
    assert_eq!(get_naming_style("1234"), Naming::Unknown);
    assert_eq!(get_naming_style("forwardRef-component"), Naming::Unknown);
}

#[test]
fn test_pascal_needs_two_segments() {
    // A single capitalized word is not Pascal.
    assert_eq!(get_naming_style("Foo"), Naming::Unknown);
    assert_eq!(get_naming_style("Makefile"), Naming::Unknown);
    assert_eq!(get_naming_style("FooBar"), Naming::Pascal);
    assert_eq!(get_naming_style("FooBarBaz"), Naming::Pascal);
}

#[test]
fn test_camel_shapes() {
    assert_eq!(get_naming_style("fooBar"), Naming::Camel);
    assert_eq!(get_naming_style("fooBarBaz"), Naming::Camel);
    // A trailing bare uppercase letter leaves every pattern unmatched.
    assert_eq!(get_naming_style("fooB"), Naming::Unknown);
}

#[test]
fn test_separator_edge_cases() {
    assert_eq!(get_naming_style("foo_bar_baz"), Naming::Snake);
    assert_eq!(get_naming_style("foo-bar-baz"), Naming::Kebab);
    // Doubled, leading or trailing separators disqualify.
    assert_eq!(get_naming_style("foo__bar"), Naming::Unknown);
    assert_eq!(get_naming_style("_foo"), Naming::Unknown);
    assert_eq!(get_naming_style("foo_"), Naming::Unknown);
    // Mixed separators disqualify.
    assert_eq!(get_naming_style("foo_bar-baz"), Naming::Unknown);
}

#[test]
fn test_single_letters_and_digits() {
    assert_eq!(get_naming_style("a"), Naming::Lower);
    assert_eq!(get_naming_style("A"), Naming::Upper);
    assert_eq!(get_naming_style(""), Naming::Unknown);
    assert_eq!(get_naming_style("foo1"), Naming::Unknown);
    assert_eq!(get_naming_style("Foo1"), Naming::Unknown);
}

#[test]
fn test_style_labels() {
    assert_eq!(Naming::Pascal.label(), "Pascal");
    assert_eq!(Naming::Camel.label(), "Camel");
    assert_eq!(Naming::Snake.label(), "Snake");
    assert_eq!(Naming::Kebab.label(), "Kebab");
    assert_eq!(Naming::Lower.label(), "Lower");
    assert_eq!(Naming::Upper.label(), "Upper");
    assert_eq!(Naming::Unknown.label(), "Unknown");
}
