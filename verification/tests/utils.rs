use iguana::utils::{to_first_lowercase, to_first_uppercase, to_pascal_case, to_snake_case};

#[test]
fn test_to_snake_case() {
    assert_eq!(to_snake_case("camelCase"), "camel_case");
    assert_eq!(to_snake_case("PascalCase"), "pascal_case");
    assert_eq!(to_snake_case("A_B_C"), "a_b_c");
    assert_eq!(to_snake_case("aAbBcC"), "a_ab_bc_c");
    assert_eq!(to_snake_case("already_snake"), "already_snake");
    assert_eq!(to_snake_case("lowercase"), "lowercase");
    assert_eq!(to_snake_case(""), "");
    assert_eq!(to_snake_case("A"), "a");
    assert_eq!(to_snake_case("ABC"), "abc");
    assert_eq!(to_snake_case("WS"), "ws");
    assert_eq!(to_snake_case("HTMLParser"), "html_parser");
    assert_eq!(to_snake_case("LineComment"), "line_comment");
}

#[test]
fn test_to_pascal_case() {
    assert_eq!(to_pascal_case("foo_bar"), "FooBar");
    assert_eq!(to_pascal_case("foo-bar"), "FooBar");
    assert_eq!(to_pascal_case("foo_bar-baz"), "FooBarBaz");
    assert_eq!(to_pascal_case("__foo__"), "Foo");
    assert_eq!(to_pascal_case(""), "");
}

#[test]
fn first_letter_case_changes_only_the_first_letter() {
    assert_eq!(to_first_uppercase("fooBar"), "FooBar");
    assert_eq!(to_first_lowercase("FooBar"), "fooBar");
    assert_eq!(to_first_uppercase(""), "");
    assert_eq!(to_first_lowercase(""), "");
}

#[test]
fn snake_case_keeps_a_string_without_uppercase() {
    for s in ["", "abc", "a_b", "x1_y2", "ünïcode"] {
        assert_eq!(to_snake_case(s), s);
    }
}

#[test]
fn snake_case_only_lowercases_and_inserts_underscores() {
    for name in ["HTMLParser", "LineComment", "WS", "ab_CdEf", "Value2X"] {
        let snake = to_snake_case(name);
        assert!(!snake.chars().any(|c| c.is_ascii_uppercase()));
        let stripped: String = snake.chars().filter(|c| *c != '_').collect();
        let expected: String = name.to_ascii_lowercase().chars().filter(|c| *c != '_').collect();
        assert_eq!(stripped, expected);
    }
}

#[test]
fn snake_case_of_ascii_with_other_characters() {
    assert_eq!(to_snake_case("my-Rule name"), "my-_rule name");
    assert_eq!(to_snake_case("already-snake case"), "already-snake case");
    let snake = to_snake_case("HTTP-Server");
    assert!(!snake.chars().any(|c| c.is_ascii_uppercase()));
    assert_eq!(snake.replace('_', ""), "http-server");
}
