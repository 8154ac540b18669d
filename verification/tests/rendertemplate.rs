use staticimp::rendertemplate::{render, render_str, Render, SimpleParse, SimpleToken};

/// test SimpleParser parsing
#[test]
fn test_parse() {
    let mut tokens = "Hello World!".parse_simple();
    assert_eq!(tokens.next(), Some(SimpleToken::Literal("Hello World!")));
    assert_eq!(tokens.next(), None);

    let mut tokens = "{a}".parse_simple();
    assert_eq!(tokens.next(), Some(SimpleToken::Placeholder("a")));
    assert_eq!(tokens.next(), None);

    let mut tokens = "Hello {name}!".parse_simple();
    assert_eq!(tokens.next(), Some(SimpleToken::Literal("Hello ")));
    assert_eq!(tokens.next(), Some(SimpleToken::Placeholder("name")));
    assert_eq!(tokens.next(), Some(SimpleToken::Literal("!")));
    assert_eq!(tokens.next(), None);

    let mut tokens = "{a}{b}".parse_simple();
    assert_eq!(tokens.next(), Some(SimpleToken::Placeholder("a")));
    assert_eq!(tokens.next(), Some(SimpleToken::Placeholder("b")));
    assert_eq!(tokens.next(), None);
}

/// test render_str
#[test]
fn test_render_str_impl() {
    let template = "Hello {name}!";
    let context: Vec<(String, String)> = vec![("name".to_string(), "World".to_string())];
    let rendered: String = render_str(template, &context);
    assert_eq!(&rendered, "Hello World!");

    let context: Vec<(String, String)> = vec![("name".to_string(), "World".to_string())];
    let rendered: String = render(template, &context);
    assert_eq!(&rendered, "Hello World!");
}

/// Test the pair-list render impl
#[test]
fn test_hashmap_placeholder_render() {
    let template = "Hello {name}!";
    let context: Vec<(String, String)> = vec![("name".to_string(), "World".to_string())];

    assert_eq!(context.render("name"), Some("World".to_string()));

    let rendered: String = render_str(template, &context);
    assert_eq!(&rendered, "Hello World!");

    let context: Vec<(String, String)> =
        vec![("name".to_string(), "World".to_string())];
    assert_eq!(context.render("blah"), None);
}

/// An unknown placeholder collapses to nothing.
#[test]
fn unknown_placeholder_collapses() {
    let context: Vec<(String, String)> = Vec::new();
    let rendered: String = render_str("A{missing}B", &context);
    assert_eq!(&rendered, "AB");
}

/// An unterminated placeholder is dropped, not echoed.
#[test]
fn unterminated_placeholder_dropped() {
    let context: Vec<(String, String)> = Vec::new();
    let rendered: String = render_str("A{bc", &context);
    assert_eq!(&rendered, "A");
}

/// Adjacent placeholders render back to back.
#[test]
fn adjacent_placeholders() {
    let context: Vec<(String, String)> = vec![
        ("a".to_string(), "1".to_string()),
        ("b".to_string(), "2".to_string()),
    ];
    let rendered: String = render_str("{a}{b}", &context);
    assert_eq!(&rendered, "12");
}

/// An empty placeholder name is unknown, so it is dropped.
#[test]
fn empty_placeholder_name_dropped() {
    let context: Vec<(String, String)> = Vec::new();
    let rendered: String = render_str("A{}B", &context);
    assert_eq!(&rendered, "AB");
}

/// A closing brace without an opener is ordinary text.
#[test]
fn stray_closing_brace_is_literal() {
    let context: Vec<(String, String)> = Vec::new();
    let rendered: String = render_str("a}b", &context);
    assert_eq!(&rendered, "a}b");
}

/// The first matching key wins in a pair-list resolver.
#[test]
fn pair_list_first_match_wins() {
    let context: Vec<(String, String)> = vec![
        ("k".to_string(), "first".to_string()),
        ("k".to_string(), "second".to_string()),
    ];
    assert_eq!(context.render("k"), Some("first".to_string()));
}
