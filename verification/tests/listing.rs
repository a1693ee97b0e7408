use sweet::listing::{binding_parser, extract_trigger, parse_command_shorthand, unbind_parser, Token};
use sweet::{Node, ParseError, RangeFault, Rule, Span};

fn node(rule: Rule, text: &str, children: Vec<Node>) -> Node {
    Node::new(rule, text, Span { start: 1, end: 1 + text.len() }, children)
}

fn leaf(rule: Rule, text: &str) -> Node {
    node(rule, text, vec![])
}

fn range(rule: Rule, lower: &str, upper: &str) -> Node {
    node(rule, "", vec![leaf(Rule::Other, lower), leaf(Rule::Other, upper)])
}

fn modifier(text: &str) -> Token {
    Token::Modifier(text.to_string())
}

fn key(text: &str) -> Token {
    Token::Key(text.to_string())
}

fn command(text: &str) -> Token {
    Token::Command(text.to_string())
}

#[test]
fn a_modifier_is_one_modifier_token() {
    assert_eq!(extract_trigger(&leaf(Rule::Modifier, "super")).unwrap(), vec![modifier("super")]);
}

#[test]
fn a_modifier_shorthand_is_a_token_per_alternative() {
    let shorthand = node(
        Rule::ModifierShorthand,
        "{ctrl,alt}",
        vec![leaf(Rule::Modifier, "ctrl"), leaf(Rule::Modifier, "alt")],
    );
    assert_eq!(extract_trigger(&shorthand).unwrap(), vec![modifier("ctrl"), modifier("alt")]);
    let omit = node(
        Rule::ModifierOmitShorthand,
        "{_,shift}",
        vec![leaf(Rule::Other, "_"), leaf(Rule::Modifier, "shift")],
    );
    assert_eq!(extract_trigger(&omit).unwrap(), vec![modifier("_"), modifier("shift")]);
}

#[test]
fn a_key_is_a_key_token_with_its_text_as_written() {
    let plain = node(Rule::KeyNormal, "~\\+", vec![leaf(Rule::Send, "~"), leaf(Rule::ShorthandAllow, "\\+")]);
    assert_eq!(extract_trigger(&plain).unwrap(), vec![key("~\\+")]);
}

#[test]
fn a_key_shorthand_lists_keys_and_ranges() {
    let shorthand = node(
        Rule::Shorthand,
        "{q,a-c}",
        vec![leaf(Rule::KeyInShorthand, "q"), range(Rule::KeyRange, "a", "c")],
    );
    assert_eq!(extract_trigger(&shorthand).unwrap(), vec![key("q"), key("a"), key("b"), key("c")]);
}

#[test]
fn any_other_component_is_no_token() {
    assert_eq!(extract_trigger(&leaf(Rule::Other, "x")).unwrap(), vec![]);
    assert_eq!(extract_trigger(&leaf(Rule::Command, "ls")).unwrap(), vec![]);
}

#[test]
fn a_bad_range_in_a_key_shorthand_fails() {
    let shorthand = node(Rule::Shorthand, "", vec![range(Rule::KeyRange, "b", "a")]);
    assert_eq!(
        extract_trigger(&shorthand).unwrap_err(),
        ParseError::RangeBounds { fault: RangeFault::Inverted, span: Span { start: 1, end: 1 } }
    );
}

#[test]
fn a_command_shorthand_lists_components_and_ranges() {
    let shorthand = node(
        Rule::CommandShorthand,
        "",
        vec![leaf(Rule::CommandComponent, "ls"), range(Rule::Range, "1", "3")],
    );
    assert_eq!(
        parse_command_shorthand(&shorthand).unwrap(),
        vec![command("ls"), command("1"), command("2"), command("3")]
    );
    let bad = node(Rule::CommandShorthand, "", vec![range(Rule::Range, "x", "\u{2192}")]);
    assert_eq!(
        parse_command_shorthand(&bad).unwrap_err(),
        ParseError::RangeBounds { fault: RangeFault::NotAscii, span: Span { start: 1, end: 1 } }
    );
}

#[test]
fn an_unbind_multiplies_all_its_components() {
    let declaration = node(
        Rule::Unbind,
        "",
        vec![
            node(
                Rule::ModifierShorthand,
                "",
                vec![leaf(Rule::Modifier, "ctrl"), leaf(Rule::Modifier, "alt")],
            ),
            leaf(Rule::Modifier, "shift"),
            node(
                Rule::Shorthand,
                "",
                vec![leaf(Rule::KeyInShorthand, "x"), leaf(Rule::KeyInShorthand, "y")],
            ),
        ],
    );
    assert_eq!(
        unbind_parser(&declaration).unwrap(),
        vec![
            vec![modifier("ctrl"), modifier("shift"), key("x")],
            vec![modifier("ctrl"), modifier("shift"), key("y")],
            vec![modifier("alt"), modifier("shift"), key("x")],
            vec![modifier("alt"), modifier("shift"), key("y")],
        ]
    );
}

#[test]
fn an_unbind_with_a_component_that_is_no_token_has_no_row() {
    let declaration = node(Rule::Unbind, "", vec![leaf(Rule::KeyNormal, "x"), leaf(Rule::Other, "?")]);
    assert_eq!(unbind_parser(&declaration).unwrap(), Vec::<Vec<Token>>::new());
}

#[test]
fn an_unbind_without_components_has_the_one_empty_row() {
    assert_eq!(unbind_parser(&node(Rule::Unbind, "", vec![])).unwrap(), vec![Vec::<Token>::new()]);
}

#[test]
fn a_binding_pairs_its_rows_by_position() {
    let declaration = node(
        Rule::Binding,
        "",
        vec![
            leaf(Rule::Modifier, "super"),
            leaf(Rule::Other, "+"),
            node(Rule::Shorthand, "", vec![range(Rule::KeyRange, "1", "2")]),
            node(
                Rule::Command,
                "",
                vec![
                    leaf(Rule::CommandStandalone, "go "),
                    node(
                        Rule::CommandShorthand,
                        "",
                        vec![leaf(Rule::CommandComponent, "left"), leaf(Rule::CommandComponent, "right")],
                    ),
                ],
            ),
        ],
    );
    assert_eq!(
        binding_parser(&declaration).unwrap(),
        vec![
            (vec![modifier("super"), key("1")], vec![command("go "), command("left")]),
            (vec![modifier("super"), key("2")], vec![command("go "), command("right")]),
        ]
    );
}

#[test]
fn a_binding_with_different_counts_fails() {
    let declaration = node(
        Rule::Binding,
        "abc",
        vec![
            node(Rule::Shorthand, "", vec![range(Rule::KeyRange, "1", "3")]),
            node(Rule::Command, "", vec![leaf(Rule::CommandStandalone, "ls")]),
        ],
    );
    assert_eq!(
        binding_parser(&declaration).unwrap_err(),
        ParseError::VariantMismatch { bindings: 3, commands: 1, span: Span { start: 1, end: 4 } }
    );
}

#[test]
fn a_binding_of_nothing_pairs_the_two_empty_rows() {
    assert_eq!(
        binding_parser(&node(Rule::Binding, "", vec![])).unwrap(),
        vec![(Vec::<Token>::new(), Vec::<Token>::new())]
    );
}

#[test]
fn a_binding_with_too_many_rows_fails() {
    let mut children = Vec::new();
    for _ in 0..usize::BITS {
        children.push(node(
            Rule::ModifierShorthand,
            "",
            vec![leaf(Rule::Modifier, "a"), leaf(Rule::Modifier, "b")],
        ));
    }
    let declaration = node(Rule::Binding, "", children);
    assert_eq!(
        binding_parser(&declaration).unwrap_err(),
        ParseError::VariantLimit { span: Span { start: 1, end: 1 } }
    );
    let mut children = Vec::new();
    for _ in 0..usize::BITS {
        children.push(node(
            Rule::ModifierShorthand,
            "",
            vec![leaf(Rule::Modifier, "a"), leaf(Rule::Modifier, "b")],
        ));
    }
    assert_eq!(
        unbind_parser(&node(Rule::Unbind, "", children)).unwrap_err(),
        ParseError::VariantLimit { span: Span { start: 1, end: 1 } }
    );
}
