use sweet::token::{Key, KeyAttribute, Modifier};
use sweet::{
    binding_parser, mode_parser, parse_key, unbind_parser, unescape, Binding, Definition,
    DefinitionUncompiled, Node, ParseError, RangeFault, Rule, Span,
};

fn node(rule: Rule, text: &str, children: Vec<Node>) -> Node {
    Node::new(rule, text, Span { start: 0, end: text.len() }, children)
}

fn leaf(rule: Rule, text: &str) -> Node {
    node(rule, text, vec![])
}

fn at(rule: Rule, text: &str, start: usize, end: usize, children: Vec<Node>) -> Node {
    Node::new(rule, text, Span { start, end }, children)
}

fn key_normal(key: &str) -> Node {
    node(Rule::KeyNormal, key, vec![leaf(Rule::KeyBase, key)])
}

fn key_in_shorthand(key: &str) -> Node {
    node(Rule::KeyInShorthand, key, vec![leaf(Rule::KeyBase, key)])
}

fn modifiers(names: &[&str]) -> Node {
    node(
        Rule::ModifierShorthand,
        &format!("{{{}}}", names.join(",")),
        names.iter().map(|name| leaf(Rule::Modifier, name)).collect(),
    )
}

fn range(rule: Rule, lower: &str, upper: &str) -> Node {
    node(
        rule,
        &format!("{}-{}", lower, upper),
        vec![leaf(Rule::Other, lower), leaf(Rule::Other, upper)],
    )
}

fn literal(text: &str) -> Node {
    leaf(Rule::CommandStandalone, text)
}

fn alternatives(items: Vec<Node>) -> Node {
    node(Rule::CommandShorthand, "{..}", items)
}

fn component(text: &str) -> Node {
    leaf(Rule::CommandComponent, text)
}

fn command(fragments: Vec<Node>) -> Node {
    node(Rule::Command, "", fragments)
}

fn binding(children: Vec<Node>) -> Node {
    at(Rule::Binding, "", 3, 42, children)
}

fn plain(key: &str) -> Key {
    Key { key: key.to_string(), attribute: KeyAttribute::Neither }
}

fn definition(modifiers: &[&str], key: &str) -> Definition {
    Definition {
        modifiers: modifiers.iter().map(|m| Modifier(m.to_string())).collect(),
        key: plain(key),
    }
}

fn bound(modifiers: &[&str], key: &str, command: &str) -> Binding {
    Binding { definition: definition(modifiers, key), command: command.to_string() }
}

#[test]
fn plain_key_gives_one_definition_without_modifiers() {
    let defs = unbind_parser(&node(Rule::Unbind, "ignore q", vec![key_normal("q")])).unwrap();
    assert_eq!(defs, vec![definition(&[], "q")]);
}

#[test]
fn modifier_shorthand_gives_one_definition_per_alternative_in_order() {
    let declaration = node(
        Rule::Unbind,
        "ignore {super,alt,shift} + a",
        vec![modifiers(&["super", "alt", "shift"]), key_normal("a")],
    );
    let defs = unbind_parser(&declaration).unwrap();
    assert_eq!(
        defs,
        vec![definition(&["super"], "a"), definition(&["alt"], "a"), definition(&["shift"], "a")]
    );
}

#[test]
fn slots_multiply_with_the_last_slot_fastest_and_keys_fastest_of_all() {
    let declaration = node(
        Rule::Unbind,
        "ignore {ctrl,alt} + {shift,super} + {x,y}",
        vec![
            modifiers(&["ctrl", "alt"]),
            modifiers(&["shift", "super"]),
            node(Rule::Shorthand, "{x,y}", vec![key_in_shorthand("x"), key_in_shorthand("y")]),
        ],
    );
    let defs = unbind_parser(&declaration).unwrap();
    assert_eq!(
        defs,
        vec![
            definition(&["ctrl", "shift"], "x"),
            definition(&["ctrl", "shift"], "y"),
            definition(&["ctrl", "super"], "x"),
            definition(&["ctrl", "super"], "y"),
            definition(&["alt", "shift"], "x"),
            definition(&["alt", "shift"], "y"),
            definition(&["alt", "super"], "x"),
            definition(&["alt", "super"], "y"),
        ]
    );
}

#[test]
fn three_slots_of_different_widths_keep_lexicographic_order() {
    let mut uncompiled = DefinitionUncompiled::default();
    uncompiled.ingest(&modifiers(&["a", "b"])).unwrap();
    uncompiled.ingest(&leaf(Rule::Modifier, "m")).unwrap();
    uncompiled.ingest(&modifiers(&["x", "y", "z"])).unwrap();
    uncompiled.ingest(&key_normal("k")).unwrap();
    assert_eq!(uncompiled.variants(), Some(6));
    let defs = uncompiled.compile();
    assert_eq!(
        defs,
        vec![
            definition(&["a", "m", "x"], "k"),
            definition(&["a", "m", "y"], "k"),
            definition(&["a", "m", "z"], "k"),
            definition(&["b", "m", "x"], "k"),
            definition(&["b", "m", "y"], "k"),
            definition(&["b", "m", "z"], "k"),
        ]
    );
}

#[test]
fn single_modifier_is_a_slot_of_one() {
    let mut uncompiled = DefinitionUncompiled::default();
    uncompiled.ingest(&leaf(Rule::Modifier, "super")).unwrap();
    assert_eq!(uncompiled.modifiers, vec![vec![Modifier("super".to_string())]]);
    assert!(uncompiled.keys.is_empty());
}

#[test]
fn omit_shorthand_is_a_slot_of_all_it_names() {
    let mut uncompiled = DefinitionUncompiled::default();
    let group = node(
        Rule::ModifierOmitShorthand,
        "{_,shift}",
        vec![leaf(Rule::Other, "_"), leaf(Rule::Modifier, "shift")],
    );
    uncompiled.ingest(&group).unwrap();
    assert_eq!(
        uncompiled.modifiers,
        vec![vec![Modifier("_".to_string()), Modifier("shift".to_string())]]
    );
}

#[test]
fn unknown_component_changes_nothing() {
    let mut uncompiled = DefinitionUncompiled::default();
    uncompiled.ingest(&leaf(Rule::Other, "whatever")).unwrap();
    uncompiled.ingest(&command(vec![literal("ls")])).unwrap();
    assert!(uncompiled.modifiers.is_empty());
    assert!(uncompiled.keys.is_empty());
}

#[test]
fn modifiers_without_a_key_give_no_definition() {
    let mut uncompiled = DefinitionUncompiled::default();
    uncompiled.ingest(&modifiers(&["super", "alt"])).unwrap();
    assert_eq!(uncompiled.variants(), Some(0));
    assert_eq!(uncompiled.compile(), vec![]);
}

#[test]
fn empty_slot_gives_no_definition() {
    let mut uncompiled = DefinitionUncompiled::default();
    uncompiled.ingest(&modifiers(&[])).unwrap();
    uncompiled.ingest(&key_normal("a")).unwrap();
    assert_eq!(uncompiled.variants(), Some(0));
    assert_eq!(uncompiled.compile(), vec![]);
}

#[test]
fn nothing_ingested_gives_no_definition() {
    let uncompiled = DefinitionUncompiled::default();
    assert_eq!(uncompiled.variants(), Some(0));
    assert_eq!(uncompiled.compile(), vec![]);
}

#[test]
fn key_range_expands_to_every_character_in_order() {
    let declaration = node(
        Rule::Unbind,
        "ignore {a-c}",
        vec![node(Rule::Shorthand, "{a-c}", vec![range(Rule::KeyRange, "a", "c")])],
    );
    let defs = unbind_parser(&declaration).unwrap();
    assert_eq!(defs, vec![definition(&[], "a"), definition(&[], "b"), definition(&[], "c")]);
    for d in defs.iter() {
        assert_eq!(d.key.attribute, KeyAttribute::Neither);
    }
}

#[test]
fn key_shorthand_mixes_keys_and_ranges_in_the_order_written() {
    let mut uncompiled = DefinitionUncompiled::default();
    let shorthand = node(
        Rule::Shorthand,
        "{z,1-3,q}",
        vec![
            key_in_shorthand("z"),
            leaf(Rule::Other, ","),
            range(Rule::KeyRange, "1", "3"),
            key_in_shorthand("q"),
        ],
    );
    uncompiled.ingest(&shorthand).unwrap();
    assert_eq!(uncompiled.keys, vec![plain("z"), plain("1"), plain("2"), plain("3"), plain("q")]);
}

#[test]
fn range_of_two_neighbours_has_two_characters() {
    let mut uncompiled = DefinitionUncompiled::default();
    let shorthand = node(Rule::Shorthand, "{y-z}", vec![range(Rule::KeyRange, "y", "z")]);
    uncompiled.ingest(&shorthand).unwrap();
    assert_eq!(uncompiled.keys, vec![plain("y"), plain("z")]);
}

#[test]
fn range_over_the_whole_of_ascii() {
    let mut uncompiled = DefinitionUncompiled::default();
    let shorthand =
        node(Rule::Shorthand, "", vec![range(Rule::KeyRange, "\u{0}", "\u{7f}")]);
    uncompiled.ingest(&shorthand).unwrap();
    assert_eq!(uncompiled.keys.len(), 128);
    assert_eq!(uncompiled.keys[0], plain("\u{0}"));
    assert_eq!(uncompiled.keys[65], plain("A"));
    assert_eq!(uncompiled.keys[127], plain("\u{7f}"));
}

fn range_failure(lower: &str, upper: &str) -> ParseError {
    let bad = at(
        Rule::KeyRange,
        "",
        7,
        10,
        vec![leaf(Rule::Other, lower), leaf(Rule::Other, upper)],
    );
    let declaration =
        node(Rule::Unbind, "", vec![node(Rule::Shorthand, "", vec![key_in_shorthand("k"), bad])]);
    unbind_parser(&declaration).unwrap_err()
}

#[test]
fn inverted_range_fails() {
    assert_eq!(
        range_failure("c", "a"),
        ParseError::RangeBounds { fault: RangeFault::Inverted, span: Span { start: 7, end: 10 } }
    );
}

#[test]
fn range_of_one_character_fails() {
    assert_eq!(
        range_failure("a", "a"),
        ParseError::RangeBounds { fault: RangeFault::Inverted, span: Span { start: 7, end: 10 } }
    );
}

#[test]
fn range_outside_ascii_fails() {
    assert_eq!(
        range_failure("a", "\u{e9}"),
        ParseError::RangeBounds { fault: RangeFault::NotAscii, span: Span { start: 7, end: 10 } }
    );
    assert_eq!(
        range_failure("\u{80}", "\u{81}"),
        ParseError::RangeBounds { fault: RangeFault::NotAscii, span: Span { start: 7, end: 10 } }
    );
}

#[test]
fn range_with_longer_or_empty_endpoint_fails() {
    assert_eq!(
        range_failure("ab", "c"),
        ParseError::RangeBounds { fault: RangeFault::Malformed, span: Span { start: 7, end: 10 } }
    );
    assert_eq!(
        range_failure("a", ""),
        ParseError::RangeBounds { fault: RangeFault::Malformed, span: Span { start: 7, end: 10 } }
    );
}

#[test]
fn range_without_two_endpoints_fails() {
    let bad = at(Rule::KeyRange, "a-", 1, 3, vec![leaf(Rule::Other, "a")]);
    let declaration = node(Rule::Unbind, "", vec![node(Rule::Shorthand, "", vec![bad])]);
    assert_eq!(
        unbind_parser(&declaration).unwrap_err(),
        ParseError::RangeBounds { fault: RangeFault::Malformed, span: Span { start: 1, end: 3 } }
    );
}

#[test]
fn failed_ingest_leaves_the_accumulator_as_it_was() {
    let mut uncompiled = DefinitionUncompiled::default();
    uncompiled.ingest(&key_normal("a")).unwrap();
    let shorthand = node(
        Rule::Shorthand,
        "",
        vec![key_in_shorthand("b"), range(Rule::KeyRange, "9", "1")],
    );
    assert!(uncompiled.ingest(&shorthand).is_err());
    assert_eq!(uncompiled.keys, vec![plain("a")]);
}

#[test]
fn key_markers_set_the_flags() {
    let send = node(Rule::KeyNormal, "~a", vec![leaf(Rule::Send, "~"), leaf(Rule::KeyBase, "a")]);
    assert_eq!(parse_key(&send), Key { key: "a".to_string(), attribute: KeyAttribute::Send });
    let release =
        node(Rule::KeyNormal, "@a", vec![leaf(Rule::OnRelease, "@"), leaf(Rule::KeyBase, "a")]);
    assert_eq!(
        parse_key(&release),
        Key { key: "a".to_string(), attribute: KeyAttribute::OnRelease }
    );
    let both = node(
        Rule::KeyNormal,
        "@~a",
        vec![leaf(Rule::OnRelease, "@"), leaf(Rule::Send, "~"), leaf(Rule::KeyBase, "a")],
    );
    assert_eq!(parse_key(&both), Key { key: "a".to_string(), attribute: KeyAttribute::Both });
    let neither = node(Rule::KeyNormal, "a", vec![leaf(Rule::KeyBase, "a")]);
    assert_eq!(parse_key(&neither), plain("a"));
}

#[test]
fn key_text_is_unescaped() {
    let escaped = node(Rule::KeyInShorthand, "\\,", vec![leaf(Rule::ShorthandAllow, "\\,")]);
    assert_eq!(parse_key(&escaped), plain(","));
}

#[test]
fn key_without_a_name_has_empty_text() {
    let bare = node(Rule::KeyNormal, "~", vec![leaf(Rule::Send, "~")]);
    assert_eq!(parse_key(&bare), Key { key: String::new(), attribute: KeyAttribute::Send });
}

#[test]
fn flags_combine() {
    assert_eq!(KeyAttribute::Neither.union(KeyAttribute::Neither), KeyAttribute::Neither);
    assert_eq!(KeyAttribute::Neither.union(KeyAttribute::Send), KeyAttribute::Send);
    assert_eq!(KeyAttribute::Send.union(KeyAttribute::OnRelease), KeyAttribute::Both);
    assert_eq!(KeyAttribute::OnRelease.union(KeyAttribute::OnRelease), KeyAttribute::OnRelease);
    assert_eq!(KeyAttribute::Both.union(KeyAttribute::Neither), KeyAttribute::Both);
    assert!(KeyAttribute::Both.has_send() && KeyAttribute::Both.has_on_release());
    assert!(KeyAttribute::Send.has_send() && !KeyAttribute::Send.has_on_release());
    assert!(!KeyAttribute::OnRelease.has_send() && KeyAttribute::OnRelease.has_on_release());
    assert!(!KeyAttribute::Neither.has_send() && !KeyAttribute::Neither.has_on_release());
}

#[test]
fn unescape_strips_the_backslash_of_an_escape() {
    for special in ["{", "}", ",", "\\", "-", "+", "~", "@"] {
        let escaped = format!("\\{}", special);
        assert_eq!(unescape(&escaped), special);
    }
}

#[test]
fn unescape_leaves_other_text_alone() {
    assert_eq!(unescape("a"), "a");
    assert_eq!(unescape(""), "");
    assert_eq!(unescape("\\"), "\\");
    assert_eq!(unescape("\\a"), "\\a");
    assert_eq!(unescape("\\\u{e9}"), "\\\u{e9}");
    assert_eq!(unescape("\\{x"), "\\{x");
    assert_eq!(unescape("x\\{"), "x\\{");
    assert_eq!(unescape("+"), "+");
    assert_eq!(unescape("Return"), "Return");
}

#[test]
fn variants_pair_by_position() {
    let declaration = binding(vec![
        modifiers(&["a", "b"]),
        key_normal("x"),
        command(vec![literal("cmd-"), alternatives(vec![component("1"), component("2")])]),
    ]);
    assert_eq!(
        binding_parser(&declaration).unwrap(),
        vec![bound(&["a"], "x", "cmd-1"), bound(&["b"], "x", "cmd-2")]
    );
}

#[test]
fn different_counts_fail_with_both_counts() {
    let declaration = binding(vec![
        modifiers(&["a", "b", "c"]),
        key_normal("x"),
        command(vec![literal("cmd-"), alternatives(vec![component("1"), component("2")])]),
    ]);
    assert_eq!(
        binding_parser(&declaration).unwrap_err(),
        ParseError::VariantMismatch { bindings: 3, commands: 2, span: Span { start: 3, end: 42 } }
    );
}

#[test]
fn binding_without_a_key_fails_against_its_command() {
    let declaration = binding(vec![leaf(Rule::Modifier, "super"), command(vec![literal("ls")])]);
    assert_eq!(
        binding_parser(&declaration).unwrap_err(),
        ParseError::VariantMismatch { bindings: 0, commands: 1, span: Span { start: 3, end: 42 } }
    );
}

#[test]
fn binding_without_a_command_node_has_the_one_empty_command() {
    let declaration = binding(vec![key_normal("x")]);
    assert_eq!(binding_parser(&declaration).unwrap(), vec![bound(&[], "x", "")]);
}

#[test]
fn two_keys_against_one_command_fail() {
    let declaration = binding(vec![
        leaf(Rule::Modifier, "shift"),
        key_normal("k"),
        key_normal("m"),
        command(vec![literal("notify-send 'Hello world!'")]),
    ]);
    assert_eq!(
        binding_parser(&declaration).unwrap_err(),
        ParseError::VariantMismatch { bindings: 2, commands: 1, span: Span { start: 3, end: 42 } }
    );
}

#[test]
fn command_fragments_multiply_and_join_without_separator() {
    let declaration = binding(vec![
        node(
            Rule::Shorthand,
            "{1-4}",
            vec![range(Rule::KeyRange, "1", "4")],
        ),
        command(vec![
            literal("a"),
            alternatives(vec![component("1"), component("2")]),
            literal("b"),
            alternatives(vec![component("x"), component("y")]),
        ]),
    ]);
    assert_eq!(
        binding_parser(&declaration).unwrap(),
        vec![
            bound(&[], "1", "a1bx"),
            bound(&[], "2", "a1by"),
            bound(&[], "3", "a2bx"),
            bound(&[], "4", "a2by"),
        ]
    );
}

#[test]
fn command_range_expands_in_step_with_key_range() {
    let declaration = binding(vec![
        leaf(Rule::Modifier, "super"),
        node(Rule::Shorthand, "{1-3}", vec![range(Rule::KeyRange, "1", "3")]),
        command(vec![
            literal("workspace "),
            alternatives(vec![range(Rule::Range, "7", "9")]),
        ]),
    ]);
    assert_eq!(
        binding_parser(&declaration).unwrap(),
        vec![
            bound(&["super"], "1", "workspace 7"),
            bound(&["super"], "2", "workspace 8"),
            bound(&["super"], "3", "workspace 9"),
        ]
    );
}

#[test]
fn command_shorthand_mixes_components_and_ranges() {
    let declaration = binding(vec![
        node(Rule::Shorthand, "{a-e}", vec![range(Rule::KeyRange, "a", "e")]),
        command(vec![alternatives(vec![
            component("first"),
            range(Rule::Range, "x", "z"),
            component("last"),
        ])]),
    ]);
    let commands: Vec<String> =
        binding_parser(&declaration).unwrap().into_iter().map(|b| b.command).collect();
    assert_eq!(commands, vec!["first", "x", "y", "z", "last"]);
}

#[test]
fn command_range_failure_is_located() {
    let bad = at(
        Rule::Range,
        "5-2",
        20,
        23,
        vec![leaf(Rule::Other, "5"), leaf(Rule::Other, "2")],
    );
    let declaration =
        binding(vec![key_normal("x"), command(vec![alternatives(vec![component("a"), bad])])]);
    assert_eq!(
        binding_parser(&declaration).unwrap_err(),
        ParseError::RangeBounds { fault: RangeFault::Inverted, span: Span { start: 20, end: 23 } }
    );
}

#[test]
fn first_failure_in_source_order_wins() {
    let bad_key = at(Rule::KeyRange, "", 1, 2, vec![leaf(Rule::Other, "z"), leaf(Rule::Other, "a")]);
    let bad_command =
        at(Rule::Range, "", 8, 9, vec![leaf(Rule::Other, "\u{e9}"), leaf(Rule::Other, "z")]);
    let trigger_first = binding(vec![
        node(Rule::Shorthand, "", vec![bad_key]),
        command(vec![alternatives(vec![bad_command])]),
    ]);
    assert_eq!(
        binding_parser(&trigger_first).unwrap_err(),
        ParseError::RangeBounds { fault: RangeFault::Inverted, span: Span { start: 1, end: 2 } }
    );
    let bad_key = at(Rule::KeyRange, "", 1, 2, vec![leaf(Rule::Other, "z"), leaf(Rule::Other, "a")]);
    let bad_command =
        at(Rule::Range, "", 8, 9, vec![leaf(Rule::Other, "\u{e9}"), leaf(Rule::Other, "z")]);
    let command_first = binding(vec![
        command(vec![alternatives(vec![bad_command])]),
        node(Rule::Shorthand, "", vec![bad_key]),
    ]);
    assert_eq!(
        binding_parser(&command_first).unwrap_err(),
        ParseError::RangeBounds { fault: RangeFault::NotAscii, span: Span { start: 8, end: 9 } }
    );
}

#[test]
fn empty_command_shorthand_gives_no_command() {
    let declaration = binding(vec![key_normal("x"), command(vec![alternatives(vec![])])]);
    assert_eq!(
        binding_parser(&declaration).unwrap_err(),
        ParseError::VariantMismatch { bindings: 1, commands: 0, span: Span { start: 3, end: 42 } }
    );
}

#[test]
fn nothing_against_nothing_binds_nothing() {
    let declaration = binding(vec![modifiers(&[]), key_normal("x"), command(vec![alternatives(vec![])])]);
    assert_eq!(binding_parser(&declaration).unwrap(), vec![]);
}

#[test]
fn more_variants_than_can_be_counted_fail() {
    let mut children: Vec<Node> = Vec::new();
    for _ in 0..usize::BITS {
        children.push(modifiers(&["a", "b"]));
    }
    children.push(key_normal("x"));
    children.push(command(vec![literal("ls")]));
    assert_eq!(
        binding_parser(&binding(children)).unwrap_err(),
        ParseError::VariantLimit { span: Span { start: 3, end: 42 } }
    );
}

#[test]
fn more_commands_than_can_be_counted_fail() {
    let mut fragments: Vec<Node> = Vec::new();
    for _ in 0..usize::BITS {
        fragments.push(alternatives(vec![component("0"), component("1")]));
    }
    let declaration = binding(vec![key_normal("x"), command(fragments)]);
    assert_eq!(
        binding_parser(&declaration).unwrap_err(),
        ParseError::VariantLimit { span: Span { start: 3, end: 42 } }
    );
}

#[test]
fn uncountable_unbind_fails_and_says_so_beforehand() {
    let mut children: Vec<Node> = Vec::new();
    let mut uncompiled = DefinitionUncompiled::default();
    for _ in 0..usize::BITS {
        children.push(modifiers(&["a", "b"]));
        uncompiled.ingest(&modifiers(&["a", "b"])).unwrap();
    }
    children.push(key_normal("x"));
    uncompiled.ingest(&key_normal("x")).unwrap();
    assert_eq!(uncompiled.variants(), None);
    assert_eq!(
        unbind_parser(&at(Rule::Unbind, "", 5, 9, children)).unwrap_err(),
        ParseError::VariantLimit { span: Span { start: 5, end: 9 } }
    );
}

#[test]
fn a_wide_slot_beside_an_empty_one_counts_as_nothing() {
    let mut uncompiled = DefinitionUncompiled::default();
    for _ in 0..usize::BITS {
        uncompiled.ingest(&modifiers(&["a", "b"])).unwrap();
    }
    uncompiled.ingest(&modifiers(&[])).unwrap();
    uncompiled.ingest(&key_normal("x")).unwrap();
    assert_eq!(uncompiled.variants(), Some(0));
    assert_eq!(uncompiled.compile(), vec![]);
}

#[test]
fn mode_takes_name_flags_bindings_and_unbinds() {
    let declaration = node(
        Rule::Mode,
        "",
        vec![
            leaf(Rule::ModeName, "resize"),
            leaf(Rule::Swallow, "swallow"),
            binding(vec![key_normal("h"), command(vec![literal("shrink")])]),
            node(Rule::Unbind, "", vec![leaf(Rule::Modifier, "super"), key_normal("q")]),
            binding(vec![key_normal("l"), command(vec![literal("grow")])]),
        ],
    );
    let mode = mode_parser(&declaration).unwrap();
    assert_eq!(mode.name, "resize");
    assert!(!mode.oneoff);
    assert!(mode.swallow);
    assert_eq!(mode.bindings, vec![bound(&[], "h", "shrink"), bound(&[], "l", "grow")]);
    assert_eq!(mode.unbinds, vec![definition(&["super"], "q")]);
}

#[test]
fn mode_flags_default_to_off_and_oneoff_sets_its_own() {
    let bare = mode_parser(&node(Rule::Mode, "", vec![])).unwrap();
    assert_eq!(bare.name, "");
    assert!(!bare.oneoff && !bare.swallow);
    assert!(bare.bindings.is_empty() && bare.unbinds.is_empty());
    let oneoff = mode_parser(&node(
        Rule::Mode,
        "",
        vec![leaf(Rule::ModeName, "launch"), leaf(Rule::Oneoff, "oneoff")],
    ))
    .unwrap();
    assert!(oneoff.oneoff && !oneoff.swallow);
    let both = mode_parser(&node(
        Rule::Mode,
        "",
        vec![leaf(Rule::Oneoff, "oneoff"), leaf(Rule::Swallow, "swallow")],
    ))
    .unwrap();
    assert!(both.oneoff && both.swallow);
}

#[test]
fn mode_fails_where_a_binding_inside_it_fails() {
    let declaration = node(
        Rule::Mode,
        "",
        vec![
            leaf(Rule::ModeName, "m"),
            binding(vec![
                modifiers(&["a", "b"]),
                key_normal("x"),
                command(vec![literal("one")]),
            ]),
        ],
    );
    assert_eq!(
        mode_parser(&declaration).unwrap_err(),
        ParseError::VariantMismatch { bindings: 2, commands: 1, span: Span { start: 3, end: 42 } }
    );
}
