use sweet::token::{Key, KeyAttribute};
use sweet::{
    import_parser, Binding, Definition, Node, ParseError, ParserInput, RangeFault, Rule,
    SourceFile, Span, SwhkdParser,
};

fn node(rule: Rule, text: &str, children: Vec<Node>) -> Node {
    Node::new(rule, text, Span { start: 0, end: text.len() }, children)
}

fn leaf(rule: Rule, text: &str) -> Node {
    node(rule, text, vec![])
}

fn keybind(key: &str, command: &str) -> Node {
    node(
        Rule::Binding,
        "",
        vec![
            node(Rule::KeyNormal, key, vec![leaf(Rule::KeyBase, key)]),
            node(Rule::Command, command, vec![leaf(Rule::CommandStandalone, command)]),
        ],
    )
}

fn unbind(key: &str) -> Node {
    node(Rule::Unbind, "", vec![node(Rule::KeyNormal, key, vec![leaf(Rule::KeyBase, key)])])
}

fn mode(name: &str, children: Vec<Node>) -> Node {
    let mut all = vec![leaf(Rule::ModeName, name)];
    all.extend(children);
    node(Rule::Mode, "", all)
}

fn imports(paths: &[&str]) -> Node {
    node(Rule::Import, "", paths.iter().map(|p| leaf(Rule::ImportFile, p)).collect())
}

fn text(declarations: Vec<Node>) -> Result<Vec<Node>, String> {
    let mut children = declarations;
    children.push(leaf(Rule::EndOfInput, ""));
    Ok(vec![node(Rule::Main, "", children)])
}

fn file(path: &str, declarations: Vec<Node>) -> SourceFile {
    SourceFile { path: path.to_string(), parsed: text(declarations) }
}

fn commands(parser: &SwhkdParser) -> Vec<&str> {
    parser.bindings.iter().map(|b| b.command.as_str()).collect()
}

fn binding(key: &str, command: &str) -> Binding {
    Binding {
        definition: Definition {
            modifiers: vec![],
            key: Key { key: key.to_string(), attribute: KeyAttribute::Neither },
        },
        command: command.to_string(),
    }
}

#[test]
fn import_parser_takes_the_file_names_in_order() {
    let declaration = node(
        Rule::Import,
        "import b a",
        vec![leaf(Rule::ImportFile, "b"), leaf(Rule::Other, " "), leaf(Rule::ImportFile, "a")],
    );
    assert_eq!(import_parser(&declaration), vec!["b".to_string(), "a".to_string()]);
    assert!(import_parser(&node(Rule::Import, "", vec![])).is_empty());
}

#[test]
fn text_without_imports_has_no_imports() {
    let root = text(vec![keybind("a", "one"), unbind("q"), mode("m", vec![keybind("b", "two")])]);
    let parser = SwhkdParser::from(ParserInput::Raw(&root), &vec![]).unwrap();
    assert_eq!(parser.bindings, vec![binding("a", "one")]);
    assert_eq!(parser.unbinds.len(), 1);
    assert_eq!(parser.modes.len(), 1);
    assert_eq!(parser.modes[0].name, "m");
    assert_eq!(parser.modes[0].bindings, vec![binding("b", "two")]);
    assert!(parser.imports.is_empty());
}

#[test]
fn empty_text_compiles_to_nothing() {
    let root = text(vec![]);
    let parser = SwhkdParser::from(ParserInput::Raw(&root), &vec![]).unwrap();
    assert!(parser.bindings.is_empty());
    assert!(parser.unbinds.is_empty());
    assert!(parser.modes.is_empty());
    assert!(parser.imports.is_empty());
}

#[test]
fn tags_that_are_no_declaration_are_passed_over() {
    let root = text(vec![leaf(Rule::Other, "?"), keybind("a", "one"), leaf(Rule::KeyNormal, "x")]);
    let parser = SwhkdParser::from(ParserInput::Raw(&root), &vec![]).unwrap();
    assert_eq!(commands(&parser), vec!["one"]);
}

#[test]
fn only_the_first_section_counts() {
    let root: Result<Vec<Node>, String> = Ok(vec![
        node(Rule::Main, "", vec![keybind("a", "first")]),
        node(Rule::Main, "", vec![keybind("b", "second")]),
    ]);
    let parser = SwhkdParser::from(ParserInput::Raw(&root), &vec![]).unwrap();
    assert_eq!(commands(&parser), vec!["first"]);
}

#[test]
fn text_without_a_section_fails() {
    let root: Result<Vec<Node>, String> = Ok(vec![]);
    assert_eq!(
        SwhkdParser::from(ParserInput::Raw(&root), &vec![]).unwrap_err(),
        ParseError::MainSection
    );
}

#[test]
fn rejected_text_fails_with_the_report_and_the_anonymous_name() {
    let root: Result<Vec<Node>, String> = Err("expected key".to_string());
    assert_eq!(
        SwhkdParser::from(ParserInput::Raw(&root), &vec![]).unwrap_err(),
        ParseError::Grammar { message: "expected key".to_string(), path: "<anonymous>".to_string() }
    );
}

#[test]
fn imports_are_merged_behind_the_root_in_ascending_order_of_paths() {
    let root = text(vec![imports(&["b.conf"]), keybind("r", "root"), imports(&["a.conf"])]);
    let sources = vec![
        file("b.conf", vec![keybind("b", "from-b")]),
        file("a.conf", vec![keybind("a", "from-a")]),
    ];
    let parser = SwhkdParser::from(ParserInput::Raw(&root), &sources).unwrap();
    assert_eq!(commands(&parser), vec!["root", "from-a", "from-b"]);
    assert_eq!(parser.imports, vec!["a.conf".to_string(), "b.conf".to_string()]);
}

#[test]
fn a_file_named_twice_is_taken_in_once() {
    let root = text(vec![imports(&["a", "a"]), imports(&["a"])]);
    let sources = vec![file("a", vec![keybind("a", "from-a")])];
    let parser = SwhkdParser::from(ParserInput::Raw(&root), &sources).unwrap();
    assert_eq!(commands(&parser), vec!["from-a"]);
    assert_eq!(parser.imports, vec!["a".to_string()]);
}

#[test]
fn imports_of_a_file_come_right_behind_it() {
    let root = text(vec![imports(&["b", "a"]), keybind("r", "root")]);
    let sources = vec![
        file("a", vec![imports(&["z", "c"]), keybind("a", "from-a")]),
        file("b", vec![keybind("b", "from-b")]),
        file("c", vec![keybind("c", "from-c")]),
        file("z", vec![keybind("z", "from-z")]),
    ];
    let parser = SwhkdParser::from(ParserInput::Raw(&root), &sources).unwrap();
    assert_eq!(commands(&parser), vec!["root", "from-a", "from-c", "from-z", "from-b"]);
    assert_eq!(
        parser.imports,
        vec!["a".to_string(), "b".to_string(), "c".to_string(), "z".to_string()]
    );
}

#[test]
fn a_file_reached_twice_is_merged_where_it_is_reached_first() {
    let root = text(vec![imports(&["a", "b"])]);
    let sources = vec![
        file("a", vec![imports(&["shared"]), keybind("a", "from-a")]),
        file("b", vec![imports(&["shared"]), keybind("b", "from-b")]),
        file("shared", vec![keybind("s", "from-shared")]),
    ];
    let parser = SwhkdParser::from(ParserInput::Raw(&root), &sources).unwrap();
    assert_eq!(commands(&parser), vec!["from-a", "from-shared", "from-b"]);
    assert_eq!(parser.imports, vec!["a".to_string(), "b".to_string(), "shared".to_string()]);
}

#[test]
fn files_that_import_each_other_are_each_merged_once() {
    let root = text(vec![imports(&["A"])]);
    let sources = vec![
        file("A", vec![imports(&["B"]), keybind("a", "from-A")]),
        file("B", vec![imports(&["A"]), keybind("b", "from-B")]),
    ];
    let parser = SwhkdParser::from(ParserInput::Raw(&root), &sources).unwrap();
    assert_eq!(parser.bindings, vec![binding("a", "from-A"), binding("b", "from-B")]);
    assert_eq!(parser.imports, vec!["A".to_string(), "B".to_string()]);
}

#[test]
fn a_file_that_imports_itself_is_merged_once() {
    let root = text(vec![imports(&["A"])]);
    let sources = vec![file("A", vec![imports(&["A"]), keybind("a", "from-A")])];
    let parser = SwhkdParser::from(ParserInput::Raw(&root), &sources).unwrap();
    assert_eq!(commands(&parser), vec!["from-A"]);
    assert_eq!(parser.imports, vec!["A".to_string()]);
}

#[test]
fn a_root_given_by_path_is_merged_again_where_an_import_names_it() {
    let sources = vec![
        file("A", vec![imports(&["B"]), keybind("a", "from-A")]),
        file("B", vec![imports(&["A"]), keybind("b", "from-B")]),
    ];
    let parser = SwhkdParser::from(ParserInput::Path("A"), &sources).unwrap();
    assert_eq!(commands(&parser), vec!["from-A", "from-B", "from-A"]);
    assert_eq!(parser.imports, vec!["A".to_string(), "B".to_string()]);
}

#[test]
fn a_root_given_by_path_that_nothing_imports_is_no_import() {
    let sources = vec![
        file("lib", vec![keybind("l", "from-lib")]),
        file("main", vec![imports(&["lib"]), keybind("m", "from-main")]),
    ];
    let parser = SwhkdParser::from(ParserInput::Path("main"), &sources).unwrap();
    assert_eq!(commands(&parser), vec!["from-main", "from-lib"]);
    assert_eq!(parser.imports, vec!["lib".to_string()]);
}

#[test]
fn unbinds_and_modes_of_imports_are_merged_too() {
    let root = text(vec![imports(&["a"]), unbind("r"), mode("root", vec![])]);
    let sources = vec![file("a", vec![unbind("a"), mode("inner", vec![keybind("i", "in")])])];
    let parser = SwhkdParser::from(ParserInput::Raw(&root), &sources).unwrap();
    let unbound: Vec<&str> = parser.unbinds.iter().map(|d| d.key.key.as_str()).collect();
    assert_eq!(unbound, vec!["r", "a"]);
    let modes: Vec<&str> = parser.modes.iter().map(|m| m.name.as_str()).collect();
    assert_eq!(modes, vec!["root", "inner"]);
    assert_eq!(parser.modes[1].bindings, vec![binding("i", "in")]);
}

#[test]
fn paths_are_ordered_by_code_point() {
    let root = text(vec![imports(&["b", "B", "ab", "a", "\u{e9}", "a/b", "a.b", ""])]);
    let mut sources = Vec::new();
    for path in ["b", "B", "ab", "a", "\u{e9}", "a/b", "a.b", ""] {
        sources.push(file(path, vec![keybind("k", path)]));
    }
    let parser = SwhkdParser::from(ParserInput::Raw(&root), &sources).unwrap();
    let mut expected: Vec<String> =
        ["b", "B", "ab", "a", "\u{e9}", "a/b", "a.b", ""].iter().map(|p| p.to_string()).collect();
    expected.sort();
    assert_eq!(parser.imports, expected);
    assert_eq!(commands(&parser), vec!["", "B", "a", "a.b", "a/b", "ab", "b", "\u{e9}"]);
}

#[test]
fn a_path_without_a_file_fails_as_unreadable() {
    let root = text(vec![imports(&["missing"])]);
    assert_eq!(
        SwhkdParser::from(ParserInput::Raw(&root), &vec![]).unwrap_err(),
        ParseError::ReadingConfig { path: "missing".to_string() }
    );
    assert_eq!(
        SwhkdParser::from(ParserInput::Path("nowhere"), &vec![]).unwrap_err(),
        ParseError::ReadingConfig { path: "nowhere".to_string() }
    );
}

#[test]
fn a_missing_file_deep_in_the_imports_fails_the_whole() {
    let root = text(vec![imports(&["a"]), keybind("r", "root")]);
    let sources = vec![file("a", vec![imports(&["b"])]), file("b", vec![imports(&["c"])])];
    assert_eq!(
        SwhkdParser::from(ParserInput::Raw(&root), &sources).unwrap_err(),
        ParseError::ReadingConfig { path: "c".to_string() }
    );
}

#[test]
fn a_rejected_import_fails_with_its_path() {
    let root = text(vec![imports(&["bad"])]);
    let sources =
        vec![SourceFile { path: "bad".to_string(), parsed: Err("line 3: expected command".to_string()) }];
    assert_eq!(
        SwhkdParser::from(ParserInput::Raw(&root), &sources).unwrap_err(),
        ParseError::Grammar {
            message: "line 3: expected command".to_string(),
            path: "bad".to_string()
        }
    );
}

#[test]
fn an_import_without_a_section_fails() {
    let root = text(vec![imports(&["hollow"])]);
    let sources = vec![SourceFile { path: "hollow".to_string(), parsed: Ok(vec![]) }];
    assert_eq!(
        SwhkdParser::from(ParserInput::Raw(&root), &sources).unwrap_err(),
        ParseError::MainSection
    );
}

#[test]
fn the_first_source_that_fails_in_the_order_taken_gives_the_failure() {
    let bad_range = Node::new(
        Rule::KeyRange,
        "9-1",
        Span { start: 4, end: 7 },
        vec![leaf(Rule::Other, "9"), leaf(Rule::Other, "1")],
    );
    let broken =
        node(Rule::Unbind, "", vec![node(Rule::Shorthand, "", vec![bad_range])]);
    let root = text(vec![imports(&["z", "m"])]);
    let sources = vec![
        SourceFile { path: "z".to_string(), parsed: Err("no".to_string()) },
        file("m", vec![imports(&["a"])]),
        file("a", vec![broken]),
    ];
    assert_eq!(
        SwhkdParser::from(ParserInput::Raw(&root), &sources).unwrap_err(),
        ParseError::RangeBounds { fault: RangeFault::Inverted, span: Span { start: 4, end: 7 } }
    );
}

#[test]
fn a_failure_in_the_root_comes_before_any_import() {
    let root = text(vec![
        imports(&["missing"]),
        node(Rule::Binding, "", vec![leaf(Rule::Modifier, "super"), node(Rule::Command, "", vec![])]),
    ]);
    assert_eq!(
        SwhkdParser::from(ParserInput::Raw(&root), &vec![]).unwrap_err(),
        ParseError::VariantMismatch { bindings: 0, commands: 1, span: Span { start: 0, end: 0 } }
    );
}

#[test]
fn of_two_files_under_one_path_the_first_is_read() {
    let root = text(vec![imports(&["twice"])]);
    let sources =
        vec![file("twice", vec![keybind("a", "first")]), file("twice", vec![keybind("b", "second")])];
    let parser = SwhkdParser::from(ParserInput::Raw(&root), &sources).unwrap();
    assert_eq!(commands(&parser), vec!["first"]);
}

#[test]
fn files_that_nothing_imports_are_left_out() {
    let root = text(vec![keybind("r", "root")]);
    let sources = vec![
        file("idle", vec![keybind("i", "idle")]),
        SourceFile { path: "broken".to_string(), parsed: Err("no".to_string()) },
    ];
    let parser = SwhkdParser::from(ParserInput::Raw(&root), &sources).unwrap();
    assert_eq!(commands(&parser), vec!["root"]);
    assert!(parser.imports.is_empty());
}
