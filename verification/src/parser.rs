//! The root compiler: the declarations of one source, and the sources it
//! imports, each taken in once, merged into one configuration.
//!
//! Reading files and matching text against the grammar happen outside. The
//! compiler is handed what came of them: for the input and for every file, the
//! sections the grammar found or its report of a mismatch. A path without an
//! entry among the sources is a file that cannot be read.

use crate::binding::{binding_parser, bound, Binding, BindingView};
use crate::definition::{unbind_parser, unbound, Definition, DefinitionView};
use crate::error::{Failure, ParseError};
use crate::mode::{mode_of, mode_parser, Mode, ModeView};
use crate::paths::{increasing, insert_sorted, inserted, inserted_all, lemma_inserted};
use crate::syntax::{lemma_take_step, Node, Rule, Tree};
use vstd::prelude::*;

verus! {

/// What a compiled configuration stands for in contracts.
pub struct Config {
    pub bindings: Seq<BindingView>,
    pub unbinds: Seq<DefinitionView>,
    pub imports: Seq<Seq<char>>,
    pub modes: Seq<ModeView>,
}

/// A compiled configuration: the bindings and unbinds outside any mode, the
/// paths of all files imported, in ascending order, and the modes.
#[derive(Debug)]
pub struct SwhkdParser {
    pub bindings: Vec<Binding>,
    pub unbinds: Vec<Definition>,
    pub imports: Vec<String>,
    pub modes: Vec<Mode>,
}

impl SwhkdParser {
    /// Whether the imports are in ascending order, none repeated.
    pub open spec fn wf(&self) -> bool {
        increasing(self.imports.deep_view())
    }
}

impl View for SwhkdParser {
    type V = Config;

    open spec fn view(&self) -> Config {
        Config {
            bindings: self.bindings.deep_view(),
            unbinds: self.unbinds.deep_view(),
            imports: self.imports.deep_view(),
            modes: self.modes.deep_view(),
        }
    }
}

/// What came of matching a text against the grammar, in contracts: the
/// top-level sections, or the grammar's report.
pub type Parse = Result<Seq<Tree>, Seq<char>>;

/// What came of matching a text against the grammar.
pub open spec fn parse_view(parsed: Result<Vec<Node>, String>) -> Parse {
    match parsed {
        Ok(sections) => Ok(sections.deep_view()),
        Err(message) => Err(message@),
    }
}

/// What a source file stands for in contracts.
pub struct Source {
    pub path: Seq<char>,
    pub parsed: Parse,
}

/// A file that was read, under the path by which imports name it, with what
/// came of matching its text against the grammar: the top-level sections, or
/// the grammar's report.
#[derive(Debug)]
pub struct SourceFile {
    pub path: String,
    pub parsed: Result<Vec<Node>, String>,
}

impl View for SourceFile {
    type V = Source;

    open spec fn view(&self) -> Source {
        Source { path: self.path@, parsed: parse_view(self.parsed) }
    }
}

impl DeepView for SourceFile {
    type V = Source;

    open spec fn deep_view(&self) -> Source {
        self@
    }
}

/// What a parser input stands for in contracts.
pub enum Input {
    Raw(Parse),
    Path(Seq<char>),
}

/// What to compile: inline text, as the grammar matched it, or the path of
/// one of the source files.
pub enum ParserInput<'a> {
    Raw(&'a Result<Vec<Node>, String>),
    Path(&'a str),
}

impl<'a> View for ParserInput<'a> {
    type V = Input;

    open spec fn view(&self) -> Input {
        match *self {
            ParserInput::Raw(parsed) => Input::Raw(parse_view(*parsed)),
            ParserInput::Path(path) => Input::Path(path@),
        }
    }
}

/// The name under which inline text is reported.
pub open spec fn anonymous() -> Seq<char> {
    "<anonymous>"@
}

/// The configuration with nothing in it.
pub open spec fn vacant() -> Config {
    Config {
        bindings: Seq::empty(),
        unbinds: Seq::empty(),
        imports: Seq::empty(),
        modes: Seq::empty(),
    }
}

/// The paths an import declaration names, in the order written.
pub open spec fn import_paths(nodes: Seq<Tree>) -> Seq<Seq<char>>
    decreases nodes.len(),
{
    if nodes.len() == 0 {
        Seq::empty()
    } else if nodes.last().rule == Rule::ImportFile {
        import_paths(nodes.drop_last()).push(nodes.last().text)
    } else {
        import_paths(nodes.drop_last())
    }
}

/// The configuration after one more top-level declaration: a binding, an
/// unbind or a mode adds what it compiles to, an import puts its paths among
/// the imports, anything else changes nothing.
pub open spec fn declared(acc: Config, declaration: Tree) -> Result<Config, Failure> {
    match declaration.rule {
        Rule::Binding => match bound(declaration) {
            Ok(bindings) => Ok(Config { bindings: acc.bindings + bindings, ..acc }),
            Err(e) => Err(e),
        },
        Rule::Unbind => match unbound(declaration) {
            Ok(unbinds) => Ok(Config { unbinds: acc.unbinds + unbinds, ..acc }),
            Err(e) => Err(e),
        },
        Rule::Mode => match mode_of(declaration.children) {
            Ok(mode) => Ok(Config { modes: acc.modes.push(mode), ..acc }),
            Err(e) => Err(e),
        },
        Rule::Import => Ok(
            Config {
                imports: inserted_all(acc.imports, import_paths(declaration.children)),
                ..acc
            },
        ),
        _ => Ok(acc),
    }
}

/// The configuration after the declarations in order, from the vacant one
/// on; the first failure ends it.
pub open spec fn declared_all(declarations: Seq<Tree>) -> Result<Config, Failure>
    decreases declarations.len(),
{
    if declarations.len() == 0 {
        Ok(vacant())
    } else {
        match declared_all(declarations.drop_last()) {
            Err(e) => Err(e),
            Ok(acc) => declared(acc, declarations.last()),
        }
    }
}

/// What one source declares by itself, its imports not followed: a text the
/// grammar rejected fails with the grammar's report and the source's name, a
/// text without a section fails, otherwise the first section's declarations
/// are compiled.
pub open spec fn content_of(parsed: Parse, name: Seq<char>) -> Result<Config, Failure> {
    match parsed {
        Err(message) => Err(Failure::Grammar { message, path: name }),
        Ok(sections) => if sections.len() == 0 {
            Err(Failure::MainSection)
        } else {
            declared_all(sections[0].children)
        },
    }
}

/// The first source file under the path.
pub open spec fn lookup(sources: Seq<Source>, path: Seq<char>) -> Option<Source>
    decreases sources.len(),
{
    if sources.len() == 0 {
        None
    } else {
        match lookup(sources.drop_last(), path) {
            Some(source) => Some(source),
            None => if sources.last().path == path {
                Some(sources.last())
            } else {
                None
            },
        }
    }
}

/// What the file under a path declares by itself; a path without a file
/// cannot be read.
pub open spec fn loaded(sources: Seq<Source>, path: Seq<char>) -> Result<Config, Failure> {
    match lookup(sources, path) {
        None => Err(Failure::ReadingConfig { path }),
        Some(source) => content_of(source.parsed, path),
    }
}

/// The paths that the file under a path imports, in ascending order; none
/// where the file does not compile.
pub open spec fn children_of(sources: Seq<Source>, path: Seq<char>) -> Seq<Seq<char>> {
    match loaded(sources, path) {
        Ok(config) => config.imports,
        Err(_) => Seq::empty(),
    }
}

/// The number of source files whose path has not been seen.
pub open spec fn unseen(sources: Seq<Source>, seen: Set<Seq<char>>) -> nat
    decreases sources.len(),
{
    if sources.len() == 0 {
        0
    } else {
        unseen(sources.drop_last(), seen) + if seen.contains(sources.last().path) {
            0nat
        } else {
            1nat
        }
    }
}

/// Seeing one more path leaves no more files unseen, and fewer if the path
/// is new and has a file.
pub proof fn lemma_unseen_insert(sources: Seq<Source>, seen: Set<Seq<char>>, path: Seq<char>)
    ensures
        unseen(sources, seen.insert(path)) <= unseen(sources, seen),
        lookup(sources, path) is Some && !seen.contains(path) ==> unseen(
            sources,
            seen.insert(path),
        ) < unseen(sources, seen),
    decreases sources.len(),
{
    if sources.len() > 0 {
        lemma_unseen_insert(sources.drop_last(), seen, path);
    }
}

/// The order in which pending imports are taken in. The first pending path
/// is taken: if it was seen before it is passed over; otherwise it is seen
/// from now on, comes next in the order, and the paths its file imports are
/// put before the rest of the pending ones.
pub open spec fn visit_order(
    sources: Seq<Source>,
    pending: Seq<Seq<char>>,
    seen: Set<Seq<char>>,
) -> Seq<Seq<char>>
    decreases unseen(sources, seen), pending.len(),
    via visit_order_ends
{
    if pending.len() == 0 {
        Seq::empty()
    } else if seen.contains(pending[0]) {
        visit_order(sources, pending.drop_first(), seen)
    } else {
        seq![pending[0]] + visit_order(
            sources,
            children_of(sources, pending[0]) + pending.drop_first(),
            seen.insert(pending[0]),
        )
    }
}

#[via_fn]
proof fn visit_order_ends(sources: Seq<Source>, pending: Seq<Seq<char>>, seen: Set<Seq<char>>) {
    if pending.len() > 0 {
        lemma_unseen_insert(sources, seen, pending[0]);
    }
}

/// The failure of the first path in the order whose file does not compile.
pub open spec fn first_failure(sources: Seq<Source>, order: Seq<Seq<char>>) -> Option<Failure>
    decreases order.len(),
{
    if order.len() == 0 {
        None
    } else {
        match first_failure(sources, order.drop_last()) {
            Some(e) => Some(e),
            None => match loaded(sources, order.last()) {
                Err(e) => Some(e),
                Ok(_) => None,
            },
        }
    }
}

/// The configuration with what each file in the order declares added behind
/// it, file after file. The imports stay as they are.
pub open spec fn merged(config: Config, sources: Seq<Source>, order: Seq<Seq<char>>) -> Config
    decreases order.len(),
{
    if order.len() == 0 {
        config
    } else {
        let acc = merged(config, sources, order.drop_last());
        match loaded(sources, order.last()) {
            Ok(added) => Config {
                bindings: acc.bindings + added.bindings,
                unbinds: acc.unbinds + added.unbinds,
                imports: acc.imports,
                modes: acc.modes + added.modes,
            },
            Err(_) => acc,
        }
    }
}

/// What the input declares by itself.
pub open spec fn input_content(input: Input, sources: Seq<Source>) -> Result<Config, Failure> {
    match input {
        Input::Raw(parsed) => content_of(parsed, anonymous()),
        Input::Path(path) => loaded(sources, path),
    }
}

/// The input compiled with all it imports, given the paths seen before:
/// what the input declares, then what each imported file declares, in the
/// order the imports are taken in; and beside it that order. No pending
/// import is left. The first source that does not compile fails the whole.
pub open spec fn imported(input: Input, sources: Seq<Source>, seen: Set<Seq<char>>) -> Result<
    (Config, Seq<Seq<char>>),
    Failure,
> {
    match input_content(input, sources) {
        Err(e) => Err(e),
        Ok(own) => {
            let order = visit_order(sources, own.imports, seen);
            match first_failure(sources, order) {
                Some(e) => Err(e),
                None => Ok(
                    (Config { imports: Seq::empty(), ..merged(own, sources, order) }, order),
                ),
            }
        },
    }
}

/// The input compiled with all it imports: as `imported` from no path seen,
/// with the paths taken in as its imports, in ascending order.
pub open spec fn resolved(input: Input, sources: Seq<Source>) -> Result<Config, Failure> {
    match imported(input, sources, Set::empty()) {
        Err(e) => Err(e),
        Ok((config, order)) => Ok(
            Config { imports: inserted_all(Seq::empty(), order), ..config },
        ),
    }
}

/// Once a prefix of the declarations fails, the whole fails the same way.
pub proof fn lemma_declared_all_fails(declarations: Seq<Tree>, n: int)
    requires
        0 <= n <= declarations.len(),
        declared_all(declarations.take(n)) is Err,
    ensures
        declared_all(declarations) == declared_all(declarations.take(n)),
    decreases declarations.len() - n,
{
    if n == declarations.len() {
        assert(declarations.take(n) =~= declarations);
    } else {
        lemma_take_step(declarations, n);
        lemma_declared_all_fails(declarations, n + 1);
    }
}

/// A file found among the first `n` sources is the file found among all.
pub proof fn lemma_lookup_found(sources: Seq<Source>, path: Seq<char>, n: int)
    requires
        0 <= n <= sources.len(),
        lookup(sources.take(n), path) is Some,
    ensures
        lookup(sources, path) == lookup(sources.take(n), path),
    decreases sources.len() - n,
{
    if n == sources.len() {
        assert(sources.take(n) =~= sources);
    } else {
        lemma_take_step(sources, n);
        lemma_lookup_found(sources, path, n + 1);
    }
}

/// Once the order fails, what follows does not change the failure.
pub proof fn lemma_first_failure_stays(
    sources: Seq<Source>,
    order: Seq<Seq<char>>,
    more: Seq<Seq<char>>,
)
    requires
        first_failure(sources, order) is Some,
    ensures
        first_failure(sources, order + more) == first_failure(sources, order),
    decreases more.len(),
{
    if more.len() == 0 {
        assert(order + more =~= order);
    } else {
        lemma_first_failure_stays(sources, order, more.drop_last());
        assert((order + more).drop_last() =~= order + more.drop_last());
    }
}

/// A pending path that was seen before is passed over.
pub proof fn lemma_visit_seen(sources: Seq<Source>, pending: Seq<Seq<char>>, seen: Set<Seq<char>>)
    requires
        pending.len() > 0,
        seen.contains(pending[0]),
    ensures
        visit_order(sources, pending, seen) == visit_order(sources, pending.drop_first(), seen),
{
}

/// A pending path not seen before comes next; what its file imports is
/// taken in before the rest.
pub proof fn lemma_visit_new(sources: Seq<Source>, pending: Seq<Seq<char>>, seen: Set<Seq<char>>)
    requires
        pending.len() > 0,
        !seen.contains(pending[0]),
    ensures
        visit_order(sources, pending, seen) == seq![pending[0]] + visit_order(
            sources,
            children_of(sources, pending[0]) + pending.drop_first(),
            seen.insert(pending[0]),
        ),
{
}

/// One more path behind an order: its file adds what it declares, or the
/// failure if none came before.
pub proof fn lemma_order_push(
    config: Config,
    sources: Seq<Source>,
    order: Seq<Seq<char>>,
    path: Seq<char>,
)
    ensures
        first_failure(sources, order.push(path)) == (match first_failure(sources, order) {
            Some(e) => Some(e),
            None => match loaded(sources, path) {
                Err(e) => Some(e),
                Ok(_) => None,
            },
        }),
        loaded(sources, path) matches Ok(added) ==> merged(config, sources, order.push(path)) == (
        Config {
            bindings: merged(config, sources, order).bindings + added.bindings,
            unbinds: merged(config, sources, order).unbinds + added.unbinds,
            imports: merged(config, sources, order).imports,
            modes: merged(config, sources, order).modes + added.modes,
        }),
        forall|s: Seq<Seq<char>>| #[trigger]
            inserted_all(s, order.push(path)) == inserted(inserted_all(s, order), path),
{
    assert(order.push(path).drop_last() =~= order);
}

/// The paths an import declaration names, in the order written.
pub fn import_parser(declaration: &Node) -> (paths: Vec<String>)
    ensures
        paths.deep_view() == import_paths(declaration@.children),
{
    let mut paths: Vec<String> = Vec::new();
    let ghost nodes = declaration@.children;
    let mut i: usize = 0;
    assert(paths.deep_view() =~= import_paths(nodes.take(0)));
    while i < declaration.children.len()
        invariant
            i <= declaration.children.len(),
            nodes == declaration@.children,
            nodes.len() == declaration.children.len(),
            paths.deep_view() == import_paths(nodes.take(i as int)),
        decreases declaration.children.len() - i,
    {
        let component = &declaration.children[i];
        let ghost before = paths.deep_view();
        proof {
            declaration.lemma_child(i as int);
            lemma_take_step(nodes, i as int);
        }
        match component.rule {
            Rule::ImportFile => {
                paths.push(component.text.clone());
                assert(paths.deep_view() =~= before.push(component@.text));
            },
            _ => {},
        }
        i += 1;
    }
    assert(nodes.take(nodes.len() as int) =~= nodes);
    paths
}

/// Where the first file under the path stands among the sources.
fn find(sources: &Vec<SourceFile>, path: &String) -> (at: Option<usize>)
    ensures
        match at {
            Some(i) => i < sources.len() && lookup(sources.deep_view(), path@) == Some(
                sources[i as int]@,
            ),
            None => lookup(sources.deep_view(), path@) is None,
        },
{
    let ghost view = sources.deep_view();
    let mut i: usize = 0;
    while i < sources.len()
        invariant
            i <= sources.len(),
            view == sources.deep_view(),
            view.len() == sources.len(),
            lookup(view.take(i as int), path@) is None,
        decreases sources.len() - i,
    {
        proof {
            lemma_take_step(view, i as int);
            assert(view[i as int] == sources[i as int]@);
        }
        if sources[i].path == *path {
            proof {
                lemma_lookup_found(view, path@, i as int + 1);
            }
            return Some(i);
        }
        i += 1;
    }
    assert(view.take(view.len() as int) =~= view);
    None
}

impl SwhkdParser {
    /// Compiles the declarations of one source, not following its imports:
    /// they are left in `imports`, in ascending order. `name` is the name
    /// under which a mismatch with the grammar is reported.
    fn content(parsed: &Result<Vec<Node>, String>, name: &str) -> (r: Result<Self, ParseError>)
        ensures
            match content_of(parse_view(*parsed), name@) {
                Ok(config) => r matches Ok(p) && p@ == config && increasing(config.imports),
                Err(e) => r matches Err(x) && x@ == e,
            },
    {
        let sections = match parsed {
            Ok(sections) => sections,
            Err(message) => {
                return Err(ParseError::Grammar { message: message.clone(), path: name.to_owned() });
            },
        };
        if sections.len() == 0 {
            return Err(ParseError::MainSection);
        }
        let contents = &sections[0];
        assert(sections.deep_view()[0] == contents@);
        let mut bindings: Vec<Binding> = Vec::new();
        let mut unbinds: Vec<Definition> = Vec::new();
        let mut imports: Vec<String> = Vec::new();
        let mut modes: Vec<Mode> = Vec::new();
        let ghost nodes = contents@.children;
        let ghost mut acc = vacant();
        let mut i: usize = 0;
        assert(nodes.take(0) =~= Seq::<Tree>::empty());
        assert(bindings.deep_view() =~= acc.bindings);
        assert(unbinds.deep_view() =~= acc.unbinds);
        assert(imports.deep_view() =~= acc.imports);
        assert(modes.deep_view() =~= acc.modes);
        while i < contents.children.len()
            invariant
                i <= contents.children.len(),
                nodes == contents@.children,
                nodes.len() == contents.children.len(),
                content_of(parse_view(*parsed), name@) == declared_all(nodes),
                declared_all(nodes.take(i as int)) == Ok::<Config, Failure>(acc),
                bindings.deep_view() == acc.bindings,
                unbinds.deep_view() == acc.unbinds,
                imports.deep_view() == acc.imports,
                modes.deep_view() == acc.modes,
                increasing(acc.imports),
            decreases contents.children.len() - i,
        {
            let declaration = &contents.children[i];
            proof {
                contents.lemma_child(i as int);
                lemma_take_step(nodes, i as int);
            }
            match declaration.rule {
                Rule::Binding => {
                    match binding_parser(declaration) {
                        Ok(mut more) => {
                            let ghost added = more.deep_view();
                            bindings.append(&mut more);
                            assert(bindings.deep_view() =~= acc.bindings + added);
                            proof {
                                acc = Config { bindings: acc.bindings + added, ..acc };
                            }
                        },
                        Err(e) => {
                            proof {
                                lemma_declared_all_fails(nodes, i as int + 1);
                            }
                            return Err(e);
                        },
                    }
                },
                Rule::Unbind => {
                    match unbind_parser(declaration) {
                        Ok(mut more) => {
                            let ghost added = more.deep_view();
                            unbinds.append(&mut more);
                            assert(unbinds.deep_view() =~= acc.unbinds + added);
                            proof {
                                acc = Config { unbinds: acc.unbinds + added, ..acc };
                            }
                        },
                        Err(e) => {
                            proof {
                                lemma_declared_all_fails(nodes, i as int + 1);
                            }
                            return Err(e);
                        },
                    }
                },
                Rule::Mode => {
                    match mode_parser(declaration) {
                        Ok(mode) => {
                            let ghost added = mode@;
                            modes.push(mode);
                            assert(modes.deep_view() =~= acc.modes.push(added));
                            proof {
                                acc = Config { modes: acc.modes.push(added), ..acc };
                            }
                        },
                        Err(e) => {
                            proof {
                                lemma_declared_all_fails(nodes, i as int + 1);
                            }
                            return Err(e);
                        },
                    }
                },
                Rule::Import => {
                    let paths = import_parser(declaration);
                    let ghost start = acc.imports;
                    let ghost named = paths.deep_view();
                    let mut t: usize = 0;
                    assert(named.take(0) =~= Seq::<Seq<char>>::empty());
                    while t < paths.len()
                        invariant
                            t <= paths.len(),
                            named == paths.deep_view(),
                            named.len() == paths.len(),
                            increasing(start),
                            increasing(imports.deep_view()),
                            imports.deep_view() == inserted_all(start, named.take(t as int)),
                        decreases paths.len() - t,
                    {
                        proof {
                            lemma_take_step(named, t as int);
                            lemma_inserted(imports.deep_view(), named[t as int]);
                            assert(named[t as int] == paths[t as int]@);
                        }
                        insert_sorted(&mut imports, paths[t].clone());
                        t += 1;
                    }
                    assert(named.take(named.len() as int) =~= named);
                    proof {
                        acc = Config { imports: imports.deep_view(), ..acc };
                    }
                },
                _ => {},
            }
            i += 1;
        }
        assert(nodes.take(nodes.len() as int) =~= nodes);
        Ok(SwhkdParser { bindings, unbinds, imports, modes })
    }

    /// What the input declares by itself.
    fn own(input: ParserInput, sources: &Vec<SourceFile>) -> (r: Result<Self, ParseError>)
        ensures
            match input_content(input@, sources.deep_view()) {
                Ok(config) => r matches Ok(p) && p@ == config && increasing(config.imports),
                Err(e) => r matches Err(x) && x@ == e,
            },
    {
        match input {
            ParserInput::Raw(parsed) => SwhkdParser::content(parsed, "<anonymous>"),
            ParserInput::Path(path) => {
                let path = path.to_owned();
                match find(sources, &path) {
                    Some(at) => SwhkdParser::content(&sources[at].parsed, path.as_str()),
                    None => Err(ParseError::ReadingConfig { path }),
                }
            },
        }
    }

    /// Compiles the input and all it imports, given the paths seen before.
    /// Every path taken in is put among the seen ones; a path seen before is
    /// not taken in again.
    fn as_import(input: ParserInput, sources: &Vec<SourceFile>, seen: &mut Vec<String>) -> (r:
        Result<Self, ParseError>)
        requires
            increasing(old(seen).deep_view()),
        ensures
            increasing(final(seen).deep_view()),
            match imported(input@, sources.deep_view(), old(seen).deep_view().to_set()) {
                Ok((config, order)) => r matches Ok(p) && p@ == config && final(seen).deep_view()
                    == inserted_all(old(seen).deep_view(), order),
                Err(e) => r matches Err(x) && x@ == e,
            },
    {
        let ghost files = sources.deep_view();
        let ghost seen_before = seen.deep_view();
        let own = match SwhkdParser::own(input, sources) {
            Ok(own) => own,
            Err(e) => {
                return Err(e);
            },
        };
        let ghost start = own@;
        let ghost order = visit_order(files, start.imports, seen_before.to_set());
        let SwhkdParser { mut bindings, mut unbinds, imports, mut modes } = own;
        let mut pending = imports;
        let ghost mut done: Seq<Seq<char>> = Seq::empty();
        assert(done + visit_order(files, pending.deep_view(), seen.deep_view().to_set())
            =~= order);
        while pending.len() > 0
            invariant
                files == sources.deep_view(),
                seen_before == old(seen).deep_view(),
                input_content(input@, files) == Ok::<Config, Failure>(start),
                order == visit_order(files, start.imports, seen_before.to_set()),
                increasing(seen.deep_view()),
                seen.deep_view() == inserted_all(seen_before, done),
                order == done + visit_order(files, pending.deep_view(), seen.deep_view().to_set()),
                first_failure(files, done) is None,
                bindings.deep_view() == merged(start, files, done).bindings,
                unbinds.deep_view() == merged(start, files, done).unbinds,
                modes.deep_view() == merged(start, files, done).modes,
            decreases unseen(files, seen.deep_view().to_set()), pending.len(),
        {
            let ghost waiting = pending.deep_view();
            let ghost known = seen.deep_view();
            let import = pending.remove(0);
            let ghost path = import@;
            let ghost rest = pending.deep_view();
            proof {
                assert(waiting[0] == path);
                assert(rest =~= waiting.drop_first());
                lemma_inserted(known, path);
                lemma_unseen_insert(files, known.to_set(), path);
                lemma_order_push(start, files, done, path);
                if known.to_set().contains(path) {
                    lemma_visit_seen(files, waiting, known.to_set());
                } else {
                    lemma_visit_new(files, waiting, known.to_set());
                }
            }
            if insert_sorted(seen, import.clone()) {
                let ghost tail = visit_order(
                    files,
                    children_of(files, path) + rest,
                    known.to_set().insert(path),
                );
                assert(order =~= done.push(path) + tail);
                let child = match find(sources, &import) {
                    Some(at) => SwhkdParser::content(&sources[at].parsed, import.as_str()),
                    None => Err(ParseError::ReadingConfig { path: import }),
                };
                match child {
                    Ok(child) => {
                        let ghost added = child@;
                        assert(loaded(files, path) == Ok::<Config, Failure>(added));
                        let SwhkdParser {
                            bindings: mut more_bindings,
                            unbinds: mut more_unbinds,
                            imports: mut next,
                            modes: mut more_modes,
                        } = child;
                        let ghost so_far = merged(start, files, done);
                        bindings.append(&mut more_bindings);
                        unbinds.append(&mut more_unbinds);
                        modes.append(&mut more_modes);
                        assert(bindings.deep_view() =~= so_far.bindings + added.bindings);
                        assert(unbinds.deep_view() =~= so_far.unbinds + added.unbinds);
                        assert(modes.deep_view() =~= so_far.modes + added.modes);
                        next.append(&mut pending);
                        pending = next;
                        assert(pending.deep_view() =~= added.imports + rest);
                        proof {
                            done = done.push(path);
                        }
                    },
                    Err(e) => {
                        proof {
                            assert(loaded(files, path) == Err::<Config, Failure>(e@));
                            lemma_first_failure_stays(files, done.push(path), tail);
                        }
                        return Err(e);
                    },
                }
            }
        }
        proof {
            assert(pending.deep_view() =~= Seq::<Seq<char>>::empty());
            assert(order =~= done);
        }
        let imports: Vec<String> = Vec::new();
        assert(imports.deep_view() =~= Seq::<Seq<char>>::empty());
        Ok(SwhkdParser { bindings, unbinds, imports, modes })
    }

    /// Compiles the input and every file it imports, directly or through
    /// other files, into one configuration.
    ///
    /// The input's own declarations come first. Its imports are then taken in
    /// in ascending order of their paths; a file's own imports are taken in
    /// right after the file, before its siblings. Each path is taken in at
    /// most once, so files that import each other end the walk. A path without
    /// an entry among `sources` fails as an unreadable file; the first source
    /// that does not compile fails the whole.
    pub fn from(input: ParserInput, sources: &Vec<SourceFile>) -> (r: Result<Self, ParseError>)
        ensures
            match resolved(input@, sources.deep_view()) {
                Ok(config) => r matches Ok(p) && p@ == config && p.wf(),
                Err(e) => r matches Err(x) && x@ == e,
            },
    {
        let mut root_imports: Vec<String> = Vec::new();
        assert(root_imports.deep_view() =~= Seq::<Seq<char>>::empty());
        assert(root_imports.deep_view().to_set() =~= Set::<Seq<char>>::empty());
        let mut root = SwhkdParser::as_import(input, sources, &mut root_imports)?;
        root.imports = root_imports;
        Ok(root)
    }
}

} // verus!
