//! Bindings: the triggers and the commands of one declaration, each side
//! multiplied out and then paired by position.

use crate::command::{
    command_count, command_slots, commands_of, expand_commands, gather_command,
};
use crate::definition::{
    compiled, ingested, nothing, Definition, DefinitionUncompiled,
    DefinitionView, Uncompiled,
};
use crate::error::{Failure, ParseError};
use crate::syntax::{lemma_take_step, Node, Rule, Tree};
use vstd::prelude::*;

verus! {

/// What a binding stands for in contracts.
pub struct BindingView {
    pub definition: DefinitionView,
    pub command: Seq<char>,
}

/// One concrete trigger with the command it runs.
#[derive(Debug, PartialEq, Eq)]
pub struct Binding {
    pub definition: Definition,
    pub command: String,
}

impl View for Binding {
    type V = BindingView;

    open spec fn view(&self) -> BindingView {
        BindingView { definition: self.definition@, command: self.command@ }
    }
}

impl DeepView for Binding {
    type V = BindingView;

    open spec fn deep_view(&self) -> BindingView {
        self@
    }
}

/// The two sides of a binding before expansion.
pub struct Parts {
    pub trigger: Uncompiled,
    pub command: Seq<Seq<Seq<char>>>,
}

/// The two sides after the components of a binding, taken in order: a
/// command node adds its fragments to the command side, every other node
/// goes to the trigger side. The first failure ends it.
pub open spec fn gathered(components: Seq<Tree>) -> Result<Parts, Failure>
    decreases components.len(),
{
    if components.len() == 0 {
        Ok(Parts { trigger: nothing(), command: Seq::empty() })
    } else {
        match gathered(components.drop_last()) {
            Err(e) => Err(e),
            Ok(parts) => if components.last().rule == Rule::Command {
                match command_slots(parts.command, components.last().children) {
                    Ok(command) => Ok(Parts { trigger: parts.trigger, command }),
                    Err(e) => Err(e),
                }
            } else {
                match ingested(parts.trigger, components.last()) {
                    Ok(trigger) => Ok(Parts { trigger, command: parts.command }),
                    Err(e) => Err(e),
                }
            },
        }
    }
}

/// Definition `i` with command `i`, for every `i`.
pub open spec fn zipped(definitions: Seq<DefinitionView>, commands: Seq<Seq<char>>) -> Seq<
    BindingView,
> {
    Seq::new(
        definitions.len(),
        |i: int| BindingView { definition: definitions[i], command: commands[i] },
    )
}

/// The bindings that the two sides denote: both are multiplied out, must
/// come to the same number of variants, and are paired by position.
pub open spec fn paired(parts: Parts, span: crate::syntax::Span) -> Result<
    Seq<BindingView>,
    Failure,
> {
    let definitions = compiled(parts.trigger);
    let commands = commands_of(parts.command);
    if definitions.len() > usize::MAX || commands.len() > usize::MAX {
        Err(Failure::VariantLimit { span })
    } else if definitions.len() != commands.len() {
        Err(
            Failure::VariantMismatch {
                bindings: definitions.len(),
                commands: commands.len(),
                span,
            },
        )
    } else {
        Ok(zipped(definitions, commands))
    }
}

/// The bindings a binding declaration denotes, or the failure it gives.
pub open spec fn bound(declaration: Tree) -> Result<Seq<BindingView>, Failure> {
    match gathered(declaration.children) {
        Err(e) => Err(e),
        Ok(parts) => paired(parts, declaration.span),
    }
}

/// Once a prefix of the components fails, the whole fails the same way.
pub proof fn lemma_gathered_fails(components: Seq<Tree>, n: int)
    requires
        0 <= n <= components.len(),
        gathered(components.take(n)) is Err,
    ensures
        gathered(components) == gathered(components.take(n)),
    decreases components.len() - n,
{
    if n == components.len() {
        assert(components.take(n) =~= components);
    } else {
        lemma_take_step(components, n);
        lemma_gathered_fails(components, n + 1);
    }
}

/// Pairs the definitions with the commands by position.
fn zip(definitions: Vec<Definition>, commands: Vec<String>) -> (bindings: Vec<Binding>)
    requires
        definitions.len() == commands.len(),
    ensures
        bindings.deep_view() == zipped(definitions.deep_view(), commands.deep_view()),
{
    let ghost target = zipped(definitions.deep_view(), commands.deep_view());
    let ghost total = definitions.len();
    let mut definitions = definitions;
    let mut commands = commands;
    let mut reversed: Vec<Binding> = Vec::new();
    while definitions.len() > 0
        invariant
            definitions.len() == commands.len(),
            target.len() == total,
            definitions.len() + reversed.len() == total,
            forall|t: int|
                0 <= t < definitions.len() ==> (#[trigger] definitions[t])@ == target[t].definition,
            forall|t: int| 0 <= t < commands.len() ==> (#[trigger] commands[t])@ == target[t].command,
            forall|t: int|
                0 <= t < reversed.len() ==> (#[trigger] reversed[t])@ == target[total - 1 - t],
        decreases definitions.len(),
    {
        let definition = definitions.pop().unwrap();
        let command = commands.pop().unwrap();
        reversed.push(Binding { definition, command });
    }
    let mut bindings: Vec<Binding> = Vec::new();
    while reversed.len() > 0
        invariant
            target.len() == total,
            bindings.len() + reversed.len() == total,
            forall|t: int|
                0 <= t < reversed.len() ==> (#[trigger] reversed[t])@ == target[total - 1 - t],
            forall|t: int| 0 <= t < bindings.len() ==> (#[trigger] bindings[t])@ == target[t],
        decreases reversed.len(),
    {
        let binding = reversed.pop().unwrap();
        bindings.push(binding);
    }
    assert(bindings.deep_view() =~= target);
    bindings
}

/// Compiles a binding declaration. The components are taken in order: a
/// command node gives the command side, the rest the trigger side. Both
/// sides are multiplied out; they must give the same number of variants,
/// and variant `i` of the trigger is bound to variant `i` of the command.
pub fn binding_parser(declaration: &Node) -> (r: Result<Vec<Binding>, ParseError>)
    ensures
        match bound(declaration@) {
            Ok(bindings) => r matches Ok(v) && v.deep_view() == bindings,
            Err(e) => r matches Err(x) && x@ == e,
        },
{
    let mut comm: Vec<Vec<String>> = Vec::new();
    let mut uncompiled = DefinitionUncompiled::default();
    let ghost nodes = declaration@.children;
    let mut i: usize = 0;
    assert(nodes.take(0) =~= Seq::<Tree>::empty());
    assert(comm.deep_view() =~= Seq::<Seq<Seq<char>>>::empty());
    while i < declaration.children.len()
        invariant
            i <= declaration.children.len(),
            nodes == declaration@.children,
            nodes.len() == declaration.children.len(),
            gathered(nodes.take(i as int)) == Ok::<Parts, Failure>(
                Parts { trigger: uncompiled@, command: comm.deep_view() },
            ),
        decreases declaration.children.len() - i,
    {
        let component = &declaration.children[i];
        proof {
            declaration.lemma_child(i as int);
            lemma_take_step(nodes, i as int);
        }
        let taken = match component.rule {
            Rule::Command => gather_command(&mut comm, component),
            _ => uncompiled.ingest(component),
        };
        match taken {
            Ok(()) => {},
            Err(e) => {
                proof {
                    lemma_gathered_fails(nodes, i as int + 1);
                }
                return Err(e);
            },
        }
        i += 1;
    }
    assert(nodes.take(nodes.len() as int) =~= nodes);
    let bind_len = uncompiled.variants();
    let command_len = command_count(&comm);
    match (bind_len, command_len) {
        (Some(bind_len), Some(command_len)) => {
            if bind_len != command_len {
                return Err(
                    ParseError::VariantMismatch {
                        bindings: bind_len,
                        commands: command_len,
                        span: declaration.span,
                    },
                );
            }
            let command_cartesian_product = expand_commands(&comm);
            let bind_cartesian_product = uncompiled.compile();
            Ok(zip(bind_cartesian_product, command_cartesian_product))
        },
        _ => Err(ParseError::VariantLimit { span: declaration.span }),
    }
}

} // verus!
