//! Modes: a named group of bindings and unbinds, with its two flags.

use crate::binding::{binding_parser, bound, Binding, BindingView};
use crate::definition::{unbind_parser, unbound, Definition, DefinitionView};
use crate::error::{Failure, ParseError};
use crate::syntax::{lemma_take_step, Node, Rule, Tree};
use vstd::prelude::*;

verus! {

/// What a mode stands for in contracts.
pub struct ModeView {
    pub name: Seq<char>,
    pub oneoff: bool,
    pub swallow: bool,
    pub bindings: Seq<BindingView>,
    pub unbinds: Seq<DefinitionView>,
}

/// A mode. `oneoff`: the mode is left after one of its bindings has fired.
/// `swallow`: the key press that fired a binding is not passed on.
#[derive(Debug)]
pub struct Mode {
    pub name: String,
    pub oneoff: bool,
    pub swallow: bool,
    pub bindings: Vec<Binding>,
    pub unbinds: Vec<Definition>,
}

impl View for Mode {
    type V = ModeView;

    open spec fn view(&self) -> ModeView {
        ModeView {
            name: self.name@,
            oneoff: self.oneoff,
            swallow: self.swallow,
            bindings: self.bindings.deep_view(),
            unbinds: self.unbinds.deep_view(),
        }
    }
}

impl DeepView for Mode {
    type V = ModeView;

    open spec fn deep_view(&self) -> ModeView {
        self@
    }
}

/// The mode without a name, a flag, a binding or an unbind.
pub open spec fn blank() -> ModeView {
    ModeView {
        name: Seq::empty(),
        oneoff: false,
        swallow: false,
        bindings: Seq::empty(),
        unbinds: Seq::empty(),
    }
}

impl Default for Mode {
    fn default() -> (r: Self)
        ensures
            r@ == blank(),
    {
        let r = Mode {
            name: String::new(),
            oneoff: false,
            swallow: false,
            bindings: Vec::new(),
            unbinds: Vec::new(),
        };
        assert(r@.bindings =~= Seq::empty());
        assert(r@.unbinds =~= Seq::empty());
        r
    }
}

/// The mode after one more component of its declaration: a name sets the
/// name, a binding or an unbind adds what it compiles to, a marker sets its
/// flag, anything else changes nothing.
pub open spec fn mode_with(mode: ModeView, component: Tree) -> Result<ModeView, Failure> {
    match component.rule {
        Rule::ModeName => Ok(ModeView { name: component.text, ..mode }),
        Rule::Binding => match bound(component) {
            Ok(bindings) => Ok(ModeView { bindings: mode.bindings + bindings, ..mode }),
            Err(e) => Err(e),
        },
        Rule::Unbind => match unbound(component) {
            Ok(unbinds) => Ok(ModeView { unbinds: mode.unbinds + unbinds, ..mode }),
            Err(e) => Err(e),
        },
        Rule::Oneoff => Ok(ModeView { oneoff: true, ..mode }),
        Rule::Swallow => Ok(ModeView { swallow: true, ..mode }),
        _ => Ok(mode),
    }
}

/// The mode after the components in order, from the blank mode on; the first
/// failure ends it.
pub open spec fn mode_of(components: Seq<Tree>) -> Result<ModeView, Failure>
    decreases components.len(),
{
    if components.len() == 0 {
        Ok(blank())
    } else {
        match mode_of(components.drop_last()) {
            Err(e) => Err(e),
            Ok(mode) => mode_with(mode, components.last()),
        }
    }
}

/// Once a prefix of the components fails, the whole fails the same way.
pub proof fn lemma_mode_of_fails(components: Seq<Tree>, n: int)
    requires
        0 <= n <= components.len(),
        mode_of(components.take(n)) is Err,
    ensures
        mode_of(components) == mode_of(components.take(n)),
    decreases components.len() - n,
{
    if n == components.len() {
        assert(components.take(n) =~= components);
    } else {
        lemma_take_step(components, n);
        lemma_mode_of_fails(components, n + 1);
    }
}

/// Compiles a mode declaration.
pub fn mode_parser(declaration: &Node) -> (r: Result<Mode, ParseError>)
    ensures
        match mode_of(declaration@.children) {
            Ok(mode) => r matches Ok(m) && m@ == mode,
            Err(e) => r matches Err(x) && x@ == e,
        },
{
    let mut mode = Mode::default();
    let ghost nodes = declaration@.children;
    let mut i: usize = 0;
    assert(nodes.take(0) =~= Seq::<Tree>::empty());
    while i < declaration.children.len()
        invariant
            i <= declaration.children.len(),
            nodes == declaration@.children,
            nodes.len() == declaration.children.len(),
            mode_of(nodes.take(i as int)) == Ok::<ModeView, Failure>(mode@),
        decreases declaration.children.len() - i,
    {
        let component = &declaration.children[i];
        let ghost before = mode@;
        proof {
            declaration.lemma_child(i as int);
            lemma_take_step(nodes, i as int);
        }
        match component.rule {
            Rule::ModeName => {
                mode.name = component.text.clone();
            },
            Rule::Binding => {
                match binding_parser(component) {
                    Ok(mut bindings) => {
                        let ghost added = bindings.deep_view();
                        mode.bindings.append(&mut bindings);
                        assert(mode@.bindings =~= before.bindings + added);
                    },
                    Err(e) => {
                        proof {
                            lemma_mode_of_fails(nodes, i as int + 1);
                        }
                        return Err(e);
                    },
                }
            },
            Rule::Unbind => {
                match unbind_parser(component) {
                    Ok(mut unbinds) => {
                        let ghost added = unbinds.deep_view();
                        mode.unbinds.append(&mut unbinds);
                        assert(mode@.unbinds =~= before.unbinds + added);
                    },
                    Err(e) => {
                        proof {
                            lemma_mode_of_fails(nodes, i as int + 1);
                        }
                        return Err(e);
                    },
                }
            },
            Rule::Oneoff => {
                mode.oneoff = true;
            },
            Rule::Swallow => {
                mode.swallow = true;
            },
            _ => {},
        }
        i += 1;
    }
    assert(nodes.take(nodes.len() as int) =~= nodes);
    Ok(mode)
}

} // verus!
