//! A declaration multiplied out into plain tokens, for listing what it
//! expands to: keys stay as written, a key or a key shorthand is one more slot
//! beside the modifier slots, and the fragments of a command are not joined.

use crate::definition::texts_of;
use crate::error::{Failure, ParseError};
use crate::product::{checked_count, multiply, product};
use crate::range::{expand_range, expansion_of};
use crate::syntax::{lemma_take_step, Node, Rule, Span, Tree};
use vstd::prelude::*;

verus! {

/// What a token stands for in contracts.
pub enum TokenView {
    Modifier(Seq<char>),
    Key(Seq<char>),
    Command(Seq<char>),
}

/// One piece of an expanded declaration, with its text.
#[derive(Debug, PartialEq, Eq)]
pub enum Token {
    Modifier(String),
    Key(String),
    Command(String),
}

impl View for Token {
    type V = TokenView;

    open spec fn view(&self) -> TokenView {
        match *self {
            Token::Modifier(text) => TokenView::Modifier(text@),
            Token::Key(text) => TokenView::Key(text@),
            Token::Command(text) => TokenView::Command(text@),
        }
    }
}

impl DeepView for Token {
    type V = TokenView;

    open spec fn deep_view(&self) -> TokenView {
        self@
    }
}

impl Clone for Token {
    fn clone(&self) -> (r: Self)
        ensures
            r == *self,
    {
        match self {
            Token::Modifier(text) => Token::Modifier(text.clone()),
            Token::Key(text) => Token::Key(text.clone()),
            Token::Command(text) => Token::Command(text.clone()),
        }
    }
}

/// A modifier token for each text.
pub open spec fn modifier_tokens(texts: Seq<Seq<char>>) -> Seq<TokenView> {
    Seq::new(texts.len(), |i: int| TokenView::Modifier(texts[i]))
}

/// A key token for each text.
pub open spec fn key_tokens(texts: Seq<Seq<char>>) -> Seq<TokenView> {
    Seq::new(texts.len(), |i: int| TokenView::Key(texts[i]))
}

/// A command token for each text.
pub open spec fn command_tokens(texts: Seq<Seq<char>>) -> Seq<TokenView> {
    Seq::new(texts.len(), |i: int| TokenView::Command(texts[i]))
}

/// The key tokens a key shorthand lists: each key node gives its text as
/// written, each range every character it spans; the first range that cannot
/// be expanded fails.
pub open spec fn shorthand_tokens(nodes: Seq<Tree>) -> Result<Seq<TokenView>, Failure>
    decreases nodes.len(),
{
    if nodes.len() == 0 {
        Ok(Seq::empty())
    } else {
        match shorthand_tokens(nodes.drop_last()) {
            Err(e) => Err(e),
            Ok(keys) => match nodes.last().rule {
                Rule::KeyInShorthand => Ok(keys.push(TokenView::Key(nodes.last().text))),
                Rule::KeyRange => match expansion_of(nodes.last()) {
                    Ok(texts) => Ok(keys + key_tokens(texts)),
                    Err(e) => Err(e),
                },
                _ => Ok(keys),
            },
        }
    }
}

/// The tokens one component of a trigger stands for: a modifier gives
/// itself, a modifier shorthand its alternatives, a key itself, a key
/// shorthand the keys it lists, anything else nothing.
pub open spec fn trigger_of(component: Tree) -> Result<Seq<TokenView>, Failure> {
    match component.rule {
        Rule::Modifier => Ok(seq![TokenView::Modifier(component.text)]),
        Rule::ModifierShorthand | Rule::ModifierOmitShorthand => Ok(
            modifier_tokens(texts_of(component.children)),
        ),
        Rule::Shorthand => shorthand_tokens(component.children),
        Rule::KeyNormal => Ok(seq![TokenView::Key(component.text)]),
        _ => Ok(Seq::empty()),
    }
}

/// The command tokens a command shorthand lists: each component gives its
/// text, each range every character it spans; the first range that cannot be
/// expanded fails.
pub open spec fn alternatives_of(nodes: Seq<Tree>) -> Result<Seq<TokenView>, Failure>
    decreases nodes.len(),
{
    if nodes.len() == 0 {
        Ok(Seq::empty())
    } else {
        match alternatives_of(nodes.drop_last()) {
            Err(e) => Err(e),
            Ok(variants) => match nodes.last().rule {
                Rule::CommandComponent => Ok(variants.push(TokenView::Command(nodes.last().text))),
                Rule::Range => match expansion_of(nodes.last()) {
                    Ok(texts) => Ok(variants + command_tokens(texts)),
                    Err(e) => Err(e),
                },
                _ => Ok(variants),
            },
        }
    }
}

/// The slots after the fragments of a command, from `acc` on: a literal adds
/// a slot of one, a shorthand a slot of its alternatives.
pub open spec fn fragment_slots(acc: Seq<Seq<TokenView>>, nodes: Seq<Tree>) -> Result<
    Seq<Seq<TokenView>>,
    Failure,
>
    decreases nodes.len(),
{
    if nodes.len() == 0 {
        Ok(acc)
    } else {
        match fragment_slots(acc, nodes.drop_last()) {
            Err(e) => Err(e),
            Ok(slots) => match nodes.last().rule {
                Rule::CommandStandalone => Ok(
                    slots.push(seq![TokenView::Command(nodes.last().text)]),
                ),
                Rule::CommandShorthand => match alternatives_of(nodes.last().children) {
                    Ok(variants) => Ok(slots.push(variants)),
                    Err(e) => Err(e),
                },
                _ => Ok(slots),
            },
        }
    }
}

/// The slots of an unbind: one for every component, whatever it stands for.
pub open spec fn unbind_slots(components: Seq<Tree>) -> Result<Seq<Seq<TokenView>>, Failure>
    decreases components.len(),
{
    if components.len() == 0 {
        Ok(Seq::empty())
    } else {
        match unbind_slots(components.drop_last()) {
            Err(e) => Err(e),
            Ok(slots) => match trigger_of(components.last()) {
                Ok(tokens) => Ok(slots.push(tokens)),
                Err(e) => Err(e),
            },
        }
    }
}

/// The rows an unbind declaration expands to, or the failure it gives.
pub open spec fn unbind_rows(declaration: Tree) -> Result<Seq<Seq<TokenView>>, Failure> {
    match unbind_slots(declaration.children) {
        Err(e) => Err(e),
        Ok(slots) => if product(slots).len() > usize::MAX {
            Err(Failure::VariantLimit { span: declaration.span })
        } else {
            Ok(product(slots))
        },
    }
}

/// The two sides of a binding as slots of tokens.
pub struct Sides {
    pub trigger: Seq<Seq<TokenView>>,
    pub command: Seq<Seq<TokenView>>,
}

/// The two sides after the components of a binding, taken in order: a
/// command node adds a slot per fragment to the command side; any other node
/// adds one slot to the trigger side, unless it stands for no token.
pub open spec fn binding_slots(components: Seq<Tree>) -> Result<Sides, Failure>
    decreases components.len(),
{
    if components.len() == 0 {
        Ok(Sides { trigger: Seq::empty(), command: Seq::empty() })
    } else {
        match binding_slots(components.drop_last()) {
            Err(e) => Err(e),
            Ok(sides) => if components.last().rule == Rule::Command {
                match fragment_slots(sides.command, components.last().children) {
                    Ok(command) => Ok(Sides { trigger: sides.trigger, command }),
                    Err(e) => Err(e),
                }
            } else {
                match trigger_of(components.last()) {
                    Ok(tokens) => if tokens.len() == 0 {
                        Ok(sides)
                    } else {
                        Ok(Sides { trigger: sides.trigger.push(tokens), command: sides.command })
                    },
                    Err(e) => Err(e),
                }
            },
        }
    }
}

/// Row `i` of the one with row `i` of the other, for every `i`.
pub open spec fn row_pairs(triggers: Seq<Seq<TokenView>>, commands: Seq<Seq<TokenView>>) -> Seq<
    (Seq<TokenView>, Seq<TokenView>),
> {
    Seq::new(triggers.len(), |i: int| (triggers[i], commands[i]))
}

/// The rows that the two sides expand to, paired by position; both sides
/// must come to the same number of rows.
pub open spec fn sides_rows(sides: Sides, span: Span) -> Result<
    Seq<(Seq<TokenView>, Seq<TokenView>)>,
    Failure,
> {
    let triggers = product(sides.trigger);
    let commands = product(sides.command);
    if triggers.len() > usize::MAX || commands.len() > usize::MAX {
        Err(Failure::VariantLimit { span })
    } else if triggers.len() != commands.len() {
        Err(Failure::VariantMismatch { bindings: triggers.len(), commands: commands.len(), span })
    } else {
        Ok(row_pairs(triggers, commands))
    }
}

/// The rows a binding declaration expands to, or the failure it gives.
pub open spec fn binding_rows(declaration: Tree) -> Result<
    Seq<(Seq<TokenView>, Seq<TokenView>)>,
    Failure,
> {
    match binding_slots(declaration.children) {
        Err(e) => Err(e),
        Ok(sides) => sides_rows(sides, declaration.span),
    }
}

/// Once a prefix of a key shorthand fails, the whole fails the same way.
pub proof fn lemma_shorthand_tokens_fails(nodes: Seq<Tree>, n: int)
    requires
        0 <= n <= nodes.len(),
        shorthand_tokens(nodes.take(n)) is Err,
    ensures
        shorthand_tokens(nodes) == shorthand_tokens(nodes.take(n)),
    decreases nodes.len() - n,
{
    if n == nodes.len() {
        assert(nodes.take(n) =~= nodes);
    } else {
        lemma_take_step(nodes, n);
        lemma_shorthand_tokens_fails(nodes, n + 1);
    }
}

/// Once a prefix of a command shorthand fails, the whole fails the same way.
pub proof fn lemma_alternatives_of_fails(nodes: Seq<Tree>, n: int)
    requires
        0 <= n <= nodes.len(),
        alternatives_of(nodes.take(n)) is Err,
    ensures
        alternatives_of(nodes) == alternatives_of(nodes.take(n)),
    decreases nodes.len() - n,
{
    if n == nodes.len() {
        assert(nodes.take(n) =~= nodes);
    } else {
        lemma_take_step(nodes, n);
        lemma_alternatives_of_fails(nodes, n + 1);
    }
}

/// Once a prefix of a command fails, the whole fails the same way.
pub proof fn lemma_fragment_slots_fails(acc: Seq<Seq<TokenView>>, nodes: Seq<Tree>, n: int)
    requires
        0 <= n <= nodes.len(),
        fragment_slots(acc, nodes.take(n)) is Err,
    ensures
        fragment_slots(acc, nodes) == fragment_slots(acc, nodes.take(n)),
    decreases nodes.len() - n,
{
    if n == nodes.len() {
        assert(nodes.take(n) =~= nodes);
    } else {
        lemma_take_step(nodes, n);
        lemma_fragment_slots_fails(acc, nodes, n + 1);
    }
}

/// Once a prefix of an unbind fails, the whole fails the same way.
pub proof fn lemma_unbind_slots_fails(components: Seq<Tree>, n: int)
    requires
        0 <= n <= components.len(),
        unbind_slots(components.take(n)) is Err,
    ensures
        unbind_slots(components) == unbind_slots(components.take(n)),
    decreases components.len() - n,
{
    if n == components.len() {
        assert(components.take(n) =~= components);
    } else {
        lemma_take_step(components, n);
        lemma_unbind_slots_fails(components, n + 1);
    }
}

/// Once a prefix of a binding fails, the whole fails the same way.
pub proof fn lemma_binding_slots_fails(components: Seq<Tree>, n: int)
    requires
        0 <= n <= components.len(),
        binding_slots(components.take(n)) is Err,
    ensures
        binding_slots(components) == binding_slots(components.take(n)),
    decreases components.len() - n,
{
    if n == components.len() {
        assert(components.take(n) =~= components);
    } else {
        lemma_take_step(components, n);
        lemma_binding_slots_fails(components, n + 1);
    }
}

/// A clone of a token stands for what the token stands for.
proof fn lemma_token_clone()
    ensures
        forall|a: Token, b: Token| #[trigger] cloned(a, b) ==> a.deep_view() == b.deep_view(),
{
}

/// The key tokens of a key shorthand, in the order written.
fn shorthand_keys(shorthand: &Node) -> (r: Result<Vec<Token>, ParseError>)
    ensures
        match shorthand_tokens(shorthand@.children) {
            Ok(tokens) => r matches Ok(v) && v.deep_view() == tokens,
            Err(e) => r matches Err(x) && x@ == e,
        },
{
    let mut keys: Vec<Token> = Vec::new();
    let ghost nodes = shorthand@.children;
    let mut i: usize = 0;
    assert(keys.deep_view() =~= Seq::<TokenView>::empty());
    while i < shorthand.children.len()
        invariant
            i <= shorthand.children.len(),
            nodes == shorthand@.children,
            nodes.len() == shorthand.children.len(),
            shorthand_tokens(nodes.take(i as int)) == Ok::<Seq<TokenView>, Failure>(
                keys.deep_view(),
            ),
        decreases shorthand.children.len() - i,
    {
        let inner = &shorthand.children[i];
        let ghost before = keys.deep_view();
        proof {
            shorthand.lemma_child(i as int);
            lemma_take_step(nodes, i as int);
        }
        match inner.rule {
            Rule::KeyInShorthand => {
                keys.push(Token::Key(inner.text.clone()));
                assert(keys.deep_view() =~= before.push(TokenView::Key(inner@.text)));
            },
            Rule::KeyRange => {
                match expand_range(inner) {
                    Ok(texts) => {
                        let mut t: usize = 0;
                        while t < texts.len()
                            invariant
                                t <= texts.len(),
                                keys.deep_view() =~= before + key_tokens(texts.deep_view()).take(
                                    t as int,
                                ),
                            decreases texts.len() - t,
                        {
                            let ghost so_far = keys.deep_view();
                            keys.push(Token::Key(texts[t].clone()));
                            assert(keys.deep_view() =~= so_far.push(
                                key_tokens(texts.deep_view())[t as int],
                            ));
                            t += 1;
                        }
                        assert(key_tokens(texts.deep_view()).take(texts.len() as int)
                            =~= key_tokens(texts.deep_view()));
                    },
                    Err(e) => {
                        proof {
                            lemma_shorthand_tokens_fails(nodes, i as int + 1);
                        }
                        return Err(e);
                    },
                }
            },
            _ => {},
        }
        i += 1;
    }
    assert(nodes.take(nodes.len() as int) =~= nodes);
    Ok(keys)
}

/// The tokens that one component of a trigger stands for.
pub fn extract_trigger(component: &Node) -> (r: Result<Vec<Token>, ParseError>)
    ensures
        match trigger_of(component@) {
            Ok(tokens) => r matches Ok(v) && v.deep_view() == tokens,
            Err(e) => r matches Err(x) && x@ == e,
        },
{
    let mut tokens: Vec<Token> = Vec::new();
    assert(tokens.deep_view() =~= Seq::<TokenView>::empty());
    match component.rule {
        Rule::Modifier => {
            tokens.push(Token::Modifier(component.text.clone()));
            assert(tokens.deep_view() =~= seq![TokenView::Modifier(component@.text)]);
            Ok(tokens)
        },
        Rule::ModifierShorthand | Rule::ModifierOmitShorthand => {
            let ghost target = modifier_tokens(texts_of(component@.children));
            let mut i: usize = 0;
            while i < component.children.len()
                invariant
                    i <= component.children.len(),
                    component@.children.len() == component.children.len(),
                    target == modifier_tokens(texts_of(component@.children)),
                    tokens.deep_view() =~= target.take(i as int),
                decreases component.children.len() - i,
            {
                proof {
                    component.lemma_child(i as int);
                }
                let ghost so_far = tokens.deep_view();
                tokens.push(Token::Modifier(component.children[i].text.clone()));
                assert(tokens.deep_view() =~= so_far.push(target[i as int]));
                i += 1;
            }
            assert(target.take(component.children.len() as int) =~= target);
            Ok(tokens)
        },
        Rule::Shorthand => shorthand_keys(component),
        Rule::KeyNormal => {
            tokens.push(Token::Key(component.text.clone()));
            assert(tokens.deep_view() =~= seq![TokenView::Key(component@.text)]);
            Ok(tokens)
        },
        _ => Ok(tokens),
    }
}

/// The command tokens of a command shorthand, in the order written.
pub fn parse_command_shorthand(shorthand: &Node) -> (r: Result<Vec<Token>, ParseError>)
    ensures
        match alternatives_of(shorthand@.children) {
            Ok(tokens) => r matches Ok(v) && v.deep_view() == tokens,
            Err(e) => r matches Err(x) && x@ == e,
        },
{
    let mut command_variants: Vec<Token> = Vec::new();
    let ghost nodes = shorthand@.children;
    let mut i: usize = 0;
    assert(command_variants.deep_view() =~= Seq::<TokenView>::empty());
    while i < shorthand.children.len()
        invariant
            i <= shorthand.children.len(),
            nodes == shorthand@.children,
            nodes.len() == shorthand.children.len(),
            alternatives_of(nodes.take(i as int)) == Ok::<Seq<TokenView>, Failure>(
                command_variants.deep_view(),
            ),
        decreases shorthand.children.len() - i,
    {
        let thing = &shorthand.children[i];
        let ghost before = command_variants.deep_view();
        proof {
            shorthand.lemma_child(i as int);
            lemma_take_step(nodes, i as int);
        }
        match thing.rule {
            Rule::CommandComponent => {
                command_variants.push(Token::Command(thing.text.clone()));
                assert(command_variants.deep_view() =~= before.push(
                    TokenView::Command(thing@.text),
                ));
            },
            Rule::Range => {
                match expand_range(thing) {
                    Ok(texts) => {
                        let mut t: usize = 0;
                        while t < texts.len()
                            invariant
                                t <= texts.len(),
                                command_variants.deep_view() =~= before + command_tokens(
                                    texts.deep_view(),
                                ).take(t as int),
                            decreases texts.len() - t,
                        {
                            let ghost so_far = command_variants.deep_view();
                            command_variants.push(Token::Command(texts[t].clone()));
                            assert(command_variants.deep_view() =~= so_far.push(
                                command_tokens(texts.deep_view())[t as int],
                            ));
                            t += 1;
                        }
                        assert(command_tokens(texts.deep_view()).take(texts.len() as int)
                            =~= command_tokens(texts.deep_view()));
                    },
                    Err(e) => {
                        proof {
                            lemma_alternatives_of_fails(nodes, i as int + 1);
                        }
                        return Err(e);
                    },
                }
            },
            _ => {},
        }
        i += 1;
    }
    assert(nodes.take(nodes.len() as int) =~= nodes);
    Ok(command_variants)
}

/// Takes in the fragments of a command node, adding one slot per fragment.
/// On a failure the slots are left as they were.
fn gather_fragments(slots: &mut Vec<Vec<Token>>, command: &Node) -> (r: Result<(), ParseError>)
    ensures
        match fragment_slots(old(slots).deep_view(), command@.children) {
            Ok(after) => r is Ok && final(slots).deep_view() == after,
            Err(e) => r matches Err(x) && x@ == e && final(slots).deep_view() == old(
                slots,
            ).deep_view(),
        },
{
    let ghost start = slots.deep_view();
    let ghost nodes = command@.children;
    let mut added: Vec<Vec<Token>> = Vec::new();
    let mut i: usize = 0;
    assert(start + added.deep_view() =~= start);
    while i < command.children.len()
        invariant
            i <= command.children.len(),
            nodes == command@.children,
            nodes.len() == command.children.len(),
            slots.deep_view() == start,
            fragment_slots(start, nodes.take(i as int)) == Ok::<Seq<Seq<TokenView>>, Failure>(
                start + added.deep_view(),
            ),
        decreases command.children.len() - i,
    {
        let subcomponent = &command.children[i];
        let ghost before = added.deep_view();
        proof {
            command.lemma_child(i as int);
            lemma_take_step(nodes, i as int);
        }
        match subcomponent.rule {
            Rule::CommandStandalone => {
                let mut slot: Vec<Token> = Vec::new();
                slot.push(Token::Command(subcomponent.text.clone()));
                let ghost one = seq![TokenView::Command(subcomponent@.text)];
                assert(slot.deep_view() =~= one);
                added.push(slot);
                assert(added.deep_view() =~= before.push(one));
                assert(start + added.deep_view() =~= (start + before).push(one));
            },
            Rule::CommandShorthand => {
                match parse_command_shorthand(subcomponent) {
                    Ok(variants) => {
                        let ghost listed = variants.deep_view();
                        added.push(variants);
                        assert(added.deep_view() =~= before.push(listed));
                        assert(start + added.deep_view() =~= (start + before).push(listed));
                    },
                    Err(e) => {
                        proof {
                            lemma_fragment_slots_fails(start, nodes, i as int + 1);
                        }
                        return Err(e);
                    },
                }
            },
            _ => {},
        }
        i += 1;
    }
    assert(nodes.take(nodes.len() as int) =~= nodes);
    let ghost extra = added.deep_view();
    slots.append(&mut added);
    assert(slots.deep_view() =~= start + extra);
    Ok(())
}

/// Pairs the rows of the two sides by position.
fn zip(triggers: Vec<Vec<Token>>, commands: Vec<Vec<Token>>) -> (both: Vec<
    (Vec<Token>, Vec<Token>),
>)
    requires
        triggers.len() == commands.len(),
    ensures
        both.deep_view() == row_pairs(triggers.deep_view(), commands.deep_view()),
{
    let ghost target = row_pairs(triggers.deep_view(), commands.deep_view());
    let ghost total = triggers.len();
    let mut triggers = triggers;
    let mut commands = commands;
    let mut reversed: Vec<(Vec<Token>, Vec<Token>)> = Vec::new();
    while triggers.len() > 0
        invariant
            triggers.len() == commands.len(),
            target.len() == total,
            triggers.len() + reversed.len() == total,
            forall|t: int|
                0 <= t < triggers.len() ==> (#[trigger] triggers[t]).deep_view() == target[t].0,
            forall|t: int|
                0 <= t < commands.len() ==> (#[trigger] commands[t]).deep_view() == target[t].1,
            forall|t: int|
                0 <= t < reversed.len() ==> (#[trigger] reversed[t]).deep_view() == target[total
                    - 1 - t],
        decreases triggers.len(),
    {
        let trigger = triggers.pop().unwrap();
        let command = commands.pop().unwrap();
        reversed.push((trigger, command));
    }
    let mut both: Vec<(Vec<Token>, Vec<Token>)> = Vec::new();
    while reversed.len() > 0
        invariant
            target.len() == total,
            both.len() + reversed.len() == total,
            forall|t: int|
                0 <= t < reversed.len() ==> (#[trigger] reversed[t]).deep_view() == target[total
                    - 1 - t],
            forall|t: int| 0 <= t < both.len() ==> (#[trigger] both[t]).deep_view() == target[t],
        decreases reversed.len(),
    {
        let pair = reversed.pop().unwrap();
        both.push(pair);
    }
    assert(both.deep_view() =~= target);
    both
}

/// Multiplies an unbind declaration out into rows of tokens: every
/// component is a slot, and each row takes one token from every slot.
pub fn unbind_parser(declaration: &Node) -> (r: Result<Vec<Vec<Token>>, ParseError>)
    ensures
        match unbind_rows(declaration@) {
            Ok(rows) => r matches Ok(v) && v.deep_view() == rows,
            Err(e) => r matches Err(x) && x@ == e,
        },
{
    let mut unbind: Vec<Vec<Token>> = Vec::new();
    let ghost nodes = declaration@.children;
    let mut i: usize = 0;
    assert(nodes.take(0) =~= Seq::<Tree>::empty());
    assert(unbind.deep_view() =~= Seq::<Seq<TokenView>>::empty());
    while i < declaration.children.len()
        invariant
            i <= declaration.children.len(),
            nodes == declaration@.children,
            nodes.len() == declaration.children.len(),
            unbind_slots(nodes.take(i as int)) == Ok::<Seq<Seq<TokenView>>, Failure>(
                unbind.deep_view(),
            ),
        decreases declaration.children.len() - i,
    {
        let ghost before = unbind.deep_view();
        proof {
            declaration.lemma_child(i as int);
            lemma_take_step(nodes, i as int);
        }
        match extract_trigger(&declaration.children[i]) {
            Ok(tokens) => {
                let ghost listed = tokens.deep_view();
                unbind.push(tokens);
                assert(unbind.deep_view() =~= before.push(listed));
            },
            Err(e) => {
                proof {
                    lemma_unbind_slots_fails(nodes, i as int + 1);
                }
                return Err(e);
            },
        }
        i += 1;
    }
    assert(nodes.take(nodes.len() as int) =~= nodes);
    match checked_count(&unbind) {
        Some(_) => {
            proof {
                lemma_token_clone();
            }
            Ok(multiply(&unbind))
        },
        None => Err(ParseError::VariantLimit { span: declaration.span }),
    }
}

/// Multiplies a binding declaration out into rows of tokens, the rows of the
/// trigger paired by position with the rows of the command. Both sides must
/// come to the same number of rows.
pub fn binding_parser(declaration: &Node) -> (r: Result<
    Vec<(Vec<Token>, Vec<Token>)>,
    ParseError,
>)
    ensures
        match binding_rows(declaration@) {
            Ok(rows) => r matches Ok(v) && v.deep_view() == rows,
            Err(e) => r matches Err(x) && x@ == e,
        },
{
    let mut tokens: Vec<Vec<Token>> = Vec::new();
    let mut comm: Vec<Vec<Token>> = Vec::new();
    let ghost nodes = declaration@.children;
    let mut i: usize = 0;
    assert(nodes.take(0) =~= Seq::<Tree>::empty());
    assert(tokens.deep_view() =~= Seq::<Seq<TokenView>>::empty());
    assert(comm.deep_view() =~= Seq::<Seq<TokenView>>::empty());
    while i < declaration.children.len()
        invariant
            i <= declaration.children.len(),
            nodes == declaration@.children,
            nodes.len() == declaration.children.len(),
            binding_slots(nodes.take(i as int)) == Ok::<Sides, Failure>(
                Sides { trigger: tokens.deep_view(), command: comm.deep_view() },
            ),
        decreases declaration.children.len() - i,
    {
        let component = &declaration.children[i];
        let ghost before = tokens.deep_view();
        proof {
            declaration.lemma_child(i as int);
            lemma_take_step(nodes, i as int);
        }
        match component.rule {
            Rule::Command => {
                match gather_fragments(&mut comm, component) {
                    Ok(()) => {},
                    Err(e) => {
                        proof {
                            lemma_binding_slots_fails(nodes, i as int + 1);
                        }
                        return Err(e);
                    },
                }
            },
            _ => {
                match extract_trigger(component) {
                    Ok(trigger) => {
                        if trigger.len() > 0 {
                            let ghost listed = trigger.deep_view();
                            tokens.push(trigger);
                            assert(tokens.deep_view() =~= before.push(listed));
                        }
                    },
                    Err(e) => {
                        proof {
                            lemma_binding_slots_fails(nodes, i as int + 1);
                        }
                        return Err(e);
                    },
                }
            },
        }
        i += 1;
    }
    assert(nodes.take(nodes.len() as int) =~= nodes);
    let bind_len = checked_count(&tokens);
    let command_len = checked_count(&comm);
    match (bind_len, command_len) {
        (Some(bind_len), Some(command_len)) => {
            if bind_len != command_len {
                return Err(
                    ParseError::VariantMismatch {
                        bindings: bind_len,
                        commands: command_len,
                        span: declaration.span,
                    },
                );
            }
            proof {
                lemma_token_clone();
            }
            let bind_cartesian_product = multiply(&tokens);
            let command_cartesian_product = multiply(&comm);
            Ok(zip(bind_cartesian_product, command_cartesian_product))
        },
        _ => Err(ParseError::VariantLimit { span: declaration.span }),
    }
}

} // verus!
