//! The syntax tree that the grammar hands to the compiler.

use vstd::prelude::*;

verus! {

/// The tag of a syntax node: which rule of the grammar matched it.
#[derive(Clone, Copy, Debug, PartialEq, Eq, Structural)]
pub enum Rule {
    /// A whole text; its children are the top-level declarations.
    Main,
    /// A trigger with its command; the children are the trigger's
    /// components followed by a `Command`.
    Binding,
    /// A trigger to be left alone; the children are its components.
    Unbind,
    /// A mode; the children are its name, its markers, and the bindings and
    /// unbinds inside it.
    Mode,
    /// An import; the children that name files are `ImportFile`s.
    Import,
    /// The path of an imported file, as its text.
    ImportFile,
    /// The end of the text.
    EndOfInput,
    /// One modifier, named by its text.
    Modifier,
    /// Alternative modifiers for one position; each child is one of them.
    ModifierShorthand,
    /// As `ModifierShorthand`, where one alternative stands for no modifier.
    ModifierOmitShorthand,
    /// Alternative keys; the children are `KeyInShorthand`s and `KeyRange`s.
    Shorthand,
    /// A key inside a `Shorthand`; children as for `KeyNormal`.
    KeyInShorthand,
    /// A range of keys; the first two children are its endpoints.
    KeyRange,
    /// A key by itself; the children are its markers and the node that names it.
    KeyNormal,
    /// The name of a key.
    KeyBase,
    /// The name of a key written as an escape.
    ShorthandAllow,
    /// The marker that lets the key press pass on.
    Send,
    /// The marker that makes the binding fire on release.
    OnRelease,
    /// A command; the children are its fragments, `CommandStandalone`s and
    /// `CommandShorthand`s.
    Command,
    /// A literal fragment of a command, as its text.
    CommandStandalone,
    /// Alternative fragments; the children are `CommandComponent`s and `Range`s.
    CommandShorthand,
    /// One alternative inside a `CommandShorthand`, as its text.
    CommandComponent,
    /// A range of one-character fragments; the first two children are its
    /// endpoints.
    Range,
    /// The name of a mode, as its text.
    ModeName,
    /// The marker of a mode that is left after one binding has fired.
    Oneoff,
    /// The marker of a mode that keeps the key press to itself.
    Swallow,
    /// Any rule that the compiler does not read.
    Other,
}

/// A stretch of the source text, in bytes from its start.
#[derive(Clone, Copy, Debug, PartialEq, Eq, Structural)]
pub struct Span {
    pub start: usize,
    pub end: usize,
}

/// A node of the syntax tree: its tag, the text it covers, where that text
/// lies, and the nodes inside it in source order.
#[derive(Debug)]
pub struct Node {
    pub rule: Rule,
    pub text: String,
    pub span: Span,
    pub children: Vec<Node>,
}

/// What a syntax node stands for in contracts.
pub struct Tree {
    pub rule: Rule,
    pub text: Seq<char>,
    pub span: Span,
    pub children: Seq<Tree>,
}

/// The tree that a node stands for: its own tag, text and span, and the trees
/// of its children in order.
pub open spec fn tree_of(node: Node) -> Tree
    decreases node,
{
    Tree {
        rule: node.rule,
        text: node.text@,
        span: node.span,
        children: Seq::new(
            node.children.len() as nat,
            |i: int|
                if 0 <= i < node.children.len() {
                    tree_of(node.children[i])
                } else {
                    arbitrary()
                },
        ),
    }
}

impl View for Node {
    type V = Tree;

    open spec fn view(&self) -> Tree {
        tree_of(*self)
    }
}

impl DeepView for Node {
    type V = Tree;

    open spec fn deep_view(&self) -> Tree {
        self@
    }
}

/// A prefix one item longer ends in that item and begins as the prefix did.
pub proof fn lemma_take_step<T>(s: Seq<T>, i: int)
    requires
        0 <= i < s.len(),
    ensures
        s.take(i + 1).drop_last() =~= s.take(i),
        s.take(i + 1).last() == s[i],
        s.take(i + 1).len() == i + 1,
{
}

impl Node {
    /// A node with the given tag, text, place and children.
    pub fn new(rule: Rule, text: &str, span: Span, children: Vec<Node>) -> (node: Node)
        ensures
            node.rule == rule,
            node.text@ == text@,
            node.span == span,
            node.children == children,
    {
        Node { rule, text: text.to_owned(), span, children }
    }

    /// The child at `i`, seen through the view.
    pub proof fn lemma_child(&self, i: int)
        requires
            0 <= i < self.children.len(),
        ensures
            self@.children.len() == self.children.len(),
            self@.children[i] == self.children[i]@,
    {
    }
}

} // verus!
