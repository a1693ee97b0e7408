//! Triggers: a binding's modifiers and keys are gathered slot by slot and
//! then multiplied out into the concrete definitions they denote.

use crate::error::{Failure, ParseError};
use crate::product::{
    checked_count, grid, index_pairs, index_rows, lemma_cell, lemma_index_product_len,
    lemma_product_by_index, lemma_slots, pairs, product, ranges, select, slot_widths, upto,
    widths_of,
};
use crate::range::{expand_range, expansion_of};
use crate::syntax::{lemma_take_step, Node, Rule, Tree};
use crate::token::{Key, KeyAttribute, KeyView, Modifier};
use vstd::prelude::*;
use vstd::string::StrSliceExecFns;

verus! {

/// What a definition stands for in contracts.
pub struct DefinitionView {
    pub modifiers: Seq<Seq<char>>,
    pub key: KeyView,
}

/// One concrete trigger: the modifiers held, in order, and the key pressed.
#[derive(Debug, PartialEq, Eq)]
pub struct Definition {
    pub modifiers: Vec<Modifier>,
    pub key: Key,
}

impl View for Definition {
    type V = DefinitionView;

    open spec fn view(&self) -> DefinitionView {
        DefinitionView { modifiers: self.modifiers.deep_view(), key: self.key@ }
    }
}

impl DeepView for Definition {
    type V = DefinitionView;

    open spec fn deep_view(&self) -> DefinitionView {
        self@
    }
}

/// What an uncompiled definition stands for in contracts.
pub struct Uncompiled {
    pub modifiers: Seq<Seq<Seq<char>>>,
    pub keys: Seq<KeyView>,
}

/// A trigger before expansion: one slot of alternatives per modifier
/// position, and the keys, ranges already written out.
#[derive(Debug)]
pub struct DefinitionUncompiled {
    pub modifiers: Vec<Vec<Modifier>>,
    pub keys: Vec<Key>,
}

impl View for DefinitionUncompiled {
    type V = Uncompiled;

    open spec fn view(&self) -> Uncompiled {
        Uncompiled { modifiers: self.modifiers.deep_view(), keys: self.keys.deep_view() }
    }
}

/// Whether a backslash before `c` makes an escape.
pub open spec fn escapable(c: char) -> bool {
    c == '{' || c == '}' || c == ',' || c == '\\' || c == '-' || c == '+' || c == '~' || c == '@'
}

/// The text with its escape taken off: a backslash and one escapable
/// character stand for that character; any other text stands for itself.
pub open spec fn unescaped(text: Seq<char>) -> Seq<char> {
    if text.len() == 2 && text[0] == '\\' && escapable(text[1]) {
        text.subrange(1, 2)
    } else {
        text
    }
}

/// Whether one of the nodes carries the tag.
pub open spec fn has_rule(nodes: Seq<Tree>, rule: Rule) -> bool {
    exists|i: int| 0 <= i < nodes.len() && (#[trigger] nodes[i]).rule == rule
}

/// Whether a node holds the text of a key.
pub open spec fn names_key(rule: Rule) -> bool {
    rule == Rule::ShorthandAllow || rule == Rule::KeyBase
}

/// The unescaped text of the last node that names the key; empty without one.
pub open spec fn key_text(nodes: Seq<Tree>) -> Seq<char>
    decreases nodes.len(),
{
    if nodes.len() == 0 {
        Seq::empty()
    } else if names_key(nodes.last().rule) {
        unescaped(nodes.last().text)
    } else {
        key_text(nodes.drop_last())
    }
}

/// The key a key node denotes: its text, and a flag for each marker present.
pub open spec fn key_of(component: Tree) -> KeyView {
    KeyView {
        key: key_text(component.children),
        attribute: KeyAttribute::of(
            has_rule(component.children, Rule::Send),
            has_rule(component.children, Rule::OnRelease),
        ),
    }
}

/// A key without flags for each text.
pub open spec fn plain_keys(texts: Seq<Seq<char>>) -> Seq<KeyView> {
    Seq::new(texts.len(), |i: int| KeyView { key: texts[i], attribute: KeyAttribute::Neither })
}

/// The keys a key shorthand lists: each key node gives its key, each range
/// every character it spans; the first range that cannot be expanded fails.
pub open spec fn shorthand_keys(nodes: Seq<Tree>) -> Result<Seq<KeyView>, Failure>
    decreases nodes.len(),
{
    if nodes.len() == 0 {
        Ok(Seq::empty())
    } else {
        match shorthand_keys(nodes.drop_last()) {
            Err(e) => Err(e),
            Ok(keys) => match nodes.last().rule {
                Rule::KeyInShorthand => Ok(keys.push(key_of(nodes.last()))),
                Rule::KeyRange => match expansion_of(nodes.last()) {
                    Ok(texts) => Ok(keys + plain_keys(texts)),
                    Err(e) => Err(e),
                },
                _ => Ok(keys),
            },
        }
    }
}

/// The text of each node.
pub open spec fn texts_of(nodes: Seq<Tree>) -> Seq<Seq<char>> {
    Seq::new(nodes.len(), |i: int| nodes[i].text)
}

/// The accumulator after one more component of a trigger: a modifier adds a
/// slot of one, a modifier shorthand a slot of its alternatives, a key or a
/// key shorthand adds keys, anything else nothing.
pub open spec fn ingested(acc: Uncompiled, component: Tree) -> Result<Uncompiled, Failure> {
    match component.rule {
        Rule::Modifier => Ok(
            Uncompiled { modifiers: acc.modifiers.push(seq![component.text]), keys: acc.keys },
        ),
        Rule::ModifierShorthand | Rule::ModifierOmitShorthand => Ok(
            Uncompiled {
                modifiers: acc.modifiers.push(texts_of(component.children)),
                keys: acc.keys,
            },
        ),
        Rule::Shorthand => match shorthand_keys(component.children) {
            Ok(keys) => Ok(Uncompiled { modifiers: acc.modifiers, keys: acc.keys + keys }),
            Err(e) => Err(e),
        },
        Rule::KeyNormal => Ok(
            Uncompiled { modifiers: acc.modifiers, keys: acc.keys.push(key_of(component)) },
        ),
        _ => Ok(acc),
    }
}

/// The accumulator after all the components in order, from `acc` on; the
/// first failure ends it.
pub open spec fn ingested_all(acc: Uncompiled, components: Seq<Tree>) -> Result<
    Uncompiled,
    Failure,
>
    decreases components.len(),
{
    if components.len() == 0 {
        Ok(acc)
    } else {
        match ingested_all(acc, components.drop_last()) {
            Err(e) => Err(e),
            Ok(so_far) => ingested(so_far, components.last()),
        }
    }
}

/// The definition made of a row of modifiers and a key.
pub open spec fn definition_of(pair: (Seq<Seq<char>>, KeyView)) -> DefinitionView {
    DefinitionView { modifiers: pair.0, key: pair.1 }
}

/// The definitions an uncompiled definition denotes: every row of the
/// product of its modifier slots with every key, rows outermost.
pub open spec fn compiled(u: Uncompiled) -> Seq<DefinitionView> {
    pairs(product(u.modifiers), u.keys).map_values(
        |pair: (Seq<Seq<char>>, KeyView)| definition_of(pair),
    )
}

/// The accumulator with nothing in it.
pub open spec fn nothing() -> Uncompiled {
    Uncompiled { modifiers: Seq::empty(), keys: Seq::empty() }
}

/// The definitions an unbind declaration denotes, or the failure it gives.
pub open spec fn unbound(declaration: Tree) -> Result<Seq<DefinitionView>, Failure> {
    match ingested_all(nothing(), declaration.children) {
        Err(e) => Err(e),
        Ok(u) => if compiled(u).len() > usize::MAX {
            Err(Failure::VariantLimit { span: declaration.span })
        } else {
            Ok(compiled(u))
        },
    }
}

/// A tag occurs among the first `i + 1` nodes if it occurs among the first
/// `i` or on node `i`.
pub proof fn lemma_has_rule_step(nodes: Seq<Tree>, i: int, rule: Rule)
    requires
        0 <= i < nodes.len(),
    ensures
        has_rule(nodes.take(i + 1), rule) == (has_rule(nodes.take(i), rule) || nodes[i].rule
            == rule),
{
    let longer = nodes.take(i + 1);
    let shorter = nodes.take(i);
    if has_rule(longer, rule) {
        let w = choose|w: int| 0 <= w < longer.len() && (#[trigger] longer[w]).rule == rule;
        if w < i {
            assert(shorter[w].rule == rule);
        }
    }
    if has_rule(shorter, rule) {
        let w = choose|w: int| 0 <= w < shorter.len() && (#[trigger] shorter[w]).rule == rule;
        assert(longer[w].rule == rule);
    }
    if nodes[i].rule == rule {
        assert(longer[i].rule == rule);
    }
}

/// Without modifier slots there is one definition per key, with no modifier.
pub proof fn lemma_compiled_keys_only(u: Uncompiled)
    requires
        u.modifiers.len() == 0,
    ensures
        compiled(u).len() == u.keys.len(),
        forall|i: int|
            0 <= i < u.keys.len() ==> #[trigger] compiled(u)[i] == (DefinitionView {
                modifiers: Seq::empty(),
                key: u.keys[i],
            }),
{
    assert(product(u.modifiers) =~= seq![Seq::<Seq<char>>::empty()]);
    assert(compiled(u).len() == u.keys.len()) by (nonlinear_arith)
        requires
            compiled(u).len() == 1 * u.keys.len(),
    ;
    assert forall|i: int| 0 <= i < u.keys.len() implies #[trigger] compiled(u)[i] == (
    DefinitionView { modifiers: Seq::empty(), key: u.keys[i] }) by {
        lemma_cell(i, 1, u.keys.len() as int);
    }
}

fn is_escapable(c: char) -> (r: bool)
    ensures
        r == escapable(c),
{
    c == '{' || c == '}' || c == ',' || c == '\\' || c == '-' || c == '+' || c == '~' || c == '@'
}

/// Takes the escape off a token: a backslash followed by one escapable
/// character gives that character; any other text comes back as it is.
pub fn unescape<'a>(s: &'a str) -> (r: &'a str)
    ensures
        r@ == unescaped(s@),
{
    if s.unicode_len() == 2 {
        if s.get_char(0) == '\\' && is_escapable(s.get_char(1)) {
            return s.substring_char(1, 2);
        }
    }
    s
}

/// Reads a key node: the markers inside it set the flags, the node that
/// names the key gives the text.
pub fn parse_key(component: &Node) -> (key: Key)
    ensures
        key@ == key_of(component@),
{
    let mut attribute = KeyAttribute::Neither;
    let mut key = String::new();
    let ghost nodes = component@.children;
    let mut i: usize = 0;
    while i < component.children.len()
        invariant
            i <= component.children.len(),
            nodes == component@.children,
            nodes.len() == component.children.len(),
            key@ == key_text(nodes.take(i as int)),
            attribute.send() == has_rule(nodes.take(i as int), Rule::Send),
            attribute.on_release() == has_rule(nodes.take(i as int), Rule::OnRelease),
        decreases component.children.len() - i,
    {
        let inner = &component.children[i];
        proof {
            component.lemma_child(i as int);
            lemma_take_step(nodes, i as int);
            lemma_has_rule_step(nodes, i as int, Rule::Send);
            lemma_has_rule_step(nodes, i as int, Rule::OnRelease);
        }
        match inner.rule {
            Rule::Send => {
                attribute = attribute.union(KeyAttribute::Send);
            },
            Rule::OnRelease => {
                attribute = attribute.union(KeyAttribute::OnRelease);
            },
            Rule::ShorthandAllow | Rule::KeyBase => {
                key = unescape(inner.text.as_str()).to_owned();
            },
            _ => {},
        }
        i += 1;
    }
    assert(nodes.take(nodes.len() as int) =~= nodes);
    Key { key, attribute }
}

/// The keys of a key shorthand, in the order written.
fn parse_shorthand(component: &Node) -> (r: Result<Vec<Key>, ParseError>)
    ensures
        match shorthand_keys(component@.children) {
            Ok(keys) => r matches Ok(v) && v.deep_view() == keys,
            Err(e) => r matches Err(x) && x@ == e,
        },
{
    let mut keys: Vec<Key> = Vec::new();
    let ghost nodes = component@.children;
    let mut i: usize = 0;
    assert(keys.deep_view() =~= Seq::<KeyView>::empty());
    while i < component.children.len()
        invariant
            i <= component.children.len(),
            nodes == component@.children,
            nodes.len() == component.children.len(),
            shorthand_keys(nodes.take(i as int)) == Ok::<Seq<KeyView>, Failure>(keys.deep_view()),
        decreases component.children.len() - i,
    {
        let inner = &component.children[i];
        let ghost before = keys.deep_view();
        proof {
            component.lemma_child(i as int);
            lemma_take_step(nodes, i as int);
        }
        match inner.rule {
            Rule::KeyInShorthand => {
                keys.push(parse_key(inner));
                assert(keys.deep_view() =~= before.push(key_of(inner@)));
            },
            Rule::KeyRange => {
                match expand_range(inner) {
                    Ok(texts) => {
                        let mut t: usize = 0;
                        while t < texts.len()
                            invariant
                                t <= texts.len(),
                                keys.deep_view() =~= before + plain_keys(
                                    texts.deep_view(),
                                ).take(t as int),
                            decreases texts.len() - t,
                        {
                            let ghost so_far = keys.deep_view();
                            keys.push(
                                Key { key: texts[t].clone(), attribute: KeyAttribute::Neither },
                            );
                            assert(keys.deep_view() =~= so_far.push(
                                plain_keys(texts.deep_view())[t as int],
                            ));
                            t += 1;
                        }
                        assert(plain_keys(texts.deep_view()).take(texts.len() as int)
                            =~= plain_keys(texts.deep_view()));
                    },
                    Err(e) => {
                        proof {
                            lemma_shorthand_keys_fails(nodes, i as int + 1);
                        }
                        return Err(e);
                    },
                }
            },
            _ => {},
        }
        i += 1;
    }
    assert(nodes.take(nodes.len() as int) =~= nodes);
    Ok(keys)
}

/// Once a prefix of a key shorthand fails, the whole fails the same way.
pub proof fn lemma_shorthand_keys_fails(nodes: Seq<Tree>, n: int)
    requires
        0 <= n <= nodes.len(),
        shorthand_keys(nodes.take(n)) is Err,
    ensures
        shorthand_keys(nodes) == shorthand_keys(nodes.take(n)),
    decreases nodes.len() - n,
{
    if n == nodes.len() {
        assert(nodes.take(n) =~= nodes);
    } else {
        lemma_take_step(nodes, n);
        lemma_shorthand_keys_fails(nodes, n + 1);
    }
}

/// Once a prefix of the components fails, the whole fails the same way.
pub proof fn lemma_ingested_all_fails(acc: Uncompiled, components: Seq<Tree>, n: int)
    requires
        0 <= n <= components.len(),
        ingested_all(acc, components.take(n)) is Err,
    ensures
        ingested_all(acc, components) == ingested_all(acc, components.take(n)),
    decreases components.len() - n,
{
    if n == components.len() {
        assert(components.take(n) =~= components);
    } else {
        lemma_take_step(components, n);
        lemma_ingested_all_fails(acc, components, n + 1);
    }
}

impl Default for DefinitionUncompiled {
    /// An accumulator with no modifier slot and no key.
    fn default() -> (r: Self)
        ensures
            r@ == nothing(),
    {
        let r = DefinitionUncompiled { modifiers: Vec::new(), keys: Vec::new() };
        assert(r@.modifiers =~= Seq::empty());
        assert(r@.keys =~= Seq::empty());
        r
    }
}

impl DefinitionUncompiled {
    /// Takes in one component of a trigger. On a failure the accumulator is
    /// left as it was.
    pub fn ingest(&mut self, component: &Node) -> (r: Result<(), ParseError>)
        ensures
            match ingested(old(self)@, component@) {
                Ok(u) => r is Ok && final(self)@ == u,
                Err(e) => r matches Err(x) && x@ == e && final(self)@ == old(self)@,
            },
    {
        let ghost before = self@;
        match component.rule {
            Rule::Modifier => {
                let mut slot: Vec<Modifier> = Vec::new();
                slot.push(Modifier(component.text.clone()));
                assert(slot.deep_view() =~= seq![component@.text]);
                self.modifiers.push(slot);
                assert(self@.modifiers =~= before.modifiers.push(seq![component@.text]));
            },
            Rule::ModifierShorthand | Rule::ModifierOmitShorthand => {
                let mut slot: Vec<Modifier> = Vec::new();
                let mut i: usize = 0;
                while i < component.children.len()
                    invariant
                        i <= component.children.len(),
                        component@.children.len() == component.children.len(),
                        slot.deep_view() =~= texts_of(component@.children).take(i as int),
                    decreases component.children.len() - i,
                {
                    proof {
                        component.lemma_child(i as int);
                    }
                    let ghost so_far = slot.deep_view();
                    slot.push(Modifier(component.children[i].text.clone()));
                    assert(slot.deep_view() =~= so_far.push(component@.children[i as int].text));
                    i += 1;
                }
                assert(texts_of(component@.children).take(component.children.len() as int)
                    =~= texts_of(component@.children));
                self.modifiers.push(slot);
                assert(self@.modifiers =~= before.modifiers.push(texts_of(component@.children)));
            },
            Rule::Shorthand => {
                let mut keys = parse_shorthand(component)?;
                let ghost added = keys.deep_view();
                self.keys.append(&mut keys);
                assert(self@.keys =~= before.keys + added);
            },
            Rule::KeyNormal => {
                self.keys.push(parse_key(component));
                assert(self@.keys =~= before.keys.push(key_of(component@)));
            },
            _ => {},
        }
        Ok(())
    }

    /// The number of definitions that `compile` gives, or `None` when it
    /// does not fit the machine's word.
    pub fn variants(&self) -> (n: Option<usize>)
        ensures
            n is Some <==> compiled(self@).len() <= usize::MAX,
            n matches Some(count) ==> count == compiled(self@).len(),
    {
        if self.keys.len() == 0 {
            assert(compiled(self@).len() == 0) by (nonlinear_arith)
                requires
                    compiled(self@).len() == product(self@.modifiers).len() * self@.keys.len(),
                    self@.keys.len() == 0,
            ;
            return Some(0);
        }
        match checked_count(&self.modifiers) {
            Some(rows) => {
                assert(compiled(self@).len() == rows * self.keys.len());
                rows.checked_mul(self.keys.len())
            },
            None => {
                assert(compiled(self@).len() > usize::MAX) by (nonlinear_arith)
                    requires
                        compiled(self@).len() == product(self@.modifiers).len()
                            * self@.keys.len(),
                        self@.keys.len() >= 1,
                        product(self@.modifiers).len() > usize::MAX,
                ;
                None
            },
        }
    }

    /// Multiplies the accumulator out: every combination of one modifier per
    /// slot, each with every key. Combinations come in the order of the
    /// slots, the last slot varying fastest, and the keys vary fastest of all.
    pub fn compile(self) -> (defs: Vec<Definition>)
        requires
            compiled(self@).len() <= usize::MAX,
        ensures
            defs.deep_view() == compiled(self@),
    {
        let ghost u = self@;
        proof {
            lemma_slots(&self.modifiers);
        }
        let mut defs: Vec<Definition> = Vec::new();
        if self.modifiers.is_empty() {
            proof {
                lemma_compiled_keys_only(u);
            }
            let mut i: usize = 0;
            while i < self.keys.len()
                invariant
                    i <= self.keys.len(),
                    self@ == u,
                    u.keys.len() == self.keys.len(),
                    defs.len() == i,
                    forall|t: int|
                        0 <= t < i ==> (#[trigger] defs[t])@ == (DefinitionView {
                            modifiers: Seq::empty(),
                            key: u.keys[t],
                        }),
                decreases self.keys.len() - i,
            {
                let modifiers: Vec<Modifier> = Vec::new();
                assert(modifiers.deep_view() =~= Seq::<Seq<char>>::empty());
                defs.push(Definition { modifiers, key: self.keys[i].clone() });
                i += 1;
            }
            assert(defs.deep_view() =~= compiled(u));
            return defs;
        }
        if self.keys.len() == 0 {
            assert(compiled(u).len() == 0) by (nonlinear_arith)
                requires
                    compiled(u).len() == product(u.modifiers).len() * u.keys.len(),
                    u.keys.len() == 0,
            ;
            assert(defs.deep_view() =~= compiled(u));
            return defs;
        }
        let ghost rows_total = product(u.modifiers).len();
        let ghost columns = u.keys.len();
        assert(rows_total <= usize::MAX && rows_total * columns <= usize::MAX)
            by (nonlinear_arith)
            requires
                rows_total * columns <= usize::MAX,
                columns >= 1,
        ;
        let widths = slot_widths(&self.modifiers);
        let rows = index_rows(&widths);
        proof {
            lemma_index_product_len(u.modifiers);
            assert(rows.len() == grid(rows).len());
        }
        let both = index_pairs(rows.len(), self.keys.len());
        let mut p: usize = 0;
        while p < both.len()
            invariant
                p <= both.len(),
                self@ == u,
                u.keys.len() == self.keys.len(),
                columns == u.keys.len(),
                columns >= 1,
                rows_total == product(u.modifiers).len(),
                rows.len() == rows_total,
                u.modifiers.len() == self.modifiers.len(),
                forall|j: int|
                    0 <= j < self.modifiers.len() ==> (#[trigger] u.modifiers[j]).len()
                        == self.modifiers[j].len(),
                forall|j: int|
                    0 <= j < u.modifiers.len() ==> (#[trigger] u.modifiers[j]).len()
                        <= usize::MAX,
                forall|j: int, i: int|
                    0 <= j < self.modifiers.len() && 0 <= i < self.modifiers[j].len() ==> (
                    #[trigger] u.modifiers[j][i]) == self.modifiers[j][i]@,
                grid(rows) == product(ranges(widths_of(u.modifiers))),
                both@ == pairs(upto(rows.len()), upto(self.keys.len())),
                both.len() == compiled(u).len(),
                defs.len() == p,
                forall|t: int| 0 <= t < p ==> (#[trigger] defs[t])@ == compiled(u)[t],
            decreases both.len() - p,
        {
            proof {
                lemma_cell(p as int, rows_total as int, columns as int);
            }
            let (r, k) = both[p];
            assert(r == p as int / columns as int);
            assert(k == p as int % columns as int);
            proof {
                lemma_product_by_index(u.modifiers, r as int);
                assert(grid(rows)[r as int] == rows[r as int]@);
            }
            let modifiers = select(&self.modifiers, &rows[r]);
            assert(modifiers.deep_view() =~= product(u.modifiers)[r as int]) by {
                assert forall|j: int| 0 <= j < modifiers.len() implies modifiers.deep_view()[j]
                    == product(u.modifiers)[r as int][j] by {
                    let i = rows[r as int]@[j];
                    assert(cloned(self.modifiers[j][i as int], modifiers[j]));
                }
            }
            defs.push(Definition { modifiers, key: self.keys[k].clone() });
            p += 1;
        }
        assert(defs.deep_view() =~= compiled(u));
        defs
    }
}

/// Compiles an unbind declaration: its components are taken in, in order,
/// and multiplied out. An unbind has no command side.
pub fn unbind_parser(declaration: &Node) -> (r: Result<Vec<Definition>, ParseError>)
    ensures
        match unbound(declaration@) {
            Ok(defs) => r matches Ok(v) && v.deep_view() == defs,
            Err(e) => r matches Err(x) && x@ == e,
        },
{
    let mut uncompiled = DefinitionUncompiled::default();
    let ghost nodes = declaration@.children;
    let mut i: usize = 0;
    assert(nodes.take(0) =~= Seq::<Tree>::empty());
    while i < declaration.children.len()
        invariant
            i <= declaration.children.len(),
            nodes == declaration@.children,
            nodes.len() == declaration.children.len(),
            ingested_all(nothing(), nodes.take(i as int)) == Ok::<Uncompiled, Failure>(
                uncompiled@,
            ),
        decreases declaration.children.len() - i,
    {
        proof {
            declaration.lemma_child(i as int);
            lemma_take_step(nodes, i as int);
        }
        match uncompiled.ingest(&declaration.children[i]) {
            Ok(()) => {},
            Err(e) => {
                proof {
                    lemma_ingested_all_fails(nothing(), nodes, i as int + 1);
                }
                return Err(e);
            },
        }
        i += 1;
    }
    assert(nodes.take(nodes.len() as int) =~= nodes);
    match uncompiled.variants() {
        Some(_) => Ok(uncompiled.compile()),
        None => Err(ParseError::VariantLimit { span: declaration.span }),
    }
}

} // verus!
