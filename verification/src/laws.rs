//! What holds of every compilation, stated over the functions that the
//! compiler's contracts are written in.

use crate::binding::{bound, gathered, zipped, BindingView, Parts};
use crate::command::{command_slots, commands_of, joined};
use crate::definition::{
    compiled, escapable, ingested, ingested_all, key_of, lemma_compiled_keys_only, nothing,
    plain_keys, shorthand_keys, texts_of, unbound, unescaped, DefinitionView, Uncompiled,
};
use crate::error::Failure;
use crate::parser::{
    children_of, declared, declared_all, first_failure, input_content, lemma_unseen_insert,
    lemma_visit_new, lemma_visit_seen, merged, resolved, unseen, vacant, visit_order, Config,
    Input, Source,
};
use crate::paths::{
    increasing, lemma_inserted_all, lemma_precedes_asymmetric, lemma_precedes_irreflexive,
    precedes,
};
use crate::product::{
    lemma_cell, lemma_cell_at, lemma_product_by_index, lemma_product_len, lemma_product_single,
    lemma_ranges_widths, product, ranges, upto, volume, widths_of,
};
use crate::range::{ascii, bounds_of, expansion_of, span_of};
use crate::syntax::{Rule, Tree};
use crate::token::{KeyAttribute, KeyView};
use vstd::prelude::*;

verus! {

/// One slot of modifiers and one key give one definition per modifier of the
/// slot, in the slot's order, each with that modifier alone and the key.
pub proof fn law_one_slot_one_key(slot: Seq<Seq<char>>, key: KeyView)
    ensures
        compiled(Uncompiled { modifiers: seq![slot], keys: seq![key] }).len() == slot.len(),
        forall|i: int|
            0 <= i < slot.len() ==> #[trigger] compiled(
                Uncompiled { modifiers: seq![slot], keys: seq![key] },
            )[i] == (DefinitionView { modifiers: seq![slot[i]], key }),
{
    let u = Uncompiled { modifiers: seq![slot], keys: seq![key] };
    lemma_product_single(slot);
    assert(compiled(u).len() == slot.len()) by (nonlinear_arith)
        requires
            compiled(u).len() == product(u.modifiers).len() * 1,
            product(u.modifiers).len() == slot.len(),
    ;
    assert forall|i: int| 0 <= i < slot.len() implies #[trigger] compiled(u)[i] == (
    DefinitionView { modifiers: seq![slot[i]], key }) by {
        assert(i / 1 == i && i % 1 == 0) by {
            lemma_cell_at(i, 0, slot.len() as int, 1);
            assert(i * 1 + 0 == i);
        }
        assert(product(u.modifiers)[i] == seq![slot[i]]);
    }
}

/// A trigger written as one modifier shorthand and one plain key denotes one
/// definition per alternative of the shorthand, in the order written, each
/// with that alternative as its only modifier and with the same key.
pub proof fn law_modifier_shorthand(declaration: Tree)
    requires
        declaration.children.len() == 2,
        declaration.children[0].rule == Rule::ModifierShorthand,
        declaration.children[1].rule == Rule::KeyNormal,
        declaration.children[0].children.len() <= usize::MAX,
    ensures
        unbound(declaration) matches Ok(definitions) && definitions.len()
            == declaration.children[0].children.len() && forall|i: int|
            0 <= i < definitions.len() ==> #[trigger] definitions[i] == (DefinitionView {
                modifiers: seq![declaration.children[0].children[i].text],
                key: key_of(declaration.children[1]),
            }),
{
    let shorthand = declaration.children[0];
    let key = declaration.children[1];
    let slot = texts_of(shorthand.children);
    let nodes = declaration.children;
    reveal_with_fuel(ingested_all, 3);
    assert(nodes.drop_last().drop_last() =~= Seq::<Tree>::empty());
    assert(nodes.drop_last().last() == shorthand);
    assert(ingested_all(nothing(), nodes.drop_last().drop_last()) == Ok::<Uncompiled, Failure>(
        nothing(),
    ));
    let first = Uncompiled { modifiers: nothing().modifiers.push(slot), keys: nothing().keys };
    assert(ingested(nothing(), shorthand) == Ok::<Uncompiled, Failure>(first));
    assert(ingested_all(nothing(), nodes.drop_last()) == Ok::<Uncompiled, Failure>(first));
    let second = Uncompiled { modifiers: first.modifiers, keys: first.keys.push(key_of(key)) };
    assert(ingested_all(nothing(), nodes) == Ok::<Uncompiled, Failure>(second));
    assert(second.modifiers =~= seq![slot]);
    assert(second.keys =~= seq![key_of(key)]);
    law_one_slot_one_key(slot, key_of(key));
    assert(compiled(second).len() == shorthand.children.len());
}

/// A binding whose sides multiply out to different numbers of variants,
/// both within what can be counted, does not compile: it fails with both
/// numbers and the binding's place.
pub proof fn law_variant_mismatch(declaration: Tree)
    requires
        gathered(declaration.children) is Ok,
        compiled(gathered(declaration.children)->Ok_0.trigger).len() <= usize::MAX,
        commands_of(gathered(declaration.children)->Ok_0.command).len() <= usize::MAX,
        compiled(gathered(declaration.children)->Ok_0.trigger).len() != commands_of(
            gathered(declaration.children)->Ok_0.command,
        ).len(),
    ensures
        bound(declaration) == Err::<Seq<BindingView>, Failure>(
            Failure::VariantMismatch {
                bindings: compiled(gathered(declaration.children)->Ok_0.trigger).len(),
                commands: commands_of(gathered(declaration.children)->Ok_0.command).len(),
                span: declaration.span,
            },
        ),
{
}

/// A binding that compiles gives as many bindings as each of its sides has
/// variants, and binding `i` pairs variant `i` of the trigger with variant
/// `i` of the command.
pub proof fn law_positional_pairing(declaration: Tree)
    requires
        bound(declaration) is Ok,
    ensures
        gathered(declaration.children) matches Ok(parts) && bound(declaration)->Ok_0.len()
            == compiled(parts.trigger).len() && bound(declaration)->Ok_0.len() == commands_of(
            parts.command,
        ).len() && forall|i: int|
            0 <= i < bound(declaration)->Ok_0.len() ==> #[trigger] bound(declaration)->Ok_0[i]
                == (BindingView {
                definition: compiled(parts.trigger)[i],
                command: commands_of(parts.command)[i],
            }),
{
}

/// Endpoints that a range is expanded from are ASCII characters, the lower
/// strictly below the upper.
pub proof fn law_sound_bounds(range: Tree)
    requires
        bounds_of(range) is Ok,
    ensures
        ascii(bounds_of(range)->Ok_0.0),
        ascii(bounds_of(range)->Ok_0.1),
        (bounds_of(range)->Ok_0.0 as int) < (bounds_of(range)->Ok_0.1 as int),
        range.children.len() >= 2,
        range.children[0].text == seq![bounds_of(range)->Ok_0.0],
        range.children[1].text == seq![bounds_of(range)->Ok_0.1],
{
    assert(range.children[0].text =~= seq![bounds_of(range)->Ok_0.0]);
    assert(range.children[1].text =~= seq![bounds_of(range)->Ok_0.1]);
}

/// Taking the escape off changes a text only if it is a backslash and one
/// escapable character, and then leaves that character alone.
pub proof fn law_unescape(text: Seq<char>)
    ensures
        unescaped(text) != text <==> text.len() == 2 && text[0] == '\\' && escapable(text[1]),
        unescaped(text) != text ==> unescaped(text) == seq![text[1]],
{
    if text.len() == 2 && text[0] == '\\' && escapable(text[1]) {
        assert(text.subrange(1, 2) =~= seq![text[1]]);
        assert(unescaped(text).len() == 1);
    }
}

/// A range from `lower` to `upper` spans every character from the one to
/// the other, both included, in ascending order.
pub proof fn law_range_span(lower: char, upper: char)
    requires
        ascii(lower),
        ascii(upper),
        (lower as int) < (upper as int),
    ensures
        span_of(lower, upper).len() == upper as int - lower as int + 1,
        span_of(lower, upper).first() == seq![lower],
        span_of(lower, upper).last() == seq![upper],
        forall|i: int|
            0 <= i < span_of(lower, upper).len() ==> (#[trigger] span_of(lower, upper)[i]).len()
                == 1 && span_of(lower, upper)[i][0] as int == lower as int + i,
{
    let n = upper as int - lower as int;
    assert(((lower as int + 0) as u8) as char == lower);
    assert(((lower as int + n) as u8) as char == upper);
}

/// A key shorthand that holds one range with sound endpoints lists one key
/// per character of the range, in ascending order, each without flags.
pub proof fn law_range_keys(shorthand: Tree)
    requires
        shorthand.children.len() == 1,
        shorthand.children[0].rule == Rule::KeyRange,
        bounds_of(shorthand.children[0]) is Ok,
    ensures
        shorthand_keys(shorthand.children) == Ok::<Seq<KeyView>, Failure>(
            plain_keys(
                span_of(
                    bounds_of(shorthand.children[0])->Ok_0.0,
                    bounds_of(shorthand.children[0])->Ok_0.1,
                ),
            ),
        ),
        forall|i: int|
            0 <= i < shorthand_keys(shorthand.children)->Ok_0.len() ==> (
            #[trigger] shorthand_keys(shorthand.children)->Ok_0[i]).attribute
                == KeyAttribute::Neither,
{
    let nodes = shorthand.children;
    let range = nodes[0];
    reveal_with_fuel(shorthand_keys, 2);
    assert(nodes.drop_last() =~= Seq::<Tree>::empty());
    assert(nodes.last() == range);
    let (lower, upper) = bounds_of(range)->Ok_0;
    assert(expansion_of(range) == Ok::<Seq<Seq<char>>, Failure>(span_of(lower, upper)));
    assert(Seq::<KeyView>::empty() + plain_keys(span_of(lower, upper)) =~= plain_keys(
        span_of(lower, upper),
    ));
}

/// Whether a declaration binds one plain key, without modifiers, to one
/// literal command.
pub open spec fn plain_binding(declaration: Tree) -> bool {
    &&& declaration.rule == Rule::Binding
    &&& declaration.children.len() == 2
    &&& declaration.children[0].rule == Rule::KeyNormal
    &&& declaration.children[1].rule == Rule::Command
    &&& declaration.children[1].children.len() == 1
    &&& declaration.children[1].children[0].rule == Rule::CommandStandalone
}

/// The binding that a plain binding denotes: its key, no modifier, its command.
pub open spec fn plain_bound(declaration: Tree) -> BindingView {
    BindingView {
        definition: DefinitionView {
            modifiers: Seq::empty(),
            key: key_of(declaration.children[0]),
        },
        command: declaration.children[1].children[0].text,
    }
}

/// A plain binding compiles to the one binding it denotes.
pub proof fn law_plain_binding(declaration: Tree)
    requires
        plain_binding(declaration),
    ensures
        bound(declaration) == Ok::<Seq<BindingView>, Failure>(seq![plain_bound(declaration)]),
{
    let nodes = declaration.children;
    let key = nodes[0];
    let command = nodes[1];
    let text = command.children[0].text;
    reveal_with_fuel(gathered, 3);
    reveal_with_fuel(command_slots, 2);
    assert(nodes.drop_last().drop_last() =~= Seq::<Tree>::empty());
    assert(nodes.drop_last().last() == key);
    let trigger = Uncompiled { modifiers: nothing().modifiers, keys: nothing().keys.push(key_of(key)) };
    assert(ingested(nothing(), key) == Ok::<Uncompiled, Failure>(trigger));
    assert(gathered(nodes.drop_last()) == Ok::<Parts, Failure>(
        Parts { trigger, command: Seq::empty() },
    ));
    assert(command.children.drop_last() =~= Seq::<Tree>::empty());
    let slots = Seq::<Seq<Seq<char>>>::empty().push(seq![text]);
    assert(command_slots(Seq::empty(), command.children) == Ok::<Seq<Seq<Seq<char>>>, Failure>(
        slots,
    ));
    let parts = Parts { trigger, command: slots };
    assert(gathered(nodes) == Ok::<Parts, Failure>(parts));
    lemma_compiled_keys_only(trigger);
    assert(trigger.keys =~= seq![key_of(key)]);
    assert(slots =~= seq![seq![text]]);
    lemma_product_single(seq![text]);
    assert(product(slots)[0] == seq![text]);
    seq![text].lemma_flatten_one_element();
    assert(joined(seq![text]) == text);
    assert(commands_of(slots).len() == 1);
    assert(commands_of(slots)[0] == text);
    assert(compiled(trigger)[0] == plain_bound(declaration).definition);
    assert(zipped(compiled(trigger), commands_of(slots)) =~= seq![plain_bound(declaration)]);
}

/// Plain bindings, however many, compile to as many bindings, binding `i`
/// with the key and the command of declaration `i` and with no modifier;
/// there is no unbind, no mode and no import.
pub proof fn law_plain_bindings(declarations: Seq<Tree>)
    requires
        forall|i: int| 0 <= i < declarations.len() ==> plain_binding(#[trigger] declarations[i]),
    ensures
        declared_all(declarations) == Ok::<Config, Failure>(
            Config {
                bindings: Seq::new(declarations.len(), |i: int| plain_bound(declarations[i])),
                ..vacant()
            },
        ),
    decreases declarations.len(),
{
    let expected = Seq::new(declarations.len(), |i: int| plain_bound(declarations[i]));
    if declarations.len() == 0 {
        assert(expected =~= vacant().bindings);
    } else {
        let init = declarations.drop_last();
        let last = declarations.last();
        law_plain_bindings(init);
        law_plain_binding(last);
        let before = Seq::new(init.len(), |i: int| plain_bound(init[i]));
        assert(before + seq![plain_bound(last)] =~= expected);
    }
}

/// A text of plain bindings alone, compiled as the input, gives exactly
/// their bindings, whatever the source files hold.
pub proof fn law_plain_config(sections: Seq<Tree>, sources: Seq<Source>)
    requires
        sections.len() > 0,
        forall|i: int|
            0 <= i < sections[0].children.len() ==> plain_binding(
                #[trigger] sections[0].children[i],
            ),
    ensures
        resolved(Input::Raw(Ok(sections)), sources) == Ok::<Config, Failure>(
            Config {
                bindings: Seq::new(
                    sections[0].children.len(),
                    |i: int| plain_bound(sections[0].children[i]),
                ),
                ..vacant()
            },
        ),
{
    law_plain_bindings(sections[0].children);
    let own = declared_all(sections[0].children)->Ok_0;
    let order = visit_order(sources, own.imports, Set::empty());
    assert(order =~= Seq::<Seq<char>>::empty());
}

/// Whether the compiler reads a top-level node with this tag.
pub open spec fn declares(rule: Rule) -> bool {
    rule == Rule::Binding || rule == Rule::Unbind || rule == Rule::Mode || rule == Rule::Import
}

/// A top-level node that is no declaration changes nothing, wherever it
/// stands: only bindings, unbinds, modes and imports are compiled.
pub proof fn law_only_declarations_count(declarations: Seq<Tree>, at: int, other: Tree)
    requires
        0 <= at <= declarations.len(),
        !declares(other.rule),
    ensures
        declared_all(declarations.insert(at, other)) == declared_all(declarations),
    decreases declarations.len(),
{
    let longer = declarations.insert(at, other);
    if at == declarations.len() {
        assert(longer.drop_last() =~= declarations);
        assert(longer.last() == other);
        if declared_all(declarations) is Ok {
            assert(declared(declared_all(declarations)->Ok_0, other) == Ok::<Config, Failure>(
                declared_all(declarations)->Ok_0,
            ));
        }
    } else {
        assert(longer.drop_last() =~= declarations.drop_last().insert(at, other));
        assert(longer.last() == declarations.last());
        law_only_declarations_count(declarations.drop_last(), at, other);
    }
}

/// No path is taken in twice, and none that was seen before.
pub proof fn law_taken_once(sources: Seq<Source>, pending: Seq<Seq<char>>, seen: Set<Seq<char>>)
    ensures
        visit_order(sources, pending, seen).no_duplicates(),
        forall|i: int|
            0 <= i < visit_order(sources, pending, seen).len() ==> !seen.contains(
                #[trigger] visit_order(sources, pending, seen)[i],
            ),
    decreases unseen(sources, seen), pending.len(),
{
    if pending.len() > 0 {
        let path = pending[0];
        lemma_unseen_insert(sources, seen, path);
        if seen.contains(path) {
            lemma_visit_seen(sources, pending, seen);
            law_taken_once(sources, pending.drop_first(), seen);
        } else {
            lemma_visit_new(sources, pending, seen);
            let next = children_of(sources, path) + pending.drop_first();
            law_taken_once(sources, next, seen.insert(path));
            let tail = visit_order(sources, next, seen.insert(path));
            let order = visit_order(sources, pending, seen);
            assert(order == seq![path] + tail);
            assert forall|i: int, j: int| 0 <= i < j < order.len() implies order[i]
                != order[j] by {
                assert(order[j] == tail[j - 1]);
                if i > 0 {
                    assert(order[i] == tail[i - 1]);
                }
            }
            assert forall|i: int| 0 <= i < order.len() implies !seen.contains(
                #[trigger] order[i],
            ) by {
                if i > 0 {
                    assert(order[i] == tail[i - 1]);
                }
            }
        }
    }
}

/// Every pending path is taken in, unless it was seen before.
pub proof fn law_pending_taken(
    sources: Seq<Source>,
    pending: Seq<Seq<char>>,
    seen: Set<Seq<char>>,
)
    ensures
        forall|i: int|
            0 <= i < pending.len() ==> seen.contains(#[trigger] pending[i]) || visit_order(
                sources,
                pending,
                seen,
            ).contains(pending[i]),
    decreases unseen(sources, seen), pending.len(),
{
    if pending.len() > 0 {
        let path = pending[0];
        let rest = pending.drop_first();
        let order = visit_order(sources, pending, seen);
        lemma_unseen_insert(sources, seen, path);
        if seen.contains(path) {
            lemma_visit_seen(sources, pending, seen);
            law_pending_taken(sources, rest, seen);
            assert forall|i: int| 0 <= i < pending.len() implies seen.contains(
                #[trigger] pending[i],
            ) || order.contains(pending[i]) by {
                if i > 0 {
                    assert(pending[i] == rest[i - 1]);
                }
            }
        } else {
            lemma_visit_new(sources, pending, seen);
            let children = children_of(sources, path);
            let next = children + rest;
            law_pending_taken(sources, next, seen.insert(path));
            let tail = visit_order(sources, next, seen.insert(path));
            assert(order == seq![path] + tail);
            assert(order[0] == path);
            assert forall|i: int| 0 <= i < pending.len() implies seen.contains(
                #[trigger] pending[i],
            ) || order.contains(pending[i]) by {
                if i > 0 {
                    assert(pending[i] == next[children.len() + i - 1]);
                    if tail.contains(pending[i]) {
                        let w = choose|w: int| 0 <= w < tail.len() && tail[w] == pending[i];
                        assert(order[w + 1] == pending[i]);
                    }
                }
            }
        }
    }
}

/// What a file taken in imports is taken in too, unless it was seen before.
pub proof fn law_imports_followed(
    sources: Seq<Source>,
    pending: Seq<Seq<char>>,
    seen: Set<Seq<char>>,
)
    ensures
        forall|i: int, c: int|
            0 <= i < visit_order(sources, pending, seen).len() && 0 <= c < children_of(
                sources,
                visit_order(sources, pending, seen)[i],
            ).len() ==> seen.contains(
                #[trigger] children_of(sources, visit_order(sources, pending, seen)[i])[c],
            ) || visit_order(sources, pending, seen).contains(
                children_of(sources, visit_order(sources, pending, seen)[i])[c],
            ),
    decreases unseen(sources, seen), pending.len(),
{
    if pending.len() > 0 {
        let path = pending[0];
        let rest = pending.drop_first();
        let order = visit_order(sources, pending, seen);
        lemma_unseen_insert(sources, seen, path);
        if seen.contains(path) {
            lemma_visit_seen(sources, pending, seen);
            law_imports_followed(sources, rest, seen);
        } else {
            lemma_visit_new(sources, pending, seen);
            let children = children_of(sources, path);
            let next = children + rest;
            let tail = visit_order(sources, next, seen.insert(path));
            law_imports_followed(sources, next, seen.insert(path));
            law_pending_taken(sources, next, seen.insert(path));
            assert(order == seq![path] + tail);
            assert(order[0] == path);
            assert forall|i: int, c: int|
                0 <= i < order.len() && 0 <= c < children_of(sources, order[i]).len() implies
                seen.contains(#[trigger] children_of(sources, order[i])[c]) || order.contains(
                children_of(sources, order[i])[c],
            ) by {
                let child = children_of(sources, order[i])[c];
                if i == 0 {
                    assert(next[c] == child);
                } else {
                    assert(order[i] == tail[i - 1]);
                }
                if tail.contains(child) {
                    let w = choose|w: int| 0 <= w < tail.len() && tail[w] == child;
                    assert(order[w + 1] == child);
                }
            }
        }
    }
}

/// Every path taken in was pending, or is imported by a file taken in before it.
pub proof fn law_taken_for_a_reason(
    sources: Seq<Source>,
    pending: Seq<Seq<char>>,
    seen: Set<Seq<char>>,
    k: int,
)
    requires
        0 <= k < visit_order(sources, pending, seen).len(),
    ensures
        pending.contains(visit_order(sources, pending, seen)[k]) || exists|j: int|
            0 <= j < k && #[trigger] children_of(
                sources,
                visit_order(sources, pending, seen)[j],
            ).contains(visit_order(sources, pending, seen)[k]),
    decreases unseen(sources, seen), pending.len(),
{
    let path = pending[0];
    let rest = pending.drop_first();
    let order = visit_order(sources, pending, seen);
    lemma_unseen_insert(sources, seen, path);
    if seen.contains(path) {
        lemma_visit_seen(sources, pending, seen);
        law_taken_for_a_reason(sources, rest, seen, k);
        if rest.contains(order[k]) {
            let w = choose|w: int| 0 <= w < rest.len() && rest[w] == order[k];
            assert(pending[w + 1] == order[k]);
        }
    } else {
        lemma_visit_new(sources, pending, seen);
        let children = children_of(sources, path);
        let next = children + rest;
        let tail = visit_order(sources, next, seen.insert(path));
        assert(order == seq![path] + tail);
        assert(order[0] == path);
        if k == 0 {
            assert(pending[0] == order[k]);
        } else {
            assert(order[k] == tail[k - 1]);
            law_taken_for_a_reason(sources, next, seen.insert(path), k - 1);
            if next.contains(tail[k - 1]) {
                let w = choose|w: int| 0 <= w < next.len() && next[w] == tail[k - 1];
                if w < children.len() {
                    assert(children[w] == order[k]);
                    assert(children_of(sources, order[0]).contains(order[k]));
                } else {
                    assert(pending[w - children.len() + 1] == order[k]);
                }
            } else {
                let j = choose|j: int|
                    0 <= j < k - 1 && #[trigger] children_of(sources, tail[j]).contains(
                        tail[k - 1],
                    );
                assert(order[j + 1] == tail[j]);
                assert(children_of(sources, order[j + 1]).contains(order[k]));
            }
        }
    }
}

/// Of a configuration that compiles: the files imported are taken in one
/// after the other, none twice; what each declares stands behind what the
/// input declares, in the order they are taken in; and the imports are
/// exactly the paths taken in, in ascending order.
pub proof fn law_import_closure(input: Input, sources: Seq<Source>)
    requires
        resolved(input, sources) is Ok,
    ensures
        input_content(input, sources) matches Ok(own) && ({
            let order = visit_order(sources, own.imports, Set::empty());
            let config = resolved(input, sources)->Ok_0;
            &&& order.no_duplicates()
            &&& first_failure(sources, order) is None
            &&& config.bindings == merged(own, sources, order).bindings
            &&& config.unbinds == merged(own, sources, order).unbinds
            &&& config.modes == merged(own, sources, order).modes
            &&& increasing(config.imports)
            &&& config.imports.to_set() == order.to_set()
        }),
{
    let own = input_content(input, sources)->Ok_0;
    let order = visit_order(sources, own.imports, Set::empty());
    law_taken_once(sources, own.imports, Set::empty());
    lemma_inserted_all(Seq::empty(), order);
    assert(Seq::<Seq<char>>::empty().to_set() =~= Set::<Seq<char>>::empty());
    assert(Set::<Seq<char>>::empty().union(order.to_set()) =~= order.to_set());
}

/// Ascending paths are settled by what they hold: two ascending sequences
/// that hold the same paths are the same sequence.
pub proof fn law_ascending_unique(s: Seq<Seq<char>>, t: Seq<Seq<char>>)
    requires
        increasing(s),
        increasing(t),
        s.to_set() == t.to_set(),
    ensures
        s == t,
    decreases s.len(),
{
    if s.len() == 0 {
        if t.len() > 0 {
            assert(t.to_set().contains(t[0]));
            assert(s.contains(t[0]));
        }
        assert(s =~= t);
    } else if t.len() == 0 {
        assert(s.to_set().contains(s[0]));
        assert(t.contains(s[0]));
    } else {
        // the greatest paths of both agree
        let a = s.last();
        let b = t.last();
        assert(s.to_set().contains(a));
        assert(t.contains(a));
        assert(t.to_set().contains(b));
        assert(s.contains(b));
        let ia = choose|w: int| 0 <= w < t.len() && t[w] == a;
        let ib = choose|w: int| 0 <= w < s.len() && s[w] == b;
        if a != b {
            assert(ia < t.len() - 1);
            assert(ib < s.len() - 1);
            assert(precedes(t[ia], t[t.len() - 1]));
            assert(precedes(s[ib], s[s.len() - 1]));
            lemma_precedes_asymmetric(a, b);
        }
        let si = s.drop_last();
        let ti = t.drop_last();
        assert(increasing(si)) by {
            assert forall|i: int, j: int| 0 <= i < j < si.len() implies precedes(
                #[trigger] si[i],
                #[trigger] si[j],
            ) by {
                assert(precedes(s[i], s[j]));
            }
        }
        assert(increasing(ti)) by {
            assert forall|i: int, j: int| 0 <= i < j < ti.len() implies precedes(
                #[trigger] ti[i],
                #[trigger] ti[j],
            ) by {
                assert(precedes(t[i], t[j]));
            }
        }
        assert(si.to_set() =~= ti.to_set()) by {
            assert forall|y: Seq<char>| si.to_set().contains(y) <==> ti.to_set().contains(y) by {
                lemma_precedes_irreflexive(a);
                if si.contains(y) {
                    let w = choose|w: int| 0 <= w < si.len() && si[w] == y;
                    assert(precedes(s[w], s[s.len() - 1]));
                    assert(s.to_set().contains(s[w]));
                    assert(t.contains(y));
                    let v = choose|v: int| 0 <= v < t.len() && t[v] == y;
                    assert(v < t.len() - 1);
                    assert(ti[v] == y);
                }
                if ti.contains(y) {
                    let w = choose|w: int| 0 <= w < ti.len() && ti[w] == y;
                    assert(precedes(t[w], t[t.len() - 1]));
                    assert(t.to_set().contains(t[w]));
                    assert(s.contains(y));
                    let v = choose|v: int| 0 <= v < s.len() && s[v] == y;
                    assert(v < s.len() - 1);
                    assert(si[v] == y);
                }
            }
        }
        law_ascending_unique(si, ti);
        assert(s =~= si.push(a));
        assert(t =~= ti.push(b));
    }
}

/// An uncompiled definition denotes as many definitions as the widths of
/// its modifier slots and the number of its keys multiply to.
pub proof fn law_variant_count(u: Uncompiled)
    requires
        forall|j: int| 0 <= j < u.modifiers.len() ==> (#[trigger] u.modifiers[j]).len() <= usize::MAX,
    ensures
        compiled(u).len() == volume(widths_of(u.modifiers)) * u.keys.len(),
{
    lemma_product_len(u.modifiers);
}

/// Whether index row `a` comes before index row `b`: at the first slot where
/// they differ, `a` has the smaller index.
pub open spec fn row_before(a: Seq<usize>, b: Seq<usize>) -> bool {
    exists|p: int|
        0 <= p < a.len() && p < b.len() && a[p] < b[p] && forall|t: int|
            0 <= t < p ==> a[t] == b[t]
}

/// The rows of a product come in lexicographic order: of two rows, the
/// earlier one has the smaller index at the first slot where they differ.
pub proof fn law_rows_ascend(widths: Seq<usize>, k1: int, k2: int)
    requires
        0 <= k1 < k2 < product(ranges(widths)).len(),
    ensures
        row_before(product(ranges(widths))[k1], product(ranges(widths))[k2]),
    decreases widths.len(),
{
    let slots = ranges(widths);
    if widths.len() > 0 {
        let init = widths.drop_last();
        let width = widths.last() as int;
        assert(slots.drop_last() =~= ranges(init));
        assert(slots.last() =~= upto(widths.last()));
        let rows = product(ranges(init));
        lemma_cell(k1, rows.len() as int, width);
        lemma_cell(k2, rows.len() as int, width);
        let q1 = k1 / width;
        let q2 = k2 / width;
        let r1 = k1 % width;
        let r2 = k2 % width;
        let a = product(slots)[k1];
        let b = product(slots)[k2];
        assert(a == rows[q1].push(upto(widths.last())[r1]));
        assert(b == rows[q2].push(upto(widths.last())[r2]));
        assert(q1 <= q2) by (nonlinear_arith)
            requires
                k1 < k2,
                k1 == q1 * width + r1,
                k2 == q2 * width + r2,
                0 <= r1 < width,
                0 <= r2 < width,
        ;
        lemma_ranges_widths(init);
        lemma_product_by_index(ranges(init), q1);
        lemma_product_by_index(ranges(init), q2);
        assert(rows[q1].len() == init.len());
        assert(rows[q2].len() == init.len());
        if q1 < q2 {
            law_rows_ascend(init, q1, q2);
            let p = choose|p: int|
                0 <= p < rows[q1].len() && p < rows[q2].len() && rows[q1][p] < rows[q2][p]
                    && forall|t: int| 0 <= t < p ==> rows[q1][t] == rows[q2][t];
            assert(a[p] == rows[q1][p]);
            assert(b[p] == rows[q2][p]);
            assert forall|t: int| 0 <= t < p implies a[t] == b[t] by {
                assert(a[t] == rows[q1][t]);
                assert(b[t] == rows[q2][t]);
            }
        } else {
            let p = init.len() as int;
            assert(r1 < r2);
            assert(a[p] == r1);
            assert(b[p] == r2);
            assert forall|t: int| 0 <= t < p implies a[t] == b[t] by {
                assert(a[t] == rows[q1][t]);
                assert(b[t] == rows[q2][t]);
            }
        }
    }
}

} // verus!
