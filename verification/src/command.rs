//! Commands: a binding's command is a run of fragments, each a literal or a
//! shorthand of alternatives; multiplied out, every combination is joined
//! into one command string.

use crate::error::{Failure, ParseError};
use crate::product::{
    checked_count, grid, index_rows, lemma_index_product_len, lemma_product_by_index,
    lemma_slots, product, ranges, slot_widths, widths_of,
};
use crate::range::{expand_range, expansion_of};
use crate::syntax::{lemma_take_step, Node, Rule, Tree};
use vstd::prelude::*;
use vstd::string::StringExecFns;

verus! {

/// The alternatives a command shorthand lists: each component gives its
/// text, each range every character it spans; the first range that cannot be
/// expanded fails.
pub open spec fn command_variants(nodes: Seq<Tree>) -> Result<Seq<Seq<char>>, Failure>
    decreases nodes.len(),
{
    if nodes.len() == 0 {
        Ok(Seq::empty())
    } else {
        match command_variants(nodes.drop_last()) {
            Err(e) => Err(e),
            Ok(variants) => match nodes.last().rule {
                Rule::CommandComponent => Ok(variants.push(nodes.last().text)),
                Rule::Range => match expansion_of(nodes.last()) {
                    Ok(texts) => Ok(variants + texts),
                    Err(e) => Err(e),
                },
                _ => Ok(variants),
            },
        }
    }
}

/// The slots after the fragments of a command, from `acc` on: a literal adds
/// a slot of one, a shorthand a slot of its alternatives.
pub open spec fn command_slots(acc: Seq<Seq<Seq<char>>>, nodes: Seq<Tree>) -> Result<
    Seq<Seq<Seq<char>>>,
    Failure,
>
    decreases nodes.len(),
{
    if nodes.len() == 0 {
        Ok(acc)
    } else {
        match command_slots(acc, nodes.drop_last()) {
            Err(e) => Err(e),
            Ok(slots) => match nodes.last().rule {
                Rule::CommandStandalone => Ok(slots.push(seq![nodes.last().text])),
                Rule::CommandShorthand => match command_variants(nodes.last().children) {
                    Ok(variants) => Ok(slots.push(variants)),
                    Err(e) => Err(e),
                },
                _ => Ok(slots),
            },
        }
    }
}

/// The strings of a row one after the other, with nothing between them.
pub open spec fn joined(row: Seq<Seq<char>>) -> Seq<char> {
    row.flatten()
}

/// The commands that the slots denote: every row of their product, joined.
pub open spec fn commands_of(slots: Seq<Seq<Seq<char>>>) -> Seq<Seq<char>> {
    product(slots).map_values(|row: Seq<Seq<char>>| joined(row))
}

/// Once a prefix of a command shorthand fails, the whole fails the same way.
pub proof fn lemma_command_variants_fails(nodes: Seq<Tree>, n: int)
    requires
        0 <= n <= nodes.len(),
        command_variants(nodes.take(n)) is Err,
    ensures
        command_variants(nodes) == command_variants(nodes.take(n)),
    decreases nodes.len() - n,
{
    if n == nodes.len() {
        assert(nodes.take(n) =~= nodes);
    } else {
        lemma_take_step(nodes, n);
        lemma_command_variants_fails(nodes, n + 1);
    }
}

/// Once a prefix of a command fails, the whole fails the same way.
pub proof fn lemma_command_slots_fails(acc: Seq<Seq<Seq<char>>>, nodes: Seq<Tree>, n: int)
    requires
        0 <= n <= nodes.len(),
        command_slots(acc, nodes.take(n)) is Err,
    ensures
        command_slots(acc, nodes) == command_slots(acc, nodes.take(n)),
    decreases nodes.len() - n,
{
    if n == nodes.len() {
        assert(nodes.take(n) =~= nodes);
    } else {
        lemma_take_step(nodes, n);
        lemma_command_slots_fails(acc, nodes, n + 1);
    }
}

/// The alternatives of a command shorthand, in the order written.
pub fn parse_command_shorthand(shorthand: &Node) -> (r: Result<Vec<String>, ParseError>)
    ensures
        match command_variants(shorthand@.children) {
            Ok(variants) => r matches Ok(v) && v.deep_view() == variants,
            Err(e) => r matches Err(x) && x@ == e,
        },
{
    let mut variants: Vec<String> = Vec::new();
    let ghost nodes = shorthand@.children;
    let mut i: usize = 0;
    assert(variants.deep_view() =~= Seq::<Seq<char>>::empty());
    while i < shorthand.children.len()
        invariant
            i <= shorthand.children.len(),
            nodes == shorthand@.children,
            nodes.len() == shorthand.children.len(),
            command_variants(nodes.take(i as int)) == Ok::<Seq<Seq<char>>, Failure>(
                variants.deep_view(),
            ),
        decreases shorthand.children.len() - i,
    {
        let component = &shorthand.children[i];
        let ghost before = variants.deep_view();
        proof {
            shorthand.lemma_child(i as int);
            lemma_take_step(nodes, i as int);
        }
        match component.rule {
            Rule::CommandComponent => {
                variants.push(component.text.clone());
                assert(variants.deep_view() =~= before.push(component@.text));
            },
            Rule::Range => {
                match expand_range(component) {
                    Ok(texts) => {
                        let mut t: usize = 0;
                        while t < texts.len()
                            invariant
                                t <= texts.len(),
                                variants.deep_view() =~= before + texts.deep_view().take(t as int),
                            decreases texts.len() - t,
                        {
                            let ghost so_far = variants.deep_view();
                            variants.push(texts[t].clone());
                            assert(variants.deep_view() =~= so_far.push(
                                texts.deep_view()[t as int],
                            ));
                            t += 1;
                        }
                        assert(texts.deep_view().take(texts.len() as int) =~= texts.deep_view());
                    },
                    Err(e) => {
                        proof {
                            lemma_command_variants_fails(nodes, i as int + 1);
                        }
                        return Err(e);
                    },
                }
            },
            _ => {},
        }
        i += 1;
    }
    assert(nodes.take(nodes.len() as int) =~= nodes);
    Ok(variants)
}

/// Takes in the fragments of a command node, adding one slot per fragment.
/// On a failure the slots are left as they were.
pub fn gather_command(slots: &mut Vec<Vec<String>>, command: &Node) -> (r: Result<
    (),
    ParseError,
>)
    ensures
        match command_slots(old(slots).deep_view(), command@.children) {
            Ok(after) => r is Ok && final(slots).deep_view() == after,
            Err(e) => r matches Err(x) && x@ == e && final(slots).deep_view() == old(
                slots,
            ).deep_view(),
        },
{
    let ghost start = slots.deep_view();
    let ghost nodes = command@.children;
    let mut added: Vec<Vec<String>> = Vec::new();
    let mut i: usize = 0;
    assert(start + added.deep_view() =~= start);
    while i < command.children.len()
        invariant
            i <= command.children.len(),
            nodes == command@.children,
            nodes.len() == command.children.len(),
            slots.deep_view() == start,
            command_slots(start, nodes.take(i as int)) == Ok::<Seq<Seq<Seq<char>>>, Failure>(
                start + added.deep_view(),
            ),
        decreases command.children.len() - i,
    {
        let fragment = &command.children[i];
        let ghost before = added.deep_view();
        proof {
            command.lemma_child(i as int);
            lemma_take_step(nodes, i as int);
        }
        match fragment.rule {
            Rule::CommandStandalone => {
                let mut slot: Vec<String> = Vec::new();
                slot.push(fragment.text.clone());
                assert(slot.deep_view() =~= seq![fragment@.text]);
                added.push(slot);
                assert(added.deep_view() =~= before.push(seq![fragment@.text]));
                assert(start + added.deep_view() =~= (start + before).push(seq![fragment@.text]));
            },
            Rule::CommandShorthand => {
                match parse_command_shorthand(fragment) {
                    Ok(variants) => {
                        let ghost listed = variants.deep_view();
                        added.push(variants);
                        assert(added.deep_view() =~= before.push(listed));
                        assert(start + added.deep_view() =~= (start + before).push(listed));
                    },
                    Err(e) => {
                        proof {
                            lemma_command_slots_fails(start, nodes, i as int + 1);
                        }
                        return Err(e);
                    },
                }
            },
            _ => {},
        }
        i += 1;
    }
    assert(nodes.take(nodes.len() as int) =~= nodes);
    let ghost extra = added.deep_view();
    slots.append(&mut added);
    assert(slots.deep_view() =~= start + extra);
    Ok(())
}

/// The number of commands that the slots denote, or `None` when it does not
/// fit the machine's word.
pub fn command_count(slots: &Vec<Vec<String>>) -> (n: Option<usize>)
    ensures
        n is Some <==> commands_of(slots.deep_view()).len() <= usize::MAX,
        n matches Some(count) ==> count == commands_of(slots.deep_view()).len(),
{
    checked_count(slots)
}

/// The strings that an index row selects, one from each slot, joined.
fn join_row(slots: &Vec<Vec<String>>, row: &Vec<usize>, Ghost(picked): Ghost<Seq<Seq<char>>>) -> (command:
    String)
    requires
        row.len() == slots.len(),
        picked.len() == slots.len(),
        forall|j: int| 0 <= j < row.len() ==> #[trigger] row[j] < slots[j].len(),
        forall|j: int|
            0 <= j < row.len() ==> #[trigger] picked[j] == slots.deep_view()[j][row[j] as int],
    ensures
        command@ == joined(picked),
{
    let mut command = String::new();
    let mut j: usize = 0;
    assert(picked.take(0) =~= Seq::<Seq<char>>::empty());
    while j < row.len()
        invariant
            j <= row.len(),
            row.len() == slots.len(),
            picked.len() == slots.len(),
            forall|t: int| 0 <= t < row.len() ==> #[trigger] row[t] < slots[t].len(),
            forall|t: int|
                0 <= t < row.len() ==> #[trigger] picked[t] == slots.deep_view()[t][row[t] as int],
            command@ == joined(picked.take(j as int)),
        decreases row.len() - j,
    {
        proof {
            assert(picked.take(j + 1) =~= picked.take(j as int).push(picked[j as int]));
            picked.take(j as int).lemma_flatten_push(picked[j as int]);
            assert(slots.deep_view()[j as int][row[j as int] as int] == slots[j as int][row[j as int] as int]@);
        }
        command.append(slots[j][row[j]].as_str());
        j += 1;
    }
    assert(picked.take(picked.len() as int) =~= picked);
    command
}

/// Multiplies the slots out: every combination of one alternative per slot,
/// joined into one string. Combinations come in the order of the slots, the
/// last slot varying fastest.
pub fn expand_commands(slots: &Vec<Vec<String>>) -> (commands: Vec<String>)
    requires
        commands_of(slots.deep_view()).len() <= usize::MAX,
    ensures
        commands.deep_view() == commands_of(slots.deep_view()),
{
    let ghost view = slots.deep_view();
    proof {
        lemma_slots(slots);
        lemma_index_product_len(view);
    }
    let widths = slot_widths(slots);
    let rows = index_rows(&widths);
    assert(rows.len() == grid(rows).len());
    let mut commands: Vec<String> = Vec::new();
    let mut k: usize = 0;
    while k < rows.len()
        invariant
            k <= rows.len(),
            view == slots.deep_view(),
            view.len() == slots.len(),
            forall|j: int| 0 <= j < slots.len() ==> (#[trigger] view[j]).len() == slots[j].len(),
            forall|j: int| 0 <= j < slots.len() ==> (#[trigger] view[j]).len() <= usize::MAX,
            grid(rows) == product(ranges(widths_of(view))),
            rows.len() == product(view).len(),
            commands.len() == k,
            forall|t: int| 0 <= t < k ==> (#[trigger] commands[t])@ == commands_of(view)[t],
        decreases rows.len() - k,
    {
        proof {
            lemma_product_by_index(view, k as int);
            assert(grid(rows)[k as int] == rows[k as int]@);
        }
        let command = join_row(slots, &rows[k], Ghost(product(view)[k as int]));
        commands.push(command);
        k += 1;
    }
    assert(commands.deep_view() =~= commands_of(view));
    commands
}

} // verus!
