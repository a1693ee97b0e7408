//! Cartesian products over a sequence of slots, each slot a list of
//! alternatives. The rows come in lexicographic order: the last slot varies
//! fastest. The rows themselves are computed by `itertools`, over indices;
//! the lemmas here carry an index row over to the items it selects.

use itertools::Itertools;
use vstd::prelude::*;

verus! {

/// Every row followed by every item of `slot`, rows outermost.
pub open spec fn widen<T>(rows: Seq<Seq<T>>, slot: Seq<T>) -> Seq<Seq<T>> {
    Seq::new(
        rows.len() * slot.len(),
        |i: int| rows[i / (slot.len() as int)].push(slot[i % (slot.len() as int)]),
    )
}

/// The cartesian product of the slots: each row picks one item per slot, in
/// slot order. No slots give the one empty row; an empty slot gives no row.
pub open spec fn product<T>(slots: Seq<Seq<T>>) -> Seq<Seq<T>>
    decreases slots.len(),
{
    if slots.len() == 0 {
        seq![Seq::empty()]
    } else {
        widen(product(slots.drop_last()), slots.last())
    }
}

/// Every item of `left` with every item of `right`, `left` outermost.
pub open spec fn pairs<A, B>(left: Seq<A>, right: Seq<B>) -> Seq<(A, B)> {
    Seq::new(
        left.len() * right.len(),
        |i: int| (left[i / (right.len() as int)], right[i % (right.len() as int)]),
    )
}

/// The product of the widths.
pub open spec fn volume(widths: Seq<usize>) -> nat
    decreases widths.len(),
{
    if widths.len() == 0 {
        1
    } else {
        volume(widths.drop_last()) * (widths.last() as nat)
    }
}

/// The width of each slot.
pub open spec fn widths_of<T>(slots: Seq<Seq<T>>) -> Seq<usize> {
    Seq::new(slots.len(), |j: int| slots[j].len() as usize)
}

/// The indices `0, 1, .., n - 1`.
pub open spec fn upto(n: usize) -> Seq<usize> {
    Seq::new(n as nat, |i: int| i as usize)
}

/// For each width the slot of its indices.
pub open spec fn ranges(widths: Seq<usize>) -> Seq<Seq<usize>> {
    Seq::new(widths.len(), |j: int| upto(widths[j]))
}

/// The rows of a vector of vectors.
pub open spec fn grid(v: Vec<Vec<usize>>) -> Seq<Seq<usize>> {
    Seq::new(v.len() as nat, |j: int| v[j]@)
}

/// Position `i` of a `rows` by `width` table lies in row `i / width` at
/// column `i % width`.
pub proof fn lemma_cell(i: int, rows: int, width: int)
    requires
        0 <= rows,
        0 <= width,
        0 <= i < rows * width,
    ensures
        0 < width,
        0 <= i / width < rows,
        0 <= i % width < width,
        i == (i / width) * width + i % width,
{
    assert(width != 0) by (nonlinear_arith)
        requires
            0 <= i < rows * width,
    ;
    assert(width * rows == rows * width) by (nonlinear_arith);
    vstd::arithmetic::div_mod::lemma_div_pos_is_pos(i, width);
    vstd::arithmetic::div_mod::lemma_mod_bound(i, width);
    vstd::arithmetic::div_mod::lemma_multiply_divide_lt(i, width, rows);
    vstd::arithmetic::div_mod::lemma_fundamental_div_mod(i, width);
    assert(width * (i / width) == (i / width) * width) by (nonlinear_arith);
}

/// Row `q`, column `r` of a table of the given width lies at `q * width + r`.
pub proof fn lemma_cell_at(q: int, r: int, rows: int, width: int)
    requires
        0 <= q < rows,
        0 <= r < width,
    ensures
        0 <= q * width + r < rows * width,
        (q * width + r) / width == q,
        (q * width + r) % width == r,
{
    assert(0 <= q * width + r < rows * width) by (nonlinear_arith)
        requires
            0 <= q < rows,
            0 <= r < width,
    ;
    vstd::arithmetic::div_mod::lemma_fundamental_div_mod_converse(q * width + r, width, q, r);
}

/// The product has as many rows as the widths multiply to.
pub proof fn lemma_product_len<T>(slots: Seq<Seq<T>>)
    requires
        forall|j: int| 0 <= j < slots.len() ==> (#[trigger] slots[j]).len() <= usize::MAX,
    ensures
        product(slots).len() == volume(widths_of(slots)),
    decreases slots.len(),
{
    if slots.len() > 0 {
        lemma_product_len(slots.drop_last());
        assert(widths_of(slots).drop_last() =~= widths_of(slots.drop_last()));
    }
}

/// The widths of index slots are the widths they were made from.
pub proof fn lemma_ranges_widths(widths: Seq<usize>)
    ensures
        widths_of(ranges(widths)) =~= widths,
        forall|j: int| 0 <= j < widths.len() ==> (#[trigger] ranges(widths)[j]).len() <= usize::MAX,
{
}

/// The index product has as many rows as the product of the slots.
pub proof fn lemma_index_product_len<T>(slots: Seq<Seq<T>>)
    requires
        forall|j: int| 0 <= j < slots.len() ==> (#[trigger] slots[j]).len() <= usize::MAX,
    ensures
        product(ranges(widths_of(slots))).len() == product(slots).len(),
{
    lemma_product_len(slots);
    lemma_ranges_widths(widths_of(slots));
    lemma_product_len(ranges(widths_of(slots)));
}

/// Row `k` of the product holds, in each slot, the item that row `k` of the
/// index product points at.
pub proof fn lemma_product_by_index<T>(slots: Seq<Seq<T>>, k: int)
    requires
        forall|j: int| 0 <= j < slots.len() ==> (#[trigger] slots[j]).len() <= usize::MAX,
        0 <= k < product(slots).len(),
    ensures
        k < product(ranges(widths_of(slots))).len(),
        product(slots)[k].len() == slots.len(),
        product(ranges(widths_of(slots)))[k].len() == slots.len(),
        forall|j: int|
            0 <= j < slots.len() ==> {
                let i = #[trigger] product(ranges(widths_of(slots)))[k][j];
                &&& 0 <= i < slots[j].len()
                &&& product(slots)[k][j] == slots[j][i as int]
            },
    decreases slots.len(),
{
    lemma_index_product_len(slots);
    if slots.len() > 0 {
        let init = slots.drop_last();
        let last = slots.last();
        let width = last.len() as int;
        let index = ranges(widths_of(slots));
        assert(index.drop_last() =~= ranges(widths_of(init)));
        assert(index.last() =~= upto(last.len() as usize));
        lemma_index_product_len(init);
        lemma_cell(k, product(init).len() as int, width);
        let q = k / width;
        let r = k % width;
        lemma_product_by_index(init, q);
        assert(product(slots)[k] == product(init)[q].push(last[r]));
        assert(product(index)[k] == product(index.drop_last())[q].push(index.last()[r]));
        assert forall|j: int| 0 <= j < slots.len() implies {
            let i = #[trigger] product(index)[k][j];
            &&& 0 <= i < slots[j].len()
            &&& product(slots)[k][j] == slots[j][i as int]
        } by {
            if j < slots.len() - 1 {
                assert(product(index)[k][j] == product(ranges(widths_of(init)))[q][j]);
                assert(slots[j] == init[j]);
            }
        }
    }
}

/// With one slot the product has one row per item, holding that item alone.
pub proof fn lemma_product_single<T>(slot: Seq<T>)
    ensures
        product(seq![slot]).len() == slot.len(),
        forall|i: int| 0 <= i < slot.len() ==> #[trigger] product(seq![slot])[i] == seq![slot[i]],
{
    let slots = seq![slot];
    assert(slots.drop_last() =~= Seq::<Seq<T>>::empty());
    assert(product(slots.drop_last()) =~= seq![Seq::<T>::empty()]);
    assert(slots.last() == slot);
    assert(product(slots).len() == slot.len()) by (nonlinear_arith)
        requires
            product(slots).len() == 1 * slot.len(),
    ;
    assert forall|i: int| 0 <= i < slot.len() implies #[trigger] product(slots)[i] == seq![
        slot[i],
    ] by {
        lemma_cell(i, 1, slot.len() as int);
        assert(product(slots)[i] == Seq::<T>::empty().push(slot[i]));
        assert(Seq::<T>::empty().push(slot[i]) =~= seq![slot[i]]);
    }
}

/// A slot of width zero leaves the widths with volume zero.
pub proof fn lemma_volume_zero(widths: Seq<usize>, j: int)
    requires
        0 <= j < widths.len(),
        widths[j] == 0,
    ensures
        volume(widths) == 0,
    decreases widths.len(),
{
    if j < widths.len() - 1 {
        lemma_volume_zero(widths.drop_last(), j);
        assert(volume(widths) == 0) by (nonlinear_arith)
            requires
                volume(widths) == volume(widths.drop_last()) * (widths.last() as nat),
                volume(widths.drop_last()) == 0,
        ;
    } else {
        assert(volume(widths) == 0) by (nonlinear_arith)
            requires
                volume(widths) == volume(widths.drop_last()) * (widths.last() as nat),
                widths.last() == 0,
        ;
    }
}

/// With no width zero, a prefix of the widths has no more volume than the whole.
pub proof fn lemma_volume_prefix(widths: Seq<usize>, n: int)
    requires
        0 <= n <= widths.len(),
        forall|j: int| 0 <= j < widths.len() ==> #[trigger] widths[j] >= 1,
    ensures
        1 <= volume(widths.take(n)) <= volume(widths),
    decreases widths.len() - n,
{
    lemma_volume_prefix_least(widths, n);
    if n == widths.len() {
        assert(widths.take(n) =~= widths);
    } else {
        lemma_volume_prefix(widths, n + 1);
        lemma_volume_step(widths, n);
        assert(volume(widths.take(n)) <= volume(widths.take(n + 1))) by (nonlinear_arith)
            requires
                volume(widths.take(n + 1)) == volume(widths.take(n)) * (widths[n] as nat),
                widths[n] >= 1,
        ;
    }
}

/// With no width zero, every prefix has volume at least one.
pub proof fn lemma_volume_prefix_least(widths: Seq<usize>, n: int)
    requires
        0 <= n <= widths.len(),
        forall|j: int| 0 <= j < widths.len() ==> #[trigger] widths[j] >= 1,
    ensures
        1 <= volume(widths.take(n)),
    decreases n,
{
    if n > 0 {
        lemma_volume_prefix_least(widths, n - 1);
        lemma_volume_step(widths, n - 1);
        assert(volume(widths.take(n)) >= 1) by (nonlinear_arith)
            requires
                volume(widths.take(n)) == volume(widths.take(n - 1)) * (widths[n - 1] as nat),
                volume(widths.take(n - 1)) >= 1,
                widths[n - 1] >= 1,
        ;
    }
}

/// One more width multiplies the volume of a prefix by it.
pub proof fn lemma_volume_step(widths: Seq<usize>, n: int)
    requires
        0 <= n < widths.len(),
    ensures
        volume(widths.take(n + 1)) == volume(widths.take(n)) * (widths[n] as nat),
{
    assert(widths.take(n + 1).drop_last() =~= widths.take(n));
}

/// Calls `Itertools::multi_cartesian_product` on the slots and collects what
/// it yields. Taken on trust, from the crate's source: it yields one row per
/// choice of one item from each slot, in lexicographic order with the last
/// slot varying fastest; a single empty row when there is no slot; and no
/// row when a slot is empty.
#[verifier::external_body]
fn multi_cartesian_product(slots: Vec<Vec<usize>>) -> (rows: Vec<Vec<usize>>)
    requires
        product(grid(slots)).len() <= usize::MAX,
    ensures
        grid(rows) == product(grid(slots)),
{
    slots.into_iter().multi_cartesian_product().collect()
}

/// Calls `Itertools::cartesian_product` and collects what it yields. Taken
/// on trust, from the crate's source: it yields every item of `left` with
/// every item of `right`, going through `right` once for each item of `left`.
#[verifier::external_body]
fn cartesian_product(left: Vec<usize>, right: Vec<usize>) -> (both: Vec<(usize, usize)>)
    requires
        left.len() * right.len() <= usize::MAX,
    ensures
        both@ == pairs(left@, right@),
{
    left.into_iter().cartesian_product(right).collect()
}

/// The indices below `n`, in order.
fn indices(n: usize) -> (v: Vec<usize>)
    ensures
        v@ == upto(n),
{
    let mut v: Vec<usize> = Vec::new();
    let mut i: usize = 0;
    while i < n
        invariant
            i <= n,
            v@ == upto(i),
        decreases n - i,
    {
        v.push(i);
        i += 1;
        assert(v@ =~= upto(i));
    }
    v
}

/// The number of rows in the product of slots of the given widths, or `None`
/// when that number does not fit the machine's word.
pub fn checked_volume(widths: &Vec<usize>) -> (total: Option<usize>)
    ensures
        total is Some <==> volume(widths@) <= usize::MAX,
        total matches Some(n) ==> n == volume(widths@),
{
    let mut j: usize = 0;
    while j < widths.len()
        invariant
            j <= widths.len(),
            forall|t: int| 0 <= t < j ==> #[trigger] widths[t] >= 1,
        decreases widths.len() - j,
    {
        if widths[j] == 0 {
            proof {
                lemma_volume_zero(widths@, j as int);
            }
            return Some(0);
        }
        j += 1;
    }
    let mut total: usize = 1;
    let mut j: usize = 0;
    assert(widths@.take(0) =~= Seq::<usize>::empty());
    while j < widths.len()
        invariant
            j <= widths.len(),
            forall|t: int| 0 <= t < widths.len() ==> #[trigger] widths[t] >= 1,
            total == volume(widths@.take(j as int)),
        decreases widths.len() - j,
    {
        proof {
            lemma_volume_step(widths@, j as int);
            lemma_volume_prefix(widths@, j + 1);
        }
        match total.checked_mul(widths[j]) {
            Some(n) => {
                total = n;
            },
            None => {
                return None;
            },
        }
        j += 1;
    }
    assert(widths@.take(widths.len() as int) =~= widths@);
    Some(total)
}

/// The index rows of the product of slots of the given widths: row `k` holds,
/// for each slot, the index of the item that row `k` of the product takes
/// from it.
pub fn index_rows(widths: &Vec<usize>) -> (rows: Vec<Vec<usize>>)
    requires
        volume(widths@) <= usize::MAX,
    ensures
        grid(rows) == product(ranges(widths@)),
{
    let mut slots: Vec<Vec<usize>> = Vec::new();
    let mut j: usize = 0;
    while j < widths.len()
        invariant
            j <= widths.len(),
            slots.len() == j,
            forall|t: int| 0 <= t < j ==> (#[trigger] slots[t])@ == upto(widths[t]),
        decreases widths.len() - j,
    {
        slots.push(indices(widths[j]));
        j += 1;
    }
    proof {
        assert(grid(slots) =~= ranges(widths@));
        lemma_ranges_widths(widths@);
        lemma_product_len(ranges(widths@));
    }
    multi_cartesian_product(slots)
}

/// The index pairs of a table with `rows` rows and `columns` columns, row by row.
pub fn index_pairs(rows: usize, columns: usize) -> (both: Vec<(usize, usize)>)
    requires
        rows * columns <= usize::MAX,
    ensures
        both@ == pairs(upto(rows), upto(columns)),
{
    cartesian_product(indices(rows), indices(columns))
}

/// The width of each slot.
pub fn slot_widths<T: DeepView>(slots: &Vec<Vec<T>>) -> (w: Vec<usize>)
    ensures
        w@ == widths_of(slots.deep_view()),
{
    let mut w: Vec<usize> = Vec::new();
    let mut j: usize = 0;
    while j < slots.len()
        invariant
            j <= slots.len(),
            w@ =~= widths_of(slots.deep_view()).take(j as int),
        decreases slots.len() - j,
    {
        assert(slots.deep_view()[j as int].len() == slots[j as int].len());
        w.push(slots[j].len());
        j += 1;
    }
    assert(widths_of(slots.deep_view()).take(slots.len() as int) =~= widths_of(
        slots.deep_view(),
    ));
    w
}

/// The slots seen through their views are as many and as wide as the
/// vectors, and their product has as many rows as the widths multiply to.
pub proof fn lemma_slots<T: DeepView>(slots: &Vec<Vec<T>>)
    ensures
        slots.deep_view().len() == slots.len(),
        forall|j: int|
            0 <= j < slots.len() ==> (#[trigger] slots.deep_view()[j]).len() == slots[j].len(),
        forall|j: int|
            0 <= j < slots.len() ==> (#[trigger] slots.deep_view()[j]).len() <= usize::MAX,
        forall|j: int, i: int|
            0 <= j < slots.len() && 0 <= i < slots[j].len() ==> (
            #[trigger] slots.deep_view()[j][i]) == slots[j][i].deep_view(),
        product(slots.deep_view()).len() == volume(widths_of(slots.deep_view())),
{
    assert forall|j: int| 0 <= j < slots.len() implies (#[trigger] slots.deep_view()[j]).len()
        <= usize::MAX by {
        assert(slots.deep_view()[j].len() == slots[j].len());
    }
    lemma_product_len(slots.deep_view());
}

/// The number of rows in the product of the slots, or `None` when that
/// number does not fit the machine's word.
pub fn checked_count<T: DeepView>(slots: &Vec<Vec<T>>) -> (total: Option<usize>)
    ensures
        total is Some <==> product(slots.deep_view()).len() <= usize::MAX,
        total matches Some(n) ==> n == product(slots.deep_view()).len(),
{
    proof {
        lemma_slots(slots);
    }
    let widths = slot_widths(slots);
    checked_volume(&widths)
}

/// The items that an index row selects, one from each slot.
pub fn select<T: Clone>(slots: &Vec<Vec<T>>, row: &Vec<usize>) -> (chosen: Vec<T>)
    requires
        row.len() == slots.len(),
        forall|j: int| 0 <= j < row.len() ==> #[trigger] row[j] < slots[j].len(),
    ensures
        chosen.len() == row.len(),
        forall|j: int| 0 <= j < row.len() ==> cloned(slots[j][row[j] as int], #[trigger] chosen[j]),
{
    let mut chosen: Vec<T> = Vec::new();
    let mut j: usize = 0;
    while j < row.len()
        invariant
            j <= row.len(),
            row.len() == slots.len(),
            forall|t: int| 0 <= t < row.len() ==> #[trigger] row[t] < slots[t].len(),
            chosen.len() == j,
            forall|t: int| 0 <= t < j ==> cloned(slots[t][row[t] as int], #[trigger] chosen[t]),
        decreases row.len() - j,
    {
        chosen.push(slots[j][row[j]].clone());
        j += 1;
    }
    chosen
}

/// Multiplies the slots out: one row for every choice of one item from each
/// slot, in the order of the slots, the last slot varying fastest. The items
/// are cloned; the rows are as the slots' views give them wherever cloning
/// keeps an item's view.
pub fn multiply<T: Clone + DeepView>(slots: &Vec<Vec<T>>) -> (rows: Vec<Vec<T>>)
    requires
        product(slots.deep_view()).len() <= usize::MAX,
        forall|a: T, b: T| #[trigger] cloned(a, b) ==> a.deep_view() == b.deep_view(),
    ensures
        rows.deep_view() == product(slots.deep_view()),
{
    let ghost view = slots.deep_view();
    proof {
        lemma_slots(slots);
        lemma_index_product_len(view);
    }
    let widths = slot_widths(slots);
    let index = index_rows(&widths);
    assert(index.len() == grid(index).len());
    let mut rows: Vec<Vec<T>> = Vec::new();
    let mut k: usize = 0;
    while k < index.len()
        invariant
            k <= index.len(),
            view == slots.deep_view(),
            view.len() == slots.len(),
            forall|a: T, b: T| #[trigger] cloned(a, b) ==> a.deep_view() == b.deep_view(),
            forall|j: int| 0 <= j < slots.len() ==> (#[trigger] view[j]).len() == slots[j].len(),
            forall|j: int| 0 <= j < slots.len() ==> (#[trigger] view[j]).len() <= usize::MAX,
            forall|j: int, i: int|
                0 <= j < slots.len() && 0 <= i < slots[j].len() ==> (#[trigger] view[j][i])
                    == slots[j][i].deep_view(),
            grid(index) == product(ranges(widths_of(view))),
            index.len() == product(view).len(),
            rows.len() == k,
            forall|t: int| 0 <= t < k ==> (#[trigger] rows[t]).deep_view() == product(view)[t],
        decreases index.len() - k,
    {
        proof {
            lemma_product_by_index(view, k as int);
            assert(grid(index)[k as int] == index[k as int]@);
        }
        let row = select(slots, &index[k]);
        assert(row.deep_view() =~= product(view)[k as int]) by {
            assert forall|j: int| 0 <= j < row.len() implies row.deep_view()[j] == product(
                view,
            )[k as int][j] by {
                let i = index[k as int]@[j];
                assert(cloned(slots[j][i as int], row[j]));
                assert(view[j][i as int] == slots[j][i as int].deep_view());
            }
        }
        rows.push(row);
        k += 1;
    }
    assert(rows.deep_view() =~= product(view));
    rows
}

} // verus!
