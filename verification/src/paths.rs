//! Sets of import paths, kept as vectors in ascending order without
//! repetition. Paths are ordered as strings are: character by character, by
//! code point, a proper prefix before what extends it.

use vstd::prelude::*;
use vstd::string::StrSliceExecFns;

verus! {

/// Whether `a` comes strictly before `b`.
pub open spec fn precedes(a: Seq<char>, b: Seq<char>) -> bool
    decreases a.len(),
{
    if b.len() == 0 {
        false
    } else if a.len() == 0 {
        true
    } else if a[0] != b[0] {
        (a[0] as int) < (b[0] as int)
    } else {
        precedes(a.drop_first(), b.drop_first())
    }
}

/// Whether the paths are in strictly ascending order.
pub open spec fn increasing(s: Seq<Seq<char>>) -> bool {
    forall|i: int, j: int| 0 <= i < j < s.len() ==> precedes(#[trigger] s[i], #[trigger] s[j])
}

/// The ascending paths with `x` put in its place, unless it is there already.
pub open spec fn inserted(s: Seq<Seq<char>>, x: Seq<char>) -> Seq<Seq<char>>
    decreases s.len(),
{
    if s.len() == 0 {
        seq![x]
    } else if s.last() == x {
        s
    } else if precedes(s.last(), x) {
        s.push(x)
    } else {
        inserted(s.drop_last(), x).push(s.last())
    }
}

/// The ascending paths with each of `more` put in, one after the other.
pub open spec fn inserted_all(s: Seq<Seq<char>>, more: Seq<Seq<char>>) -> Seq<Seq<char>>
    decreases more.len(),
{
    if more.len() == 0 {
        s
    } else {
        inserted(inserted_all(s, more.drop_last()), more.last())
    }
}

/// No path comes before itself.
pub proof fn lemma_precedes_irreflexive(a: Seq<char>)
    ensures
        !precedes(a, a),
    decreases a.len(),
{
    if a.len() > 0 {
        lemma_precedes_irreflexive(a.drop_first());
    }
}

/// Of two different paths one comes before the other.
pub proof fn lemma_precedes_total(a: Seq<char>, b: Seq<char>)
    ensures
        a == b || precedes(a, b) || precedes(b, a),
    decreases a.len(),
{
    if a.len() == 0 || b.len() == 0 {
        if a.len() == 0 && b.len() == 0 {
            assert(a =~= b);
        }
    } else if a[0] == b[0] {
        lemma_precedes_total(a.drop_first(), b.drop_first());
        if a.drop_first() == b.drop_first() {
            assert(a =~= seq![a[0]] + a.drop_first());
            assert(b =~= seq![b[0]] + b.drop_first());
        }
    }
}

/// Two paths never come each before the other.
pub proof fn lemma_precedes_asymmetric(a: Seq<char>, b: Seq<char>)
    requires
        precedes(a, b),
    ensures
        !precedes(b, a),
    decreases a.len(),
{
    if a.len() > 0 && b.len() > 0 && a[0] == b[0] {
        lemma_precedes_asymmetric(a.drop_first(), b.drop_first());
    }
}

/// Coming before carries over.
pub proof fn lemma_precedes_transitive(a: Seq<char>, b: Seq<char>, c: Seq<char>)
    requires
        precedes(a, b),
        precedes(b, c),
    ensures
        precedes(a, c),
    decreases a.len(),
{
    if a.len() > 0 && b.len() > 0 && c.len() > 0 {
        if a[0] == b[0] && b[0] == c[0] {
            lemma_precedes_transitive(a.drop_first(), b.drop_first(), c.drop_first());
        }
    }
}

/// Where `x` goes among ascending paths: behind all that come before it. If
/// the path there is `x` itself nothing changes; otherwise `x` is put there.
pub proof fn lemma_inserted_at(s: Seq<Seq<char>>, x: Seq<char>, i: int)
    requires
        increasing(s),
        0 <= i <= s.len(),
        forall|j: int| 0 <= j < i ==> precedes(#[trigger] s[j], x),
        i < s.len() ==> !precedes(s[i], x),
    ensures
        inserted(s, x) == (if i < s.len() && s[i] == x {
            s
        } else {
            s.insert(i, x)
        }),
    decreases s.len(),
{
    if s.len() == 0 {
        assert(seq![x] =~= s.insert(0, x));
    } else {
        let last = s.last();
        let init = s.drop_last();
        if i == s.len() {
            assert(precedes(s[s.len() - 1], x));
            lemma_precedes_irreflexive(x);
            assert(s.push(x) =~= s.insert(i, x));
        } else if i == s.len() - 1 {
            if last != x {
                lemma_inserted_at(init, x, i);
                assert(init.insert(i, x).push(last) =~= s.insert(i, x));
            }
        } else {
            assert(precedes(s[i], s[s.len() - 1]));
            if s[i] == x {
                lemma_precedes_irreflexive(x);
                lemma_precedes_asymmetric(x, last);
                lemma_inserted_at(init, x, i);
                assert(init.push(last) =~= s);
            } else {
                lemma_precedes_total(s[i], x);
                lemma_precedes_transitive(x, s[i], last);
                lemma_precedes_irreflexive(x);
                lemma_precedes_asymmetric(x, last);
                lemma_inserted_at(init, x, i);
                assert(init.insert(i, x).push(last) =~= s.insert(i, x));
            }
        }
    }
}

/// The place of `x` among ascending paths: the number of paths before it.
pub open spec fn place(s: Seq<Seq<char>>, x: Seq<char>) -> int
    decreases s.len(),
{
    if s.len() == 0 {
        0
    } else if precedes(s.last(), x) {
        s.len() as int
    } else {
        place(s.drop_last(), x)
    }
}

/// The place of `x` lies behind all paths before `x` and before all others.
pub proof fn lemma_place(s: Seq<Seq<char>>, x: Seq<char>)
    requires
        increasing(s),
    ensures
        0 <= place(s, x) <= s.len(),
        forall|j: int| 0 <= j < place(s, x) ==> precedes(#[trigger] s[j], x),
        place(s, x) < s.len() ==> !precedes(s[place(s, x)], x),
    decreases s.len(),
{
    if s.len() > 0 {
        if precedes(s.last(), x) {
            assert forall|j: int| 0 <= j < s.len() implies precedes(#[trigger] s[j], x) by {
                if j < s.len() - 1 {
                    assert(precedes(s[j], s[s.len() - 1]));
                    lemma_precedes_transitive(s[j], s.last(), x);
                }
            }
        } else {
            let init = s.drop_last();
            assert(increasing(init)) by {
                assert forall|i: int, j: int| 0 <= i < j < init.len() implies precedes(
                    #[trigger] init[i],
                    #[trigger] init[j],
                ) by {
                    assert(precedes(s[i], s[j]));
                }
            }
            lemma_place(init, x);
            let p = place(init, x);
            assert forall|j: int| 0 <= j < p implies precedes(#[trigger] s[j], x) by {
                assert(s[j] == init[j]);
            }
            if p < init.len() {
                assert(s[p] == init[p]);
            }
        }
    }
}

/// Putting a path into ascending paths leaves them ascending, holding what
/// they held and the path.
pub proof fn lemma_inserted(s: Seq<Seq<char>>, x: Seq<char>)
    requires
        increasing(s),
    ensures
        increasing(inserted(s, x)),
        inserted(s, x).to_set() == s.to_set().insert(x),
        s.contains(x) ==> inserted(s, x) == s,
        !s.contains(x) ==> inserted(s, x).len() == s.len() + 1,
{
    lemma_place(s, x);
    let i = place(s, x);
    lemma_inserted_at(s, x, i);
    let after = inserted(s, x);
    if i < s.len() && s[i] == x {
        assert(s.contains(x));
        assert(s.to_set().insert(x) =~= s.to_set());
    } else {
        assert(!s.contains(x)) by {
            if s.contains(x) {
                let w = choose|w: int| 0 <= w < s.len() && s[w] == x;
                lemma_precedes_irreflexive(x);
                if w > i {
                    assert(precedes(s[i], s[w]));
                }
            }
        }
        assert(after == s.insert(i, x));
        assert forall|a: int, b: int| 0 <= a < b < after.len() implies precedes(
            #[trigger] after[a],
            #[trigger] after[b],
        ) by {
            if b < i {
                assert(precedes(s[a], s[b]));
            } else if b == i {
                assert(precedes(s[a], x));
            } else if a == i {
                // x before s[b - 1], which does not come before x and is not x
                assert(after[b] == s[b - 1]);
                if b - 1 > i {
                    assert(precedes(s[i], s[b - 1]));
                    lemma_precedes_total(s[i], x);
                    lemma_precedes_transitive(x, s[i], s[b - 1]);
                } else {
                    lemma_precedes_total(s[i], x);
                }
            } else if a < i {
                assert(after[b] == s[b - 1]);
                assert(precedes(s[a], s[b - 1]));
            } else {
                assert(after[a] == s[a - 1]);
                assert(after[b] == s[b - 1]);
                assert(precedes(s[a - 1], s[b - 1]));
            }
        }
        assert(after.to_set() =~= s.to_set().insert(x)) by {
            assert forall|y: Seq<char>| after.to_set().contains(y) <==> s.to_set().insert(
                x,
            ).contains(y) by {
                if after.contains(y) {
                    let w = choose|w: int| 0 <= w < after.len() && after[w] == y;
                    if w < i {
                        assert(s[w] == y);
                    } else if w > i {
                        assert(s[w - 1] == y);
                    }
                }
                if s.contains(y) {
                    let w = choose|w: int| 0 <= w < s.len() && s[w] == y;
                    if w < i {
                        assert(after[w] == y);
                    } else {
                        assert(after[w + 1] == y);
                    }
                }
                if y == x {
                    assert(after[i] == x);
                }
            }
        }
    }
}

/// Putting paths in one after the other leaves ascending paths ascending,
/// holding what they held and the paths put in.
pub proof fn lemma_inserted_all(s: Seq<Seq<char>>, more: Seq<Seq<char>>)
    requires
        increasing(s),
    ensures
        increasing(inserted_all(s, more)),
        inserted_all(s, more).to_set() == s.to_set().union(more.to_set()),
    decreases more.len(),
{
    if more.len() == 0 {
        assert(more.to_set() =~= Set::<Seq<char>>::empty());
        assert(s.to_set().union(more.to_set()) =~= s.to_set());
    } else {
        let init = more.drop_last();
        lemma_inserted_all(s, init);
        lemma_inserted(inserted_all(s, init), more.last());
        assert(more.to_set() =~= init.to_set().insert(more.last())) by {
            assert forall|y: Seq<char>| more.to_set().contains(y) <==> init.to_set().insert(
                more.last(),
            ).contains(y) by {
                if more.contains(y) {
                    let w = choose|w: int| 0 <= w < more.len() && more[w] == y;
                    if w < more.len() - 1 {
                        assert(init[w] == y);
                    }
                }
                if init.contains(y) {
                    let w = choose|w: int| 0 <= w < init.len() && init[w] == y;
                    assert(more[w] == y);
                }
                if y == more.last() {
                    assert(more[more.len() - 1] == y);
                }
            }
        }
        assert(inserted_all(s, more).to_set() =~= s.to_set().union(more.to_set()));
    }
}

/// Whether `a` comes strictly before `b`.
pub fn comes_before(a: &str, b: &str) -> (r: bool)
    ensures
        r == precedes(a@, b@),
{
    let n = a.unicode_len();
    let m = b.unicode_len();
    let mut i: usize = 0;
    assert(a@.skip(0) =~= a@);
    assert(b@.skip(0) =~= b@);
    while i < n && i < m
        invariant
            n == a@.len(),
            m == b@.len(),
            i <= n,
            i <= m,
            precedes(a@, b@) == precedes(a@.skip(i as int), b@.skip(i as int)),
        decreases n - i,
    {
        let x = a.get_char(i);
        let y = b.get_char(i);
        proof {
            assert(a@.skip(i as int)[0] == x);
            assert(b@.skip(i as int)[0] == y);
            assert(a@.skip(i as int).drop_first() =~= a@.skip(i + 1));
            assert(b@.skip(i as int).drop_first() =~= b@.skip(i + 1));
        }
        if x != y {
            return (x as u32) < (y as u32);
        }
        i += 1;
    }
    i < m
}

/// Puts `x` into the ascending paths, unless it is there already. Says
/// whether it was new.
pub fn insert_sorted(paths: &mut Vec<String>, x: String) -> (fresh: bool)
    requires
        increasing(old(paths).deep_view()),
    ensures
        final(paths).deep_view() == inserted(old(paths).deep_view(), x@),
        fresh == !old(paths).deep_view().contains(x@),
{
    let ghost before = paths.deep_view();
    let mut i: usize = 0;
    while i < paths.len() && comes_before(paths[i].as_str(), x.as_str())
        invariant
            i <= paths.len(),
            paths.deep_view() == before,
            before.len() == paths.len(),
            forall|j: int| 0 <= j < i ==> precedes(#[trigger] before[j], x@),
        decreases paths.len() - i,
    {
        assert(before[i as int] == paths[i as int]@);
        i += 1;
    }
    proof {
        if i < paths.len() {
            assert(before[i as int] == paths[i as int]@);
        }
        lemma_inserted_at(before, x@, i as int);
        lemma_inserted(before, x@);
    }
    if i < paths.len() && paths[i] == x {
        assert(before.contains(x@));
        false
    } else {
        let ghost text = x@;
        paths.insert(i, x);
        assert(paths.deep_view() =~= before.insert(i as int, text));
        assert(!before.contains(text)) by {
            if before.contains(text) {
                assert(inserted(before, text) == before);
            }
        }
        true
    }
}

} // verus!
