use sweet::paths::{comes_before, insert_sorted};
use sweet::product::{checked_count, checked_volume, index_pairs, index_rows, multiply, select, slot_widths};
use sweet::range::{expand_bounds, extract_bounds};
use sweet::{Node, ParseError, RangeFault, Rule, Span};

#[test]
fn strings_compare_character_by_character() {
    assert!(comes_before("a", "b"));
    assert!(!comes_before("b", "a"));
    assert!(!comes_before("a", "a"));
    assert!(!comes_before("", ""));
    assert!(comes_before("", "a"));
    assert!(!comes_before("a", ""));
    assert!(comes_before("ab", "abc"));
    assert!(!comes_before("abc", "ab"));
    assert!(comes_before("abc", "abd"));
    assert!(comes_before("Z", "a"));
    assert!(comes_before("a10", "a9"));
    assert!(comes_before("z", "\u{e9}"));
    assert!(comes_before("\u{e9}", "\u{4e2d}"));
    assert!(comes_before("\u{ffff}", "\u{10000}"));
}

#[test]
fn insert_sorted_keeps_order_and_says_what_is_new() {
    let mut paths: Vec<String> = Vec::new();
    assert!(insert_sorted(&mut paths, "m".to_string()));
    assert!(insert_sorted(&mut paths, "a".to_string()));
    assert!(insert_sorted(&mut paths, "z".to_string()));
    assert!(!insert_sorted(&mut paths, "m".to_string()));
    assert!(insert_sorted(&mut paths, "mm".to_string()));
    assert!(!insert_sorted(&mut paths, "a".to_string()));
    assert!(!insert_sorted(&mut paths, "z".to_string()));
    assert!(insert_sorted(&mut paths, "".to_string()));
    assert_eq!(paths, vec!["", "a", "m", "mm", "z"]);
}

#[test]
fn volume_is_the_product_of_the_widths() {
    assert_eq!(checked_volume(&vec![]), Some(1));
    assert_eq!(checked_volume(&vec![7]), Some(7));
    assert_eq!(checked_volume(&vec![2, 3, 4]), Some(24));
    assert_eq!(checked_volume(&vec![2, 0, 4]), Some(0));
    assert_eq!(checked_volume(&vec![usize::MAX]), Some(usize::MAX));
    assert_eq!(checked_volume(&vec![usize::MAX, 1, 1]), Some(usize::MAX));
    assert_eq!(checked_volume(&vec![usize::MAX, 2]), None);
    assert_eq!(checked_volume(&vec![usize::MAX, usize::MAX, 0]), Some(0));
    assert_eq!(checked_volume(&vec![0, usize::MAX, usize::MAX]), Some(0));
    assert_eq!(checked_volume(&vec![1usize << (usize::BITS - 1), 2]), None);
}

#[test]
fn index_rows_come_in_lexicographic_order() {
    assert_eq!(
        index_rows(&vec![2, 3]),
        vec![vec![0, 0], vec![0, 1], vec![0, 2], vec![1, 0], vec![1, 1], vec![1, 2]]
    );
    assert_eq!(index_rows(&vec![3]), vec![vec![0], vec![1], vec![2]]);
    assert_eq!(index_rows(&vec![1, 1, 1]), vec![vec![0, 0, 0]]);
}

#[test]
fn index_rows_of_no_slot_are_the_one_empty_row() {
    assert_eq!(index_rows(&vec![]), vec![Vec::<usize>::new()]);
}

#[test]
fn index_rows_with_an_empty_slot_are_none() {
    assert_eq!(index_rows(&vec![2, 0, 2]), Vec::<Vec<usize>>::new());
    assert_eq!(index_rows(&vec![0]), Vec::<Vec<usize>>::new());
}

#[test]
fn index_pairs_go_row_by_row() {
    assert_eq!(index_pairs(2, 3), vec![(0, 0), (0, 1), (0, 2), (1, 0), (1, 1), (1, 2)]);
    assert_eq!(index_pairs(1, 1), vec![(0, 0)]);
    assert_eq!(index_pairs(0, 3), vec![]);
    assert_eq!(index_pairs(3, 0), vec![]);
}

#[test]
fn slots_multiply_into_rows_of_their_items() {
    let slots = vec![
        vec!["a".to_string(), "b".to_string()],
        vec!["c".to_string()],
        vec!["d".to_string(), "e".to_string()],
    ];
    assert_eq!(slot_widths(&slots), vec![2, 1, 2]);
    assert_eq!(checked_count(&slots), Some(4));
    assert_eq!(select(&slots, &vec![1, 0, 0]), vec!["b", "c", "d"]);
    assert_eq!(
        multiply(&slots),
        vec![vec!["a", "c", "d"], vec!["a", "c", "e"], vec!["b", "c", "d"], vec!["b", "c", "e"]]
    );
}

#[test]
fn bounds_are_read_from_the_first_two_children() {
    let leaf = |text: &str| Node::new(Rule::Other, text, Span { start: 0, end: 0 }, vec![]);
    let range = Node::new(
        Rule::Range,
        "a-f",
        Span { start: 2, end: 5 },
        vec![leaf("a"), leaf("f"), leaf("ignored")],
    );
    assert_eq!(extract_bounds(&range), Ok(('a', 'f')));
    let widest = Node::new(
        Rule::Range,
        "",
        Span { start: 0, end: 0 },
        vec![leaf("\u{0}"), leaf("\u{7f}")],
    );
    assert_eq!(extract_bounds(&widest), Ok(('\u{0}', '\u{7f}')));
    let beyond = Node::new(
        Rule::Range,
        "",
        Span { start: 0, end: 9 },
        vec![leaf("\u{7f}"), leaf("\u{80}")],
    );
    assert_eq!(
        extract_bounds(&beyond),
        Err(ParseError::RangeBounds { fault: RangeFault::NotAscii, span: Span { start: 0, end: 9 } })
    );
}

#[test]
fn bounds_expand_to_every_character_between_them() {
    assert_eq!(expand_bounds('a', 'c'), vec!["a", "b", "c"]);
    assert_eq!(expand_bounds('8', ':'), vec!["8", "9", ":"]);
    assert_eq!(expand_bounds('x', 'x'), vec!["x"]);
    assert_eq!(expand_bounds('\u{7e}', '\u{7f}'), vec!["\u{7e}", "\u{7f}"]);
}
