use std::sync::Arc;

use rbtree::balance::canonical_form;
use rbtree::delete::{bubble, del, remove_max, remove_node};
use rbtree::node::{new_leaf, new_node, NodeRef};
use rbtree::Color;

type Node = NodeRef<u64, u64>;

fn leaf() -> Node {
    new_leaf(Color::Black)
}

fn node(c: Color, l: Node, k: u64, r: Node) -> Node {
    new_node(c, l, Arc::new(k), Arc::new(k * 10), r)
}

fn red(l: Node, k: u64, r: Node) -> Node {
    node(Color::Red, l, k, r)
}

fn black(l: Node, k: u64, r: Node) -> Node {
    node(Color::Black, l, k, r)
}

fn one(c: Color, k: u64) -> Node {
    node(c, leaf(), k, leaf())
}

/// The tree written out: a leaf as `-` (`=` when double black), a node as
/// its color letter, the left subtree, `key:value`, the right subtree.
fn show(n: &Node) -> String {
    let letter = match n.col {
        Color::NegativeBlack => "N",
        Color::Red => "R",
        Color::Black => "B",
        Color::DoubleBlack => "D",
    };
    match &n.data {
        None => match n.col {
            Color::Black => "-".to_string(),
            Color::DoubleBlack => "=".to_string(),
            _ => format!("?{}", letter),
        },
        Some(d) => format!("{}({} {}:{} {})", letter, show(&d.left), d.key, d.val, show(&d.right)),
    }
}

fn from_keys(keys: &[u64]) -> Node {
    let mut root = leaf();
    for &k in keys {
        let mut count: usize = 7;
        root = root.modify_at(k, k * 10, &mut count);
        assert_eq!(count, 1);
    }
    root
}

#[test]
fn constructors_and_recoloring() {
    let l: Node = new_leaf(Color::DoubleBlack);
    assert!(l.is_leaf());
    assert_eq!(l.col, Color::DoubleBlack);
    assert_eq!(show(&l.blacken()), "-");
    let n = one(Color::Black, 4);
    assert!(!n.is_leaf());
    assert_eq!(show(&n), "B(- 4:40 -)");
    assert_eq!(show(&n.clone().redden()), "R(- 4:40 -)");
    assert_eq!(show(&n.clone().blacken()), "B(- 4:40 -)");
    assert_eq!(show(&n.clone().inc()), "D(- 4:40 -)");
    assert_eq!(show(&n.clone().dec()), "R(- 4:40 -)");
    assert_eq!(show(&n.clone().dec().dec()), "N(- 4:40 -)");
    let (a, b) = black(one(Color::Red, 1), 2, leaf()).children();
    assert_eq!(show(&a), "R(- 1:10 -)");
    assert_eq!(show(&b), "-");
    let (a, k, b) = black(leaf(), 2, one(Color::Red, 3)).children_and_key();
    assert_eq!((show(&a), *k, show(&b)), ("-".to_string(), 2, "R(- 3:30 -)".to_string()));
    assert_eq!(*black(leaf(), 6, leaf()).get_data().val, 60);
}

#[test]
fn canonical_form_puts_the_middle_key_on_top() {
    let n = canonical_form(
        Color::Red,
        leaf(),
        leaf(),
        leaf(),
        leaf(),
        Arc::new(1u64),
        Arc::new(10u64),
        Arc::new(2u64),
        Arc::new(20u64),
        Arc::new(3u64),
        Arc::new(30u64),
    );
    assert_eq!(show(&n), "R(B(- 1:10 -) 2:20 B(- 3:30 -))");
}

#[test]
fn balance_rewrites_each_red_red_pattern() {
    let want = "R(B(- 1:10 -) 2:20 B(- 3:30 -))";
    let outer_left = black(red(one(Color::Red, 1), 2, leaf()), 3, leaf());
    let inner_left = black(red(leaf(), 1, one(Color::Red, 2)), 3, leaf());
    let inner_right = black(leaf(), 1, red(one(Color::Red, 2), 3, leaf()));
    let outer_right = black(leaf(), 1, red(leaf(), 2, one(Color::Red, 3)));
    for n in [outer_left, inner_left, inner_right, outer_right] {
        assert_eq!(show(&n.balance()), want);
    }
}

#[test]
fn balance_under_a_double_black_root_gives_a_black_root() {
    let n = node(Color::DoubleBlack, red(leaf(), 1, one(Color::Red, 2)), 3, leaf());
    assert_eq!(show(&n.balance()), "B(B(- 1:10 -) 2:20 B(- 3:30 -))");
}

#[test]
fn balance_takes_the_outer_pattern_before_the_inner_one() {
    let n = black(red(one(Color::Red, 1), 2, one(Color::Red, 3)), 4, leaf());
    assert_eq!(show(&n.balance()), "R(B(- 1:10 -) 2:20 B(R(- 3:30 -) 4:40 -))");
    let n = black(leaf(), 1, red(one(Color::Red, 2), 3, one(Color::Red, 4)));
    assert_eq!(show(&n.balance()), "R(B(- 1:10 -) 2:20 B(- 3:30 R(- 4:40 -)))");
}

#[test]
fn balance_leaves_other_nodes_alone() {
    let red_root = red(one(Color::Black, 1), 2, one(Color::Black, 3));
    assert_eq!(show(&red_root.clone().balance()), show(&red_root));
    let plain = black(one(Color::Red, 1), 2, one(Color::Red, 3));
    assert_eq!(show(&plain.clone().balance()), show(&plain));
    let heavy = node(
        Color::DoubleBlack,
        one(Color::Black, 1),
        2,
        red(one(Color::Black, 3), 4, one(Color::Black, 5)),
    );
    assert_eq!(show(&heavy.clone().balance()), show(&heavy));
}

#[test]
fn balance_removes_a_negative_black_child() {
    let right = node(Color::NegativeBlack, one(Color::Black, 3), 4, one(Color::Black, 5));
    let n = node(Color::DoubleBlack, leaf(), 2, right);
    assert_eq!(show(&n.balance()), "B(B(- 2:20 -) 3:30 B(- 4:40 R(- 5:50 -)))");
    let left = node(Color::NegativeBlack, one(Color::Black, 1), 2, one(Color::Black, 3));
    let n = node(Color::DoubleBlack, left, 4, leaf());
    assert_eq!(show(&n.balance()), "B(B(R(- 1:10 -) 2:20 -) 3:30 B(- 4:40 -))");
}

#[test]
fn insertion_at_a_leaf_and_at_an_equal_key() {
    let mut count: usize = 7;
    let n = leaf().modify_at_rec(5, 50, &mut count);
    assert_eq!(count, 1);
    assert_eq!(show(&n), "R(- 5:50 -)");
    let tree = black(one(Color::Red, 1), 2, one(Color::Red, 3));
    let n = tree.modify_at_rec(2, 99, &mut count);
    assert_eq!(count, 0);
    assert_eq!(show(&n), "B(R(- 1:10 -) 2:99 R(- 3:30 -))");
    let n = tree.modify_at(3, 77, &mut count);
    assert_eq!(count, 0);
    assert_eq!(show(&n), "B(R(- 1:10 -) 2:20 R(- 3:77 -))");
}

#[test]
fn ascending_insertion_builds_the_expected_tree() {
    assert_eq!(show(&from_keys(&[1])), "B(- 1:10 -)");
    assert_eq!(show(&from_keys(&[1, 2])), "B(- 1:10 R(- 2:20 -))");
    assert_eq!(show(&from_keys(&[1, 2, 3])), "B(B(- 1:10 -) 2:20 B(- 3:30 -))");
    assert_eq!(
        show(&from_keys(&[1, 2, 3, 4, 5])),
        "B(B(- 1:10 -) 2:20 R(B(- 3:30 -) 4:40 B(- 5:50 -)))"
    );
}

#[test]
fn delete_rebuilds_the_tree() {
    let tree = from_keys(&[1, 2, 3, 4, 5]);
    let mut count: usize = 7;
    let after = tree.delete(&1, &mut count);
    assert_eq!(count, 1);
    assert_eq!(show(&after), "B(B(- 2:20 -) 3:30 B(- 4:40 R(- 5:50 -)))");
    assert_eq!(after.find(&1), None);
    assert_eq!(after.find(&5), Some(&50));
    let same = tree.delete(&9, &mut count);
    assert_eq!(count, 0);
    assert_eq!(show(&same), show(&tree));
    let below = del(tree.clone(), &3, &mut count);
    assert_eq!(count, 1);
    assert_eq!(show(&below), "B(B(- 1:10 -) 2:20 B(- 4:40 R(- 5:50 -)))");
}

#[test]
fn remove_node_by_the_shape_of_the_node() {
    assert_eq!(show(&remove_node(one(Color::Red, 1))), "-");
    assert_eq!(show(&remove_node(one(Color::Black, 1))), "=");
    assert_eq!(show(&remove_node(black(one(Color::Red, 1), 2, leaf()))), "B(- 1:10 -)");
    assert_eq!(show(&remove_node(black(leaf(), 2, one(Color::Red, 3)))), "B(- 3:30 -)");
    let full = black(one(Color::Black, 1), 2, one(Color::Black, 3));
    assert_eq!(show(&remove_node(full)), "D(- 1:10 R(- 3:30 -))");
    let red_top = red(black(leaf(), 1, one(Color::Red, 2)), 3, one(Color::Black, 4));
    assert_eq!(show(&remove_node(red_top)), "R(B(- 1:10 -) 2:20 B(- 4:40 -))");
}

#[test]
fn remove_max_and_find_max() {
    let tree = from_keys(&[1, 2, 3, 4, 5]);
    let (k, v) = tree.find_max_kvp();
    assert_eq!((*k, *v), (5, 50));
    assert_eq!(show(&remove_max(tree)), "B(B(- 1:10 -) 2:20 B(R(- 3:30 -) 4:40 -))");
    let (k, v) = one(Color::Red, 8).find_max_kvp();
    assert_eq!((*k, *v), (8, 80));
}

#[test]
fn bubble_moves_a_double_black_up() {
    let plain = bubble(
        Color::Red,
        one(Color::Black, 1),
        Arc::new(2u64),
        Arc::new(20u64),
        one(Color::Black, 3),
    );
    assert_eq!(show(&plain), "R(B(- 1:10 -) 2:20 B(- 3:30 -))");
    let dbl: Node = new_leaf(Color::DoubleBlack);
    let lifted = bubble(Color::Black, dbl, Arc::new(2u64), Arc::new(20u64), one(Color::Black, 3));
    assert_eq!(show(&lifted), "D(- 2:20 R(- 3:30 -))");
    let dbl: Node = new_leaf(Color::DoubleBlack);
    let absorbed = bubble(Color::Red, dbl, Arc::new(2u64), Arc::new(20u64), one(Color::Black, 3));
    assert_eq!(show(&absorbed), "B(- 2:20 R(- 3:30 -))");
}

#[test]
fn no_red_red_says_no_to_red_under_red_and_to_transient_children() {
    assert!(leaf().no_red_red());
    assert!(black(one(Color::Red, 1), 2, one(Color::Red, 3)).no_red_red());
    assert!(red(one(Color::Black, 1), 2, one(Color::Black, 3)).no_red_red());
    assert!(!red(one(Color::Red, 1), 2, one(Color::Black, 3)).no_red_red());
    assert!(!black(red(leaf(), 1, one(Color::Red, 2)), 3, leaf()).no_red_red());
    let dbl: Node = new_leaf(Color::DoubleBlack);
    assert!(!black(dbl, 1, leaf()).no_red_red());
    let neg = node(Color::NegativeBlack, one(Color::Black, 3), 4, one(Color::Black, 5));
    assert!(!node(Color::DoubleBlack, leaf(), 2, neg).no_red_red());
}

#[test]
fn colors_and_black_heights_are_counted() {
    let tree = from_keys(&[1, 2, 3, 4, 5]);
    assert!(tree.has_persistent_colors());
    assert_eq!(tree.count_black_height(true), 3);
    assert_eq!(tree.count_black_height(false), 3);
    assert!(tree.black_balanced());
    assert_eq!(leaf().count_black_height(true), 1);
    let lopsided = black(one(Color::Black, 1), 2, leaf());
    assert_eq!(lopsided.count_black_height(true), 3);
    assert_eq!(lopsided.count_black_height(false), 2);
    assert!(!lopsided.black_balanced());
    let dbl: Node = new_leaf(Color::DoubleBlack);
    assert!(!black(dbl, 1, leaf()).has_persistent_colors());
    assert!(!one(Color::DoubleBlack, 1).has_persistent_colors());
}

#[test]
fn find_descends_by_key() {
    let tree = from_keys(&[4, 2, 6, 1, 3, 5, 7]);
    for k in 1..=7u64 {
        assert_eq!(tree.find(&k), Some(&(k * 10)));
    }
    assert_eq!(tree.find(&0), None);
    assert_eq!(tree.find(&8), None);
    assert_eq!(leaf().find(&1), None);
}
