use treemap_svg::compose::compose;
use treemap_svg::geometry::{Point, Rect, INITIAL_STROKE_WIDTH, STROKE_DECAY};
use treemap_svg::label::create_text;
use treemap_svg::split::{adj_rem_iter, compose_greedy_rec};
use treemap_svg::tree::{apportion, process_order_nodes, sort_desc, Node};

fn rect(x: u64, y: u64, w: u64, h: u64) -> Rect {
    Rect { a: Point { x, y }, off: Point { x: w, y: h } }
}

fn leaf(text: &str, value: u64) -> Node {
    Node { children: Vec::new(), value, text: text.to_string() }
}

fn inner(children: Vec<Node>) -> Node {
    let value = children.iter().map(|c| c.value).sum();
    Node { children, value, text: String::new() }
}

fn area(r: &Rect) -> u64 {
    r.off.x * r.off.y
}

fn check_balanced(n: &Node) {
    if !n.children.is_empty() {
        assert_eq!(n.value, n.children.iter().map(|c| c.value).sum::<u64>());
        for w in n.children.windows(2) {
            assert!(w[0].value >= w[1].value);
        }
        for c in &n.children {
            check_balanced(c);
        }
    }
}

#[test]
fn mask_keeps_one_coordinate() {
    let p = Point { x: 3, y: 7 };
    assert_eq!(p.mask(false), Point { x: 3, y: 0 });
    assert_eq!(p.mask(true), Point { x: 0, y: 7 });
}

#[test]
fn point_add_and_sub() {
    let p = Point { x: 3, y: 7 };
    let q = Point { x: 1, y: 2 };
    assert_eq!(p.add(q), Point { x: 4, y: 9 });
    assert_eq!(p.sub(q), Point { x: 2, y: 5 });
}

#[test]
fn create_margin_insets_every_side() {
    let r = rect(10, 10, 100, 200).create_margin(1, 50);
    assert_eq!(r, rect(12, 14, 96, 192));
    let flat = rect(0, 0, 10, 10).create_margin(1, 2);
    assert_eq!(flat, rect(5, 5, 0, 0));
}

#[test]
fn label_fits_its_rectangle() {
    let t = create_text(&rect(0, 0, 100, 50), "abc".to_string());
    assert_eq!(t.a, Point { x: 1, y: 0 });
    assert_eq!(t.font_size, 40);
    assert_eq!(t.text_length, 88);
    assert_eq!(t.msg, "abc");
}

#[test]
fn label_of_long_message_is_bounded_by_width() {
    let r = rect(5, 5, 60, 100);
    let t = create_text(&r, "abcdefghij".to_string());
    // width 60, height 60 * 20 / 150 = 8, margin 1 and 0
    assert_eq!(t.a, Point { x: 6, y: 5 });
    assert_eq!(t.text_length, 58);
    assert_eq!(t.font_size, 8);
    assert!(t.a.x + t.text_length <= r.a.x + r.off.x);
    assert!(t.a.y + t.font_size <= r.a.y + r.off.y);
}

#[test]
fn label_in_unit_rectangle_is_not_flat() {
    let t = create_text(&rect(7, 9, 1, 1), "hello".to_string());
    assert_eq!(t.a, Point { x: 7, y: 9 });
    assert_eq!(t.font_size, 1);
    assert_eq!(t.text_length, 1);
}

#[test]
fn empty_label_is_flat() {
    let t = create_text(&rect(0, 0, 100, 50), String::new());
    assert_eq!(t.font_size, 0);
    assert_eq!(t.text_length, 0);
}

#[test]
fn best_split_beats_single_line_baseline() {
    let v = vec![30u64, 1, 1, 1, 1, 1, 1];
    let r = rect(0, 0, 100, 100);
    let b = adj_rem_iter(&v, 0, v.len(), &r);
    assert_eq!(b.index, 6);
    assert_eq!(b.adj_area, 6);
    assert!(b.is_xy);
    // 36 / 100 + 30 * 100 / 36, below the baseline of 100
    assert_eq!((b.cost_num, b.cost_den), (301_296, 3_600));
    assert!(b.cost_num < 100 * b.cost_den);
}

#[test]
fn best_split_on_a_finer_grid() {
    let mut v = vec![30_000u64];
    v.extend(std::iter::repeat(1_000u64).take(6));
    let b = adj_rem_iter(&v, 0, v.len(), &rect(0, 0, 3_000, 3_000));
    assert_eq!(b.index, 6);
    assert_eq!(b.adj_area, 6_000);
    assert!(b.is_xy);
}

#[test]
fn best_split_keeps_baseline_when_nothing_is_cheaper() {
    let v = vec![30u64, 1, 1, 1, 1, 1, 1];
    let b = adj_rem_iter(&v, 0, v.len(), &rect(0, 0, 6, 6));
    assert_eq!(b.index, 0);
    assert_eq!(b.adj_area, 0);
    assert_eq!((b.cost_num, b.cost_den), (6, 1));
}

#[test]
fn split_of_one_sibling_fills_rect() {
    let r = rect(3, 4, 10, 20);
    let p = compose_greedy_rec(&[200], 0, 1, r, 0);
    assert!(p.lines.is_empty());
    assert_eq!(p.rects, vec![r]);
}

#[test]
fn split_of_no_sibling_is_empty() {
    let p = compose_greedy_rec(&[], 0, 0, rect(0, 0, 10, 10), 0);
    assert!(p.lines.is_empty());
    assert!(p.rects.is_empty());
}

#[test]
fn split_of_two_siblings_draws_one_line() {
    let r = rect(0, 0, 10, 10);
    let p = compose_greedy_rec(&[60, 40], 0, 2, r, 2);
    assert_eq!(p.lines.len(), 1);
    assert_eq!(p.lines[0].a, Point { x: 6, y: 0 });
    assert_eq!(p.lines[0].off, Point { x: 0, y: 10 });
    assert_eq!(p.lines[0].stroke_depth, 2);
    assert_eq!(p.rects, vec![rect(0, 0, 6, 10), rect(6, 0, 4, 10)]);
    assert_eq!(area(&p.rects[0]) + area(&p.rects[1]), area(&r));
}

#[test]
fn split_of_many_siblings_covers_rect() {
    let r = rect(0, 0, 10, 10);
    let v = [40u64, 25, 15, 12, 8];
    let p = compose_greedy_rec(&v, 0, 5, r, 0);
    assert_eq!(p.rects.len(), 5);
    assert_eq!(p.rects.iter().map(area).sum::<u64>(), v.iter().sum::<u64>());
    assert_eq!(
        p.rects,
        vec![rect(0, 0, 4, 10), rect(4, 0, 6, 4), rect(4, 4, 2, 6), rect(6, 4, 4, 3), rect(6, 7, 4, 3)]
    );
    assert_eq!(p.lines.len(), 4);
}

#[test]
fn split_of_sub_range() {
    let v = [99u64, 60, 40, 7];
    let p = compose_greedy_rec(&v, 1, 3, rect(0, 0, 10, 10), 0);
    assert_eq!(p.rects, vec![rect(0, 0, 6, 10), rect(6, 0, 4, 10)]);
}

#[test]
fn apportion_is_exact() {
    assert_eq!(apportion(&vec![5, 3, 2], 100), vec![50, 30, 20]);
    assert_eq!(apportion(&vec![1, 1, 1], 100), vec![34, 33, 33]);
    assert_eq!(apportion(&vec![2, 1], 4), vec![3, 1]);
    assert_eq!(apportion(&vec![0, 0], 7), vec![7, 0]);
}

#[test]
fn sort_is_descending_and_stable() {
    let v = vec![leaf("a", 1), leaf("b", 5), leaf("c", 1), leaf("d", 3)];
    let s = sort_desc(v);
    let names: Vec<&str> = s.iter().map(|n| n.text.as_str()).collect();
    assert_eq!(names, vec!["b", "d", "a", "c"]);
}

#[test]
fn normalization_keeps_sums() {
    let mut root = inner(vec![
        inner(vec![leaf("a", 1), leaf("b", 4)]),
        leaf("c", 2),
        inner(vec![leaf("d", 3), inner(vec![leaf("e", 1), leaf("f", 1)])]),
    ]);
    let total_before = root.value;
    process_order_nodes(&mut root, &rect(0, 0, 30, 40));
    assert_eq!(root.value, total_before);
    assert_eq!(root.children.iter().map(|c| c.value).sum::<u64>(), 1200);
    for c in &root.children {
        check_balanced(c);
    }
    let values: Vec<u64> = root.children.iter().map(|c| c.value).collect();
    assert_eq!(values, vec![500, 500, 200]);
}

#[test]
fn end_to_end_three_leaves() {
    let mut root = inner(vec![leaf("A", 50), leaf("B", 30), leaf("C", 20)]);
    let r = rect(0, 0, 100, 100);
    process_order_nodes(&mut root, &r);
    let values: Vec<u64> = root.children.iter().map(|c| c.value).collect();
    assert_eq!(values, vec![5000, 3000, 2000]);
    let p = compose_greedy_rec(&values, 0, 3, r, 0);
    assert_eq!(p.rects.iter().map(area).sum::<u64>(), 10000);
    assert_eq!(p.rects, vec![rect(0, 0, 50, 100), rect(50, 0, 50, 60), rect(50, 60, 50, 40)]);
    assert!(!p.lines.is_empty());
    let layer = compose(&root, &r);
    assert!(!layer.lines.is_empty());
    assert_eq!(layer.texts.len(), 3);
    let names: Vec<&str> = layer.texts.iter().map(|t| t.msg.as_str()).collect();
    assert_eq!(names, vec!["A", "B", "C"]);
}

#[test]
fn compose_two_levels() {
    let mut root = inner(vec![leaf("A", 5), leaf("B", 3), leaf("C", 2)]);
    let r = rect(0, 0, 100, 100);
    process_order_nodes(&mut root, &r);
    let layer = compose(&root, &r);
    assert_eq!(layer.texts.len(), 3);
    assert!(!layer.lines.is_empty());
    assert!(layer.lines.iter().all(|l| l.stroke_depth == 0));
}

#[test]
fn compose_three_levels() {
    let mut root = inner(vec![
        inner(vec![leaf("a", 2), leaf("b", 2)]),
        inner(vec![leaf("c", 1), leaf("d", 1)]),
    ]);
    let r = rect(0, 0, 90, 90);
    process_order_nodes(&mut root, &r);
    let layer = compose(&root, &r);
    assert_eq!(layer.texts.len(), 4);
    let mut depths: Vec<u64> = layer.lines.iter().map(|l| l.stroke_depth).collect();
    let sorted = {
        let mut d = depths.clone();
        d.sort();
        d
    };
    assert_eq!(depths, sorted);
    depths.dedup();
    assert_eq!(depths, vec![0, 1]);
    let first = INITIAL_STROKE_WIDTH as f64;
    let second = INITIAL_STROKE_WIDTH as f64 / STROKE_DECAY as f64;
    assert_eq!(second * 3.0, first);
}

#[test]
fn compose_of_leaf_root_is_empty() {
    let root = leaf("alone", 1);
    let layer = compose(&root, &rect(0, 0, 10, 10));
    assert!(layer.lines.is_empty());
    assert!(layer.texts.is_empty());
}

#[test]
fn point_mul_and_div() {
    let p = Point { x: 3, y: 7 };
    assert_eq!(p.mul(4), Point { x: 12, y: 28 });
    assert_eq!(p.div(2), Point { x: 1, y: 3 });
}

#[test]
fn normalization_keeps_labels_with_values() {
    let mut root = inner(vec![leaf("low", 1), leaf("high", 3), leaf("mid", 2), leaf("mid2", 2)]);
    process_order_nodes(&mut root, &rect(0, 0, 10, 8));
    let got: Vec<(&str, u64)> = root.children.iter().map(|c| (c.text.as_str(), c.value)).collect();
    assert_eq!(got, vec![("high", 30), ("mid", 20), ("mid2", 20), ("low", 10)]);
}
