//! The layered composer: splits the tree level by level into partition lines
//! and labels its leaves.

use vstd::prelude::*;
use crate::geometry::{Line, Rect, Text};
use crate::label::{create_text, label_box};
use crate::split::{place_siblings, layout};
use crate::tree::{fits, values_of, Node};

verus! {

/// The composer's output: partition lines of every depth, outermost first,
/// and the leaves' labels.
pub struct Layer {
    pub lines: Vec<Line>,
    pub texts: Vec<Text>,
}

/// The labels of the leaves under `n`, in depth-first order (a leaf gives
/// its own).
pub open spec fn leaf_msgs(n: Node) -> Seq<Seq<char>>
    decreases n,
{
    if n.children@.len() == 0 {
        seq![n.text@]
    } else {
        msgs_of(n.children@)
    }
}

/// The labels of the leaves under the nodes of `s`, in order.
pub open spec fn msgs_of(s: Seq<Node>) -> Seq<Seq<char>>
    decreases s,
{
    if s.len() == 0 {
        Seq::empty()
    } else {
        msgs_of(s.drop_last()) + leaf_msgs(s.last())
    }
}

/// The messages of a sequence of labels.
pub open spec fn msgs(t: Seq<Text>) -> Seq<Seq<char>> {
    t.map_values(|x: Text| x.msg@)
}

/// Number of levels of lines below `n`: zero for a leaf.
pub open spec fn height(n: Node) -> nat
    decreases n,
{
    if n.children@.len() == 0 {
        0
    } else {
        1 + max_height(n.children@)
    }
}

/// The greatest height among the nodes of `s`.
pub open spec fn max_height(s: Seq<Node>) -> nat
    decreases s,
{
    if s.len() == 0 {
        0
    } else {
        let a = max_height(s.drop_last());
        let b = height(s.last());
        if a >= b { a } else { b }
    }
}

proof fn lemma_max_height(s: Seq<Node>, i: int)
    requires
        0 <= i < s.len(),
    ensures
        height(s[i]) <= max_height(s),
    decreases s.len(),
{
    if i < s.len() - 1 {
        lemma_max_height(s.drop_last(), i);
    }
}

/// No two labels' boxes overlap.
pub open spec fn labels_apart(t: Seq<Text>) -> bool {
    forall|i: int, j: int| #![trigger t[i], t[j]] 0 <= i < j < t.len() ==> label_box(t[i]).disjoint(label_box(t[j]))
}

/// Some line of `s` lies at stroke depth `d`.
pub open spec fn has_line_at(s: Seq<Line>, d: int) -> bool {
    exists|q: int| 0 <= q < s.len() && #[trigger] s[q].stroke_depth == d
}

/// Lines in order of non-decreasing stroke depth.
pub open spec fn depth_sorted(s: Seq<Line>) -> bool {
    forall|i: int, j: int| 0 <= i < j < s.len() ==> s[i].stroke_depth <= s[j].stroke_depth
}

/// Merges two lists of lines ordered by stroke depth into one, keeping each
/// list's order and, at equal depth, putting `a`'s lines first.
fn merge_by_depth(a: Vec<Line>, b: Vec<Line>) -> (r: Vec<Line>)
    requires
        depth_sorted(a@),
        depth_sorted(b@),
    ensures
        depth_sorted(r@),
        r@.len() == a@.len() + b@.len(),
        forall|k: int| 0 <= k < r@.len() ==> a@.contains(#[trigger] r@[k]) || b@.contains(r@[k]),
        forall|k: int| 0 <= k < a@.len() ==> r@.contains(#[trigger] a@[k]),
        forall|k: int| 0 <= k < b@.len() ==> r@.contains(#[trigger] b@[k]),
{
    let mut r: Vec<Line> = Vec::new();
    let mut i: usize = 0;
    let mut j: usize = 0;
    while i < a.len() || j < b.len()
        invariant
            i <= a@.len(),
            j <= b@.len(),
            depth_sorted(a@),
            depth_sorted(b@),
            depth_sorted(r@),
            r@.len() == i + j,
            forall|k: int| 0 <= k < r@.len() ==> a@.contains(#[trigger] r@[k]) || b@.contains(r@[k]),
            r@.len() > 0 && i < a@.len() ==> r@.last().stroke_depth <= a@[i as int].stroke_depth,
            forall|t: int| 0 <= t < i ==> r@.contains(#[trigger] a@[t]),
            forall|t: int| 0 <= t < j ==> r@.contains(#[trigger] b@[t]),
            r@.len() > 0 && j < b@.len() ==> r@.last().stroke_depth <= b@[j as int].stroke_depth,
        decreases a@.len() + b@.len() - i - j,
    {
        let ghost r0 = r@;
        if j >= b.len() || (i < a.len() && a[i].stroke_depth <= b[j].stroke_depth) {
            let x = a[i];
            r.push(x);
            i = i + 1;
            proof {
                assert(a@.contains(r@[r@.len() - 1]));
            }
        } else {
            let x = b[j];
            r.push(x);
            j = j + 1;
            proof {
                assert(b@.contains(r@[r@.len() - 1]));
            }
        }
        proof {
            assert forall|t: int| 0 <= t < i implies r@.contains(#[trigger] a@[t]) by {
                if r0.contains(a@[t]) {
                    let u = choose|u: int| 0 <= u < r0.len() && r0[u] == a@[t];
                    assert(r@[u] == r0[u]);
                } else {
                    assert(r@[r@.len() - 1] == a@[t]);
                }
            }
            assert forall|t: int| 0 <= t < j implies r@.contains(#[trigger] b@[t]) by {
                if r0.contains(b@[t]) {
                    let u = choose|u: int| 0 <= u < r0.len() && r0[u] == b@[t];
                    assert(r@[u] == r0[u]);
                } else {
                    assert(r@[r@.len() - 1] == b@[t]);
                }
            }
            assert forall|k: int| 0 <= k < r@.len() implies a@.contains(#[trigger] r@[k]) || b@.contains(r@[k]) by {
                if k < r0.len() {
                    assert(r@[k] == r0[k]);
                }
            }
            assert forall|x: int, y: int| 0 <= x < y < r@.len() implies r@[x].stroke_depth <= r@[y].stroke_depth by {
                if y < r0.len() {
                    assert(r@[x] == r0[x] && r@[y] == r0[y]);
                } else if x < r0.len() - 1 {
                    assert(r0[x].stroke_depth <= r0.last().stroke_depth);
                }
            }
        }
    }
    r
}

/// Lays out the tree under `node` in `rect`: a leaf gets its label; an inner
/// node's children are split in `rect` with lines at stroke depth `depth`,
/// and each child is laid out in its rectangle one depth further.
fn layout_node(node: &Node, rect: Rect, depth: u64) -> (r: Layer)
    requires
        fits(*node),
        rect.wf(),
        depth + height(*node) <= u64::MAX,
    ensures
        depth_sorted(r.lines@),
        forall|k: int| 0 <= k < r.lines@.len() ==> #[trigger] rect.holds_line(r.lines@[k]) && r.lines@[k].stroke_depth >= depth
            && r.lines@[k].stroke_depth < depth + height(*node),
        msgs(r.texts@) == leaf_msgs(*node),
        node.children@.len() > 0 ==> ({
            let own = layout(values_of(node.children@), 0, node.children@.len() as int, rect, depth).0;
            own.len() <= r.lines@.len() && r.lines@.subrange(0, own.len() as int) == own
        }),
        node.children@.len() >= 2 ==> r.lines@.len() >= 1 && r.lines@[0].stroke_depth == depth,
        forall|k: int| 0 <= k < r.texts@.len() ==> rect.contains(#[trigger] label_box(r.texts@[k])),
        labels_apart(r.texts@),
        forall|c: int| 0 <= c < node.children@.len() && (#[trigger] node.children@[c]).children@.len() >= 2
            ==> has_line_at(r.lines@, depth + 1),
    decreases node,
{
    let n = node.children.len();
    if n == 0 {
        let t = create_text(&rect, node.text.clone());
        let texts = vec![t];
        proof {
            assert(texts@[0] == t);
            assert(msgs(texts@) =~= seq![node.text@]);
        }
        return Layer { lines: Vec::new(), texts };
    }
    let mut vals: Vec<u64> = Vec::new();
    let mut i: usize = 0;
    while i < n
        invariant
            n == node.children@.len(),
            i <= n,
            vals@ == values_of(node.children@).subrange(0, i as int),
        decreases n - i,
    {
        vals.push(node.children[i].value);
        proof {
            assert(vals@ =~= values_of(node.children@).subrange(0, i + 1));
        }
        i = i + 1;
    }
    proof {
        assert(vals@ =~= values_of(node.children@));
        assert(vals@.subrange(0, n as int) =~= vals@);
    }
    let p = place_siblings(vals.as_slice(), 0, n, rect, depth);
    proof {
        reveal(crate::split::places);
    }
    let mut deeper: Vec<Line> = Vec::new();
    let mut texts: Vec<Text> = Vec::new();
    let ghost mut owner: Seq<int> = Seq::empty();
    let mut k: usize = 0;
    while k < n
        invariant
            n == node.children@.len(),
            n == p.rects@.len(),
            crate::split::places(p, vals@, 0, n as int, rect, depth),
            k <= n,
            fits(*node),
            depth + height(*node) <= u64::MAX,
            height(*node) == 1 + max_height(node.children@),
            forall|t: int| 0 <= t < p.rects@.len() ==> #[trigger] rect.contains(p.rects@[t]) && p.rects@[t].wf(),
            depth_sorted(deeper@),
            forall|t: int| 0 <= t < deeper@.len() ==> #[trigger] rect.holds_line(deeper@[t]) && deeper@[t].stroke_depth > depth
                && deeper@[t].stroke_depth < depth + height(*node),
            msgs(texts@) == msgs_of(node.children@.subrange(0, k as int)),
            forall|t: int| 0 <= t < texts@.len() ==> rect.contains(#[trigger] label_box(texts@[t])),
            crate::split::pairwise_disjoint(p.rects@),
            owner.len() == texts@.len(),
            forall|t: int| 0 <= t < texts@.len() ==> 0 <= #[trigger] owner[t] < k && p.rects@[owner[t]].contains(label_box(texts@[t])),
            labels_apart(texts@),
            forall|c: int| 0 <= c < k && (#[trigger] node.children@[c]).children@.len() >= 2 ==> has_line_at(deeper@, depth + 1),
        decreases n - k,
    {
        proof {
            lemma_max_height(node.children@, k as int);
            assert(rect.contains(p.rects@[k as int]));
        }
        let sub = layout_node(&node.children[k], p.rects[k], depth + 1);
        let ghost d0 = deeper@;
        let ghost t0 = texts@;
        let sub_lines = sub.lines;
        let mut sub_texts = sub.texts;
        let ghost st = sub_texts@;
        proof {
            assert(rect.contains(p.rects@[k as int]));
        }
        deeper = merge_by_depth(deeper, sub_lines);
        texts.append(&mut sub_texts);
        proof {
            assert(node.children@.subrange(0, k + 1).drop_last() =~= node.children@.subrange(0, k as int));
            assert(msgs(texts@) =~= msgs(t0) + msgs(st));
            lemma_max_height(node.children@, k as int);
            assert forall|t: int| 0 <= t < deeper@.len() implies #[trigger] rect.holds_line(deeper@[t]) && deeper@[t].stroke_depth > depth
                && deeper@[t].stroke_depth < depth + height(*node) by {
                if d0.contains(deeper@[t]) {
                    let u = choose|u: int| 0 <= u < d0.len() && d0[u] == deeper@[t];
                    assert(rect.holds_line(d0[u]));
                    assert(d0[u].stroke_depth < depth + height(*node));
                } else {
                    let u = choose|u: int| 0 <= u < sub_lines@.len() && sub_lines@[u] == deeper@[t];
                    assert(p.rects@[k as int].holds_line(sub_lines@[u]));
                    assert(sub_lines@[u].stroke_depth < depth + 1 + height(node.children@[k as int]));
                }
            }
            assert forall|c: int| 0 <= c < k + 1 && (#[trigger] node.children@[c]).children@.len() >= 2 implies has_line_at(deeper@, depth + 1) by {
                if c < k {
                    let q = choose|q: int| 0 <= q < d0.len() && #[trigger] d0[q].stroke_depth == depth + 1;
                    assert(deeper@.contains(d0[q]));
                    let u = choose|u: int| 0 <= u < deeper@.len() && deeper@[u] == d0[q];
                    assert(deeper@[u].stroke_depth == depth + 1);
                } else {
                    assert(deeper@.contains(sub_lines@[0]));
                    let u = choose|u: int| 0 <= u < deeper@.len() && deeper@[u] == sub_lines@[0];
                    assert(deeper@[u].stroke_depth == depth + 1);
                }
            }
            let o0 = owner;
            owner = o0 + Seq::new(st.len(), |u: int| k as int);
            assert forall|t: int| 0 <= t < texts@.len() implies 0 <= #[trigger] owner[t] < k + 1 && p.rects@[owner[t]].contains(label_box(texts@[t])) by {
                if t < t0.len() {
                    assert(texts@[t] == t0[t]);
                } else {
                    assert(texts@[t] == st[t - t0.len()]);
                }
            }
            assert forall|a: int, b: int| #![trigger texts@[a], texts@[b]] 0 <= a < b < texts@.len() implies label_box(texts@[a]).disjoint(label_box(texts@[b])) by {
                if b < t0.len() {
                    assert(texts@[a] == t0[a] && texts@[b] == t0[b]);
                } else if a < t0.len() {
                    assert(texts@[a] == t0[a] && texts@[b] == st[b - t0.len()]);
                    let oa = owner[a];
                    assert(p.rects@[oa].contains(label_box(texts@[a])));
                    assert(p.rects@[k as int].contains(label_box(texts@[b])));
                    assert(p.rects@[oa].disjoint(p.rects@[k as int]));
                } else {
                    assert(texts@[a] == st[a - t0.len()] && texts@[b] == st[b - t0.len()]);
                }
            }
            assert forall|t: int| 0 <= t < texts@.len() implies rect.contains(#[trigger] label_box(texts@[t])) by {
                if t < t0.len() {
                    assert(texts@[t] == t0[t]);
                } else {
                    assert(texts@[t] == st[t - t0.len()]);
                    assert(p.rects@[k as int].contains(label_box(st[t - t0.len()])));
                }
            }
        }
        k = k + 1;
    }
    let mut lines = p.lines;
    let ghost own = lines@;
    assert(vals@ == values_of(node.children@));
    let ghost dl = deeper@;
    lines.append(&mut deeper);
    proof {
        reveal(crate::split::places);
        assert(node.children@.subrange(0, n as int) =~= node.children@);
        assert(lines@.subrange(0, own.len() as int) =~= own);
        if n >= 2 {
            assert(rect.holds_line(own[0]));
        }
        assert forall|c: int| 0 <= c < n && (#[trigger] node.children@[c]).children@.len() >= 2 implies has_line_at(lines@, depth + 1) by {
            let q = choose|q: int| 0 <= q < dl.len() && #[trigger] dl[q].stroke_depth == depth + 1;
            assert(lines@[own.len() + q] == dl[q]);
            assert(lines@[own.len() + q].stroke_depth == depth + 1);
        }
        assert forall|x: int, y: int| 0 <= x < y < lines@.len() implies lines@[x].stroke_depth <= lines@[y].stroke_depth by {
            if y < own.len() {
                assert(rect.holds_line(own[x]) && rect.holds_line(own[y]));
            } else if x < own.len() {
                assert(rect.holds_line(own[x]));
                assert(lines@[y] == dl[y - own.len()]);
                assert(rect.holds_line(dl[y - own.len()]));
            } else {
                assert(lines@[x] == dl[x - own.len()]);
            }
        }
        assert forall|t: int| 0 <= t < lines@.len() implies #[trigger] rect.holds_line(lines@[t]) && lines@[t].stroke_depth >= depth
            && lines@[t].stroke_depth < depth + height(*node) by {
            if t < own.len() {
                assert(rect.holds_line(own[t]));
            } else {
                assert(lines@[t] == dl[t - own.len()]);
                assert(rect.holds_line(dl[t - own.len()]));
            }
        }
    }
    Layer { lines, texts }
}

/// Composes the treemap of a normalized tree in `rect`: the root's children
/// are split in `rect` with lines at stroke depth 0, each inner node's
/// children in its own rectangle one depth further, and every leaf below the
/// root gets a label fitted to its rectangle, in depth-first order, no two
/// overlapping. The first lines are the split of the root's children, and a
/// child with two or more children of its own adds lines at depth 1. Lines
/// come outermost first, each at a stroke depth below the tree's height; a
/// root without children gives nothing.
pub fn compose(root_node: &Node, rect: &Rect) -> (r: Layer)
    requires
        fits(*root_node),
        rect.is_proper(),
        height(*root_node) <= u64::MAX,
    ensures
        depth_sorted(r.lines@),
        forall|k: int| 0 <= k < r.lines@.len() ==> #[trigger] rect.holds_line(r.lines@[k]) && r.lines@[k].stroke_depth < height(*root_node),
        msgs(r.texts@) == if root_node.children@.len() == 0 { Seq::empty() } else { leaf_msgs(*root_node) },
        root_node.children@.len() > 0 ==> ({
            let own = layout(values_of(root_node.children@), 0, root_node.children@.len() as int, *rect, 0).0;
            own.len() <= r.lines@.len() && r.lines@.subrange(0, own.len() as int) == own
        }),
        root_node.children@.len() >= 2 ==> r.lines@.len() >= 1 && r.lines@[0].stroke_depth == 0,
        forall|k: int| 0 <= k < r.texts@.len() ==> rect.contains(#[trigger] label_box(r.texts@[k])),
        labels_apart(r.texts@),
        forall|c: int| 0 <= c < root_node.children@.len() && (#[trigger] root_node.children@[c]).children@.len() >= 2
            ==> has_line_at(r.lines@, 1),
{
    if root_node.children.len() == 0 {
        let r = Layer { lines: Vec::new(), texts: Vec::new() };
        assert(msgs(r.texts@) =~= Seq::empty());
        return r;
    }
    layout_node(root_node, *rect, 0)
}

} // verus!
