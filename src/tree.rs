//! The weighted tree and its normalization: children ordered by decreasing
//! value, values rescaled to the target rectangle's area.

use vstd::prelude::*;
use vstd::multiset::Multiset;
use crate::geometry::Rect;
use crate::split::{seq_sum, MAX_TOTAL};

verus! {

/// A node of the weighted tree. A leaf carries a label; an inner node's value
/// is the sum of its children's values.
pub struct Node {
    pub children: Vec<Node>,
    pub value: u64,
    pub text: String,
}

/// The values of a sequence of nodes.
pub open spec fn values_of(s: Seq<Node>) -> Seq<u64> {
    s.map_values(|c: Node| c.value)
}

/// The sequence does not increase.
pub open spec fn sorted_desc(s: Seq<u64>) -> bool {
    forall|i: int, j: int| 0 <= i < j < s.len() ==> s[i] >= s[j]
}

/// Every inner node of the tree has the sum of its children's values.
pub open spec fn balanced(n: Node) -> bool
    decreases n,
{
    &&& n.children@.len() > 0 ==> n.value == seq_sum(values_of(n.children@))
    &&& forall|i: int| 0 <= i < n.children@.len() ==> balanced(#[trigger] n.children@[i])
}

/// Every node's children come in order of decreasing value.
pub open spec fn ordered(n: Node) -> bool
    decreases n,
{
    &&& sorted_desc(values_of(n.children@))
    &&& forall|i: int| 0 <= i < n.children@.len() ==> ordered(#[trigger] n.children@[i])
}

/// `new` is `old` rescaled: the same label, and children that are `old`'s
/// children sorted by value and rescaled in turn, with values apportioned
/// from `new`'s value.
pub open spec fn rescaled(new: Node, old: Node) -> bool
    decreases new,
{
    &&& new.text@ == old.text@
    &&& rescaled_children(new.children@, old.children@, new.value as int)
}

/// `new` is `old` sorted by decreasing value (stably), each node rescaled,
/// the i-th taking `share(.., i)` of `total`.
pub open spec fn rescaled_children(new: Seq<Node>, old: Seq<Node>, total: int) -> bool
    decreases new,
{
    let so = sorted_by_value(old);
    &&& new.len() == old.len()
    &&& forall|i: int| 0 <= i < new.len() ==> (#[trigger] new[i]).value == share(values_of(so), total, seq_sum(values_of(old)), i)
        && rescaled(new[i], so[i])
}

/// Every node's children add up to at most `MAX_TOTAL`, so that any of them
/// can be split.
pub open spec fn fits(n: Node) -> bool
    decreases n,
{
    &&& seq_sum(values_of(n.children@)) <= MAX_TOTAL
    &&& forall|i: int| 0 <= i < n.children@.len() ==> fits(#[trigger] n.children@[i])
}

proof fn lemma_balanced_fits(n: Node)
    requires
        balanced(n),
        n.value <= MAX_TOTAL,
    ensures
        fits(n),
    decreases n,
{
    if n.children@.len() == 0 {
        assert(values_of(n.children@) =~= Seq::<u64>::empty());
    }
    assert forall|i: int| 0 <= i < n.children@.len() implies fits(#[trigger] n.children@[i]) by {
        lemma_elem_le_sum(values_of(n.children@), i);
        lemma_balanced_fits(n.children@[i]);
    }
}

/// Sum of the first `k` floors `s[i] * total / sum`.
pub open spec fn floor_sum(s: Seq<u64>, total: int, sum: int, k: int) -> int
    decreases k,
{
    if k <= 0 {
        0
    } else {
        floor_sum(s, total, sum, k - 1) + s[k - 1] * total / sum
    }
}

/// The share of `total` that apportioning gives to the i-th of the values `s`
/// (ordered by decreasing value, summing to `sum`): its exact share rounded
/// down, plus one for the first ones as long as rounding down left units over.
/// Where all values are zero the first one takes the whole.
pub open spec fn share(s: Seq<u64>, total: int, sum: int, i: int) -> int {
    if sum == 0 {
        if i == 0 { total } else { 0 }
    } else {
        s[i] * total / sum + if i < total - floor_sum(s, total, sum, s.len() as int) { 1int } else { 0 }
    }
}

proof fn lemma_floor_step(v: int, total: int, sum: int)
    requires
        sum > 0,
        v >= 0,
        total >= 0,
    ensures
        (v * total / sum) * sum <= v * total,
        v * total < (v * total / sum) * sum + sum,
        v * total / sum >= 0,
{
    assert((v * total / sum) * sum <= v * total < (v * total / sum) * sum + sum) by (nonlinear_arith)
        requires sum > 0, v >= 0, total >= 0;
    assert(v * total / sum >= 0) by (nonlinear_arith)
        requires sum > 0, v >= 0, total >= 0;
}

/// Apportions `total` among values `vals` ordered by decreasing value, in
/// proportion to them: the shares add up to `total` exactly and keep the order.
pub fn apportion(vals: &Vec<u64>, total: u64) -> (r: Vec<u64>)
    requires
        vals@.len() > 0,
        sorted_desc(vals@),
        seq_sum(vals@) <= u64::MAX,
        total <= MAX_TOTAL,
    ensures
        r@.len() == vals@.len(),
        forall|i: int| 0 <= i < r@.len() ==> r@[i] == share(vals@, total as int, seq_sum(vals@), i),
        seq_sum(r@) == total,
        sorted_desc(r@),
{
    let n = vals.len();
    let mut sum: u64 = 0;
    let mut i: usize = 0;
    while i < n
        invariant
            n == vals@.len(),
            i <= n,
            seq_sum(vals@) <= u64::MAX,
            sum == seq_sum(vals@.subrange(0, i as int)),
        decreases n - i,
    {
        proof {
            crate::split::lemma_range_sum_split(vals@, 0, i as int, i + 1);
            crate::split::lemma_range_sum_split(vals@, 0, i + 1, n as int);
            crate::split::lemma_range_sum_unit(vals@, i as int);
            assert(vals@.subrange(0, n as int) =~= vals@);
        }
        sum = sum + vals[i];
        i = i + 1;
    }
    proof {
        assert(vals@.subrange(0, n as int) =~= vals@);
    }
    let mut r: Vec<u64> = Vec::new();
    if sum == 0 {
        r.push(total);
        proof {
            assert(r@ =~= seq![total]);
            assert(seq![total].drop_last() =~= Seq::<u64>::empty());
            assert(seq_sum(Seq::<u64>::empty()) == 0);
        }
        let mut j: usize = 1;
        while j < n
            invariant
                1 <= j <= n,
                n == vals@.len(),
                sum == 0,
                sum == seq_sum(vals@),
                r@.len() == j,
                r@[0] == total,
                forall|t: int| 1 <= t < j ==> r@[t] == 0,
                seq_sum(r@) == total,
            decreases n - j,
        {
            proof {
                assert(r@.push(0).drop_last() =~= r@);
            }
            r.push(0);
            j = j + 1;
        }
        proof {
            assert(r@.len() == n);
            assert forall|a: int, b: int| 0 <= a < b < r@.len() implies r@[a] >= r@[b] by {
                if a > 0 {
                    assert(r@[a] == 0);
                }
            }
        }
        return r;
    }
    let mut fl: Vec<u64> = Vec::new();
    let mut floors: u64 = 0;
    let mut k: usize = 0;
    while k < n
        invariant
            n == vals@.len(),
            k <= n,
            sum == seq_sum(vals@),
            sum > 0,
            total <= MAX_TOTAL,
            sorted_desc(vals@),
            fl@.len() == k,
            forall|t: int| 0 <= t < k ==> fl@[t] == vals@[t] * total / (sum as int),
            forall|t: int| 0 <= t < k ==> fl@[t] <= total,
            floors == floor_sum(vals@, total as int, sum as int, k as int),
            floors * sum <= total * seq_sum(vals@.subrange(0, k as int)),
            total * seq_sum(vals@.subrange(0, k as int)) < floors * sum + k * sum || k == 0,
            floors <= total,
        decreases n - k,
    {
        let ghost before = seq_sum(vals@.subrange(0, k as int));
        proof {
            crate::split::lemma_range_sum_split(vals@, 0, k as int, k + 1);
            crate::split::lemma_range_sum_split(vals@, 0, k + 1, n as int);
            crate::split::lemma_range_sum_unit(vals@, k as int);
            assert(vals@.subrange(0, n as int) =~= vals@);
            lemma_floor_step(vals@[k as int] as int, total as int, sum as int);
            crate::split::lemma_range_sum_nonneg(vals@, 0, k as int);
            assert(vals@[k as int] <= sum);
            assert(vals@[k as int] * total <= sum * MAX_TOTAL) by (nonlinear_arith)
                requires vals@[k as int] <= sum, total <= MAX_TOTAL;
            assert(vals@[k as int] * total / (sum as int) <= total) by (nonlinear_arith)
                requires vals@[k as int] <= sum, sum > 0, total >= 0;
        }
        let f = ((vals[k] as u128) * (total as u128) / (sum as u128)) as u64;
        let ghost after = seq_sum(vals@.subrange(0, k + 1));
        proof {
            let v = vals@[k as int] as int;
            let fi = f as int;
            assert(fi == v * total / (sum as int));
            assert(after == before + v);
            assert((floors + fi) * sum <= total * after) by (nonlinear_arith)
                requires
                    floors * sum <= total * before,
                    fi * sum <= v * total,
                    after == before + v,
            ;
            assert(total * after < (floors + fi) * sum + (k + 1) * sum) by (nonlinear_arith)
                requires
                    total * before < floors * sum + k * sum || k == 0,
                    k == 0 ==> before == 0 && floors == 0,
                    v * total < fi * sum + sum,
                    after == before + v,
                    sum > 0,
            ;
            assert(floors + fi <= total) by (nonlinear_arith)
                requires
                    (floors + fi) * sum <= total * after,
                    after <= sum,
                    sum > 0,
                    total >= 0,
            ;
        }
        fl.push(f);
        floors = floors + f;
        k = k + 1;
    }
    let left = total - floors;
    proof {
        assert(vals@.subrange(0, n as int) =~= vals@);
        assert(left < n) by (nonlinear_arith)
            requires
                total * sum < floors * sum + n * sum,
                sum > 0,
                left == total - floors,
        ;
    }
    let mut j: usize = 0;
    while j < n
        invariant
            n == vals@.len(),
            j <= n,
            sum == seq_sum(vals@),
            sum > 0,
            fl@.len() == n,
            forall|t: int| 0 <= t < n ==> fl@[t] == vals@[t] * total / (sum as int),
            forall|t: int| 0 <= t < n ==> fl@[t] <= total,
            total <= MAX_TOTAL,
            floors == floor_sum(vals@, total as int, sum as int, n as int),
            left == total - floors,
            left < n,
            r@.len() == j,
            forall|t: int| 0 <= t < j ==> r@[t] == share(vals@, total as int, sum as int, t),
            seq_sum(r@) == floor_sum(vals@, total as int, sum as int, j as int) + if j <= left { j as int } else { left as int },
            floor_sum(vals@, total as int, sum as int, j as int) <= floors,
        decreases n - j,
    {
        proof {
            lemma_floor_sum_mono(vals@, total as int, sum as int, j + 1, n as int);
        }
        let x = if j < left as usize { fl[j] + 1 } else { fl[j] };
        proof {
            assert(r@.push(x).drop_last() =~= r@);
        }
        r.push(x);
        j = j + 1;
    }
    proof {
        lemma_share_sorted(vals@, total as int, sum as int);
    }
    r
}

proof fn lemma_floor_sum_mono(s: Seq<u64>, total: int, sum: int, a: int, b: int)
    requires
        0 <= a <= b <= s.len(),
        sum > 0,
        total >= 0,
    ensures
        floor_sum(s, total, sum, a) <= floor_sum(s, total, sum, b),
    decreases b - a,
{
    if b > a {
        lemma_floor_sum_mono(s, total, sum, a, b - 1);
        lemma_floor_step(s[b - 1] as int, total, sum);
    }
}

proof fn lemma_share_sorted(s: Seq<u64>, total: int, sum: int)
    requires
        sorted_desc(s),
        sum > 0,
        total >= 0,
    ensures
        forall|a: int, b: int| 0 <= a < b < s.len() ==> share(s, total, sum, a) >= share(s, total, sum, b),
{
    assert forall|a: int, b: int| 0 <= a < b < s.len() implies share(s, total, sum, a) >= share(s, total, sum, b) by {
        let va = s[a] as int;
        let vb = s[b] as int;
        assert(va * total / sum >= vb * total / sum) by (nonlinear_arith)
            requires va >= vb, vb >= 0, total >= 0, sum > 0;
    }
}

proof fn lemma_sum_insert(s: Seq<u64>, p: int, x: u64)
    requires
        0 <= p <= s.len(),
    ensures
        seq_sum(s.insert(p, x)) == seq_sum(s) + x,
    decreases s.len(),
{
    if p == s.len() {
        assert(s.insert(p, x).drop_last() =~= s);
    } else {
        lemma_sum_insert(s.drop_last(), p, x);
        assert(s.insert(p, x).drop_last() =~= s.drop_last().insert(p, x));
    }
}

/// `x` placed into `r` just before the first node whose value is not greater
/// than its own.
pub open spec fn insert_desc(r: Seq<Node>, x: Node) -> Seq<Node>
    decreases r.len(),
{
    if r.len() == 0 {
        seq![x]
    } else if r[0].value <= x.value {
        seq![x] + r
    } else {
        seq![r[0]] + insert_desc(r.drop_first(), x)
    }
}

/// The nodes of `s` sorted by decreasing value, stably: the tail is sorted
/// first and the head then goes before every node of equal value, so nodes of
/// equal value keep their order.
pub open spec fn sorted_by_value(s: Seq<Node>) -> Seq<Node>
    decreases s.len(),
{
    if s.len() == 0 {
        s
    } else {
        insert_desc(sorted_by_value(s.drop_first()), s[0])
    }
}

proof fn lemma_insert_at(r: Seq<Node>, x: Node, p: int)
    requires
        0 <= p <= r.len(),
        forall|t: int| 0 <= t < p ==> r[t].value > x.value,
        p == r.len() || r[p].value <= x.value,
    ensures
        r.insert(p, x) == insert_desc(r, x),
    decreases p,
{
    if p == 0 {
        assert(r.insert(0, x) =~= seq![x] + r);
    } else {
        lemma_insert_at(r.drop_first(), x, p - 1);
        assert(r.insert(p, x) =~= seq![r[0]] + r.drop_first().insert(p - 1, x));
    }
}

/// Sorts nodes by decreasing value; nodes of equal value keep their order.
pub fn sort_desc(v: Vec<Node>) -> (r: Vec<Node>)
    ensures
        r@.len() == v@.len(),
        sorted_desc(values_of(r@)),
        forall|j: int| 0 <= j < r@.len() ==> v@.contains(#[trigger] r@[j]),
        r@.to_multiset() == v@.to_multiset(),
        seq_sum(values_of(r@)) == seq_sum(values_of(v@)),
        r@ == sorted_by_value(v@),
{
    let ghost orig = v@;
    let mut rest = v;
    let mut r: Vec<Node> = Vec::new();
    proof {
        broadcast use vstd::seq_lib::group_to_multiset_ensures;
        assert(orig.subrange(orig.len() as int, orig.len() as int) =~= Seq::<Node>::empty());
    }
    while rest.len() > 0
        invariant
            orig == v@,
            rest@ == orig.subrange(0, rest@.len() as int),
            rest@.len() + r@.len() == orig.len(),
            sorted_desc(values_of(r@)),
            rest@.to_multiset().add(r@.to_multiset()) == orig.to_multiset(),
            seq_sum(values_of(rest@)) + seq_sum(values_of(r@)) == seq_sum(values_of(orig)),
            r@ == sorted_by_value(orig.subrange(rest@.len() as int, orig.len() as int)),
        decreases rest@.len(),
    {
        let ghost rest0 = rest@;
        let ghost r0 = r@;
        let x = rest.pop().unwrap();
        let mut p: usize = 0;
        while p < r.len() && r[p].value > x.value
            invariant
                p <= r@.len(),
                forall|t: int| 0 <= t < p ==> r@[t].value > x.value,
            decreases r@.len() - p,
        {
            p = p + 1;
        }
        proof {
            assert(rest0 =~= rest@.push(x));
            assert(orig[rest@.len() as int] == x);
            assert(rest@ =~= orig.subrange(0, rest@.len() as int));
            vstd::seq_lib::to_multiset_insert(r0, p as int, x);
            vstd::seq_lib::to_multiset_build(rest@, x);
            assert(p == r0.len() || r0[p as int].value <= x.value);
            assert(values_of(rest0).drop_last() =~= values_of(rest@));
            lemma_sum_insert(values_of(r0), p as int, x.value);
            assert(values_of(r0.insert(p as int, x)) =~= values_of(r0).insert(p as int, x.value));
            lemma_insert_at(r0, x, p as int);
            let m = rest@.len() as int;
            assert(orig.subrange(m, orig.len() as int).drop_first() =~= orig.subrange(m + 1, orig.len() as int));
            assert(orig.subrange(m, orig.len() as int)[0] == x);
        }
        r.insert(p, x);
        proof {
            let vr = values_of(r@);
            assert forall|a: int, b: int| 0 <= a < b < vr.len() implies vr[a] >= vr[b] by {
                let v0 = values_of(r0);
                if b < p {
                    assert(vr[a] == v0[a] && vr[b] == v0[b]);
                } else if a < p && b == p {
                    assert(vr[a] == v0[a] && vr[b] == x.value);
                    assert(r0[a].value > x.value);
                } else if a < p {
                    assert(vr[a] == v0[a] && vr[b] == v0[b - 1]);
                } else if a == p {
                    assert(vr[a] == x.value && vr[b] == v0[b - 1]);
                    assert(v0[p as int] >= v0[b - 1]);
                } else {
                    assert(vr[a] == v0[a - 1] && vr[b] == v0[b - 1]);
                }
            }
            assert(rest@.to_multiset().add(r@.to_multiset()) =~= orig.to_multiset());
        }
    }
    proof {
        assert(rest@.to_multiset() =~= Multiset::<Node>::empty());
        assert(values_of(rest@) =~= Seq::<u64>::empty());
        assert(orig.subrange(0, orig.len() as int) =~= orig);
        assert(rest@.len() == 0);
        assert forall|j: int| 0 <= j < r@.len() implies v@.contains(#[trigger] r@[j]) by {
            vstd::seq_lib::to_multiset_contains(r@, r@[j]);
            vstd::seq_lib::to_multiset_contains(v@, r@[j]);
            assert(r@.contains(r@[j]));
        }
    }
    r
}

proof fn lemma_elem_le_sum(s: Seq<u64>, i: int)
    requires
        0 <= i < s.len(),
    ensures
        s[i] <= seq_sum(s),
{
    crate::split::lemma_range_sum_split(s, 0, i, s.len() as int);
    crate::split::lemma_range_sum_split(s, i, i + 1, s.len() as int);
    crate::split::lemma_range_sum_unit(s, i);
    assert(s.subrange(0, s.len() as int) =~= s);
}

/// Orders `children` by decreasing value and rescales them so that their
/// values add up to `total`, apportioned in proportion to their values; each
/// child's own children are handled the same way against the child's new
/// value.
pub fn normalize_children(children: Vec<Node>, total: u64) -> (r: Vec<Node>)
    requires
        forall|i: int| 0 <= i < children@.len() ==> balanced(#[trigger] children@[i]),
        seq_sum(values_of(children@)) <= u64::MAX,
        total <= MAX_TOTAL,
    ensures
        r@.len() == children@.len(),
        r@.len() > 0 ==> seq_sum(values_of(r@)) == total,
        sorted_desc(values_of(r@)),
        forall|i: int| 0 <= i < r@.len() ==> balanced(#[trigger] r@[i]) && ordered(r@[i]),
        rescaled_children(r@, children@, total as int),
    decreases children,
{
    let n = children.len();
    if n == 0 {
        return children;
    }
    let ghost orig = children@;
    let mut sorted = sort_desc(children);
    let ghost so = sorted@;
    let mut vals: Vec<u64> = Vec::new();
    let mut i: usize = 0;
    while i < n
        invariant
            n == sorted@.len(),
            i <= n,
            vals@ == values_of(sorted@).subrange(0, i as int),
        decreases n - i,
    {
        vals.push(sorted[i].value);
        proof {
            assert(vals@ =~= values_of(sorted@).subrange(0, i + 1));
        }
        i = i + 1;
    }
    proof {
        assert(vals@ =~= values_of(sorted@));
    }
    let shares = apportion(&vals, total);
    let mut r: Vec<Node> = Vec::new();
    let mut k: usize = n;
    while k > 0
        invariant
            k <= n,
            n == shares@.len(),
            sorted@.len() == k,
            orig == children@,
            forall|t: int| 0 <= t < k ==> orig.contains(#[trigger] sorted@[t]),
            forall|t: int| 0 <= t < orig.len() ==> balanced(#[trigger] orig[t]),
            vals@.len() == n,
            forall|t: int| 0 <= t < k ==> sorted@[t].value == vals@[t],
            seq_sum(shares@) == total,
            total <= MAX_TOTAL,
            r@.len() == n - k,
            forall|t: int| 0 <= t < r@.len() ==> (#[trigger] r@[t]).value == shares@[k + t] && balanced(r@[t]) && ordered(r@[t])
                && rescaled(r@[t], so[k + t]),
            so == sorted_by_value(orig),
            so.len() == n,
            sorted@ == so.subrange(0, k as int),
        decreases k,
    {
        let ghost before = sorted@;
        let c = sorted.pop().unwrap();
        proof {
            assert(sorted@ =~= so.subrange(0, k - 1));
        }
        k = k - 1;
        let v = shares[k];
        proof {
            assert(c == before[k as int]);
            assert(orig.contains(c));
            let j = choose|j: int| 0 <= j < orig.len() && orig[j] == c;
            assert(balanced(orig[j]));
            broadcast use vstd::std_specs::vec::axiom_vec_decreases_to_view, vstd::seq::axiom_seq_index_decreases;
            assert(decreases_to!(children => children@));
            assert(decreases_to!(children@ => children@[j]));
            assert(decreases_to!(children@[j] => children@[j].children));
            assert(decreases_to!(children => c.children));
            lemma_elem_le_sum(shares@, k as int);
        }
        let Node { children: grand, value: _, text } = c;
        let new_children = normalize_children(grand, v);
        let node = Node { children: new_children, value: v, text };
        let ghost r0 = r@;
        r.insert(0, node);
        proof {
            assert(r@[0] == node);
            assert(c == so[k as int]);
            assert(rescaled_children(node.children@, so[k as int].children@, node.value as int));
            assert(rescaled(node, so[k as int]));
            assert forall|t: int| 0 <= t < r@.len() implies (#[trigger] r@[t]).value == shares@[k + t] && balanced(r@[t]) && ordered(r@[t])
                && rescaled(r@[t], so[k + t]) by {
                if t > 0 {
                    assert(r@[t] == r0[t - 1]);
                }
            }
        }
    }
    proof {
        assert(values_of(r@) =~= shares@);
        assert(vals@ == values_of(so));
        assert forall|i: int| 0 <= i < r@.len() implies (#[trigger] r@[i]).value == share(values_of(so), total as int, seq_sum(values_of(orig)), i)
            && rescaled(r@[i], so[i]) by {
            assert(r@[i].value == shares@[i]);
        }
    }
    r
}

/// Normalizes the tree for layout in `rect`: every node's children are put in
/// order of decreasing value, and the values below the root are rescaled so
/// that the root's children add up to `rect`'s area and every inner node
/// below the root still has the sum of its children's values. Ties keep their
/// order, labels and subtrees are kept, and each value is its share of its
/// parent's new value apportioned by the old values. The root's own value
/// stays the total it had before.
pub fn process_order_nodes(root_node: &mut Node, rect: &Rect)
    requires
        balanced(*old(root_node)),
        rect.is_proper(),
    ensures
        final(root_node).value == old(root_node).value,
        final(root_node).text@ == old(root_node).text@,
        final(root_node).children@.len() == old(root_node).children@.len(),
        final(root_node).children@.len() > 0 ==> seq_sum(values_of(final(root_node).children@)) == rect.area(),
        ordered(*final(root_node)),
        forall|i: int| 0 <= i < final(root_node).children@.len() ==> balanced(#[trigger] final(root_node).children@[i]),
        fits(*final(root_node)),
        rescaled_children(final(root_node).children@, old(root_node).children@, rect.area()),
{
    proof {
        assert(rect.off.x * rect.off.y <= MAX_TOTAL) by (nonlinear_arith)
            requires
                rect.off.x <= crate::geometry::COORD_LIMIT,
                rect.off.y <= crate::geometry::COORD_LIMIT,
        ;
    }
    let area = rect.off.x * rect.off.y;
    let mut children: Vec<Node> = Vec::new();
    std::mem::swap(&mut root_node.children, &mut children);
    let mut scaled = normalize_children(children, area);
    std::mem::swap(&mut root_node.children, &mut scaled);
    proof {
        let ch = root_node.children@;
        if ch.len() == 0 {
            assert(values_of(ch) =~= Seq::<u64>::empty());
        }
        assert forall|i: int| 0 <= i < ch.len() implies fits(#[trigger] ch[i]) by {
            lemma_elem_le_sum(values_of(ch), i);
            lemma_balanced_fits(ch[i]);
        }
    }
}

} // verus!
