//! The display tree: labeled nodes and the navigation state over them.

use vstd::prelude::*;

verus! {

broadcast use vstd::seq::group_seq_axioms, vstd::std_specs::vec::group_vec_axioms;

/// One entry in the display tree: a line of content and its ordered children.
///
/// Whether a node is a leaf is fixed at construction: an internal node whose
/// children happen to be empty is still internal for navigation purposes.
pub struct Node {
    pub label: String,
    pub children: Vec<Node>,
    pub leaf: bool,
}

/// The mathematical shape of a [`Node`]: a label as a character sequence, the
/// children as a sequence of shapes, and the leaf mark.
pub ghost struct NodeView {
    pub label: Seq<char>,
    pub children: Seq<NodeView>,
    pub leaf: bool,
}

/// The views of a sequence of nodes, in order.
pub open spec fn views_of(nodes: Seq<Node>) -> Seq<NodeView>
    decreases nodes,
{
    if nodes.len() == 0 {
        Seq::empty()
    } else {
        seq![nodes[0]@] + views_of(nodes.drop_first())
    }
}

impl View for Node {
    type V = NodeView;

    open spec fn view(&self) -> NodeView
        decreases *self,
    {
        NodeView { label: self.label@, children: views_of(self.children@), leaf: self.leaf }
    }
}

/// `views_of` is the element-wise view: it keeps the length and maps each node.
pub proof fn lemma_views_of(nodes: Seq<Node>)
    ensures
        views_of(nodes).len() == nodes.len(),
        forall|i: int| 0 <= i < nodes.len() ==> views_of(nodes)[i] == #[trigger] nodes[i]@,
    decreases nodes.len(),
{
    if nodes.len() > 0 {
        lemma_views_of(nodes.drop_first());
        assert(views_of(nodes) == seq![nodes[0]@] + views_of(nodes.drop_first()));
        assert forall|i: int| 0 <= i < nodes.len() implies views_of(nodes)[i]
            == #[trigger] nodes[i]@ by {
            if i > 0 {
                assert(nodes.drop_first()[i - 1] == nodes[i]);
                assert(views_of(nodes)[i] == views_of(nodes.drop_first())[i - 1]);
            }
        }
    }
}

impl Node {
    /// A leaf node: no children, and marked as a leaf.
    pub fn new_leaf(label: String) -> (r: Node)
        ensures
            r@.label == label@,
            r@.children =~= Seq::<NodeView>::empty(),
            r@.leaf,
    {
        let n = Node { label, children: Vec::new(), leaf: true };
        proof {
            lemma_views_of(n.children@);
        }
        n
    }

    /// An internal node with the given children, in document order.
    pub fn new(label: String, children: Vec<Node>) -> (r: Node)
        ensures
            r@.label == label@,
            r@.children == views_of(children@),
            !r@.leaf,
    {
        Node { label, children, leaf: false }
    }
}

/// The node reached from `nodes` by following the child indices
/// `path[pos..]`, if the whole suffix resolves.
pub open spec fn node_at_from(nodes: Seq<NodeView>, path: Seq<usize>, pos: int) -> Option<NodeView>
    decreases path.len() - pos,
{
    if pos < 0 || pos >= path.len() {
        None
    } else if path[pos] >= nodes.len() {
        None
    } else if pos == path.len() - 1 {
        Some(nodes[path[pos] as int])
    } else {
        node_at_from(nodes[path[pos] as int].children, path, pos + 1)
    }
}

/// The node a whole path points at, starting from the roots.
pub open spec fn node_at(nodes: Seq<NodeView>, path: Seq<usize>) -> Option<NodeView> {
    node_at_from(nodes, path, 0)
}

/// The flattened visible ordering: a pre-order walk over `nodes[k..]`, where
/// each node's path is `prefix` extended by its index, descending into
/// children only when the node's path is in `exp`.
pub open spec fn visible_from(
    nodes: Seq<NodeView>,
    exp: Set<Seq<usize>>,
    prefix: Seq<usize>,
    k: int,
) -> Seq<Seq<usize>>
    decreases nodes, nodes.len() - k,
{
    // Child indices are machine words, so positions beyond `usize::MAX` can
    // never be named by a path and are not walked.
    if k < 0 || k >= nodes.len() || k > usize::MAX as int {
        Seq::empty()
    } else {
        let p = prefix.push(k as usize);
        let sub = if exp.contains(p) {
            visible_from(nodes[k].children, exp, p, 0)
        } else {
            Seq::empty()
        };
        seq![p] + sub + visible_from(nodes, exp, prefix, k + 1)
    }
}

/// Membership in a concatenation is membership in either part.
pub proof fn lemma_add_contains<A>(a: Seq<A>, b: Seq<A>, x: A)
    ensures
        (a + b).contains(x) <==> a.contains(x) || b.contains(x),
{
    if a.contains(x) {
        let i = choose|i: int| 0 <= i < a.len() && a[i] == x;
        assert((a + b)[i] == x);
    }
    if b.contains(x) {
        let i = choose|i: int| 0 <= i < b.len() && b[i] == x;
        assert((a + b)[a.len() + i] == x);
    }
    if (a + b).contains(x) {
        let i = choose|i: int| 0 <= i < (a + b).len() && (a + b)[i] == x;
        if i < a.len() {
            assert(a[i] == x);
        } else {
            assert(b[i - a.len()] == x);
        }
    }
}

/// A path is in the visible ordering exactly when it points below `prefix` at
/// a child index at least `k`, resolves to a node, and every proper extension
/// of `prefix` on the way down is expanded.
pub proof fn lemma_visible_from_contains(
    nodes: Seq<NodeView>,
    exp: Set<Seq<usize>>,
    prefix: Seq<usize>,
    k: int,
    p: Seq<usize>,
)
    requires
        0 <= k,
    ensures
        visible_from(nodes, exp, prefix, k).contains(p) <==> {
            &&& p.len() > prefix.len()
            &&& p.take(prefix.len() as int) == prefix
            &&& k <= p[prefix.len() as int] as int
            &&& node_at_from(nodes, p, prefix.len() as int) is Some
            &&& forall|j: int| prefix.len() < j < p.len() ==> exp.contains(#[trigger] p.take(j))
        },
    decreases nodes, nodes.len() - k,
{
    let v = visible_from(nodes, exp, prefix, k);
    let plen = prefix.len() as int;
    if k >= nodes.len() || k > usize::MAX as int {
        // v is empty; the right-hand side fails on the index bound.
        if p.len() > prefix.len() && p.take(plen) == prefix && k <= p[plen] as int
            && node_at_from(nodes, p, plen) is Some {
            assert(p[plen] < nodes.len());  // from unfolding node_at_from
            assert(p[plen] <= usize::MAX);
            assert(false);
        }
    } else {
        let p0 = prefix.push(k as usize);
        let sub = if exp.contains(p0) {
            visible_from(nodes[k].children, exp, p0, 0)
        } else {
            Seq::empty()
        };
        let rest = visible_from(nodes, exp, prefix, k + 1);
        assert(v == seq![p0] + sub + rest);
        lemma_add_contains(seq![p0] + sub, rest, p);
        lemma_add_contains(seq![p0], sub, p);
        assert(seq![p0][0] == p0);
        assert(seq![p0].contains(p) <==> p == p0);
        if exp.contains(p0) {
            lemma_visible_from_contains(nodes[k].children, exp, p0, 0, p);
        }
        lemma_visible_from_contains(nodes, exp, prefix, k + 1, p);

        // Forward: each of the three parts meets the right-hand side.
        if p == p0 {
            assert(p.take(plen) =~= prefix);
            assert(node_at_from(nodes, p, plen) == Some(nodes[k]));
        }
        if sub.contains(p) {
            assert(exp.contains(p0));
            assert(p.len() > p0.len());
            assert(p.take(p0.len() as int) == p0);
            assert(p.take(plen) =~= prefix) by {
                assert(p.take(p0.len() as int).take(plen) =~= p.take(plen));
            }
            assert(p[plen] == p0[plen]);
            assert(node_at_from(nodes, p, plen) == node_at_from(nodes[k].children, p, plen + 1));
            assert forall|j: int| prefix.len() < j < p.len() implies exp.contains(
                #[trigger] p.take(j),
            ) by {
                if j == plen + 1 {
                    assert(p.take(j) =~= p0);
                }
            }
        }

        // Backward: a path meeting the right-hand side is in one of the parts.
        if {
            &&& p.len() > prefix.len()
            &&& p.take(plen) == prefix
            &&& k <= p[plen] as int
            &&& node_at_from(nodes, p, plen) is Some
            &&& forall|j: int| prefix.len() < j < p.len() ==> exp.contains(#[trigger] p.take(j))
        } {
            if p[plen] as int == k {
                if p.len() == prefix.len() + 1 {
                    assert(p =~= p0);
                } else {
                    assert(p.take(plen + 1) =~= p0);
                    assert(exp.contains(p0));
                    assert(node_at_from(nodes, p, plen) == node_at_from(
                        nodes[k].children,
                        p,
                        plen + 1,
                    ));
                    assert(p.take(p0.len() as int) == p0);
                    assert(sub.contains(p));
                }
            } else {
                assert(rest.contains(p));
            }
        }
    }
}

/// Every entry of the visible ordering extends `prefix` with a child index at
/// least `k`, and no path is listed twice.
pub proof fn lemma_visible_from_props(
    nodes: Seq<NodeView>,
    exp: Set<Seq<usize>>,
    prefix: Seq<usize>,
    k: int,
)
    requires
        0 <= k,
    ensures
        forall|idx: int|
            0 <= idx < visible_from(nodes, exp, prefix, k).len() ==> {
                let q = #[trigger] visible_from(nodes, exp, prefix, k)[idx];
                &&& q.len() > prefix.len()
                &&& q.take(prefix.len() as int) == prefix
                &&& k <= q[prefix.len() as int] as int
            },
        forall|i: int, j: int|
            0 <= i < j < visible_from(nodes, exp, prefix, k).len()
                ==> visible_from(nodes, exp, prefix, k)[i] != visible_from(
                nodes,
                exp,
                prefix,
                k,
            )[j],
    decreases nodes, nodes.len() - k,
{
    let v = visible_from(nodes, exp, prefix, k);
    let plen = prefix.len() as int;
    if k >= nodes.len() || k > usize::MAX as int {
    } else {
        let p0 = prefix.push(k as usize);
        let sub = if exp.contains(p0) {
            visible_from(nodes[k].children, exp, p0, 0)
        } else {
            Seq::empty()
        };
        let rest = visible_from(nodes, exp, prefix, k + 1);
        assert(v == seq![p0] + sub + rest);
        if exp.contains(p0) {
            lemma_visible_from_props(nodes[k].children, exp, p0, 0);
        }
        lemma_visible_from_props(nodes, exp, prefix, k + 1);

        assert forall|idx: int| 0 <= idx < v.len() implies {
            let q = #[trigger] v[idx];
            &&& q.len() > prefix.len()
            &&& q.take(plen) == prefix
            &&& k <= q[plen] as int
        } by {
            if idx == 0 {
                assert(v[idx] == p0);
                assert(p0.take(plen) =~= prefix);
            } else if idx <= sub.len() {
                let q = sub[idx - 1];
                assert(v[idx] == q);
                assert(q.take(p0.len() as int) == p0);
                assert(q.take(plen) =~= prefix) by {
                    assert(q.take(p0.len() as int).take(plen) =~= q.take(plen));
                }
                assert(q[plen] == p0[plen]);
            } else {
                assert(v[idx] == rest[idx - 1 - sub.len()]);
            }
        }

        assert forall|i: int, j: int| 0 <= i < j < v.len() implies v[i] != v[j] by {
            // Entries of `sub` are longer than `p0`; entries of `rest` carry a
            // child index above `k`, while `p0` and `sub` entries carry `k`.
            if i == 0 {
                if j <= sub.len() {
                    assert(v[j] == sub[j - 1]);
                    assert(sub[j - 1].len() > p0.len());
                } else {
                    assert(v[j] == rest[j - 1 - sub.len()]);
                }
            } else if i <= sub.len() {
                if j <= sub.len() {
                    assert(v[i] == sub[i - 1] && v[j] == sub[j - 1]);
                } else {
                    let qi = sub[i - 1];
                    let qj = rest[j - 1 - sub.len()];
                    assert(v[i] == qi && v[j] == qj);
                    assert(qi.take(p0.len() as int) == p0);
                    assert(qi[plen] == p0[plen]);
                    assert(qi[plen] as int == k && k + 1 <= qj[plen] as int);
                }
            } else {
                assert(v[i] == rest[i - 1 - sub.len()] && v[j] == rest[j - 1 - sub.len()]);
            }
        }
    }
}

/// The mathematical shape of a [`StatefulTree`].
#[verifier::ext_equal]
pub ghost struct TreeView {
    pub items: Seq<NodeView>,
    pub expanded: Set<Seq<usize>>,
    pub selected: Seq<usize>,
}

/// The set of paths a list of expanded paths stands for.
pub open spec fn paths_set(ps: Seq<Vec<usize>>) -> Set<Seq<usize>> {
    Set::new(|q: Seq<usize>| exists|i: int| 0 <= i < ps.len() && ps[i]@ == q)
}

/// The flattened visible ordering of a whole tree state.
pub open spec fn tree_visible(t: TreeView) -> Seq<Seq<usize>> {
    visible_from(t.items, t.expanded, Seq::empty(), 0)
}

/// Expanded paths always point at existing non-leaf nodes.
pub open spec fn wf_expanded(t: TreeView) -> bool {
    forall|p: Seq<usize>| t.expanded.contains(p) ==> match #[trigger] node_at(t.items, p) {
        Some(n) => !n.leaf,
        None => false,
    }
}

/// The selection is a visible node, or empty when the tree is empty.
pub open spec fn wf_selected(t: TreeView) -> bool {
    if t.items.len() == 0 {
        t.selected == Seq::<usize>::empty()
    } else {
        tree_visible(t).contains(t.selected)
    }
}

/// Well-formedness of a tree state.
pub open spec fn tree_wf(t: TreeView) -> bool {
    wf_expanded(t) && wf_selected(t)
}

/// The navigation state: the display tree plus which nodes are expanded and
/// which one is selected.
pub struct StatefulTree {
    pub items: Vec<Node>,
    pub expanded: Vec<Vec<usize>>,
    pub selected: Vec<usize>,
}

impl View for StatefulTree {
    type V = TreeView;

    open spec fn view(&self) -> TreeView {
        TreeView {
            items: views_of(self.items@),
            expanded: paths_set(self.expanded@),
            selected: self.selected@,
        }
    }
}

/// `toggle` flips membership of the selected path in the expanded set; a leaf
/// or an unresolved selection leaves the state unchanged.
pub open spec fn spec_toggle(t: TreeView) -> TreeView {
    match node_at(t.items, t.selected) {
        Some(n) => if !n.leaf {
            if t.expanded.contains(t.selected) {
                TreeView { expanded: t.expanded.remove(t.selected), ..t }
            } else {
                TreeView { expanded: t.expanded.insert(t.selected), ..t }
            }
        } else {
            t
        },
        None => t,
    }
}

/// `first` jumps to the first entry of the visible ordering, if any.
pub open spec fn spec_first(t: TreeView) -> TreeView {
    if tree_visible(t).len() > 0 {
        TreeView { selected: tree_visible(t)[0], ..t }
    } else {
        t
    }
}

/// `last` jumps to the last entry of the visible ordering, if any.
pub open spec fn spec_last(t: TreeView) -> TreeView {
    if tree_visible(t).len() > 0 {
        TreeView { selected: tree_visible(t).last(), ..t }
    } else {
        t
    }
}

/// `down` moves to the next entry of the visible ordering; at the last entry
/// (or with nothing selected) it does not move.
pub open spec fn spec_down(t: TreeView) -> TreeView {
    let v = tree_visible(t);
    match v.index_of_first(t.selected) {
        Some(i) => if i + 1 < v.len() {
            TreeView { selected: v[i + 1], ..t }
        } else {
            t
        },
        None => t,
    }
}

/// `up` moves to the previous entry of the visible ordering; at the first
/// entry (or with nothing selected) it does not move.
pub open spec fn spec_up(t: TreeView) -> TreeView {
    let v = tree_visible(t);
    match v.index_of_first(t.selected) {
        Some(i) => if i >= 1 {
            TreeView { selected: v[i - 1], ..t }
        } else {
            t
        },
        None => t,
    }
}

/// `right` expands a collapsed selected node with children, moves into the
/// first child of an expanded one, and does nothing on a childless node.
pub open spec fn spec_right(t: TreeView) -> TreeView {
    match node_at(t.items, t.selected) {
        Some(n) => if !n.leaf && n.children.len() > 0 {
            if !t.expanded.contains(t.selected) {
                TreeView { expanded: t.expanded.insert(t.selected), ..t }
            } else {
                TreeView { selected: t.selected.push(0), ..t }
            }
        } else {
            t
        },
        None => t,
    }
}

/// `left` collapses an expanded selected node; otherwise it moves to the
/// parent, and at a root (which has none) it does nothing.
pub open spec fn spec_left(t: TreeView) -> TreeView {
    if t.expanded.contains(t.selected) {
        TreeView { expanded: t.expanded.remove(t.selected), ..t }
    } else if t.selected.len() >= 2 {
        TreeView { selected: t.selected.drop_last(), ..t }
    } else {
        t
    }
}

impl StatefulTree {
    /// The recorded list of expanded paths holds no path twice.
    pub open spec fn expanded_unique(self) -> bool {
        forall|i: int, j: int|
            0 <= i < j < self.expanded@.len() ==> self.expanded@[i]@ != self.expanded@[j]@
    }

    /// The state invariant: no duplicate expanded entries, and the view is
    /// well formed.
    pub open spec fn inv(self) -> bool {
        self.expanded_unique() && tree_wf(self@)
    }
}

impl StatefulTree {
    /// A fresh navigation state over the given roots: nothing expanded, and
    /// the first root selected (or nothing, when there are no roots).
    pub fn with_items(items: Vec<Node>) -> (r: StatefulTree)
        ensures
            r.inv(),
            r@.items == views_of(items@),
            r@.expanded =~= Set::<Seq<usize>>::empty(),
            items@.len() == 0 ==> r@.selected =~= Seq::<usize>::empty(),
            items@.len() > 0 ==> r@.selected =~= seq![0usize],
    {
        let mut selected: Vec<usize> = Vec::new();
        if items.len() > 0 {
            selected.push(0);
        }
        let r = StatefulTree { items, expanded: Vec::new(), selected };
        proof {
            lemma_views_of(r.items@);
            assert(r@.expanded =~= Set::<Seq<usize>>::empty());
            if r.items@.len() > 0 {
                let p = seq![0usize];
                assert(r@.selected =~= p);
                assert(p.take(0) =~= Seq::<usize>::empty());
                assert(node_at_from(r@.items, p, 0) is Some);
                lemma_visible_from_contains(r@.items, r@.expanded, Seq::empty(), 0, p);
            }
        }
        r
    }
}

impl StatefulTree {
    /// Flip the expand/collapse state of the selected node; selecting a leaf
    /// (or nothing) leaves the state as it is.
    pub fn toggle(&mut self)
        requires
            old(self).inv(),
        ensures
            final(self).inv(),
            final(self)@ == spec_toggle(old(self)@),
    {
        let ghost t0 = self@;
        let togglable = match node_at_exec(&self.items, &self.selected, 0) {
            Some(n) => !n.leaf,
            None => false,
        };
        if !togglable {
            return ;
        }
        let ghost sel = self.selected@;
        let mut i: usize = 0;
        while i < self.expanded.len()
            invariant
                i <= self.expanded.len(),
                forall|j: int| 0 <= j < i ==> self.expanded@[j]@ != self.selected@,
                *self == *old(self),
                old(self).inv(),
                t0 == self@,
                sel == self.selected@,
                match node_at(t0.items, t0.selected) {
                    Some(n) => !n.leaf,
                    None => false,
                },
            decreases self.expanded.len() - i,
        {
            if path_eq(&self.expanded[i], &self.selected) {
                proof {
                    assert(self.expanded@[i as int]@ == sel);
                    assert(t0.expanded.contains(sel));
                    lemma_paths_set_remove(self.expanded@, i as int);
                    assert forall|j: int| 0 < j < sel.len() implies (t0.expanded.remove(
                        sel,
                    ).contains(#[trigger] sel.take(j)) <==> t0.expanded.contains(sel.take(j))) by {
                        assert(sel.take(j).len() == j);
                    }
                    lemma_visible_after_flip(t0.items, t0.expanded, t0.expanded.remove(sel), sel);
                }
                self.expanded.remove(i);
                proof {
                    assert(self@ =~= spec_toggle(t0));
                }
                return ;
            }
            i = i + 1;
        }
        proof {
            assert(!t0.expanded.contains(sel));
        }
        let p = copy_path(&self.selected);
        proof {
            lemma_paths_set_push(self.expanded@, p);
            assert forall|j: int| 0 < j < sel.len() implies (t0.expanded.insert(sel).contains(
                #[trigger] sel.take(j),
            ) <==> t0.expanded.contains(sel.take(j))) by {
                assert(sel.take(j).len() == j);
            }
            lemma_visible_after_flip(t0.items, t0.expanded, t0.expanded.insert(sel), sel);
        }
        self.expanded.push(p);
        proof {
            assert(self@ =~= spec_toggle(t0));
        }
    }
}

/// Append to `out` the visible paths below `prefix` for the forest `nodes`,
/// in pre-order, descending only into expanded nodes.
fn visible_rec(
    nodes: &Vec<Node>,
    expanded: &Vec<Vec<usize>>,
    prefix: &Vec<usize>,
    out: &mut Vec<Vec<usize>>,
)
    ensures
        final(out)@.map_values(|q: Vec<usize>| q@) == old(out)@.map_values(|q: Vec<usize>| q@)
            + visible_from(views_of(nodes@), paths_set(expanded@), prefix@, 0),
    decreases *nodes,
{
    let ghost vnodes = views_of(nodes@);
    let ghost exp = paths_set(expanded@);
    proof {
        lemma_views_of(nodes@);
    }
    let mut k: usize = 0;
    while k < nodes.len()
        invariant
            k <= nodes.len(),
            vnodes == views_of(nodes@),
            exp == paths_set(expanded@),
            vnodes.len() == nodes@.len(),
            out@.map_values(|q: Vec<usize>| q@) + visible_from(vnodes, exp, prefix@, k as int)
                =~= old(out)@.map_values(|q: Vec<usize>| q@) + visible_from(
                vnodes,
                exp,
                prefix@,
                0,
            ),
        decreases nodes.len() - k,
    {
        let mut p = copy_path(prefix);
        p.push(k);
        let ghost out_before = out@;
        out.push(copy_path(&p));
        proof {
            lemma_map_views_push(out_before, p);
            assert(p@ == prefix@.push(k));
        }
        if expanded_contains(expanded, &p) {
            let ghost out_mid = out@;
            visible_rec(&nodes[k].children, expanded, &p, out);
            proof {
                lemma_views_of(nodes@);
                assert(views_of(nodes@)[k as int] == nodes@[k as int]@);
                assert(nodes@[k as int]@.children == views_of(nodes@[k as int].children@));
                assert(out@.map_values(|q: Vec<usize>| q@) + visible_from(
                    vnodes,
                    exp,
                    prefix@,
                    k + 1,
                ) =~= out_before.map_values(|q: Vec<usize>| q@) + (seq![p@] + visible_from(
                    vnodes[k as int].children,
                    exp,
                    p@,
                    0,
                ) + visible_from(vnodes, exp, prefix@, k + 1)));
            }
        } else {
            proof {
                assert(visible_from(vnodes, exp, prefix@, k as int) == seq![p@] + Seq::<
                    Seq<usize>,
                >::empty() + visible_from(vnodes, exp, prefix@, k + 1));
                assert(out@.map_values(|q: Vec<usize>| q@) + visible_from(
                    vnodes,
                    exp,
                    prefix@,
                    k + 1,
                ) =~= out_before.map_values(|q: Vec<usize>| q@) + visible_from(
                    vnodes,
                    exp,
                    prefix@,
                    k as int,
                ));
            }
        }
        k = k + 1;
    }
    proof {
        assert(visible_from(vnodes, exp, prefix@, nodes@.len() as int) =~= Seq::<
            Seq<usize>,
        >::empty());
        assert(final(out)@.map_values(|q: Vec<usize>| q@) =~= old(out)@.map_values(
            |q: Vec<usize>| q@,
        ) + visible_from(vnodes, exp, prefix@, 0));
    }
}

impl StatefulTree {
    /// The flattened visible ordering, as the list of visible paths.
    pub fn visible_paths(&self) -> (v: Vec<Vec<usize>>)
        ensures
            v@.map_values(|q: Vec<usize>| q@) == tree_visible(self@),
    {
        let mut out: Vec<Vec<usize>> = Vec::new();
        let pre: Vec<usize> = Vec::new();
        visible_rec(&self.items, &self.expanded, &pre, &mut out);
        proof {
            assert(out@.map_values(|q: Vec<usize>| q@) =~= tree_visible(self@));
        }
        out
    }

    /// The first position of the selected path in the visible list, if any.
    fn find_selected(&self, v: &Vec<Vec<usize>>) -> (r: Option<usize>)
        ensures
            match r {
                Some(i) => i < v@.len() && v@[i as int]@ == self.selected@ && forall|j: int|
                    0 <= j < i ==> v@[j]@ != self.selected@,
                None => forall|j: int| 0 <= j < v@.len() ==> v@[j]@ != self.selected@,
            },
    {
        let mut i: usize = 0;
        while i < v.len()
            invariant
                i <= v.len(),
                forall|j: int| 0 <= j < i ==> v@[j]@ != self.selected@,
            decreases v.len() - i,
        {
            if path_eq(&v[i], &self.selected) {
                return Some(i);
            }
            i = i + 1;
        }
        None
    }

    /// Move the selection to the next visible node; the last visible node
    /// keeps the selection.
    pub fn down(&mut self)
        requires
            old(self).inv(),
        ensures
            final(self).inv(),
            final(self)@ == spec_down(old(self)@),
    {
        let ghost t0 = self@;
        let ghost vs = tree_visible(t0);
        let v = self.visible_paths();
        let r = self.find_selected(&v);
        proof {
            vs.index_of_first_ensures(t0.selected);
        }
        match r {
            Some(i) => {
                proof {
                    assert(vs[i as int] == v@[i as int]@);
                    assert(vs.index_of_first(t0.selected) == Some(i as int));
                }
                if i < v.len() - 1 {
                    self.selected = copy_path(&v[i + 1]);
                    proof {
                        assert(self@ =~= spec_down(t0));
                        assert(tree_visible(self@).contains(self@.selected));
                    }
                }
            },
            None => {
                proof {
                    assert(vs.index_of_first(t0.selected) is None);
                }
            },
        }
    }

    /// Move the selection to the previous visible node; the first visible
    /// node keeps the selection.
    pub fn up(&mut self)
        requires
            old(self).inv(),
        ensures
            final(self).inv(),
            final(self)@ == spec_up(old(self)@),
    {
        let ghost t0 = self@;
        let ghost vs = tree_visible(t0);
        let v = self.visible_paths();
        let r = self.find_selected(&v);
        proof {
            vs.index_of_first_ensures(t0.selected);
        }
        match r {
            Some(i) => {
                proof {
                    assert(vs[i as int] == v@[i as int]@);
                    assert(vs.index_of_first(t0.selected) == Some(i as int));
                }
                if i >= 1 {
                    self.selected = copy_path(&v[i - 1]);
                    proof {
                        assert(self@ =~= spec_up(t0));
                        assert(tree_visible(self@).contains(self@.selected));
                    }
                }
            },
            None => {
                proof {
                    assert(vs.index_of_first(t0.selected) is None);
                }
            },
        }
    }

    /// Jump the selection to the first visible node.
    pub fn first(&mut self)
        requires
            old(self).inv(),
        ensures
            final(self).inv(),
            final(self)@ == spec_first(old(self)@),
    {
        let ghost t0 = self@;
        let v = self.visible_paths();
        if v.len() > 0 {
            self.selected = copy_path(&v[0]);
            proof {
                assert(self@.selected == tree_visible(t0)[0]);
                assert(self@ =~= spec_first(t0));
                assert(tree_visible(self@).contains(self@.selected));
            }
        }
    }

    /// Jump the selection to the last visible node.
    pub fn last(&mut self)
        requires
            old(self).inv(),
        ensures
            final(self).inv(),
            final(self)@ == spec_last(old(self)@),
    {
        let ghost t0 = self@;
        let v = self.visible_paths();
        if v.len() > 0 {
            self.selected = copy_path(&v[v.len() - 1]);
            proof {
                assert(self@.selected == tree_visible(t0).last());
                assert(self@ =~= spec_last(t0));
                assert(tree_visible(self@).contains(self@.selected));
            }
        }
    }
}

impl StatefulTree {
    /// Expand a collapsed selected node with children; move into the first
    /// child when it is already expanded; do nothing on a childless node.
    pub fn right(&mut self)
        requires
            old(self).inv(),
        ensures
            final(self).inv(),
            final(self)@ == spec_right(old(self)@),
    {
        let ghost t0 = self@;
        let ghost sel = self.selected@;
        let has_children = match node_at_exec(&self.items, &self.selected, 0) {
            Some(n) => {
                proof {
                    lemma_views_of(n.children@);
                }
                !n.leaf && n.children.len() > 0
            },
            None => false,
        };
        if !has_children {
            return ;
        }
        if !expanded_contains(&self.expanded, &self.selected) {
            let p = copy_path(&self.selected);
            proof {
                lemma_paths_set_push(self.expanded@, p);
                assert forall|j: int| 0 < j < sel.len() implies (t0.expanded.insert(sel).contains(
                    #[trigger] sel.take(j),
                ) <==> t0.expanded.contains(sel.take(j))) by {
                    assert(sel.take(j).len() == j);
                }
                lemma_visible_after_flip(t0.items, t0.expanded, t0.expanded.insert(sel), sel);
            }
            self.expanded.push(p);
            proof {
                assert(self@ =~= spec_right(t0));
            }
        } else {
            let mut p = copy_path(&self.selected);
            p.push(0);
            proof {
                let child = sel.push(0);
                assert(p@ == child);
                lemma_node_at_push(t0.items, sel, 0, 0);
                lemma_visible_from_contains(t0.items, t0.expanded, Seq::empty(), 0, sel);
                lemma_visible_from_contains(t0.items, t0.expanded, Seq::empty(), 0, child);
                assert(child.take(0) =~= Seq::<usize>::empty());
                assert forall|j: int| 0 < j < child.len() implies t0.expanded.contains(
                    #[trigger] child.take(j),
                ) by {
                    if j < sel.len() {
                        assert(child.take(j) =~= sel.take(j));
                    } else {
                        assert(child.take(j) =~= sel);
                    }
                }
            }
            self.selected = p;
            proof {
                assert(self@ =~= spec_right(t0));
                assert(tree_visible(self@).contains(self@.selected));
            }
        }
    }

    /// Collapse an expanded selected node; otherwise move to the parent; at a
    /// root, which has no parent, do nothing.
    pub fn left(&mut self)
        requires
            old(self).inv(),
        ensures
            final(self).inv(),
            final(self)@ == spec_left(old(self)@),
    {
        let ghost t0 = self@;
        let ghost sel = self.selected@;
        if self.selected.len() == 0 {
            proof {
                assert(node_at(t0.items, sel) is None);
                assert(!t0.expanded.contains(sel));
            }
            return ;
        }
        let mut i: usize = 0;
        while i < self.expanded.len()
            invariant
                i <= self.expanded.len(),
                forall|j: int| 0 <= j < i ==> self.expanded@[j]@ != self.selected@,
                *self == *old(self),
                old(self).inv(),
                t0 == self@,
                sel == self.selected@,
                sel.len() > 0,
            decreases self.expanded.len() - i,
        {
            if path_eq(&self.expanded[i], &self.selected) {
                proof {
                    assert(self.expanded@[i as int]@ == sel);
                    assert(t0.expanded.contains(sel));
                    lemma_paths_set_remove(self.expanded@, i as int);
                    assert forall|j: int| 0 < j < sel.len() implies (t0.expanded.remove(
                        sel,
                    ).contains(#[trigger] sel.take(j)) <==> t0.expanded.contains(sel.take(j))) by {
                        assert(sel.take(j).len() == j);
                    }
                    lemma_visible_after_flip(t0.items, t0.expanded, t0.expanded.remove(sel), sel);
                }
                self.expanded.remove(i);
                proof {
                    assert(self@ =~= spec_left(t0));
                }
                return ;
            }
            i = i + 1;
        }
        proof {
            assert(!t0.expanded.contains(sel));
        }
        if self.selected.len() >= 2 {
            proof {
                let parent = sel.drop_last();
                lemma_visible_from_contains(t0.items, t0.expanded, Seq::empty(), 0, sel);
                lemma_node_at_take(t0.items, sel, 0, sel.len() - 1);
                assert(parent == sel.take(sel.len() - 1));
                lemma_visible_from_contains(t0.items, t0.expanded, Seq::empty(), 0, parent);
                assert(parent.take(0) =~= Seq::<usize>::empty());
                assert(parent[0] == sel[0]);
                assert forall|j: int| 0 < j < parent.len() implies t0.expanded.contains(
                    #[trigger] parent.take(j),
                ) by {
                    assert(parent.take(j) =~= sel.take(j));
                }
            }
            self.selected.pop();
            proof {
                assert(self@.selected =~= sel.drop_last());
                assert(self@ =~= spec_left(t0));
                assert(tree_visible(self@).contains(self@.selected));
            }
        }
    }
}

/// The node `path[pos..]` points at under `nodes`, if any.
fn node_at_exec<'a>(nodes: &'a Vec<Node>, path: &Vec<usize>, pos: usize) -> (r: Option<&'a Node>)
    requires
        pos <= path@.len(),
    ensures
        match r {
            Some(n) => node_at_from(views_of(nodes@), path@, pos as int) == Some(n@),
            None => node_at_from(views_of(nodes@), path@, pos as int) is None,
        },
    decreases path@.len() - pos,
{
    proof {
        lemma_views_of(nodes@);
    }
    if pos >= path.len() {
        None
    } else {
        let i = path[pos];
        if i >= nodes.len() {
            None
        } else if pos == path.len() - 1 {
            Some(&nodes[i])
        } else {
            let r = node_at_exec(&nodes[i].children, path, pos + 1);
            proof {
                assert(views_of(nodes@)[i as int] == nodes@[i as int]@);
                assert(nodes@[i as int]@.children == views_of(nodes@[i as int].children@));
            }
            r
        }
    }
}

/// Whether `path` is recorded in the list of expanded paths.
fn expanded_contains(expanded: &Vec<Vec<usize>>, path: &Vec<usize>) -> (r: bool)
    ensures
        r <==> paths_set(expanded@).contains(path@),
{
    let mut i: usize = 0;
    while i < expanded.len()
        invariant
            i <= expanded.len(),
            forall|j: int| 0 <= j < i ==> expanded@[j]@ != path@,
        decreases expanded.len() - i,
    {
        if path_eq(&expanded[i], path) {
            return true;
        }
        i = i + 1;
    }
    false
}

/// Appending a path to the recorded list adds it to the path set.
proof fn lemma_paths_set_push(ps: Seq<Vec<usize>>, p: Vec<usize>)
    ensures
        paths_set(ps.push(p)) =~= paths_set(ps).insert(p@),
{
    assert forall|q: Seq<usize>| paths_set(ps.push(p)).contains(q) implies paths_set(ps).insert(
        p@,
    ).contains(q) by {
        let i = choose|i: int| 0 <= i < ps.push(p).len() && ps.push(p)[i]@ == q;
        if i < ps.len() {
            assert(ps[i]@ == q);
        }
    }
    assert forall|q: Seq<usize>| paths_set(ps).insert(p@).contains(q) implies paths_set(
        ps.push(p),
    ).contains(q) by {
        if q == p@ {
            assert(ps.push(p)[ps.len() as int]@ == q);
        } else {
            let i = choose|i: int| 0 <= i < ps.len() && ps[i]@ == q;
            assert(ps.push(p)[i]@ == q);
        }
    }
}

/// Removing the only entry that spells a path removes it from the path set.
proof fn lemma_paths_set_remove(ps: Seq<Vec<usize>>, i: int)
    requires
        0 <= i < ps.len(),
        forall|a: int, b: int| 0 <= a < b < ps.len() ==> ps[a]@ != ps[b]@,
    ensures
        paths_set(ps.remove(i)) =~= paths_set(ps).remove(ps[i]@),
{
    let pr = ps.remove(i);
    assert forall|q: Seq<usize>| paths_set(pr).contains(q) implies paths_set(ps).remove(
        ps[i]@,
    ).contains(q) by {
        let j = choose|j: int| 0 <= j < pr.len() && pr[j]@ == q;
        if j < i {
            assert(ps[j]@ == q);
            assert(q != ps[i]@);
        } else {
            assert(ps[j + 1]@ == q);
            assert(q != ps[i]@);
        }
    }
    assert forall|q: Seq<usize>| paths_set(ps).remove(ps[i]@).contains(q) implies paths_set(
        pr,
    ).contains(q) by {
        let j = choose|j: int| 0 <= j < ps.len() && ps[j]@ == q;
        if j < i {
            assert(pr[j]@ == q);
        } else {
            assert(j != i);
            assert(pr[j - 1]@ == q);
        }
    }
}

/// A selected path stays visible when the expansion of other paths changes,
/// as long as its own proper prefixes stay expanded: visibility of a path
/// depends only on the tree and on those prefixes.
proof fn lemma_visible_after_flip(
    items: Seq<NodeView>,
    exp1: Set<Seq<usize>>,
    exp2: Set<Seq<usize>>,
    sel: Seq<usize>,
)
    requires
        visible_from(items, exp1, Seq::empty(), 0).contains(sel),
        forall|j: int| 0 < j < sel.len() ==> (exp2.contains(#[trigger] sel.take(j)) <==> exp1.contains(sel.take(j))),
    ensures
        visible_from(items, exp2, Seq::empty(), 0).contains(sel),
{
    lemma_visible_from_contains(items, exp1, Seq::empty(), 0, sel);
    lemma_visible_from_contains(items, exp2, Seq::empty(), 0, sel);
}

/// Extending a resolving path by a child index in range resolves to that
/// child.
proof fn lemma_node_at_push(nodes: Seq<NodeView>, path: Seq<usize>, pos: int, i: usize)
    requires
        0 <= pos < path.len(),
        node_at_from(nodes, path, pos) is Some,
        (i as int) < node_at_from(nodes, path, pos)->Some_0.children.len(),
    ensures
        node_at_from(nodes, path.push(i), pos) == Some(
            node_at_from(nodes, path, pos)->Some_0.children[i as int],
        ),
    decreases path.len() - pos,
{
    assert(path.push(i)[pos] == path[pos]);
    if pos == path.len() - 1 {
        let n = nodes[path[pos] as int];
        assert(path.push(i)[pos + 1] == i);
        assert(node_at_from(n.children, path.push(i), pos + 1) == Some(n.children[i as int]));
        assert(node_at_from(nodes, path.push(i), pos) == node_at_from(
            n.children,
            path.push(i),
            pos + 1,
        ));
    } else {
        lemma_node_at_push(nodes[path[pos] as int].children, path, pos + 1, i);
    }
}

/// A prefix of a resolving path resolves as well.
proof fn lemma_node_at_take(nodes: Seq<NodeView>, path: Seq<usize>, pos: int, j: int)
    requires
        0 <= pos < j < path.len(),
        node_at_from(nodes, path, pos) is Some,
    ensures
        node_at_from(nodes, path.take(j), pos) is Some,
    decreases path.len() - pos,
{
    assert(path.take(j)[pos] == path[pos]);
    if pos < j - 1 {
        lemma_node_at_take(nodes[path[pos] as int].children, path, pos + 1, j);
    }
}

/// Mapping the view over a list of paths commutes with appending one path.
proof fn lemma_map_views_push(s: Seq<Vec<usize>>, x: Vec<usize>)
    ensures
        (s.push(x)).map_values(|q: Vec<usize>| q@) =~= s.map_values(|q: Vec<usize>| q@).push(x@),
{
}

/// A copy of a path, made element by element.
fn copy_path(p: &Vec<usize>) -> (r: Vec<usize>)
    ensures
        r@ == p@,
{
    let mut r: Vec<usize> = Vec::new();
    let mut i: usize = 0;
    while i < p.len()
        invariant
            i <= p.len(),
            r@ == p@.subrange(0, i as int),
        decreases p.len() - i,
    {
        r.push(p[i]);
        i = i + 1;
    }
    proof {
        assert(r@ =~= p@);
    }
    r
}

/// Whether two paths hold the same indices.
fn path_eq(a: &Vec<usize>, b: &Vec<usize>) -> (r: bool)
    ensures
        r <==> a@ == b@,
{
    if a.len() != b.len() {
        proof {
            assert(a@.len() != b@.len());
        }
        return false;
    }
    let mut i: usize = 0;
    while i < a.len()
        invariant
            i <= a.len(),
            a@.len() == b@.len(),
            forall|j: int| 0 <= j < i ==> a@[j] == b@[j],
        decreases a.len() - i,
    {
        if a[i] != b[i] {
            return false;
        }
        i = i + 1;
    }
    proof {
        assert(a@ =~= b@);
    }
    true
}

/// `right` on a leaf (or with nothing selected) is a no-op: the state after
/// equals the state before.
pub proof fn lemma_right_leaf_noop(t: TreeView)
    requires
        match node_at(t.items, t.selected) {
            Some(n) => n.leaf,
            None => true,
        },
    ensures
        spec_right(t) == t,
{
}

/// `left` at a root — a selected path of one index, with no parent — that is
/// not expanded is a no-op.
pub proof fn lemma_left_root_noop(t: TreeView)
    requires
        t.selected.len() == 1,
        !t.expanded.contains(t.selected),
    ensures
        spec_left(t) == t,
{
}

/// One `toggle` on a non-leaf selection flips the membership of the selected
/// path in the expanded set, and of no other path.
pub proof fn lemma_toggle_flips(t: TreeView)
    requires
        match node_at(t.items, t.selected) {
            Some(n) => !n.leaf,
            None => false,
        },
    ensures
        spec_toggle(t).expanded.contains(t.selected) <==> !t.expanded.contains(t.selected),
        forall|p: Seq<usize>|
            p != t.selected ==> (spec_toggle(t).expanded.contains(p) <==> t.expanded.contains(p)),
        spec_toggle(t).items == t.items,
        spec_toggle(t).selected == t.selected,
{
}

/// Toggling twice restores the original state, whatever is selected.
pub proof fn lemma_toggle_twice(t: TreeView)
    ensures
        spec_toggle(spec_toggle(t)) == t,
{
    match node_at(t.items, t.selected) {
        Some(n) => if !n.leaf {
            if t.expanded.contains(t.selected) {
                assert(t.expanded.remove(t.selected).insert(t.selected) =~= t.expanded);
                assert(spec_toggle(spec_toggle(t)) =~= t);
            } else {
                assert(t.expanded.insert(t.selected).remove(t.selected) =~= t.expanded);
                assert(spec_toggle(spec_toggle(t)) =~= t);
            }
        },
        None => {},
    }
}

/// After `first`, an `up` does not move the selection: the state is already
/// at the first visible node, so any number of further `up` calls keeps it.
pub proof fn lemma_first_then_up(t: TreeView)
    ensures
        spec_up(spec_first(t)) == spec_first(t),
{
    let v = tree_visible(t);
    if v.len() > 0 {
        let t1 = spec_first(t);
        assert(tree_visible(t1) == v);
        v.index_of_first_ensures(v[0]);
        assert(v.contains(v[0]));
        let i = v.index_of_first(v[0])->Some_0;
        if i > 0 {
            assert(v[0] != v[0]);
        }
    } else {
        v.index_of_first_ensures(t.selected);
    }
}

/// After `last`, a `down` does not move the selection: the state is already
/// at the last visible node, so any number of further `down` calls keeps it.
pub proof fn lemma_last_then_down(t: TreeView)
    ensures
        spec_down(spec_last(t)) == spec_last(t),
{
    let v = tree_visible(t);
    if v.len() > 0 {
        let t1 = spec_last(t);
        assert(tree_visible(t1) == v);
        v.index_of_first_ensures(v.last());
        assert(v[v.len() - 1] == v.last());
        assert(v.contains(v.last()));
        let i = v.index_of_first(v.last())->Some_0;
        lemma_visible_from_props(t.items, t.expanded, Seq::empty(), 0);
        assert(i == v.len() - 1);
    } else {
        v.index_of_first_ensures(t.selected);
    }
}

} // verus!
