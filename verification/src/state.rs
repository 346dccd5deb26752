//! The octree together with its registry: the state that insertion and
//! reduction work on, and the invariant that they keep.
use crate::color::{lemma_octant_range, octant, path_of, RGB};
use crate::tree::{
    lemma_fresh, lemma_insert_census, lemma_insert_wf, lemma_kids_leaves_update, lemma_kids_none,
    lemma_kids_total_update, lemma_present_pos, lemma_tally_bound, lemma_wf_kids_leaves,
    lemma_wf_shaped, Tree,
};
use vstd::prelude::*;

verus! {

/// The registry after an insertion of `c` that created vertices from depth
/// `from` down: `c` stands last at every depth from there to six.
pub open spec fn registered(reg: Seq<Seq<RGB>>, from: Option<nat>, c: RGB) -> Seq<Seq<RGB>> {
    Seq::new(
        reg.len(),
        |l: int|
            if from matches Some(d) && d <= l <= 6 {
                reg[l].push(c)
            } else {
                reg[l]
            },
    )
}

/// One if the insertion creates a leaf, zero if a leaf takes the colour.
pub open spec fn grown(from: Option<nat>) -> nat {
    if from is Some {
        1
    } else {
        0
    }
}

/// The deepest level under `below` that has a candidate.
pub open spec fn deepest(reg: Seq<Seq<RGB>>, below: nat) -> Option<nat>
    decreases below,
{
    if below == 0 {
        None
    } else if reg[below - 1].len() > 0 {
        Some((below - 1) as nat)
    } else {
        deepest(reg, (below - 1) as nat)
    }
}

/// The number of candidates on the levels under `below`.
pub open spec fn candidates_under(reg: Seq<Seq<RGB>>, below: nat) -> nat
    decreases below,
{
    if below == 0 {
        0
    } else {
        candidates_under(reg, (below - 1) as nat) + reg[below - 1].len()
    }
}

/// Whether the path from the root leads to a branch.
pub open spec fn branch_at(t: Tree, path: Seq<int>) -> bool {
    t.descend(path, 0) matches Some(x) && x is Branch
}

/// Whether a candidate of the row stands for the vertex at the end of `path`.
pub open spec fn listed(row: Seq<RGB>, path: Seq<int>) -> bool {
    exists|j: int| 0 <= j < row.len() && #[trigger] path_of(row[j], path.len()) == path
}

/// Whether two paths of one length agree from `level` on.
pub open spec fn same_from(p: Seq<int>, q: Seq<int>, level: nat) -> bool {
    p.len() == q.len() && forall|i: int| level <= i < p.len() ==> p[i] == q[i]
}

/// What a lookup found: nothing, a leaf or a branch.
pub open spec fn kind(found: Option<Tree>) -> int {
    match found {
        None => 0,
        Some(Tree::Leaf { .. }) => 1,
        Some(Tree::Branch { .. }) => 2,
    }
}

/// An octree with the candidates for reduction of every depth, the number
/// of its leaves and its colour budget.
pub struct TreeState {
    pub root: Tree,
    pub candidates: Seq<Seq<RGB>>,
    pub leaf_num: nat,
    pub max_color: nat,
}

impl TreeState {
    /// The empty octree.
    pub open spec fn new(max_color: nat) -> TreeState {
        TreeState {
            root: Tree::empty(),
            candidates: Seq::new(8, |l: int| Seq::<RGB>::empty()),
            leaf_num: 0,
            max_color,
        }
    }

    /// The state after `c` has been inserted: every branch that the
    /// insertion creates is registered behind the candidates of its depth,
    /// and a created leaf is counted.
    pub open spec fn insert(self, c: RGB) -> TreeState {
        let from = self.root.gap(c, 0);
        TreeState {
            root: self.root.insert(c, 0),
            candidates: registered(self.candidates, from, c),
            leaf_num: self.leaf_num + grown(from),
            max_color: self.max_color,
        }
    }

    /// The state after one reduction: the last candidate of the deepest
    /// level that has one leaves the registry, and its vertex is merged.
    /// Without a candidate nothing changes.
    pub open spec fn reduce(self) -> TreeState {
        match deepest(self.candidates, 7) {
            None => self,
            Some(lv) => {
                let path = path_of(self.candidates[lv as int].last(), lv);
                TreeState {
                    root: self.root.merge_at(path, 0),
                    candidates: self.candidates.update(
                        lv as int,
                        self.candidates[lv as int].drop_last(),
                    ),
                    leaf_num: (self.leaf_num + self.root.merge_gain(path, 0)) as nat,
                    max_color: self.max_color,
                }
            },
        }
    }

    /// The invariant of the octree: the tree is well-formed, the candidates
    /// of a depth are exactly the branches of that depth below the root,
    /// each once, and `leaf_num` is the number of leaves.
    pub open spec fn wf(self) -> bool {
        &&& self.root.wf(0)
        &&& self.candidates.len() == 8
        &&& self.candidates[0].len() == 0
        &&& self.candidates[7].len() == 0
        &&& forall|l: nat, j: int|
            l < 8 && 0 <= j < self.candidates[l as int].len() ==> #[trigger] branch_at(
                self.root,
                path_of(self.candidates[l as int][j], l),
            )
        &&& forall|l: nat, i: int, j: int|
            l < 8 && 0 <= i < j < self.candidates[l as int].len() ==> path_of(
                #[trigger] self.candidates[l as int][i],
                l,
            ) != path_of(#[trigger] self.candidates[l as int][j], l)
        &&& forall|p: Seq<int>|
            1 <= p.len() <= 6 && #[trigger] branch_at(self.root, p) ==> listed(
                self.candidates[p.len() as int],
                p,
            )
        &&& self.leaf_num == self.root.leaf_count(0)
    }
}

/// The empty octree meets the invariant and holds no pixel.
pub proof fn lemma_new_wf(max_color: nat)
    ensures
        TreeState::new(max_color).wf(),
        TreeState::new(max_color).root.pixel_total(0) == 0,
        TreeState::new(max_color).root.leaf_count(0) == 0,
{
    let s = TreeState::new(max_color);
    lemma_kids_none(Tree::empty()->kids, 1, 8);
    assert forall|p: Seq<int>| 1 <= p.len() <= 6 && #[trigger] branch_at(s.root, p) implies listed(
        s.candidates[p.len() as int],
        p,
    ) by {
        assert(s.root.descend(p, 0) is None);
    }
}

/// Paths that agree entry by entry are the same path.
pub proof fn lemma_same_path(p: Seq<int>, q: Seq<int>)
    requires
        same_from(p, q, 0),
    ensures
        p == q,
{
    assert(p =~= q);
}

/// Insertion keeps every vertex that was there, as the kind it was.
pub proof fn lemma_insert_keeps(t: Tree, c: RGB, p: Seq<int>, level: nat)
    requires
        t.shaped(level),
        level <= 7,
        level <= p.len(),
        t.descend(p, level) is Some,
    ensures
        kind(t.insert(c, level).descend(p, level)) == kind(t.descend(p, level)),
    decreases 8 - level,
{
    if level < p.len() {
        match t {
            Tree::Leaf { .. } => {},
            Tree::Branch { kids } => {
                lemma_octant_range(c, level);
                let k = octant(c, level);
                let kp = p[level as int];
                if let Some(x) = kids[kp] {
                    if kp == k {
                        lemma_insert_keeps(x, c, p, level + 1);
                    }
                }
            },
        }
    }
}

/// A vertex that insertion creates lies on the path of the colour, at or
/// below the depth of the first vertex created, and is a branch above depth
/// seven.
pub proof fn lemma_insert_new(t: Tree, c: RGB, p: Seq<int>, level: nat)
    requires
        t.shaped(level),
        level <= 7,
        level <= p.len(),
        t.descend(p, level) is None || t == Tree::fresh(level),
        t.insert(c, level).descend(p, level) is Some,
    ensures
        p.len() <= 7,
        forall|i: int| level <= i < p.len() ==> p[i] == octant(c, i as nat),
        kind(t.insert(c, level).descend(p, level)) == (if p.len() < 7 {
            2int
        } else {
            1int
        }),
        t.descend(p, level) is None ==> (t.gap(c, level) matches Some(d) && d <= p.len()),
    decreases 8 - level,
{
    if level < p.len() {
        match t {
            Tree::Leaf { .. } => {},
            Tree::Branch { kids } => {
                lemma_octant_range(c, level);
                let k = octant(c, level);
                let kp = p[level as int];
                let child = match kids[k] {
                    Some(x) => x,
                    None => Tree::fresh(level + 1),
                };
                let after = kids.update(k, Some(child.insert(c, level + 1)));
                assert(t.insert(c, level) == Tree::Branch { kids: after });
                if kp != k {
                    if 0 <= kp < 8 {
                        assert(after[kp] == kids[kp]);
                    }
                    assert(false);
                }
                lemma_fresh(level + 1);
                lemma_insert_new(child, c, p, level + 1);
            },
        }
    }
}

/// After an insertion that created vertices from depth `d` down, the path
/// of the colour leads to a branch at every depth from `d` to six, and led
/// nowhere at these depths before.
pub proof fn lemma_insert_path(t: Tree, c: RGB, level: nat, l: nat)
    requires
        t.shaped(level),
        level <= l <= 6,
        t.gap(c, level) matches Some(d) && d <= l || (t == Tree::fresh(level)),
    ensures
        kind(t.insert(c, level).descend(path_of(c, l), level)) == 2,
        (t.gap(c, level) matches Some(d) && d <= l) ==> t.descend(path_of(c, l), level) is None,
    decreases 8 - level,
{
    let p = path_of(c, l);
    match t {
        Tree::Leaf { .. } => {},
        Tree::Branch { kids } => {
            if level < l {
                lemma_octant_range(c, level);
                let k = octant(c, level);
                assert(p[level as int] == k);
                let child = match kids[k] {
                    Some(x) => x,
                    None => Tree::fresh(level + 1),
                };
                lemma_fresh(level + 1);
                lemma_insert_path(child, c, level + 1, l);
                let after = kids.update(k, Some(child.insert(c, level + 1)));
                assert(t.insert(c, level) == Tree::Branch { kids: after });
            } else {
                lemma_octant_range(c, level);
                if t.gap(c, level) is Some {
                    lemma_gap_below(t, c, level);
                }
            }
        },
    }
}

/// The first vertex that an insertion creates lies below the vertex that
/// the insertion starts from.
pub proof fn lemma_gap_below(t: Tree, c: RGB, level: nat)
    requires
        t.gap(c, level) is Some,
    ensures
        t.gap(c, level)->0 > level,
    decreases 8 - level,
{
    match t {
        Tree::Leaf { .. } => {},
        Tree::Branch { kids } => {
            if level < 7 {
                if let Some(x) = kids[octant(c, level)] {
                    lemma_gap_below(x, c, level + 1);
                }
            }
        },
    }
}

/// Insertion keeps the invariant.
pub proof fn lemma_insert_keeps_wf(s: TreeState, c: RGB)
    requires
        s.wf(),
    ensures
        s.insert(c).wf(),
        s.insert(c).root.pixel_total(0) == s.root.pixel_total(0) + 1,
{
    let n = s.insert(c);
    let from = s.root.gap(c, 0);
    lemma_wf_shaped(s.root, 0);
    lemma_insert_wf(s.root, c, 0);
    lemma_insert_census(s.root, c, 0);
    if from is Some {
        lemma_gap_below(s.root, c, 0);
    }
    assert forall|l: nat, j: int| l < 8 && 0 <= j < n.candidates[l as int].len() implies #[trigger] branch_at(
        n.root,
        path_of(n.candidates[l as int][j], l),
    ) by {
        if j < s.candidates[l as int].len() {
            let p = path_of(s.candidates[l as int][j], l);
            assert(branch_at(s.root, p));
            lemma_insert_keeps(s.root, c, p, 0);
        } else {
            lemma_insert_path(s.root, c, 0, l);
        }
    }
    assert forall|l: nat, i: int, j: int|
        l < 8 && 0 <= i < j < n.candidates[l as int].len() implies path_of(
        #[trigger] n.candidates[l as int][i],
        l,
    ) != path_of(#[trigger] n.candidates[l as int][j], l) by {
        if j >= s.candidates[l as int].len() {
            lemma_insert_path(s.root, c, 0, l);
            assert(branch_at(s.root, path_of(s.candidates[l as int][i], l)));
        }
    }
    assert forall|p: Seq<int>| 1 <= p.len() <= 6 && #[trigger] branch_at(n.root, p) implies listed(
        n.candidates[p.len() as int],
        p,
    ) by {
        let l = p.len() as int;
        if s.root.descend(p, 0) is Some {
            lemma_insert_keeps(s.root, c, p, 0);
            assert(branch_at(s.root, p));
            let j = choose|j: int|
                0 <= j < s.candidates[l].len() && #[trigger] path_of(s.candidates[l][j], p.len())
                    == p;
            assert(n.candidates[l][j] == s.candidates[l][j]);
        } else {
            lemma_insert_new(s.root, c, p, 0);
            assert(path_of(c, p.len()) =~= p);
            let j = s.candidates[l].len() as int;
            assert(n.candidates[l][j] == c);
        }
    }
}

/// What `deepest` finds is the last level with a candidate.
pub proof fn lemma_deepest(reg: Seq<Seq<RGB>>, below: nat)
    ensures
        deepest(reg, below) matches Some(lv) ==> lv < below && reg[lv as int].len() > 0
            && forall|l: int| lv < l < below ==> (#[trigger] reg[l]).len() == 0,
        deepest(reg, below) is None ==> forall|l: int|
            0 <= l < below ==> (#[trigger] reg[l]).len() == 0,
    decreases below,
{
    if below > 0 {
        lemma_deepest(reg, (below - 1) as nat);
    }
}

/// One step further down a path leads into the subtree of that octant.
pub proof fn lemma_descend_push(t: Tree, p: Seq<int>, k: int, level: nat)
    requires
        level <= p.len(),
    ensures
        t.descend(p.push(k), level) == (match t.descend(p, level) {
            Some(Tree::Branch { kids }) => if 0 <= k < kids.len() {
                kids[k]
            } else {
                None
            },
            _ => None,
        }),
    decreases p.len() - level,
{
    let q = p.push(k);
    if level < p.len() {
        assert(q[level as int] == p[level as int]);
        match t {
            Tree::Leaf { .. } => {},
            Tree::Branch { kids } => {
                if 0 <= p[level as int] < kids.len() {
                    if let Some(x) = kids[p[level as int]] {
                        lemma_descend_push(x, p, k, level + 1);
                    }
                }
            },
        }
    } else {
        assert(q[level as int] == k);
        match t {
            Tree::Leaf { .. } => {},
            Tree::Branch { kids } => {
                if 0 <= k < kids.len() {
                    if let Some(x) = kids[k] {
                        assert(x.descend(q, level + 1) == Some(x));
                    }
                }
            },
        }
    }
}

/// Every vertex of a well-formed tree is well-formed at its depth.
pub proof fn lemma_descend_wf(t: Tree, p: Seq<int>, level: nat)
    requires
        t.wf(level),
        level <= p.len(),
        t.descend(p, level) is Some,
    ensures
        t.descend(p, level)->0.wf(p.len()),
    decreases p.len() - level,
{
    if level < p.len() {
        match t {
            Tree::Leaf { .. } => {},
            Tree::Branch { kids } => {
                if let Some(x) = kids[p[level as int]] {
                    lemma_descend_wf(x, p, level + 1);
                }
            },
        }
    }
}

/// Under subtrees that are all leaves are as many leaves as subtrees, and
/// the pixels that the subtrees have gathered themselves.
pub proof fn lemma_leaf_kids(kids: Seq<Option<Tree>>, level: nat, n: nat)
    requires
        n <= kids.len(),
        forall|k: int| 0 <= k < n ==> (#[trigger] kids[k] matches Some(t) ==> t is Leaf),
    ensures
        Tree::kids_total(kids, level, n) == Tree::kids_tally(kids, n).count,
        Tree::kids_leaves(kids, level, n) == Tree::present(kids, n),
    decreases n,
{
    if n > 0 {
        lemma_leaf_kids(kids, level, (n - 1) as nat);
        if let Some(t) = kids[n - 1] {
            assert(t.pixel_total(level) == t.own().count);
            assert(t.leaf_count(level) == 1);
        }
    }
}

/// A merge keeps every vertex that lies no deeper than the merged one and is
/// not the merged one, as the kind it was.
pub proof fn lemma_merge_keeps(t: Tree, p: Seq<int>, q: Seq<int>, level: nat)
    requires
        level <= q.len() <= p.len(),
        !same_from(p, q, level),
    ensures
        kind(t.merge_at(p, level).descend(q, level)) == kind(t.descend(q, level)),
    decreases p.len() - level,
{
    if level < q.len() {
        match t {
            Tree::Leaf { .. } => {},
            Tree::Branch { kids } => {
                let kp = p[level as int];
                let kq = q[level as int];
                if 0 <= kp < kids.len() {
                    if let Some(x) = kids[kp] {
                        let after = kids.update(kp, Some(x.merge_at(p, level + 1)));
                        assert(t.merge_at(p, level) == Tree::Branch { kids: after });
                        if kq == kp {
                            lemma_merge_keeps(x, p, q, level + 1);
                        } else if 0 <= kq < kids.len() {
                            assert(after[kq] == kids[kq]);
                        }
                    }
                }
            },
        }
    }
}

/// A merge creates no branch.
pub proof fn lemma_merge_no_new(t: Tree, p: Seq<int>, q: Seq<int>, level: nat)
    requires
        level <= q.len(),
        level <= p.len(),
        kind(t.merge_at(p, level).descend(q, level)) == 2,
    ensures
        kind(t.descend(q, level)) == 2,
    decreases p.len() - level,
{
    if level < p.len() {
        match t {
            Tree::Leaf { .. } => {},
            Tree::Branch { kids } => {
                let kp = p[level as int];
                if 0 <= kp < kids.len() {
                    if let Some(x) = kids[kp] {
                        let after = kids.update(kp, Some(x.merge_at(p, level + 1)));
                        assert(t.merge_at(p, level) == Tree::Branch { kids: after });
                        if level < q.len() {
                            let kq = q[level as int];
                            if kq == kp {
                                lemma_merge_no_new(x, p, q, level + 1);
                            } else if 0 <= kq < kids.len() {
                                assert(after[kq] == kids[kq]);
                            }
                        }
                    }
                }
            },
        }
    }
}

/// The merged vertex is a leaf.
pub proof fn lemma_merge_target(t: Tree, p: Seq<int>, level: nat)
    requires
        level <= p.len(),
        t.descend(p, level) is Some,
    ensures
        kind(t.merge_at(p, level).descend(p, level)) == 1,
    decreases p.len() - level,
{
    if level < p.len() {
        match t {
            Tree::Leaf { .. } => {},
            Tree::Branch { kids } => {
                let kp = p[level as int];
                if let Some(x) = kids[kp] {
                    lemma_merge_target(x, p, level + 1);
                    let after = kids.update(kp, Some(x.merge_at(p, level + 1)));
                    assert(t.merge_at(p, level) == Tree::Branch { kids: after });
                }
            },
        }
    }
}

/// Merging a vertex below the root whose subtrees are all leaves keeps the
/// tree well-formed and its pixels, and gives one leaf for the leaves merged.
pub proof fn lemma_merge_census(t: Tree, p: Seq<int>, level: nat)
    requires
        t.wf(level),
        level <= p.len(),
        1 <= p.len(),
        t.descend(p, level) matches Some(x) ==> x.kids_are_leaves(),
    ensures
        t.merge_at(p, level).wf(level),
        t.merge_at(p, level).pixel_total(level) == t.pixel_total(level),
        t.merge_at(p, level).leaf_count(level) == t.leaf_count(level) + t.merge_gain(p, level),
    decreases p.len() - level,
{
    lemma_wf_shaped(t, level);
    match t {
        Tree::Leaf { .. } => {},
        Tree::Branch { kids } => {
            if level < p.len() {
                let kp = p[level as int];
                if 0 <= kp < kids.len() {
                    if let Some(x) = kids[kp] {
                        lemma_merge_census(x, p, level + 1);
                        let slot = Some(x.merge_at(p, level + 1));
                        let after = kids.update(kp, slot);
                        assert(t.merge_at(p, level) == Tree::Branch { kids: after });
                        lemma_kids_total_update(kids, level + 1, 8, kp, slot);
                        lemma_kids_leaves_update(kids, level + 1, 8, kp, slot);
                        lemma_present_pos(after, 8, kp);
                        assert forall|j: int| 0 <= j < 8 implies (#[trigger] after[j] matches Some(
                            y,
                        ) ==> y.wf(level + 1)) by {
                            if j != kp {
                                assert(after[j] == kids[j]);
                            }
                        }
                    }
                }
            } else {
                lemma_leaf_kids(kids, level + 1, 8);
                lemma_wf_kids_leaves(kids, level + 1, 8);
                lemma_tally_bound(kids, level + 1, 8);
            }
        },
    }
}

/// The subtrees of the last candidate of the deepest level are all leaves.
pub proof fn lemma_candidate_kids(s: TreeState)
    requires
        s.wf(),
        deepest(s.candidates, 7) is Some,
    ensures
        ({
            let lv = deepest(s.candidates, 7)->0;
            let path = path_of(s.candidates[lv as int].last(), lv);
            &&& 1 <= lv <= 6
            &&& branch_at(s.root, path)
            &&& s.root.descend(path, 0)->0.kids_are_leaves()
        }),
{
    let lv = deepest(s.candidates, 7)->0;
    lemma_deepest(s.candidates, 7);
    let row = s.candidates[lv as int];
    let path = path_of(row.last(), lv);
    assert(branch_at(s.root, path_of(s.candidates[lv as int][row.len() - 1], lv)));
    let x = s.root.descend(path, 0)->0;
    lemma_descend_wf(s.root, path, 0);
    let kids = x->kids;
    assert forall|k: int| 0 <= k < kids.len() implies (#[trigger] kids[k] matches Some(y)
        ==> y is Leaf) by {
        if let Some(y) = kids[k] {
            if y is Branch {
                let q = path.push(k);
                assert(x.wf(lv));
                assert(y.wf(lv + 1));
                lemma_descend_push(s.root, path, k, 0);
                assert(branch_at(s.root, q));
                assert(listed(s.candidates[q.len() as int], q));
                assert(false);
            }
        }
    }
}

/// Reduction keeps the invariant and the pixels, and takes one candidate
/// off the registry if there is one.
pub proof fn lemma_reduce_keeps_wf(s: TreeState)
    requires
        s.wf(),
    ensures
        s.reduce().wf(),
        s.reduce().root.pixel_total(0) == s.root.pixel_total(0),
        deepest(s.candidates, 7) is Some ==> candidates_under(s.reduce().candidates, 8) + 1
            == candidates_under(s.candidates, 8),
        deepest(s.candidates, 7) is None ==> s.reduce() == s,
{
    if let Some(lv) = deepest(s.candidates, 7) {
        let n = s.reduce();
        lemma_deepest(s.candidates, 7);
        lemma_candidate_kids(s);
        let row = s.candidates[lv as int];
        let last = row.len() - 1;
        let path = path_of(row.last(), lv);
        lemma_merge_census(s.root, path, 0);
        lemma_candidates_drop(s.candidates, lv as int, 8);
        assert forall|l: nat, j: int| l < 8 && 0 <= j < n.candidates[l as int].len() implies #[trigger] branch_at(
            n.root,
            path_of(n.candidates[l as int][j], l),
        ) by {
            let q = path_of(s.candidates[l as int][j], l);
            assert(n.candidates[l as int][j] == s.candidates[l as int][j]);
            assert(branch_at(s.root, q));
            if l == lv {
                assert(path_of(s.candidates[l as int][j], l) != path_of(
                    s.candidates[l as int][last],
                    l,
                ));
                if same_from(path, q, 0) {
                    lemma_same_path(path, q);
                }
            }
            lemma_merge_keeps(s.root, path, q, 0);
        }
        assert forall|l: nat, i: int, j: int|
            l < 8 && 0 <= i < j < n.candidates[l as int].len() implies path_of(
            #[trigger] n.candidates[l as int][i],
            l,
        ) != path_of(#[trigger] n.candidates[l as int][j], l) by {
            assert(n.candidates[l as int][i] == s.candidates[l as int][i]);
            assert(n.candidates[l as int][j] == s.candidates[l as int][j]);
        }
        assert forall|p: Seq<int>|
            1 <= p.len() <= 6 && #[trigger] branch_at(n.root, p) implies listed(
            n.candidates[p.len() as int],
            p,
        ) by {
            let l = p.len() as int;
            lemma_merge_no_new(s.root, path, p, 0);
            assert(branch_at(s.root, p));
            let j = choose|j: int|
                0 <= j < s.candidates[l].len() && #[trigger] path_of(s.candidates[l][j], p.len())
                    == p;
            if l == lv && j == last {
                lemma_merge_target(s.root, path, 0);
                assert(false);
            }
            assert(n.candidates[l][j] == s.candidates[l][j]);
        }
    }
}

/// Taking the last candidate off one level takes one off the count.
pub proof fn lemma_candidates_drop(reg: Seq<Seq<RGB>>, lv: int, below: nat)
    requires
        0 <= lv < reg.len(),
        below <= reg.len(),
        reg[lv].len() > 0,
    ensures
        candidates_under(reg.update(lv, reg[lv].drop_last()), below) + (if lv < below {
            1nat
        } else {
            0nat
        }) == candidates_under(reg, below),
    decreases below,
{
    if below > 0 {
        lemma_candidates_drop(reg, lv, (below - 1) as nat);
    }
}

} // verus!
