//! The octree with its registry of branches that can be merged.
use crate::color::{lemma_octant_range, octant_index, path_of, RGB};
use crate::node::Node;
use crate::state::{
    branch_at, deepest, grown, lemma_candidate_kids, lemma_insert_keeps_wf, lemma_new_wf,
    lemma_reduce_keeps_wf, registered, TreeState,
};
use crate::tree::{
    lemma_fresh, lemma_kids_monotone, lemma_slot_le, lemma_tally_bound, lemma_wf_kids_leaves,
    lemma_wf_leaves, lemma_wf_shaped, Tree,
};
use vstd::prelude::*;

verus! {

/// The candidates of each depth, as sequences.
pub open spec fn levels(to_reduce: Vec<Vec<RGB>>) -> Seq<Seq<RGB>> {
    Seq::new(to_reduce@.len(), |l: int| to_reduce@[l]@)
}

/// The first index from `from` on whose candidate stores a pixel count above
/// `count` in its vertex, or the length.
pub open spec fn first_above(root: Node, row: Seq<RGB>, level: nat, count: nat, from: int) -> int
    decreases row.len() - from,
{
    if from >= row.len() {
        row.len() as int
    } else if root.stored_count(path_of(row[from], level), 0) > count {
        from
    } else {
        first_above(root, row, level, count, from + 1)
    }
}

/// The candidates of a depth in ascending order of the pixel counts that
/// their vertices store, candidates of equal count in the order in which
/// they stood.
pub open spec fn sorted_by_count(root: Node, row: Seq<RGB>, level: nat) -> Seq<RGB>
    decreases row.len(),
{
    if row.len() == 0 {
        row
    } else {
        let head = sorted_by_count(root, row.drop_last(), level);
        head.insert(
            first_above(
                root,
                head,
                level,
                root.stored_count(path_of(row.last(), level), 0),
                0,
            ),
            row.last(),
        )
    }
}

/// Whether the vertex of every candidate of the row stores a pixel count of
/// zero in the tree of `root`.
pub open spec fn stores_nothing(root: Node, row: Seq<RGB>, level: nat) -> bool {
    forall|j: int|
        0 <= j < row.len() ==> root.stored_count(path_of(#[trigger] row[j], level), 0) == 0
}

/// Among candidates that store a pixel count of zero, none stores more than
/// another.
pub proof fn lemma_first_above_none(root: Node, row: Seq<RGB>, level: nat, from: int)
    requires
        0 <= from <= row.len(),
        stores_nothing(root, row, level),
    ensures
        first_above(root, row, level, 0, from) == row.len(),
    decreases row.len() - from,
{
    if from < row.len() {
        lemma_first_above_none(root, row, level, from + 1);
    }
}

/// Candidates that store a pixel count of zero stand in sorted order as
/// they are.
pub proof fn lemma_sorted_as_registered(root: Node, row: Seq<RGB>, level: nat)
    requires
        stores_nothing(root, row, level),
    ensures
        sorted_by_count(root, row, level) == row,
    decreases row.len(),
{
    if row.len() > 0 {
        let front = row.drop_last();
        assert forall|j: int| 0 <= j < front.len() implies root.stored_count(
            path_of(#[trigger] front[j], level),
            0,
        ) == 0 by {
            assert(front[j] == row[j]);
        }
        assert(stores_nothing(root, front, level));
        lemma_sorted_as_registered(root, front, level);
        lemma_first_above_none(root, front, level, 0);
        assert(row.last() == row[row.len() - 1]);
        assert(front.insert(front.len() as int, row.last()) =~= row);
    }
}

/// An octree under construction.
pub struct OcTree {
    pub root: Node,
    pub leaf_num: u32,
    pub to_reduce: Vec<Vec<RGB>>,
    pub max_color: u32,
}

impl View for OcTree {
    type V = TreeState;

    open spec fn view(&self) -> TreeState {
        TreeState {
            root: self.root@,
            candidates: levels(self.to_reduce),
            leaf_num: self.leaf_num as nat,
            max_color: self.max_color as nat,
        }
    }
}

impl OcTree {
    /// The invariant of the octree, and room in the counters for the pixels
    /// it holds.
    pub open spec fn wf(&self) -> bool {
        self@.wf() && self.root.tidy() && self@.root.pixel_total(0) <= u32::MAX
    }

    /// Whether the candidates of every depth stand in ascending order of
    /// the pixel counts that their vertices store, candidates of equal
    /// count in the order of their registration.
    pub open spec fn registry_sorted(&self) -> bool {
        forall|level: nat|
            level < 8 ==> #[trigger] sorted_by_count(
                self.root,
                self.to_reduce@[level as int]@,
                level,
            ) == self.to_reduce@[level as int]@
    }

    /// A candidate is a branch, and a branch stores a pixel count of zero
    /// until it is merged: so the candidates of a depth, each registered
    /// behind the others, stand in ascending order of pixel count, and to
    /// register one more behind them is to sort the depth anew.
    pub proof fn lemma_registry_sorted(&self)
        requires
            self.wf(),
        ensures
            self.registry_sorted(),
    {
        assert forall|level: nat| level < 8 implies #[trigger] sorted_by_count(
            self.root,
            self.to_reduce@[level as int]@,
            level,
        ) == self.to_reduce@[level as int]@ by {
            let row = self.to_reduce@[level as int]@;
            assert(row == self@.candidates[level as int]);
            assert forall|j: int| 0 <= j < row.len() implies self.root.stored_count(
                path_of(#[trigger] row[j], level),
                0,
            ) == 0 by {
                assert(branch_at(self@.root, path_of(self@.candidates[level as int][j], level)));
                self.root.lemma_branch_stores_nothing(path_of(row[j], level), 0);
            }
            assert(stores_nothing(self.root, row, level));
            lemma_sorted_as_registered(self.root, row, level);
        }
    }

    /// An empty octree with the colour budget `max_color`.
    pub fn new(max_color: u32) -> (tree: OcTree)
        ensures
            tree@ == TreeState::new(max_color as nat),
            tree.wf(),
    {
        let mut to_reduce: Vec<Vec<RGB>> = Vec::new();
        let mut l: usize = 0;
        while l < 8
            invariant
                l <= 8,
                to_reduce@.len() == l,
                forall|j: int| 0 <= j < l ==> (#[trigger] to_reduce@[j])@.len() == 0,
            decreases 8 - l,
        {
            to_reduce.push(Vec::new());
            l = l + 1;
        }
        let tree = OcTree { root: Node::new(), leaf_num: 0, to_reduce, max_color };
        proof {
            assert(tree@.candidates =~~= TreeState::new(max_color as nat).candidates);
            lemma_new_wf(max_color as nat);
        }
        tree
    }

    /// Inserts one pixel: the colour descends from the root by its octants
    /// to a leaf, which takes it into its sums; where the path ends before a
    /// leaf, the missing vertices are created, the branches among them are
    /// registered and the new leaf is counted. Every depth of the registry
    /// then stands in ascending order of pixel count, branches of equal
    /// count in the order of their registration.
    pub fn add_color(&mut self, rgb: RGB)
        requires
            old(self).wf(),
            old(self)@.root.pixel_total(0) < u32::MAX,
        ensures
            final(self)@ == old(self)@.insert(rgb),
            final(self).wf(),
            final(self)@.root.pixel_total(0) == old(self)@.root.pixel_total(0) + 1,
            final(self).registry_sorted(),
    {
        proof {
            lemma_wf_shaped(self@.root, 0);
            lemma_wf_leaves(self@.root, 0);
            lemma_insert_keeps_wf(self@, rgb);
        }
        Self::add_color_at(&mut self.root, &mut self.to_reduce, &mut self.leaf_num, rgb, 0);
        proof {
            self.lemma_registry_sorted();
        }
    }

    /// Merges the last candidate of the deepest level that has one, and
    /// says whether there was one: the candidate leaves the registry, its
    /// vertex becomes a leaf with what its subtrees had gathered, and the
    /// subtrees are discarded. Without a candidate nothing changes.
    pub fn reduce_tree(&mut self) -> (merged: bool)
        requires
            old(self).wf(),
        ensures
            final(self)@ == old(self)@.reduce(),
            final(self).wf(),
            final(self).registry_sorted(),
            merged == (deepest(old(self)@.candidates, 7) is Some),
            !merged ==> *final(self) == *old(self),
    {
        let ghost reg = self@.candidates;
        let mut lv: usize = 7;
        while lv > 0 && self.to_reduce[lv - 1].len() == 0
            invariant
                lv <= 7,
                *self == *old(self),
                self.to_reduce@.len() == 8,
                deepest(reg, 7) == deepest(reg, lv as nat),
                reg == levels(self.to_reduce),
            decreases lv,
        {
            lv = lv - 1;
        }
        proof {
            lemma_reduce_keeps_wf(self@);
        }
        if lv == 0 {
            proof {
                self.lemma_registry_sorted();
            }
            return false;
        }
        let level = lv - 1;
        proof {
            lemma_candidate_kids(self@);
            lemma_wf_leaves(self@.root, 0);
        }
        let rgb = self.to_reduce[level].pop().unwrap();
        Self::merge_at(&mut self.root, &mut self.leaf_num, rgb, 0, level);
        proof {
            assert(self@.candidates =~= old(self)@.reduce().candidates);
            self.lemma_registry_sorted();
        }
        true
    }

    /// Creates the vertex for depth `level` on the path of `rgb`, with zero
    /// sums, a pixel count of zero and eight empty slots. At depth seven it
    /// is a leaf and is counted. Above, it is a branch, and `rgb` is
    /// registered for it behind the candidates of that depth. The
    /// candidates of a depth are kept in ascending order of pixel count,
    /// candidates of equal count in the order of their registration; as a
    /// branch stores a count of zero until it is merged, the new branch
    /// belongs behind the others, and no vertex needs to be looked up: in
    /// every tree in which the vertices of these candidates store a count
    /// of zero, the depth stands sorted after the registration.
    pub fn create_node(
        to_reduce: &mut Vec<Vec<RGB>>,
        leaf_num: &mut u32,
        level: usize,
        rgb: RGB,
    ) -> (node: Node)
        requires
            level <= 7,
            old(to_reduce)@.len() == 8,
            level == 7 ==> *old(leaf_num) < u32::MAX,
        ensures
            node@ == Tree::fresh(level as nat),
            node.is_leaf == (level == 7),
            node.r == 0 && node.g == 0 && node.b == 0 && node.pixel_count == 0,
            node.children@.len() == 8,
            forall|k: int| 0 <= k < 8 ==> (#[trigger] node.children@[k]) is None,
            node.tidy(),
            final(to_reduce)@.len() == 8,
            levels(*final(to_reduce)) == (if level < 7 {
                levels(*old(to_reduce)).update(
                    level as int,
                    levels(*old(to_reduce))[level as int].push(rgb),
                )
            } else {
                levels(*old(to_reduce))
            }),
            *final(leaf_num) == *old(leaf_num) + (if level == 7 {
                1nat
            } else {
                0nat
            }),
            forall|root: Node| #[trigger]
                stores_nothing(root, final(to_reduce)@[level as int]@, level as nat)
                    ==> sorted_by_count(root, final(to_reduce)@[level as int]@, level as nat)
                    == final(to_reduce)@[level as int]@,
    {
        let mut node = Node::new();
        if level == 7 {
            node.is_leaf = true;
            *leaf_num = *leaf_num + 1;
            proof {
                node.lemma_model();
            }
        } else {
            to_reduce[level].push(rgb);
        }
        assert(levels(*to_reduce) =~= (if level < 7 {
            levels(*old(to_reduce)).update(
                level as int,
                levels(*old(to_reduce))[level as int].push(rgb),
            )
        } else {
            levels(*old(to_reduce))
        }));
        proof {
            let row = to_reduce@[level as int]@;
            assert forall|root: Node| #[trigger]
                stores_nothing(root, row, level as nat) implies sorted_by_count(
                root,
                row,
                level as nat,
            ) == row by {
                lemma_sorted_as_registered(root, row, level as nat);
            }
        }
        node
    }

    /// Inserts `rgb` into the subtree of `node`, which stands at depth
    /// `level`. A leaf takes the colour into its sums. A branch hands it to
    /// the subtree of the colour's octant, which is created first when it is
    /// absent.
    pub fn add_color_at(
        node: &mut Node,
        to_reduce: &mut Vec<Vec<RGB>>,
        leaf_num: &mut u32,
        rgb: RGB,
        level: usize,
    )
        requires
            level <= 7,
            old(node)@.shaped(level as nat),
            old(node).tidy(),
            old(node)@.pixel_total(level as nat) < u32::MAX,
            old(to_reduce)@.len() == 8,
            old(node)@.gap(rgb, level as nat) is Some ==> *old(leaf_num) < u32::MAX,
        ensures
            final(node)@ == old(node)@.insert(rgb, level as nat),
            final(node).tidy(),
            final(to_reduce)@.len() == 8,
            levels(*final(to_reduce)) == registered(
                levels(*old(to_reduce)),
                old(node)@.gap(rgb, level as nat),
                rgb,
            ),
            *final(leaf_num) == *old(leaf_num) + grown(old(node)@.gap(rgb, level as nat)),
        decreases 8 - level,
    {
        let ghost before = node@;
        let ghost reg = levels(*to_reduce);
        proof {
            node.lemma_model();
        }
        if node.is_leaf {
            node.pixel_count = node.pixel_count + 1;
            node.r = node.r + rgb.r as u64;
            node.g = node.g + rgb.g as u64;
            node.b = node.b + rgb.b as u64;
            proof {
                node.lemma_model();
                assert(levels(*to_reduce) =~= registered(reg, None, rgb));
            }
        } else {
            let idx = octant_index(rgb, level);
            let ghost kids = before->kids;
            proof {
                lemma_slot_le(kids, (level + 1) as nat, 8, idx as int);
                lemma_fresh((level + 1) as nat);
            }
            if node.children[idx].is_none() {
                let child = Self::create_node(to_reduce, leaf_num, level + 1, rgb);
                node.children[idx] = Some(Box::new(child));
            }
            let ghost reg1 = levels(*to_reduce);
            let ghost child = match kids[idx as int] {
                Some(t) => t,
                None => Tree::fresh((level + 1) as nat),
            };
            proof {
                if kids[idx as int] is None && level + 1 < 7 {
                    lemma_octant_range(rgb, (level + 1) as nat);
                }
            }
            match &mut node.children[idx] {
                Some(below) => {
                    assert(below@ == child);
                    Self::add_color_at(below, to_reduce, leaf_num, rgb, level + 1);
                },
                None => {},
            }
            proof {
                node.lemma_model();
                let after = before.insert(rgb, level as nat);
                assert(node@->kids =~= after->kids);
                let from = before.gap(rgb, level as nat);
                assert forall|l: int| 0 <= l < 8 implies #[trigger] levels(*to_reduce)[l]
                    == registered(reg, from, rgb)[l] by {
                    assert(levels(*to_reduce)[l] == registered(
                        reg1,
                        child.gap(rgb, (level + 1) as nat),
                        rgb,
                    )[l]);
                }
                assert(levels(*to_reduce) =~= registered(reg, from, rgb));
            }
        }
    }

    /// Merges the vertex at depth `depth` on the path of `rgb`, reached from
    /// `node` at depth `level`: it becomes a leaf with what its subtrees had
    /// gathered, each subtree is taken off the number of leaves and
    /// discarded, and the new leaf is counted. Where the path ends early, or
    /// ends in a leaf, nothing changes.
    pub fn merge_at(node: &mut Node, leaf_num: &mut u32, rgb: RGB, level: usize, depth: usize)
        requires
            level <= depth <= 7,
            1 <= depth,
            old(node)@.wf(level as nat),
            old(node).tidy(),
            old(node)@.pixel_total(level as nat) <= u32::MAX,
            old(node)@.leaf_count(level as nat) <= *old(leaf_num),
        ensures
            final(node)@ == old(node)@.merge_at(path_of(rgb, depth as nat), level as nat),
            final(node).tidy(),
            *final(leaf_num) == *old(leaf_num) + old(node)@.merge_gain(
                path_of(rgb, depth as nat),
                level as nat,
            ),
        decreases depth - level,
    {
        let ghost before = node@;
        let ghost path = path_of(rgb, depth as nat);
        proof {
            node.lemma_model();
            lemma_wf_shaped(before, level as nat);
        }
        if node.is_leaf {
            return ;
        }
        let ghost kids = before->kids;
        if level == depth {
            let mut r: u64 = 0;
            let mut g: u64 = 0;
            let mut b: u64 = 0;
            let mut pixel_count: u32 = 0;
            proof {
                lemma_wf_kids_leaves(kids, (level + 1) as nat, 8);
            }
            let mut i: usize = 0;
            while i < 8
                invariant
                    i <= 8,
                    level < 7,
                    node@ == before,
                    before == (Tree::Branch { kids }),
                    !node.is_leaf,
                    node.tidy(),
                    before.shaped(level as nat),
                    Tree::kids_total(kids, (level + 1) as nat, 8) <= u32::MAX,
                    Tree::present(kids, 8) <= *old(leaf_num),
                    r == Tree::kids_tally(kids, i as nat).r,
                    g == Tree::kids_tally(kids, i as nat).g,
                    b == Tree::kids_tally(kids, i as nat).b,
                    pixel_count == Tree::kids_tally(kids, i as nat).count,
                    *leaf_num == *old(leaf_num) - Tree::present(kids, i as nat),
                decreases 8 - i,
            {
                proof {
                    node.lemma_model();
                    lemma_tally_bound(kids, (level + 1) as nat, (i + 1) as nat);
                    lemma_kids_monotone(kids, (level + 1) as nat, (i + 1) as nat, 8);
                }
                match &node.children[i] {
                    Some(child) => {
                        proof {
                            child.lemma_model();
                            assert(node.children@[i as int] is Some);
                            assert(child.tidy());
                        }
                        r = r + child.r;
                        g = g + child.g;
                        b = b + child.b;
                        pixel_count = pixel_count + child.pixel_count;
                        *leaf_num = *leaf_num - 1;
                    },
                    None => {},
                }
                i = i + 1;
            }
            node.is_leaf = true;
            node.r = r;
            node.g = g;
            node.b = b;
            node.pixel_count = pixel_count;
            node.children = Node::no_children();
            *leaf_num = *leaf_num + 1;
            proof {
                node.lemma_model();
            }
        } else {
            let idx = octant_index(rgb, level);
            proof {
                lemma_slot_le(kids, (level + 1) as nat, 8, idx as int);
            }
            match &mut node.children[idx] {
                Some(below) => {
                    Self::merge_at(below, leaf_num, rgb, level + 1, depth);
                },
                None => {},
            }
            proof {
                node.lemma_model();
                assert(node@->kids =~= before.merge_at(path, level as nat)->kids);
            }
        }
    }
}

} // verus!
