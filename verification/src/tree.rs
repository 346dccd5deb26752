//! The octree as a mathematical value: what insertion and reduction do to
//! it, and what they keep.
use crate::color::{lemma_octant_range, octant, RGB};
use vstd::prelude::*;

verus! {

/// A vertex of the octree: a leaf that has gathered pixels, or a branch
/// with eight optional subtrees, one for each octant.
#[verifier::ext_equal]
pub enum Tree {
    Leaf { r: nat, g: nat, b: nat, count: nat },
    Branch { kids: Seq<Option<Tree>> },
}

/// The channel sums and the pixel count that a merge gathers.
pub struct Tally {
    pub r: nat,
    pub g: nat,
    pub b: nat,
    pub count: nat,
}

impl Tree {
    /// A branch without subtrees.
    pub open spec fn empty() -> Tree {
        Tree::Branch { kids: Seq::new(8, |k: int| None::<Tree>) }
    }

    /// The vertex that is created at depth `level`: a leaf without pixels at
    /// depth seven, an empty branch above it.
    pub open spec fn fresh(level: nat) -> Tree {
        if level >= 7 {
            Tree::Leaf { r: 0, g: 0, b: 0, count: 0 }
        } else {
            Tree::empty()
        }
    }

    /// The tree after `c` has been inserted into this vertex, which stands at
    /// depth `level`. A leaf takes the colour into its sums. A branch hands
    /// it to the subtree of the colour's octant, which is created when it is
    /// absent.
    pub open spec fn insert(self, c: RGB, level: nat) -> Tree
        decreases 8 - level,
    {
        match self {
            Tree::Leaf { r, g, b, count } => Tree::Leaf {
                r: r + c.r as nat,
                g: g + c.g as nat,
                b: b + c.b as nat,
                count: count + 1,
            },
            Tree::Branch { kids } => {
                if level >= 7 {
                    self
                } else {
                    let k = octant(c, level);
                    let child = match kids[k] {
                        Some(t) => t,
                        None => Tree::fresh(level + 1),
                    };
                    Tree::Branch { kids: kids.update(k, Some(child.insert(c, level + 1))) }
                }
            },
        }
    }

    /// The depth of the first vertex that inserting `c` creates, or `None`
    /// when a leaf takes the colour.
    pub open spec fn gap(self, c: RGB, level: nat) -> Option<nat>
        decreases 8 - level,
    {
        match self {
            Tree::Leaf { .. } => None,
            Tree::Branch { kids } => {
                if level >= 7 {
                    None
                } else {
                    match kids[octant(c, level)] {
                        Some(t) => t.gap(c, level + 1),
                        None => Some(level + 1),
                    }
                }
            },
        }
    }

    /// The vertex reached from this one, which stands at depth `level`, by
    /// following `path` from its entry `level` to its end.
    pub open spec fn descend(self, path: Seq<int>, level: nat) -> Option<Tree>
        decreases path.len() - level,
    {
        if level >= path.len() {
            Some(self)
        } else {
            match self {
                Tree::Leaf { .. } => None,
                Tree::Branch { kids } => {
                    if 0 <= path[level as int] < kids.len() {
                        match kids[path[level as int]] {
                            Some(t) => t.descend(path, level + 1),
                            None => None,
                        }
                    } else {
                        None
                    }
                },
            }
        }
    }

    /// What the vertex itself has gathered: a branch has gathered nothing.
    pub open spec fn own(self) -> Tally {
        match self {
            Tree::Leaf { r, g, b, count } => Tally { r, g, b, count },
            Tree::Branch { .. } => Tally { r: 0, g: 0, b: 0, count: 0 },
        }
    }

    /// The sum of what the first `n` subtrees have gathered themselves.
    pub open spec fn kids_tally(kids: Seq<Option<Tree>>, n: nat) -> Tally
        decreases n,
    {
        if n == 0 {
            Tally { r: 0, g: 0, b: 0, count: 0 }
        } else {
            let rest = Tree::kids_tally(kids, (n - 1) as nat);
            match kids[n - 1] {
                Some(t) => Tally {
                    r: rest.r + t.own().r,
                    g: rest.g + t.own().g,
                    b: rest.b + t.own().b,
                    count: rest.count + t.own().count,
                },
                None => rest,
            }
        }
    }

    /// How many of the first `n` subtrees are present.
    pub open spec fn present(kids: Seq<Option<Tree>>, n: nat) -> nat
        decreases n,
    {
        if n == 0 {
            0
        } else {
            Tree::present(kids, (n - 1) as nat) + if kids[n - 1] is Some {
                1nat
            } else {
                0nat
            }
        }
    }

    /// The vertex after a merge: a branch becomes the leaf that holds what
    /// its subtrees had gathered themselves, and the subtrees are gone.
    pub open spec fn merged(self) -> Tree {
        match self {
            Tree::Leaf { .. } => self,
            Tree::Branch { kids } => {
                let sum = Tree::kids_tally(kids, 8);
                Tree::Leaf { r: sum.r, g: sum.g, b: sum.b, count: sum.count }
            },
        }
    }

    /// The tree after the vertex at the end of `path` has been merged.
    pub open spec fn merge_at(self, path: Seq<int>, level: nat) -> Tree
        decreases path.len() - level,
    {
        if level >= path.len() {
            self.merged()
        } else {
            match self {
                Tree::Leaf { .. } => self,
                Tree::Branch { kids } => {
                    if 0 <= path[level as int] < kids.len() {
                        match kids[path[level as int]] {
                            Some(t) => Tree::Branch {
                                kids: kids.update(
                                    path[level as int],
                                    Some(t.merge_at(path, level + 1)),
                                ),
                            },
                            None => self,
                        }
                    } else {
                        self
                    }
                },
            }
        }
    }

    /// By how much merging the vertex at the end of `path` changes the number
    /// of leaves: a branch gives one leaf for all its subtrees.
    pub open spec fn merge_gain(self, path: Seq<int>, level: nat) -> int {
        match self.descend(path, level) {
            Some(Tree::Branch { kids }) => 1 - Tree::present(kids, 8),
            _ => 0,
        }
    }

    /// The number of pixels that the leaves of this tree have gathered.
    pub open spec fn pixel_total(self, level: nat) -> nat
        decreases 8 - level, 0nat,
    {
        match self {
            Tree::Leaf { count, .. } => count,
            Tree::Branch { kids } => {
                if level >= 7 {
                    0
                } else {
                    Tree::kids_total(kids, level + 1, 8)
                }
            },
        }
    }

    /// The pixels under an optional subtree.
    pub open spec fn slot_total(slot: Option<Tree>, level: nat) -> nat {
        match slot {
            Some(t) => t.pixel_total(level),
            None => 0,
        }
    }

    /// The pixels under the first `n` subtrees, which stand at depth `level`.
    pub open spec fn kids_total(kids: Seq<Option<Tree>>, level: nat, n: nat) -> nat
        decreases 8 - level, n + 1,
    {
        if n == 0 {
            0
        } else {
            Tree::kids_total(kids, level, (n - 1) as nat) + match kids[n - 1] {
                Some(t) => t.pixel_total(level),
                None => 0,
            }
        }
    }

    /// The number of leaves of this tree.
    pub open spec fn leaf_count(self, level: nat) -> nat
        decreases 8 - level, 0nat,
    {
        match self {
            Tree::Leaf { .. } => 1,
            Tree::Branch { kids } => {
                if level >= 7 {
                    0
                } else {
                    Tree::kids_leaves(kids, level + 1, 8)
                }
            },
        }
    }

    /// The leaves under an optional subtree.
    pub open spec fn slot_leaves(slot: Option<Tree>, level: nat) -> nat {
        match slot {
            Some(t) => t.leaf_count(level),
            None => 0,
        }
    }

    /// The leaves under the first `n` subtrees, which stand at depth `level`.
    pub open spec fn kids_leaves(kids: Seq<Option<Tree>>, level: nat, n: nat) -> nat
        decreases 8 - level, n + 1,
    {
        if n == 0 {
            0
        } else {
            Tree::kids_leaves(kids, level, (n - 1) as nat) + match kids[n - 1] {
                Some(t) => t.leaf_count(level),
                None => 0,
            }
        }
    }

    /// The shape that every vertex has at any time: a branch stands above
    /// depth seven and has eight slots, and the sums of a leaf are those of
    /// `count` colours.
    pub open spec fn shaped(self, level: nat) -> bool
        decreases 8 - level,
    {
        match self {
            Tree::Leaf { r, g, b, count } => r <= 255 * count && g <= 255 * count && b <= 255
                * count,
            Tree::Branch { kids } => level < 7 && kids.len() == 8 && forall|k: int|
                0 <= k < 8 ==> (#[trigger] kids[k] matches Some(t) ==> t.shaped(level + 1)),
        }
    }

    /// The shape of a tree between two operations: besides `shaped`, every
    /// leaf has gathered a pixel, and every branch below the root has a
    /// subtree.
    pub open spec fn wf(self, level: nat) -> bool
        decreases 8 - level,
    {
        match self {
            Tree::Leaf { r, g, b, count } => count >= 1 && r <= 255 * count && g <= 255 * count
                && b <= 255 * count,
            Tree::Branch { kids } => level < 7 && kids.len() == 8 && (level >= 1
                ==> Tree::present(kids, 8) >= 1) && forall|k: int|
                0 <= k < 8 ==> (#[trigger] kids[k] matches Some(t) ==> t.wf(level + 1)),
        }
    }

    /// Whether every subtree that is present is a leaf.
    pub open spec fn kids_are_leaves(self) -> bool {
        match self {
            Tree::Leaf { .. } => true,
            Tree::Branch { kids } => forall|k: int|
                0 <= k < kids.len() ==> (#[trigger] kids[k] matches Some(t) ==> t is Leaf),
        }
    }
}

/// A well-formed tree is shaped.
pub proof fn lemma_wf_shaped(t: Tree, level: nat)
    requires
        t.wf(level),
    ensures
        t.shaped(level),
    decreases 8 - level,
{
    match t {
        Tree::Leaf { .. } => {},
        Tree::Branch { kids } => {
            assert forall|k: int| 0 <= k < 8 implies (#[trigger] kids[k] matches Some(x)
                ==> x.shaped(level + 1)) by {
                if let Some(x) = kids[k] {
                    lemma_wf_shaped(x, level + 1);
                }
            }
        },
    }
}

/// A subtree that is present is counted.
pub proof fn lemma_present_pos(kids: Seq<Option<Tree>>, n: nat, k: int)
    requires
        0 <= k < n,
        kids[k] is Some,
    ensures
        Tree::present(kids, n) >= 1,
    decreases n,
{
    if k < n - 1 {
        lemma_present_pos(kids, (n - 1) as nat, k);
    }
}

/// At most `n` of the first `n` subtrees are present.
pub proof fn lemma_present_bound(kids: Seq<Option<Tree>>, n: nat)
    ensures
        Tree::present(kids, n) <= n,
    decreases n,
{
    if n > 0 {
        lemma_present_bound(kids, (n - 1) as nat);
    }
}

/// Replacing one subtree changes the pixels under the first `n` by the
/// difference of the two.
pub proof fn lemma_kids_total_update(
    kids: Seq<Option<Tree>>,
    level: nat,
    n: nat,
    k: int,
    slot: Option<Tree>,
)
    requires
        0 <= k < kids.len(),
        n <= kids.len(),
    ensures
        Tree::kids_total(kids.update(k, slot), level, n) + (if k < n {
            Tree::slot_total(kids[k], level)
        } else {
            0
        }) == Tree::kids_total(kids, level, n) + (if k < n {
            Tree::slot_total(slot, level)
        } else {
            0
        }),
    decreases n,
{
    if n > 0 {
        lemma_kids_total_update(kids, level, (n - 1) as nat, k, slot);
    }
}

/// Replacing one subtree changes the leaves under the first `n` by the
/// difference of the two.
pub proof fn lemma_kids_leaves_update(
    kids: Seq<Option<Tree>>,
    level: nat,
    n: nat,
    k: int,
    slot: Option<Tree>,
)
    requires
        0 <= k < kids.len(),
        n <= kids.len(),
    ensures
        Tree::kids_leaves(kids.update(k, slot), level, n) + (if k < n {
            Tree::slot_leaves(kids[k], level)
        } else {
            0
        }) == Tree::kids_leaves(kids, level, n) + (if k < n {
            Tree::slot_leaves(slot, level)
        } else {
            0
        }),
    decreases n,
{
    if n > 0 {
        lemma_kids_leaves_update(kids, level, (n - 1) as nat, k, slot);
    }
}

/// What is under one subtree is under the subtrees together.
pub proof fn lemma_slot_le(kids: Seq<Option<Tree>>, level: nat, n: nat, k: int)
    requires
        0 <= k < n,
    ensures
        Tree::slot_total(kids[k], level) <= Tree::kids_total(kids, level, n),
        Tree::slot_leaves(kids[k], level) <= Tree::kids_leaves(kids, level, n),
    decreases n,
{
    if k < n - 1 {
        lemma_slot_le(kids, level, (n - 1) as nat, k);
    }
}

/// Nothing is under subtrees that are all absent.
pub proof fn lemma_kids_none(kids: Seq<Option<Tree>>, level: nat, n: nat)
    requires
        n <= kids.len(),
        forall|k: int| 0 <= k < n ==> kids[k] is None,
    ensures
        Tree::kids_total(kids, level, n) == 0,
        Tree::kids_leaves(kids, level, n) == 0,
        Tree::present(kids, n) == 0,
        Tree::kids_tally(kids, n) == (Tally { r: 0, g: 0, b: 0, count: 0 }),
    decreases n,
{
    if n > 0 {
        lemma_kids_none(kids, level, (n - 1) as nat);
    }
}

/// A fresh vertex is shaped and holds no pixel.
pub proof fn lemma_fresh(level: nat)
    requires
        level <= 7,
    ensures
        Tree::fresh(level).shaped(level),
        Tree::fresh(level).pixel_total(level) == 0,
        Tree::fresh(level).leaf_count(level) == (if level == 7 {
            1nat
        } else {
            0nat
        }),
{
    if level < 7 {
        lemma_kids_none(Tree::empty()->kids, level + 1, 8);
    }
}

/// Inserting into a well-formed tree, or into a fresh vertex, gives a
/// well-formed tree.
pub proof fn lemma_insert_wf(t: Tree, c: RGB, level: nat)
    requires
        t.wf(level) || t == Tree::fresh(level),
        level <= 7,
    ensures
        t.insert(c, level).wf(level),
    decreases 8 - level,
{
    match t {
        Tree::Leaf { r, g, b, count } => {},
        Tree::Branch { kids } => {
            lemma_octant_range(c, level);
            let k = octant(c, level);
            let child = match kids[k] {
                Some(x) => x,
                None => Tree::fresh(level + 1),
            };
            lemma_insert_wf(child, c, level + 1);
            let after = kids.update(k, Some(child.insert(c, level + 1)));
            lemma_present_pos(after, 8, k);
            assert forall|j: int| 0 <= j < 8 implies (#[trigger] after[j] matches Some(x) ==> x.wf(
                level + 1,
            )) by {
                if j != k {
                    assert(after[j] == kids[j]);
                }
            }
        },
    }
}

/// Insertion adds one pixel, and one leaf exactly when it creates vertices.
pub proof fn lemma_insert_census(t: Tree, c: RGB, level: nat)
    requires
        t.shaped(level),
        level <= 7,
    ensures
        t.insert(c, level).pixel_total(level) == t.pixel_total(level) + 1,
        t.insert(c, level).leaf_count(level) == t.leaf_count(level) + (if t.gap(c, level) is Some {
            1nat
        } else {
            0nat
        }),
    decreases 8 - level,
{
    match t {
        Tree::Leaf { r, g, b, count } => {},
        Tree::Branch { kids } => {
            lemma_octant_range(c, level);
            let k = octant(c, level);
            let child = match kids[k] {
                Some(x) => x,
                None => Tree::fresh(level + 1),
            };
            lemma_fresh(level + 1);
            lemma_insert_census(child, c, level + 1);
            if kids[k] is None {
                if level + 1 < 7 {
                    lemma_octant_range(c, level + 1);
                    assert(child.gap(c, level + 1) is Some);
                } else {
                    assert(child.gap(c, level + 1) is None);
                }
            }
            let slot = Some(child.insert(c, level + 1));
            lemma_kids_total_update(kids, level + 1, 8, k, slot);
            lemma_kids_leaves_update(kids, level + 1, 8, k, slot);
        },
    }
}

/// Among subtrees of which one is present, one can be named.
pub proof fn lemma_present_witness(kids: Seq<Option<Tree>>, n: nat) -> (k: int)
    requires
        Tree::present(kids, n) >= 1,
    ensures
        0 <= k < n,
        kids[k] is Some,
    decreases n,
{
    if kids[n - 1] is Some {
        n - 1
    } else {
        lemma_present_witness(kids, (n - 1) as nat)
    }
}

/// The sums over the first `n` subtrees grow with `n`.
pub proof fn lemma_kids_monotone(kids: Seq<Option<Tree>>, level: nat, n: nat, m: nat)
    requires
        n <= m,
    ensures
        Tree::kids_total(kids, level, n) <= Tree::kids_total(kids, level, m),
        Tree::kids_leaves(kids, level, n) <= Tree::kids_leaves(kids, level, m),
        Tree::present(kids, n) <= Tree::present(kids, m),
    decreases m,
{
    if n < m {
        lemma_kids_monotone(kids, level, n, (m - 1) as nat);
    }
}

/// A well-formed tree below the root has a leaf, and no more leaves than
/// pixels.
pub proof fn lemma_wf_leaves(t: Tree, level: nat)
    requires
        t.wf(level),
    ensures
        level >= 1 ==> t.leaf_count(level) >= 1,
        t.leaf_count(level) <= t.pixel_total(level),
    decreases 8 - level, 0nat,
{
    match t {
        Tree::Leaf { .. } => {},
        Tree::Branch { kids } => {
            lemma_wf_kids_leaves(kids, level + 1, 8);
            if level >= 1 {
                let k = lemma_present_witness(kids, 8);
                lemma_present_pos(kids, 8, k);
            }
        },
    }
}

/// Well-formed subtrees have at least as many leaves as there are subtrees,
/// and no more leaves than pixels.
pub proof fn lemma_wf_kids_leaves(kids: Seq<Option<Tree>>, level: nat, n: nat)
    requires
        1 <= level <= 7,
        n <= kids.len(),
        forall|k: int| 0 <= k < n ==> (#[trigger] kids[k] matches Some(t) ==> t.wf(level)),
    ensures
        Tree::present(kids, n) <= Tree::kids_leaves(kids, level, n),
        Tree::kids_leaves(kids, level, n) <= Tree::kids_total(kids, level, n),
    decreases 8 - level, n + 1,
{
    if n > 0 {
        lemma_wf_kids_leaves(kids, level, (n - 1) as nat);
        if let Some(t) = kids[n - 1] {
            lemma_wf_leaves(t, level);
        }
    }
}

/// What shaped subtrees have gathered themselves is no more than what is
/// under them, and their channel sums are those of so many colours.
pub proof fn lemma_tally_bound(kids: Seq<Option<Tree>>, level: nat, n: nat)
    requires
        n <= kids.len(),
        forall|k: int| 0 <= k < n ==> (#[trigger] kids[k] matches Some(t) ==> t.shaped(level)),
    ensures
        Tree::kids_tally(kids, n).count <= Tree::kids_total(kids, level, n),
        Tree::kids_tally(kids, n).r <= 255 * Tree::kids_tally(kids, n).count,
        Tree::kids_tally(kids, n).g <= 255 * Tree::kids_tally(kids, n).count,
        Tree::kids_tally(kids, n).b <= 255 * Tree::kids_tally(kids, n).count,
    decreases n,
{
    if n > 0 {
        lemma_tally_bound(kids, level, (n - 1) as nat);
        if let Some(t) = kids[n - 1] {
            assert(t.own().count <= t.pixel_total(level));
        }
    }
}

} // verus!
