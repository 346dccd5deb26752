//! The vertices of the octree as they are held in memory.
use crate::tree::Tree;
use vstd::prelude::*;

verus! {

/// A vertex of the octree. A leaf holds the channel sums and the number of
/// the pixels it has gathered; a branch owns up to eight subtrees, one for
/// each octant, and has gathered nothing itself.
pub struct Node {
    pub is_leaf: bool,
    pub r: u64,
    pub g: u64,
    pub b: u64,
    pub pixel_count: u32,
    pub children: Vec<Option<Box<Node>>>,
}

impl View for Node {
    type V = Tree;

    open spec fn view(&self) -> Tree {
        self.model()
    }
}

impl Node {
    /// The tree that this vertex and the subtrees it owns stand for.
    pub open spec fn model(&self) -> Tree
        decreases self,
    {
        if self.is_leaf {
            Tree::Leaf {
                r: self.r as nat,
                g: self.g as nat,
                b: self.b as nat,
                count: self.pixel_count as nat,
            }
        } else {
            Tree::Branch {
                kids: Seq::new(
                    self.children@.len(),
                    |k: int|
                        if 0 <= k < self.children@.len() {
                            match self.children@[k] {
                                Some(child) => Some(child.model()),
                                None => None,
                            }
                        } else {
                            None
                        },
                ),
            }
        }
    }

    /// What holds of the stored fields that the tree of a vertex does not
    /// show: every vertex has eight slots; in a leaf they are all empty; a
    /// branch has gathered nothing itself, so its sums and its pixel count
    /// are zero; and the same holds of every subtree.
    pub open spec fn tidy(&self) -> bool
        decreases self,
    {
        &&& self.children@.len() == 8
        &&& self.is_leaf ==> forall|k: int| 0 <= k < 8 ==> (#[trigger] self.children@[k]) is None
        &&& !self.is_leaf ==> self.r == 0 && self.g == 0 && self.b == 0 && self.pixel_count == 0
        &&& !self.is_leaf ==> forall|k: int|
            0 <= k < 8 ==> (#[trigger] self.children@[k] matches Some(child) ==> child.tidy())
    }

    /// The pixel count that is stored in the vertex reached from this one,
    /// which stands at depth `level`, by following `path` from its entry
    /// `level` to its end; zero where the path leads nowhere.
    pub open spec fn stored_count(&self, path: Seq<int>, level: nat) -> nat
        decreases path.len() - level,
    {
        if level >= path.len() {
            self.pixel_count as nat
        } else if !self.is_leaf && 0 <= path[level as int] < self.children@.len() {
            match self.children@[path[level as int]] {
                Some(child) => child.stored_count(path, level + 1),
                None => 0,
            }
        } else {
            0
        }
    }

    /// In a tidy tree the pixel count stored in a branch is zero.
    pub proof fn lemma_branch_stores_nothing(&self, path: Seq<int>, level: nat)
        requires
            self.tidy(),
            level <= path.len(),
            self@.descend(path, level) matches Some(x) && x is Branch,
        ensures
            self.stored_count(path, level) == 0,
        decreases path.len() - level,
    {
        self.lemma_model();
        if level < path.len() {
            let k = path[level as int];
            if let Some(child) = self.children@[k] {
                child.lemma_branch_stores_nothing(path, level + 1);
            }
        }
    }

    /// What a vertex stands for, spelled out for one vertex.
    pub proof fn lemma_model(&self)
        ensures
            self.is_leaf ==> self@ == (Tree::Leaf {
                r: self.r as nat,
                g: self.g as nat,
                b: self.b as nat,
                count: self.pixel_count as nat,
            }),
            !self.is_leaf ==> self@ is Branch && self@->kids.len() == self.children@.len(),
            !self.is_leaf ==> forall|k: int|
                #![trigger self@->kids[k]]
                #![trigger self.children@[k]]
                0 <= k < self.children@.len() ==> self@->kids[k] == (match self.children@[k] {
                    Some(child) => Some(child@),
                    None => None,
                }),
    {
    }

    /// Eight empty slots.
    pub fn no_children() -> (children: Vec<Option<Box<Node>>>)
        ensures
            children@.len() == 8,
            forall|k: int| 0 <= k < 8 ==> (#[trigger] children@[k]) is None,
    {
        let mut children: Vec<Option<Box<Node>>> = Vec::new();
        let mut k: usize = 0;
        while k < 8
            invariant
                k <= 8,
                children@.len() == k,
                forall|j: int| 0 <= j < k ==> (#[trigger] children@[j]) is None,
            decreases 8 - k,
        {
            children.push(None);
            k = k + 1;
        }
        children
    }

    /// A branch without subtrees: it is no leaf, its sums and its pixel
    /// count are zero, and its eight slots are empty.
    pub fn new() -> (node: Node)
        ensures
            node@ == Tree::empty(),
            !node.is_leaf,
            node.r == 0 && node.g == 0 && node.b == 0 && node.pixel_count == 0,
            node.children@.len() == 8,
            forall|k: int| 0 <= k < 8 ==> (#[trigger] node.children@[k]) is None,
            node.tidy(),
    {
        let children = Node::no_children();
        let node = Node { is_leaf: false, r: 0, g: 0, b: 0, pixel_count: 0, children };
        proof {
            node.lemma_model();
            assert(node@->kids =~= Tree::empty()->kids);
        }
        node
    }
}

} // verus!
