use std::collections::HashMap;

use image_palette::color::octant_index;
use image_palette::node::Node;
use image_palette::octree::OcTree;
use image_palette::quantize::quantize;
use image_palette::RGB;

/// A vertex of the comparison tree, held in a table and named by its index.
struct Slot {
    leaf: bool,
    sums: [u64; 3],
    pixels: u64,
    kids: [Option<usize>; 8],
}

/// An octree that keeps its vertices in a table and sorts the candidates of
/// a depth by their pixel counts at every registration.
struct TableTree {
    slots: Vec<Slot>,
    rows: Vec<Vec<usize>>,
    leaves: u64,
}

impl TableTree {
    fn new() -> TableTree {
        let root = Slot { leaf: false, sums: [0; 3], pixels: 0, kids: [None; 8] };
        TableTree { slots: vec![root], rows: vec![Vec::new(); 8], leaves: 0 }
    }

    fn create(&mut self, depth: usize) -> usize {
        let at = self.slots.len();
        self.slots.push(Slot { leaf: depth == 7, sums: [0; 3], pixels: 0, kids: [None; 8] });
        if depth == 7 {
            self.leaves += 1;
        } else {
            self.rows[depth].push(at);
            let slots = &self.slots;
            self.rows[depth].sort_by_key(|&slot| slots[slot].pixels);
        }
        at
    }

    fn insert(&mut self, color: [u8; 3]) {
        let mut at = 0;
        let mut depth = 0;
        while !self.slots[at].leaf {
            let shift = 7 - depth;
            let octant = (((color[0] >> shift) & 1) as usize) * 4
                + (((color[1] >> shift) & 1) as usize) * 2
                + ((color[2] >> shift) & 1) as usize;
            let next = match self.slots[at].kids[octant] {
                Some(next) => next,
                None => {
                    let next = self.create(depth + 1);
                    self.slots[at].kids[octant] = Some(next);
                    next
                }
            };
            at = next;
            depth += 1;
        }
        let slot = &mut self.slots[at];
        slot.pixels += 1;
        for channel in 0..3 {
            slot.sums[channel] += color[channel] as u64;
        }
    }

    fn reduce(&mut self) -> bool {
        let depth = match (0..7).rev().find(|&depth| !self.rows[depth].is_empty()) {
            Some(depth) => depth,
            None => return false,
        };
        let at = self.rows[depth].pop().unwrap();
        let mut sums = [0u64; 3];
        let mut pixels = 0;
        for octant in 0..8 {
            if let Some(kid) = self.slots[at].kids[octant].take() {
                for channel in 0..3 {
                    sums[channel] += self.slots[kid].sums[channel];
                }
                pixels += self.slots[kid].pixels;
                self.leaves -= 1;
            }
        }
        let slot = &mut self.slots[at];
        slot.leaf = true;
        slot.sums = sums;
        slot.pixels = pixels;
        self.leaves += 1;
        true
    }

    fn gather(&self, at: usize, found: &mut HashMap<[u8; 3], u64>) {
        let slot = &self.slots[at];
        if slot.leaf {
            let mean = [
                (slot.sums[0] / slot.pixels) as u8,
                (slot.sums[1] / slot.pixels) as u8,
                (slot.sums[2] / slot.pixels) as u8,
            ];
            *found.entry(mean).or_insert(0) += slot.pixels;
        } else {
            for kid in slot.kids.iter().flatten() {
                self.gather(*kid, found);
            }
        }
    }
}

fn table_palette(pixels: &[[u8; 3]], budget: u64) -> Vec<([u8; 3], u64)> {
    let mut tree = TableTree::new();
    for pixel in pixels {
        tree.insert(*pixel);
        while tree.leaves > budget && tree.reduce() {}
    }
    let mut found = HashMap::new();
    tree.gather(0, &mut found);
    let mut list: Vec<([u8; 3], u64)> = found.into_iter().collect();
    list.sort();
    list
}

fn library_palette(pixels: &[[u8; 3]], budget: u32) -> Vec<([u8; 3], u64)> {
    let colors: Vec<RGB> = pixels.iter().map(RGB::from).collect();
    let records = quantize(&colors, budget);
    for pair in records.windows(2) {
        assert!(pair[0].count() >= pair[1].count());
    }
    let mut list: Vec<([u8; 3], u64)> = records
        .iter()
        .map(|record| ([record.rgb().r, record.rgb().g, record.rgb().b], record.count() as u64))
        .collect();
    list.sort();
    list
}

fn scattered(n: usize, mut seed: u32, mask: u8) -> Vec<[u8; 3]> {
    let mut pixels = Vec::new();
    for _ in 0..n {
        let mut pixel = [0u8; 3];
        for channel in pixel.iter_mut() {
            seed = seed.wrapping_mul(1664525).wrapping_add(1013904223);
            *channel = (seed >> 24) as u8 & mask;
        }
        pixels.push(pixel);
    }
    pixels
}

#[test]
fn the_palette_is_that_of_a_tree_that_sorts_its_candidates() {
    for (seed, mask) in [(1u32, 0xffu8), (2, 0xf0), (3, 0xc3), (4, 0x7f), (5, 0x0f), (6, 0x81)] {
        let pixels = scattered(400, seed, mask);
        for budget in [1u32, 2, 4, 7, 8, 9, 16, 33, 256, 5000] {
            assert_eq!(library_palette(&pixels, budget), table_palette(&pixels, budget as u64));
        }
    }
}

#[test]
fn the_palette_of_a_gradient_is_that_of_a_tree_that_sorts_its_candidates() {
    let mut pixels = Vec::new();
    for y in 0..40u32 {
        for x in 0..40u32 {
            pixels.push([(x * 6) as u8, (y * 6) as u8, ((x + y) * 3) as u8]);
        }
    }
    for budget in [3u32, 8, 16, 64] {
        assert_eq!(library_palette(&pixels, budget), table_palette(&pixels, budget as u64));
    }
}

#[test]
fn the_octant_takes_one_bit_of_each_channel() {
    let c = RGB::from(&[0b1000_0000, 0b0100_0000, 0b1100_0001]);
    assert_eq!(octant_index(c, 0), 0b101);
    assert_eq!(octant_index(c, 1), 0b011);
    assert_eq!(octant_index(c, 2), 0);
    assert_eq!(octant_index(c, 6), 0);
    assert_eq!(octant_index(c, 7), 0b001);
    assert_eq!(octant_index(RGB::from(&[255, 255, 255]), 3), 7);
    assert_eq!(octant_index(RGB::from(&[0, 255, 0]), 5), 2);
}

#[test]
fn a_new_node_is_a_branch_without_children() {
    let node = Node::new();
    assert!(!node.is_leaf);
    assert_eq!((node.r, node.g, node.b, node.pixel_count), (0, 0, 0, 0));
    assert_eq!(node.children.len(), 8);
    assert!(node.children.iter().all(|child| child.is_none()));
}

#[test]
fn a_node_of_depth_seven_is_a_counted_leaf() {
    let mut tree = OcTree::new(16);
    let color = RGB::from(&[1, 2, 3]);
    let leaf = OcTree::create_node(&mut tree.to_reduce, &mut tree.leaf_num, 7, color);
    assert!(leaf.is_leaf);
    assert_eq!((leaf.r, leaf.g, leaf.b, leaf.pixel_count), (0, 0, 0, 0));
    assert_eq!(leaf.children.len(), 8);
    assert!(leaf.children.iter().all(|child| child.is_none()));
    assert_eq!(tree.leaf_num, 1);
    assert!(tree.to_reduce.iter().all(|row| row.is_empty()));
}

#[test]
fn a_node_above_depth_seven_is_a_registered_branch() {
    let mut tree = OcTree::new(16);
    let first = RGB::from(&[1, 2, 3]);
    let second = RGB::from(&[200, 2, 3]);
    let branch = OcTree::create_node(&mut tree.to_reduce, &mut tree.leaf_num, 4, first);
    assert!(!branch.is_leaf);
    assert_eq!((branch.r, branch.g, branch.b, branch.pixel_count), (0, 0, 0, 0));
    assert_eq!(branch.children.len(), 8);
    assert!(branch.children.iter().all(|child| child.is_none()));
    OcTree::create_node(&mut tree.to_reduce, &mut tree.leaf_num, 4, second);
    assert_eq!(tree.leaf_num, 0);
    assert_eq!(tree.to_reduce[4], vec![first, second]);
    for level in [0usize, 1, 2, 3, 5, 6, 7] {
        assert!(tree.to_reduce[level].is_empty());
    }
}

#[test]
fn a_leaf_takes_a_color_into_its_sums() {
    let mut to_reduce = vec![Vec::new(); 8];
    let mut leaf_num = 0;
    let mut node = Node::new();
    let color = RGB::from(&[200, 100, 50]);
    OcTree::add_color_at(&mut node, &mut to_reduce, &mut leaf_num, color, 5);
    assert_eq!(leaf_num, 1);
    assert_eq!(to_reduce[6], vec![color]);
    OcTree::add_color_at(&mut node, &mut to_reduce, &mut leaf_num, RGB::from(&[201, 101, 51]), 5);
    assert_eq!(leaf_num, 1);
    assert_eq!(to_reduce[6].len(), 1);
    let branch = node.children[octant_index(color, 5)].as_ref().unwrap();
    let leaf = branch.children[octant_index(color, 6)].as_ref().unwrap();
    assert!(leaf.is_leaf);
    assert_eq!((leaf.r, leaf.g, leaf.b, leaf.pixel_count), (401, 201, 101, 2));
}

#[test]
fn a_merge_turns_a_branch_into_the_leaf_of_its_children() {
    let mut tree = OcTree::new(16);
    let colors = [[16u8, 16, 16], [16, 16, 18], [16, 18, 16], [16, 18, 16]];
    for color in &colors {
        tree.add_color(RGB::from(color));
    }
    assert_eq!(tree.leaf_num, 3);
    OcTree::merge_at(&mut tree.root, &mut tree.leaf_num, RGB::from(&colors[0]), 0, 6);
    assert_eq!(tree.leaf_num, 1);
    let mut node = &tree.root;
    for level in 0..6 {
        node = node.children[octant_index(RGB::from(&colors[0]), level)].as_ref().unwrap();
    }
    assert!(node.is_leaf);
    assert_eq!((node.r, node.g, node.b, node.pixel_count), (64, 68, 66, 4));
    assert_eq!(node.children.len(), 8);
    assert!(node.children.iter().all(|child| child.is_none()));
}

#[test]
fn a_merge_on_a_path_that_ends_early_changes_nothing() {
    let mut tree = OcTree::new(16);
    tree.add_color(RGB::from(&[16, 16, 16]));
    OcTree::merge_at(&mut tree.root, &mut tree.leaf_num, RGB::from(&[255, 255, 255]), 0, 3);
    assert_eq!(tree.leaf_num, 1);
    assert_eq!(tree.to_reduce[3].len(), 1);
    assert!(tree.root.children[7].is_none());
    assert!(tree.root.children[0].is_some());
}

#[test]
fn a_node_of_depth_zero_is_registered_on_the_first_level() {
    let mut to_reduce = vec![Vec::new(); 8];
    let mut leaf_num = 3;
    let color = RGB::from(&[9, 8, 7]);
    let branch = OcTree::create_node(&mut to_reduce, &mut leaf_num, 0, color);
    assert!(!branch.is_leaf);
    assert_eq!(leaf_num, 3);
    assert_eq!(to_reduce[0], vec![color]);
    for level in 1..8 {
        assert!(to_reduce[level].is_empty());
    }
}

fn branches_store_nothing(node: &Node) -> bool {
    if node.is_leaf {
        node.children.iter().all(|child| child.is_none())
    } else {
        (node.r, node.g, node.b, node.pixel_count) == (0, 0, 0, 0)
            && node.children.len() == 8
            && node.children.iter().flatten().all(|child| branches_store_nothing(child))
    }
}

#[test]
fn insertion_and_reduction_leave_the_branches_without_sums() {
    let mut tree = OcTree::new(4);
    for pixel in scattered(200, 11, 0xff) {
        tree.add_color(RGB::from(&pixel));
        assert!(branches_store_nothing(&tree.root));
        while tree.leaf_num > tree.max_color && tree.reduce_tree() {
            assert!(branches_store_nothing(&tree.root));
        }
        assert_eq!(tree.max_color, 4);
    }
}

#[test]
fn reduction_without_a_candidate_leaves_every_field() {
    let mut tree = OcTree::new(1);
    tree.add_color(RGB::from(&[0, 0, 0]));
    tree.add_color(RGB::from(&[255, 255, 255]));
    while tree.reduce_tree() {}
    let leaves = tree.leaf_num;
    assert_eq!(leaves, 2);
    assert!(!tree.reduce_tree());
    assert_eq!(tree.leaf_num, leaves);
    assert_eq!(tree.max_color, 1);
    assert!(tree.to_reduce.iter().all(|row| row.is_empty()));
    assert!(!tree.root.is_leaf);
    assert_eq!((tree.root.r, tree.root.g, tree.root.b, tree.root.pixel_count), (0, 0, 0, 0));
    let first = tree.root.children[0].as_ref().unwrap();
    assert!(first.is_leaf);
    assert_eq!((first.r, first.g, first.b, first.pixel_count), (0, 0, 0, 1));
    let last = tree.root.children[7].as_ref().unwrap();
    assert_eq!((last.r, last.g, last.b, last.pixel_count), (255, 255, 255, 1));
}
