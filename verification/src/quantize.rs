//! From the pixels of an image to its palette.
use crate::color::{lemma_octant_range, octant, path_of, RGB};
use crate::octree::OcTree;
use crate::palette::{
    collect, colors_stats, descending, distinct, lemma_collect, lemma_collect_len, lemma_ranked,
    lemma_ranked_distinct, rank, ranked, sum_counts, Record,
};
use crate::raster::{ImageData, ImageError, Raster};
use crate::state::{
    branch_at, candidates_under, deepest, lemma_candidates_drop, lemma_deepest,
    lemma_insert_keeps_wf, lemma_leaf_kids, lemma_new_wf, lemma_reduce_keeps_wf, listed,
    TreeState,
};
use crate::tree::{lemma_present_bound, Tree};
use vstd::prelude::*;

verus! {

/// The state after the budget has been enforced: reduced as long as there
/// are more leaves than the budget allows and a candidate is left.
pub open spec fn settle(s: TreeState) -> TreeState
    decreases candidates_under(s.candidates, 8),
    when s.candidates.len() == 8
{
    if s.leaf_num > s.max_color && deepest(s.candidates, 7) is Some {
        proof {
            lemma_deepest(s.candidates, 7);
            lemma_candidates_drop(s.candidates, deepest(s.candidates, 7)->0 as int, 8);
        }
        settle(s.reduce())
    } else {
        s
    }
}

/// The state after the pixels have been inserted one by one, the budget
/// enforced after each.
pub open spec fn feed(s: TreeState, pixels: Seq<RGB>) -> TreeState
    decreases pixels.len(),
{
    if pixels.len() == 0 {
        s
    } else {
        settle(feed(s, pixels.drop_last()).insert(pixels.last()))
    }
}

/// The palette of the pixels for the colour budget `max_color`: the mean
/// colours of the leaves that are left, each with its pixels, ranked.
pub open spec fn palette(pixels: Seq<RGB>, max_color: nat) -> Seq<Record> {
    ranked(collect(feed(TreeState::new(max_color), pixels).root, 0, Seq::empty()))
}

/// Enforcing the budget keeps the invariant and the pixels, and ends within
/// the budget or without a candidate.
pub proof fn lemma_settle(s: TreeState)
    requires
        s.wf(),
    ensures
        settle(s).wf(),
        settle(s).root.pixel_total(0) == s.root.pixel_total(0),
        settle(s).max_color == s.max_color,
        settle(s).leaf_num <= s.max_color || deepest(settle(s).candidates, 7) is None,
    decreases candidates_under(s.candidates, 8),
{
    if s.leaf_num > s.max_color && deepest(s.candidates, 7) is Some {
        lemma_reduce_keeps_wf(s);
        lemma_settle(s.reduce());
    }
}

/// Feeding pixels keeps the invariant, adds the pixels, and ends within the
/// budget or without a candidate.
pub proof fn lemma_feed(s: TreeState, pixels: Seq<RGB>)
    requires
        s.wf(),
    ensures
        feed(s, pixels).wf(),
        feed(s, pixels).root.pixel_total(0) == s.root.pixel_total(0) + pixels.len(),
        feed(s, pixels).max_color == s.max_color,
        pixels.len() > 0 ==> feed(s, pixels).leaf_num <= s.max_color || deepest(
            feed(s, pixels).candidates,
            7,
        ) is None,
    decreases pixels.len(),
{
    if pixels.len() > 0 {
        lemma_feed(s, pixels.drop_last());
        let before = feed(s, pixels.drop_last());
        lemma_insert_keeps_wf(before, pixels.last());
        lemma_settle(before.insert(pixels.last()));
    }
}

/// Whether one of the pixels falls into octant `k` of the root.
pub open spec fn hit(pixels: Seq<RGB>, k: int) -> bool {
    exists|i: int| 0 <= i < pixels.len() && #[trigger] octant(pixels[i], 0) == k
}

/// The number of the first `n` octants of the root that a pixel falls into.
pub open spec fn root_octants(pixels: Seq<RGB>, n: nat) -> nat
    decreases n,
{
    if n == 0 {
        0
    } else {
        root_octants(pixels, (n - 1) as nat) + if hit(pixels, n - 1) {
            1nat
        } else {
            0nat
        }
    }
}

/// Whether the root has a subtree exactly in the octants that the pixels
/// fall into.
pub open spec fn rooted(s: TreeState, pixels: Seq<RGB>) -> bool {
    &&& s.root is Branch
    &&& s.root->kids.len() == 8
    &&& forall|k: int| 0 <= k < 8 ==> ((#[trigger] s.root->kids[k]) is Some <==> hit(pixels, k))
}

/// At most `n` of the first `n` octants are hit.
pub proof fn lemma_root_octants_bound(pixels: Seq<RGB>, n: nat)
    ensures
        root_octants(pixels, n) <= n,
    decreases n,
{
    if n > 0 {
        lemma_root_octants_bound(pixels, (n - 1) as nat);
    }
}

/// Where the subtrees follow the hits, there are as many of the one as of
/// the other.
pub proof fn lemma_present_hits(kids: Seq<Option<Tree>>, pixels: Seq<RGB>, n: nat)
    requires
        forall|k: int| 0 <= k < n ==> ((#[trigger] kids[k]) is Some <==> hit(pixels, k)),
    ensures
        Tree::present(kids, n) == root_octants(pixels, n),
    decreases n,
{
    if n > 0 {
        lemma_present_hits(kids, pixels, (n - 1) as nat);
    }
}

/// Insertion gives the root a subtree in the octant of the colour.
pub proof fn lemma_insert_rooted(s: TreeState, pixels: Seq<RGB>, c: RGB)
    requires
        rooted(s, pixels),
    ensures
        rooted(s.insert(c), pixels.push(c)),
{
    lemma_octant_range(c, 0);
    let after = pixels.push(c);
    let k0 = octant(c, 0);
    assert(octant(after[pixels.len() as int], 0) == k0);
    assert forall|k: int| 0 <= k < 8 implies ((#[trigger] s.insert(c).root->kids[k]) is Some
        <==> hit(after, k)) by {
        if hit(pixels, k) {
            let i = choose|i: int| 0 <= i < pixels.len() && #[trigger] octant(pixels[i], 0) == k;
            assert(octant(after[i], 0) == k);
        }
        if hit(after, k) && k != k0 {
            let i = choose|i: int| 0 <= i < after.len() && #[trigger] octant(after[i], 0) == k;
            assert(octant(pixels[i], 0) == k);
        }
    }
}

/// Reduction leaves the root its subtrees.
pub proof fn lemma_reduce_rooted(s: TreeState, pixels: Seq<RGB>)
    requires
        s.wf(),
        rooted(s, pixels),
    ensures
        rooted(s.reduce(), pixels),
{
    if let Some(lv) = deepest(s.candidates, 7) {
        lemma_deepest(s.candidates, 7);
        let path = path_of(s.candidates[lv as int].last(), lv);
        let kids = s.root->kids;
        assert(lv >= 1);
        assert forall|k: int| 0 <= k < 8 implies ((#[trigger] s.reduce().root->kids[k]) is Some
            <==> hit(pixels, k)) by {
            assert(kids[k] is Some <==> hit(pixels, k));
        }
    }
}

/// Enforcing the budget leaves the root its subtrees.
pub proof fn lemma_settle_rooted(s: TreeState, pixels: Seq<RGB>)
    requires
        s.wf(),
        rooted(s, pixels),
    ensures
        rooted(settle(s), pixels),
    decreases candidates_under(s.candidates, 8),
{
    if s.leaf_num > s.max_color && deepest(s.candidates, 7) is Some {
        lemma_reduce_keeps_wf(s);
        lemma_reduce_rooted(s, pixels);
        lemma_settle_rooted(s.reduce(), pixels);
    }
}

/// After the pixels have been fed to the empty octree, the root has a
/// subtree exactly in the octants that the pixels fall into.
pub proof fn lemma_feed_rooted(pixels: Seq<RGB>, max_color: nat)
    ensures
        rooted(feed(TreeState::new(max_color), pixels), pixels),
    decreases pixels.len(),
{
    let start = TreeState::new(max_color);
    lemma_new_wf(max_color);
    if pixels.len() > 0 {
        let front = pixels.drop_last();
        lemma_feed_rooted(front, max_color);
        lemma_feed(start, front);
        let before = feed(start, front);
        lemma_insert_rooted(before, front, pixels.last());
        lemma_insert_keeps_wf(before, pixels.last());
        assert(front.push(pixels.last()) =~= pixels);
        lemma_settle_rooted(before.insert(pixels.last()), pixels);
    } else {
        assert forall|k: int| 0 <= k < 8 implies ((#[trigger] start.root->kids[k]) is Some <==> hit(
            pixels,
            k,
        )) by {}
    }
}

/// An octree without candidates has its leaves right under the root.
pub proof fn lemma_bare_root(s: TreeState)
    requires
        s.wf(),
        deepest(s.candidates, 7) is None,
    ensures
        s.leaf_num <= 8,
        s.root matches Tree::Branch { kids } ==> s.leaf_num == Tree::present(kids, 8),
{
    lemma_deepest(s.candidates, 7);
    match s.root {
        Tree::Leaf { .. } => {},
        Tree::Branch { kids } => {
            assert forall|k: int| 0 <= k < 8 implies (#[trigger] kids[k] matches Some(y)
                ==> y is Leaf) by {
                if let Some(y) = kids[k] {
                    if y is Branch {
                        let q = seq![k];
                        assert(y.descend(q, 1) == Some(y));
                        assert(branch_at(s.root, q));
                        assert(listed(s.candidates[1], q));
                        assert(false);
                    }
                }
            }
            lemma_leaf_kids(kids, 1, 8);
            lemma_present_bound(kids, 8);
        },
    }
}

/// The palette has at most as many colours as the budget allows, unless
/// the pixels fall into more octants of the root than that: the subtrees of
/// the root are not merged, so the palette then has at most one colour for
/// each of these octants. A budget of eight or more is always kept.
pub proof fn lemma_leaf_budget(pixels: Seq<RGB>, max_color: nat)
    ensures
        palette(pixels, max_color).len() <= max_color || palette(pixels, max_color).len()
            <= root_octants(pixels, 8),
        root_octants(pixels, 8) <= max_color ==> palette(pixels, max_color).len() <= max_color,
        max_color >= 8 ==> palette(pixels, max_color).len() <= max_color,
{
    let start = TreeState::new(max_color);
    let end = feed(start, pixels);
    lemma_new_wf(max_color);
    lemma_feed(start, pixels);
    lemma_feed_rooted(pixels, max_color);
    lemma_root_octants_bound(pixels, 8);
    if deepest(end.candidates, 7) is None {
        lemma_bare_root(end);
        lemma_present_hits(end.root->kids, pixels, 8);
    }
    lemma_collect_len(end.root, 0, Seq::empty());
    lemma_ranked(collect(end.root, 0, Seq::empty()));
}

/// The counts of the palette add up to the number of pixels.
pub proof fn lemma_count_conservation(pixels: Seq<RGB>, max_color: nat)
    requires
        pixels.len() <= u32::MAX,
    ensures
        sum_counts(palette(pixels, max_color)) == pixels.len(),
        distinct(palette(pixels, max_color)),
{
    let start = TreeState::new(max_color);
    let end = feed(start, pixels);
    lemma_new_wf(max_color);
    lemma_feed(start, pixels);
    lemma_collect(end.root, 0, Seq::empty());
    lemma_ranked(collect(end.root, 0, Seq::empty()));
    lemma_ranked_distinct(collect(end.root, 0, Seq::empty()));
}

/// The counts of the palette never rise from one colour to the next.
pub proof fn lemma_monotonic_ranking(pixels: Seq<RGB>, max_color: nat)
    ensures
        descending(palette(pixels, max_color)),
        forall|i: int|
            0 <= i && i + 1 < palette(pixels, max_color).len() ==> (#[trigger] palette(
                pixels,
                max_color,
            )[i]).count >= palette(pixels, max_color)[i + 1].count,
{
    lemma_ranked(collect(feed(TreeState::new(max_color), pixels).root, 0, Seq::empty()));
}

/// The same pixels and the same budget give the same palette, colour for
/// colour and in the same order, whatever was computed before.
pub proof fn lemma_determinism(first: Seq<RGB>, second: Seq<RGB>, max_color: nat)
    requires
        first == second,
    ensures
        palette(first, max_color) == palette(second, max_color),
        palette(first, max_color).to_multiset() == palette(second, max_color).to_multiset(),
{
}

/// What holds of the records that are the palette of the pixels: they are
/// ranked by count, no colour stands twice, the counts add up to the number
/// of pixels, and there are no more records than the budget allows, or than
/// the pixels fall into octants of the root.
pub open spec fn is_palette(records: Seq<Record>, pixels: Seq<RGB>, max_color: nat) -> bool {
    &&& records == palette(pixels, max_color)
    &&& descending(records)
    &&& distinct(records)
    &&& sum_counts(records) == pixels.len()
    &&& records.len() <= max_color || records.len() <= root_octants(pixels, 8)
    &&& root_octants(pixels, 8) <= 8
}

/// The palette of the pixels for the budget `max_color`: every pixel is
/// inserted into an empty octree, which is reduced after each insertion as
/// long as it has more leaves than the budget allows and a candidate is
/// left; the leaves are then collected and ranked. The subtrees of the root
/// are never merged, so a budget under eight can be exceeded, by up to one
/// colour for each octant of the root that a pixel falls into.
pub fn quantize(pixels: &Vec<RGB>, max_color: u32) -> (records: Vec<Record>)
    requires
        pixels@.len() <= u32::MAX,
    ensures
        is_palette(records@, pixels@, max_color as nat),
{
    let ghost start = TreeState::new(max_color as nat);
    let mut tree = OcTree::new(max_color);
    proof {
        lemma_new_wf(max_color as nat);
    }
    let mut n: usize = 0;
    while n < pixels.len()
        invariant
            n <= pixels@.len() <= u32::MAX,
            tree.wf(),
            tree@ == feed(start, pixels@.take(n as int)),
            tree@.root.pixel_total(0) == n,
            start.wf(),
        decreases pixels.len() - n,
    {
        tree.add_color(pixels[n]);
        let ghost fed = tree@;
        let mut more = tree.leaf_num > tree.max_color;
        while more
            invariant
                tree.wf(),
                tree@.root.pixel_total(0) == n + 1,
                settle(tree@) == settle(fed),
                more ==> tree@.leaf_num > tree@.max_color,
                !more ==> settle(tree@) == tree@,
            decreases
                    candidates_under(tree@.candidates, 8) + (if more {
                        1nat
                    } else {
                        0nat
                    }),
        {
            proof {
                lemma_reduce_keeps_wf(tree@);
            }
            let merged = tree.reduce_tree();
            more = merged && tree.leaf_num > tree.max_color;
        }
        proof {
            assert(pixels@.take(n + 1).drop_last() =~= pixels@.take(n as int));
        }
        n = n + 1;
    }
    proof {
        assert(pixels@.take(n as int) =~= pixels@);
        lemma_leaf_budget(pixels@, max_color as nat);
        lemma_root_octants_bound(pixels@, 8);
        lemma_count_conservation(pixels@, max_color as nat);
        lemma_monotonic_ranking(pixels@, max_color as nat);
    }
    let mut map: Vec<Record> = Vec::new();
    colors_stats(&tree.root, 0, &mut map);
    rank(&map)
}

impl OcTree {
    /// The palette of an image for the budget `max_color`, with the width
    /// and the height of the image. There are at most `max_color` colours if
    /// the budget is eight or more. The subtrees of the root are never
    /// merged: with a smaller budget there can be more colours than
    /// `max_color`, up to one for each octant of the root that a pixel falls
    /// into. A budget of zero is refused before the image is looked at, and
    /// an image that is neither 8-bit RGB nor 8-bit RGBA is refused.
    pub fn load_with_maxcolor(image: &Raster, max_color: u32) -> (out: Result<
        (Vec<Record>, u32, u32),
        ImageError,
    >)
        requires
            image.pixels().len() <= u32::MAX,
        ensures
            max_color == 0 ==> out == Err::<(Vec<Record>, u32, u32), ImageError>(
                ImageError::InvalidConfiguration,
            ),
            max_color > 0 && !image.supported() ==> out == Err::<
                (Vec<Record>, u32, u32),
                ImageError,
            >(ImageError::UnsupportedType(image.color)),
            max_color > 0 && image.supported() ==> (out matches Ok(found) && is_palette(
                found.0@,
                image.pixels(),
                max_color as nat,
            ) && found.1 == image.width && found.2 == image.height),
    {
        if max_color == 0 {
            return Err(ImageError::InvalidConfiguration);
        }
        let image_data = match ImageData::try_from(image) {
            Ok(found) => found,
            Err(error) => {
                return Err(error);
            },
        };
        let list = quantize(&image_data.data, max_color);
        Ok((list, image_data.width, image_data.height))
    }
}

/// The sixteen dominant colours of an image, ranked by the number of pixels
/// they stand for, with the width and the height of the image. An image
/// that is neither 8-bit RGB nor 8-bit RGBA is refused.
pub fn load(image: &Raster) -> (out: Result<(Vec<Record>, u32, u32), ImageError>)
    requires
        image.pixels().len() <= u32::MAX,
    ensures
        !image.supported() ==> out == Err::<(Vec<Record>, u32, u32), ImageError>(
            ImageError::UnsupportedType(image.color),
        ),
        image.supported() ==> (out matches Ok(found) && is_palette(found.0@, image.pixels(), 16)
            && found.1 == image.width && found.2 == image.height),
{
    OcTree::load_with_maxcolor(image, 16)
}

/// The dominant colours of an image for the budget `max_color`, ranked by
/// the number of pixels they stand for, with the width and the height of
/// the image. There are at most `max_color` colours if the budget is eight
/// or more. The subtrees of the root are never merged: with a smaller
/// budget there can be more colours than `max_color`, up to one for each
/// octant of the root that a pixel falls into. A budget of zero is refused,
/// and so is an image that is neither 8-bit RGB nor 8-bit RGBA.
pub fn load_with_maxcolor(image: &Raster, max_color: u32) -> (out: Result<
    (Vec<Record>, u32, u32),
    ImageError,
>)
    requires
        image.pixels().len() <= u32::MAX,
    ensures
        max_color == 0 ==> out == Err::<(Vec<Record>, u32, u32), ImageError>(
            ImageError::InvalidConfiguration,
        ),
        max_color > 0 && !image.supported() ==> out == Err::<(Vec<Record>, u32, u32), ImageError>(
            ImageError::UnsupportedType(image.color),
        ),
        max_color > 0 && image.supported() ==> (out matches Ok(found) && is_palette(
            found.0@,
            image.pixels(),
            max_color as nat,
        ) && found.1 == image.width && found.2 == image.height),
{
    OcTree::load_with_maxcolor(image, max_color)
}

} // verus!
