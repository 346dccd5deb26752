//! From the leaves of the octree to the ranked list of colours.
use crate::color::RGB;
use crate::node::Node;
use crate::tree::{lemma_kids_monotone, Tree};
use vstd::prelude::*;

verus! {

/// A colour of the palette with the number of pixels it stands for.
#[derive(Debug, Clone, Copy, PartialEq, Eq, Structural)]
pub struct Record {
    pub rgb: RGB,
    pub count: u32,
}

impl Record {
    /// The colour.
    pub fn rgb(&self) -> (rgb: &RGB)
        ensures
            *rgb == self.rgb,
    {
        &self.rgb
    }

    /// The number of pixels that the colour stands for.
    pub fn count(&self) -> (count: u32)
        ensures
            count == self.count,
    {
        self.count
    }
}

/// The mean colour of a leaf: each channel sum divided by the number of
/// pixels, rounded down.
pub open spec fn mean(t: Tree) -> RGB {
    match t {
        Tree::Leaf { r, g, b, count } => RGB {
            r: (r / count) as u8,
            g: (g / count) as u8,
            b: (b / count) as u8,
        },
        Tree::Branch { .. } => RGB { r: 0, g: 0, b: 0 },
    }
}

/// The first index from `from` on at which `c` stands, or the length.
pub open spec fn find(acc: Seq<Record>, c: RGB, from: int) -> int
    decreases acc.len() - from,
{
    if from >= acc.len() {
        acc.len() as int
    } else if acc[from].rgb == c {
        from
    } else {
        find(acc, c, from + 1)
    }
}

/// The records after `n` pixels of colour `c` have been added: to the
/// record of `c` if there is one, else as a new record behind the others.
pub open spec fn tally_into(acc: Seq<Record>, c: RGB, n: nat) -> Seq<Record> {
    let i = find(acc, c, 0);
    if i < acc.len() {
        acc.update(i, Record { rgb: c, count: (acc[i].count + n) as u32 })
    } else {
        acc.push(Record { rgb: c, count: n as u32 })
    }
}

/// The records after the leaves of `t`, which stands at depth `level`, have
/// been added: the subtrees in the order of their octants, each leaf with
/// its mean colour and its pixels.
pub open spec fn collect(t: Tree, level: nat, acc: Seq<Record>) -> Seq<Record>
    decreases 8 - level, 0nat,
{
    match t {
        Tree::Leaf { count, .. } => tally_into(acc, mean(t), count),
        Tree::Branch { kids } => {
            if level >= 7 {
                acc
            } else {
                collect_kids(kids, level + 1, 8, acc)
            }
        },
    }
}

/// The records after the leaves under the first `n` subtrees have been
/// added.
pub open spec fn collect_kids(kids: Seq<Option<Tree>>, level: nat, n: nat, acc: Seq<Record>) -> Seq<
    Record,
>
    decreases 8 - level, n + 1,
{
    if n == 0 {
        acc
    } else {
        let mid = collect_kids(kids, level, (n - 1) as nat, acc);
        match kids[n - 1] {
            Some(t) => collect(t, level, mid),
            None => mid,
        }
    }
}

/// The sum of the counts.
pub open spec fn sum_counts(s: Seq<Record>) -> nat
    decreases s.len(),
{
    if s.len() == 0 {
        0
    } else {
        sum_counts(s.drop_last()) + s.last().count as nat
    }
}

/// Whether no colour stands twice.
pub open spec fn distinct(s: Seq<Record>) -> bool {
    forall|i: int, j: int| 0 <= i < j < s.len() ==> s[i].rgb != s[j].rgb
}

/// Whether the counts never rise from one record to the next ones.
pub open spec fn descending(s: Seq<Record>) -> bool {
    forall|i: int, j: int| 0 <= i < j < s.len() ==> s[i].count >= s[j].count
}

/// The first index from `from` on whose record has fewer than `count`
/// pixels, or the length.
pub open spec fn first_below(s: Seq<Record>, count: u32, from: int) -> int
    decreases s.len() - from,
{
    if from >= s.len() {
        s.len() as int
    } else if s[from].count < count {
        from
    } else {
        first_below(s, count, from + 1)
    }
}

/// The records in descending order of count, records of equal count in the
/// order in which they stood.
pub open spec fn ranked(s: Seq<Record>) -> Seq<Record>
    decreases s.len(),
{
    if s.len() == 0 {
        s
    } else {
        let head = ranked(s.drop_last());
        head.insert(first_below(head, s.last().count, 0), s.last())
    }
}

/// What `find` finds is the first record of the colour.
pub proof fn lemma_find(acc: Seq<Record>, c: RGB, from: int)
    requires
        0 <= from <= acc.len(),
    ensures
        from <= find(acc, c, from) <= acc.len(),
        find(acc, c, from) < acc.len() ==> acc[find(acc, c, from)].rgb == c,
        forall|i: int| from <= i < find(acc, c, from) ==> acc[i].rgb != c,
    decreases acc.len() - from,
{
    if from < acc.len() && acc[from].rgb != c {
        lemma_find(acc, c, from + 1);
    }
}

/// Replacing a record changes the sum by the difference of the counts.
pub proof fn lemma_sum_update(s: Seq<Record>, i: int, x: Record)
    requires
        0 <= i < s.len(),
    ensures
        sum_counts(s.update(i, x)) + s[i].count == sum_counts(s) + x.count,
    decreases s.len(),
{
    if i < s.len() - 1 {
        lemma_sum_update(s.drop_last(), i, x);
        assert(s.update(i, x).drop_last() =~= s.drop_last().update(i, x));
    } else {
        assert(s.update(i, x).drop_last() =~= s.drop_last());
    }
}

/// A record put in between adds its count to the sum.
pub proof fn lemma_sum_insert(s: Seq<Record>, i: int, x: Record)
    requires
        0 <= i <= s.len(),
    ensures
        sum_counts(s.insert(i, x)) == sum_counts(s) + x.count,
    decreases s.len(),
{
    if i < s.len() {
        lemma_sum_insert(s.drop_last(), i, x);
        assert(s.insert(i, x).drop_last() =~= s.drop_last().insert(i, x));
        assert(s.insert(i, x).last() == s.last());
    } else {
        assert(s.insert(i, x).drop_last() =~= s);
    }
}

/// Adding pixels of a colour adds them to the sum, adds at most one
/// record, and keeps the colours apart.
pub proof fn lemma_tally_into(acc: Seq<Record>, c: RGB, n: nat)
    requires
        sum_counts(acc) + n <= u32::MAX,
    ensures
        sum_counts(tally_into(acc, c, n)) == sum_counts(acc) + n,
        acc.len() <= tally_into(acc, c, n).len() <= acc.len() + 1,
        distinct(acc) ==> distinct(tally_into(acc, c, n)),
{
    let i = find(acc, c, 0);
    lemma_find(acc, c, 0);
    if i < acc.len() {
        lemma_sum_bound(acc, i);
        lemma_sum_update(acc, i, Record { rgb: c, count: (acc[i].count + n) as u32 });
    } else {
        assert(acc.push(Record { rgb: c, count: n as u32 }).drop_last() =~= acc);
    }
}

/// Adding pixels of a colour adds at most one record.
pub proof fn lemma_tally_len(acc: Seq<Record>, c: RGB, n: nat)
    ensures
        acc.len() <= tally_into(acc, c, n).len() <= acc.len() + 1,
{
    lemma_find(acc, c, 0);
}

/// Collecting the leaves of a tree adds at most one record for each leaf.
pub proof fn lemma_collect_len(t: Tree, level: nat, acc: Seq<Record>)
    ensures
        acc.len() <= collect(t, level, acc).len() <= acc.len() + t.leaf_count(level),
    decreases 8 - level, 0nat,
{
    match t {
        Tree::Leaf { count, .. } => {
            lemma_tally_len(acc, mean(t), count);
        },
        Tree::Branch { kids } => {
            if level < 7 {
                lemma_collect_kids_len(kids, level + 1, 8, acc);
            }
        },
    }
}

/// Collecting the leaves under subtrees adds at most one record for each
/// leaf.
pub proof fn lemma_collect_kids_len(kids: Seq<Option<Tree>>, level: nat, n: nat, acc: Seq<Record>)
    requires
        level <= 7,
    ensures
        acc.len() <= collect_kids(kids, level, n, acc).len() <= acc.len() + Tree::kids_leaves(
            kids,
            level,
            n,
        ),
    decreases 8 - level, n + 1,
{
    if n > 0 {
        lemma_collect_kids_len(kids, level, (n - 1) as nat, acc);
        let mid = collect_kids(kids, level, (n - 1) as nat, acc);
        if let Some(t) = kids[n - 1] {
            lemma_collect_len(t, level, mid);
        }
    }
}

/// A count is no more than the sum.
pub proof fn lemma_sum_bound(s: Seq<Record>, i: int)
    requires
        0 <= i < s.len(),
    ensures
        s[i].count <= sum_counts(s),
    decreases s.len(),
{
    if i < s.len() - 1 {
        lemma_sum_bound(s.drop_last(), i);
    }
}

/// Collecting the leaves of a well-formed tree adds its pixels to the sum
/// and at most one record for each leaf, and keeps the colours apart.
pub proof fn lemma_collect(t: Tree, level: nat, acc: Seq<Record>)
    requires
        t.wf(level),
        sum_counts(acc) + t.pixel_total(level) <= u32::MAX,
    ensures
        sum_counts(collect(t, level, acc)) == sum_counts(acc) + t.pixel_total(level),
        acc.len() <= collect(t, level, acc).len() <= acc.len() + t.leaf_count(level),
        distinct(acc) ==> distinct(collect(t, level, acc)),
    decreases 8 - level, 0nat,
{
    match t {
        Tree::Leaf { count, .. } => {
            lemma_tally_into(acc, mean(t), count);
        },
        Tree::Branch { kids } => {
            lemma_collect_kids(kids, level + 1, 8, acc);
        },
    }
}

/// Collecting the leaves under well-formed subtrees adds their pixels to
/// the sum and at most one record for each leaf, and keeps the colours
/// apart.
pub proof fn lemma_collect_kids(kids: Seq<Option<Tree>>, level: nat, n: nat, acc: Seq<Record>)
    requires
        1 <= level <= 7,
        n <= kids.len(),
        forall|k: int| 0 <= k < n ==> (#[trigger] kids[k] matches Some(t) ==> t.wf(level)),
        sum_counts(acc) + Tree::kids_total(kids, level, n) <= u32::MAX,
    ensures
        sum_counts(collect_kids(kids, level, n, acc)) == sum_counts(acc) + Tree::kids_total(
            kids,
            level,
            n,
        ),
        acc.len() <= collect_kids(kids, level, n, acc).len() <= acc.len() + Tree::kids_leaves(
            kids,
            level,
            n,
        ),
        distinct(acc) ==> distinct(collect_kids(kids, level, n, acc)),
    decreases 8 - level, n + 1,
{
    if n > 0 {
        lemma_collect_kids(kids, level, (n - 1) as nat, acc);
        let mid = collect_kids(kids, level, (n - 1) as nat, acc);
        if let Some(t) = kids[n - 1] {
            lemma_collect(t, level, mid);
        }
    }
}

/// What `first_below` finds is the first record with fewer pixels.
pub proof fn lemma_first_below(s: Seq<Record>, count: u32, from: int)
    requires
        0 <= from <= s.len(),
    ensures
        from <= first_below(s, count, from) <= s.len(),
        first_below(s, count, from) < s.len() ==> s[first_below(s, count, from)].count < count,
        forall|i: int| from <= i < first_below(s, count, from) ==> s[i].count >= count,
    decreases s.len() - from,
{
    if from < s.len() && s[from].count >= count {
        lemma_first_below(s, count, from + 1);
    }
}

/// Ranking keeps the records, their number and the sum of their counts, and
/// puts them in descending order.
pub proof fn lemma_ranked(s: Seq<Record>)
    ensures
        descending(ranked(s)),
        ranked(s).len() == s.len(),
        sum_counts(ranked(s)) == sum_counts(s),
        ranked(s).to_multiset() == s.to_multiset(),
    decreases s.len(),
{
    broadcast use vstd::seq_lib::to_multiset_insert, vstd::seq_lib::to_multiset_build;

    if s.len() > 0 {
        let head = ranked(s.drop_last());
        let x = s.last();
        lemma_ranked(s.drop_last());
        let i = first_below(head, x.count, 0);
        lemma_first_below(head, x.count, 0);
        lemma_sum_insert(head, i, x);
        let r = head.insert(i, x);
        assert forall|a: int, b: int| 0 <= a < b < r.len() implies r[a].count >= r[b].count by {
            if b < i {
                assert(r[a] == head[a] && r[b] == head[b]);
            } else if b == i {
                assert(r[a] == head[a]);
            } else if a < i {
                assert(r[a] == head[a] && r[b] == head[b - 1]);
                assert(head[i].count >= head[b - 1].count || i == b - 1);
            } else if a == i {
                assert(r[b] == head[b - 1]);
                assert(head[i].count >= head[b - 1].count || i == b - 1);
            } else {
                assert(r[a] == head[a - 1] && r[b] == head[b - 1]);
            }
        }
        assert(s =~= s.drop_last().push(x));
        assert(s.to_multiset() == s.drop_last().to_multiset().insert(x));
    } else {
        assert(s.to_multiset() =~= ranked(s).to_multiset());
    }
}

/// Ranking keeps the colours apart.
pub proof fn lemma_ranked_distinct(s: Seq<Record>)
    requires
        distinct(s),
    ensures
        distinct(ranked(s)),
    decreases s.len(),
{
    broadcast use vstd::seq_lib::to_multiset_contains;

    if s.len() > 0 {
        let head = ranked(s.drop_last());
        let x = s.last();
        lemma_ranked_distinct(s.drop_last());
        lemma_ranked(s.drop_last());
        let i = first_below(head, x.count, 0);
        lemma_first_below(head, x.count, 0);
        let r = head.insert(i, x);
        assert forall|a: int| 0 <= a < head.len() implies (#[trigger] head[a]).rgb != x.rgb by {
            assert(head.contains(head[a]));
            assert(s.drop_last().to_multiset().contains(head[a]));
            assert(s.drop_last().contains(head[a]));
            let b = choose|b: int| 0 <= b < s.drop_last().len() && s.drop_last()[b] == head[a];
            assert(s[b].rgb != s[s.len() - 1].rgb);
        }
        assert forall|a: int, b: int| 0 <= a < b < r.len() implies r[a].rgb != r[b].rgb by {
            if b < i {
                assert(r[a] == head[a] && r[b] == head[b]);
            } else if b == i {
                assert(r[a] == head[a]);
            } else if a < i {
                assert(r[a] == head[a] && r[b] == head[b - 1]);
            } else if a == i {
                assert(r[b] == head[b - 1]);
            } else {
                assert(r[a] == head[a - 1] && r[b] == head[b - 1]);
            }
        }
    }
}

/// Adds the leaves under `node`, which stands at depth `level`, to the
/// records: the subtrees in the order of their octants, each leaf with its
/// mean colour and its pixels, to the record of that colour if there is
/// one, else as a new record behind the others. Records that held no colour
/// twice hold none twice afterwards, and their counts have grown by the
/// pixels under `node`.
pub fn colors_stats(node: &Node, level: usize, map: &mut Vec<Record>)
    requires
        level <= 7,
        node@.wf(level as nat),
        sum_counts(old(map)@) + node@.pixel_total(level as nat) <= u32::MAX,
    ensures
        final(map)@ == collect(node@, level as nat, old(map)@),
        distinct(old(map)@) ==> distinct(final(map)@),
        sum_counts(final(map)@) == sum_counts(old(map)@) + node@.pixel_total(level as nat),
    decreases 8 - level,
{
    proof {
        node.lemma_model();
        lemma_collect(node@, level as nat, map@);
    }
    if node.is_leaf {
        let count = node.pixel_count;
        let wide = count as u64;
        assert(node.r / wide <= 255 && node.g / wide <= 255 && node.b / wide <= 255)
            by (nonlinear_arith)
            requires
                wide >= 1,
                node.r <= 255 * wide,
                node.g <= 255 * wide,
                node.b <= 255 * wide,
        ;
        let r = (node.r / wide) as u8;
        let g = (node.g / wide) as u8;
        let b = (node.b / wide) as u8;
        let rgb = RGB::from(&[r, g, b]);
        assert(rgb == mean(node@));
        let mut i: usize = 0;
        while i < map.len() && map[i].rgb != rgb
            invariant
                i <= map.len(),
                *map == *old(map),
                find(map@, rgb, 0) == find(map@, rgb, i as int),
            decreases map.len() - i,
        {
            i = i + 1;
        }
        if i < map.len() {
            proof {
                lemma_sum_bound(map@, i as int);
            }
            let sum = map[i].count + count;
            map[i] = Record { rgb, count: sum };
        } else {
            map.push(Record { rgb, count });
        }
    } else {
        let ghost kids = node@->kids;
        let ghost acc = map@;
        let mut k: usize = 0;
        while k < 8
            invariant
                k <= 8,
                level < 7,
                !node.is_leaf,
                node@ == (Tree::Branch { kids }),
                node@.wf(level as nat),
                node.children@.len() == 8,
                map@ == collect_kids(kids, (level + 1) as nat, k as nat, acc),
                sum_counts(acc) + Tree::kids_total(kids, (level + 1) as nat, 8) <= u32::MAX,
            decreases 8 - k,
        {
            proof {
                node.lemma_model();
                lemma_kids_monotone(kids, (level + 1) as nat, (k + 1) as nat, 8);
                lemma_collect_kids(kids, (level + 1) as nat, k as nat, acc);
            }
            match &node.children[k] {
                Some(child) => {
                    colors_stats(child, level + 1, map);
                },
                None => {},
            }
            k = k + 1;
        }
    }
}

/// The records in descending order of count; records of equal count keep
/// the order in which they stood.
pub fn rank(list: &Vec<Record>) -> (out: Vec<Record>)
    ensures
        out@ == ranked(list@),
{
    let mut out: Vec<Record> = Vec::new();
    let mut n: usize = 0;
    while n < list.len()
        invariant
            n <= list.len(),
            out@ == ranked(list@.take(n as int)),
        decreases list.len() - n,
    {
        let x = list[n];
        let mut i: usize = 0;
        while i < out.len() && out[i].count >= x.count
            invariant
                i <= out.len(),
                first_below(out@, x.count, 0) == first_below(out@, x.count, i as int),
            decreases out.len() - i,
        {
            i = i + 1;
        }
        proof {
            assert(list@.take(n + 1).drop_last() =~= list@.take(n as int));
        }
        out.insert(i, x);
        n = n + 1;
    }
    assert(list@.take(n as int) =~= list@);
    out
}

} // verus!
