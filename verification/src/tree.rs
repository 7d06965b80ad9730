//! R* trees over the lines of the source and of the target geometries.
use crate::double::Double;
use crate::geometry::{line_count, Coord, Line, LineString, Rect};
use vstd::prelude::*;

verus! {

/// A box in an R* tree and the number of the line it encloses: the lower and the upper corner,
/// each coordinate by its order key.
pub type Entry = (i64, i64, i64, i64, usize);

/// An `rstar::RTree` of rectangles with integer corners, each with a number.
#[verifier::external_body]
#[derive(Debug)]
pub struct BoxTree {
    tree: rstar::RTree<
        rstar::primitives::GeomWithData<rstar::primitives::Rectangle<[i64; 2]>, usize>,
    >,
}

/// The entries of a tree, by their numbers.
pub uninterp spec fn loaded(tree: BoxTree) -> Seq<Entry>;

impl Clone for BoxTree {
    /// `rstar::RTree::clone`: a tree with the same entries.
    #[verifier::external_body]
    fn clone(&self) -> (tree: BoxTree)
        ensures
            loaded(tree) == loaded(*self),
    {
        BoxTree { tree: self.tree.clone() }
    }
}

/// The lower corner of a box is not above its upper corner.
pub open spec fn upright(e: Entry) -> bool {
    e.0 <= e.2 && e.1 <= e.3
}

/// Two boxes have a point in common; touching counts.
pub open spec fn meets(a: Entry, b: Entry) -> bool {
    a.0 <= b.2 && b.0 <= a.2 && a.1 <= b.3 && b.1 <= a.3
}

/// Entries are numbered by their positions.
pub open spec fn numbered(entries: Seq<Entry>) -> bool {
    forall|k: int| 0 <= k < entries.len() ==> (#[trigger] entries[k]).4 == k
}

/// `pairs` lists the numbers of all pairs of entries that have a point in common, each once.
pub open spec fn lists_meetings(
    pairs: Seq<(usize, usize)>,
    first: Seq<Entry>,
    second: Seq<Entry>,
) -> bool {
    &&& pairs.no_duplicates()
    &&& forall|k: usize, l: usize|
        #[trigger] pairs.contains((k, l)) <==> k < first.len() && l < second.len() && meets(
            first[k as int],
            second[l as int],
        )
}

/// `rstar::RTree::bulk_load`: the tree holds the given entries and no others. It keeps no order of
/// its own among them, so they are numbered, and it turns the corners of a box that is not
/// upright, which is left out here.
#[verifier::external_body]
fn bulk_load(entries: Vec<Entry>) -> (tree: BoxTree)
    requires
        numbered(entries@),
        forall|k: int| 0 <= k < entries@.len() ==> upright(#[trigger] entries@[k]),
    ensures
        loaded(tree) == entries@,
{
    let mut items = Vec::new();
    for e in entries {
        let corners = rstar::primitives::Rectangle::from_corners([e.0, e.1], [e.2, e.3]);
        items.push(rstar::primitives::GeomWithData::new(corners, e.4));
    }
    BoxTree { tree: rstar::RTree::bulk_load(items) }
}

/// `rstar::RTree::size`: the number of entries.
#[verifier::external_body]
fn size(tree: &BoxTree) -> (n: usize)
    ensures
        n == loaded(*tree).len(),
{
    tree.tree.size()
}

/// `rstar::RTree::intersection_candidates_with_other_tree`: every pair of an entry of the first
/// tree and one of the second whose boxes have a point in common, once, by their numbers. The
/// order of the pairs is left open: it depends on the inner nodes of the trees, which rest on an
/// unstable selection of the standard library.
#[verifier::external_body]
fn intersection_candidates_with_other_tree(first: &BoxTree, second: &BoxTree) -> (pairs: Vec<
    (usize, usize),
>)
    requires
        numbered(loaded(*first)),
        numbered(loaded(*second)),
    ensures
        lists_meetings(pairs@, loaded(*first), loaded(*second)),
{
    let candidates = first.tree.intersection_candidates_with_other_tree(&second.tree);
    candidates.map(|(a, b)| (a.data, b.data)).collect()
}

/// One line of a line string.
#[derive(Clone, Copy, Debug, PartialEq, Eq, Structural)]
pub struct Component {
    /// The position of the line string among the geometries.
    pub index: usize,
    pub line: Line,
    pub slope: Double,
    /// The angle of the slope in degrees.
    pub degrees: Double,
}

/// A target line, and how far around it a source line may lie.
#[derive(Clone, Copy, Debug, PartialEq, Eq, Structural)]
pub struct TarLine(pub Line, pub Double);

impl TarLine {
    /// The box around the line, moved outwards on every side.
    pub open spec fn reach(self) -> (Coord, Coord) {
        let bounds = self.0.bounds();
        (
            Coord { x: bounds.min.x.minus(self.1), y: bounds.min.y.minus(self.1) },
            Coord { x: bounds.max.x.plus(self.1), y: bounds.max.y.plus(self.1) },
        )
    }

    /// The corners of the box around the line, moved outwards on every side.
    pub fn envelope(&self) -> (corners: (Coord, Coord))
        ensures
            corners == self.reach(),
    {
        let bounds: Rect = self.0.bounding_rect();
        (
            Coord { x: bounds.min.x.sub(self.1), y: bounds.min.y.sub(self.1) },
            Coord { x: bounds.max.x.add(self.1), y: bounds.max.y.add(self.1) },
        )
    }
}

/// The smaller of two order keys.
pub open spec fn least(a: int, b: int) -> int {
    if a < b {
        a
    } else {
        b
    }
}

/// The larger of two order keys.
pub open spec fn greatest(a: int, b: int) -> int {
    if a < b {
        b
    } else {
        a
    }
}

/// The box between two corners.
pub open spec fn boxed(a: Coord, b: Coord, number: int) -> Entry {
    (
        least(a.x.rank(), b.x.rank()) as i64,
        least(a.y.rank(), b.y.rank()) as i64,
        greatest(a.x.rank(), b.x.rank()) as i64,
        greatest(a.y.rank(), b.y.rank()) as i64,
        number as usize,
    )
}

fn box_between(a: Coord, b: Coord, number: usize) -> (e: Entry)
    ensures
        e == boxed(a, b, number as int),
        upright(e),
{
    let (ax, ay, bx, by) = (a.x.order_key(), a.y.order_key(), b.x.order_key(), b.y.order_key());
    let (x0, x1) = if ax < bx {
        (ax, bx)
    } else {
        (bx, ax)
    };
    let (y0, y1) = if ay < by {
        (ay, by)
    } else {
        (by, ay)
    };
    (x0, y0, x1, y1, number)
}

/// The lines of one line string.
pub open spec fn components_of(s: LineString, index: int) -> Seq<Component> {
    Seq::new(
        line_count(s.coords@.len() as int) as nat,
        |k: int|
            Component {
                index: index as usize,
                line: s.line(k),
                slope: s.line(k).inclination(),
                degrees: s.degrees@[k],
            },
    )
}

/// The lines of all line strings, in order.
pub open spec fn components_in(geometries: Seq<LineString>) -> Seq<Component>
    decreases geometries.len(),
{
    if geometries.len() == 0 {
        Seq::empty()
    } else {
        components_in(geometries.drop_last()) + components_of(
            geometries.last(),
            geometries.len() - 1,
        )
    }
}

/// The lengths of all line strings, in order.
pub open spec fn lengths_of(geometries: Seq<LineString>) -> Seq<Double> {
    Seq::new(geometries.len(), |i: int| geometries[i].length)
}

/// Every component stems from one of the geometries.
pub proof fn lemma_component_index(geometries: Seq<LineString>, k: int)
    requires
        0 <= k < components_in(geometries).len(),
        geometries.len() <= usize::MAX,
    ensures
        components_in(geometries)[k].index < geometries.len(),
    decreases geometries.len(),
{
    let rest = components_in(geometries.drop_last());
    if k < rest.len() {
        lemma_component_index(geometries.drop_last(), k);
    }
}

/// Adds the length of every geometry to `lens`, and lists all their lines.
fn disassemble(geometries: &Vec<LineString>, lens: &mut Vec<Double>) -> (components: Vec<Component>)
    requires
        forall|i: int| 0 <= i < geometries@.len() ==> (#[trigger] geometries@[i]).wf(),
    ensures
        components@ == components_in(geometries@),
        final(lens)@ == old(lens)@ + lengths_of(geometries@),
{
    let mut components: Vec<Component> = Vec::new();
    let mut i: usize = 0;
    proof {
        assert(geometries@.take(0) =~= Seq::<LineString>::empty());
        assert(old(lens)@ + lengths_of(geometries@.take(0)) =~= old(lens)@);
    }
    while i < geometries.len()
        invariant
            i <= geometries@.len(),
            forall|i: int| 0 <= i < geometries@.len() ==> (#[trigger] geometries@[i]).wf(),
            components@ == components_in(geometries@.take(i as int)),
            lens@ == old(lens)@ + lengths_of(geometries@.take(i as int)),
        decreases geometries@.len() - i,
    {
        let g = &geometries[i];
        let ghost before = components@;
        let ghost done = components_of(*g, i as int);
        assert(g.wf());
        lens.push(g.length);
        let n = g.degrees.len();
        let mut k: usize = 0;
        assert(before + done.take(0) =~= before);
        while k < n
            invariant
                k <= n == g.degrees@.len(),
                g.wf(),
                done == components_of(*g, i as int),
                components@ == before + done.take(k as int),
            decreases n - k,
        {
            let line = Line { start: g.coords[k], end: g.coords[k + 1] };
            components.push(
                Component { index: i, line, slope: line.slope(), degrees: g.degrees[k] },
            );
            assert(done.take(k + 1) =~= done.take(k as int).push(done[k as int]));
            assert(components@ =~= before + done.take(k + 1));
            k = k + 1;
        }
        proof {
            let upto = geometries@.take(i + 1);
            assert(upto.drop_last() =~= geometries@.take(i as int));
            assert(done.take(n as int) =~= done);
            assert(lengths_of(upto) =~= lengths_of(geometries@.take(i as int)).push(g.length));
            assert(lens@ =~= old(lens)@ + lengths_of(upto));
        }
        i = i + 1;
    }
    assert(geometries@.take(geometries@.len() as int) =~= geometries@);
    components
}

/// R* tree for source geometries
#[derive(Debug)]
pub struct SourceTree {
    /// The lines, by their numbers in the tree.
    pub components: Vec<Component>,
    pub boxes: BoxTree,
}

/// R* tree for target geometries
#[derive(Debug)]
pub struct TargetTree {
    /// The lines, by their numbers in the tree.
    pub components: Vec<Component>,
    /// How far the boxes reach beyond their lines.
    pub reach: Double,
    pub boxes: BoxTree,
}

/// The box of a source line.
pub open spec fn source_entry(c: Component, number: int) -> Entry {
    boxed(c.line.start, c.line.end, number)
}

/// The box of a target line.
pub open spec fn target_entry(c: Component, reach: Double, number: int) -> Entry {
    let corners = TarLine(c.line, reach).reach();
    boxed(corners.0, corners.1, number)
}

impl Clone for SourceTree {
    /// A tree with the same lines.
    fn clone(&self) -> (tree: SourceTree)
        ensures
            tree.components@ == self.components@,
            tree.wf() == self.wf(),
    {
        SourceTree { components: self.components.clone(), boxes: self.boxes.clone() }
    }
}

impl Clone for TargetTree {
    /// A tree with the same lines.
    fn clone(&self) -> (tree: TargetTree)
        ensures
            tree.components@ == self.components@,
            tree.reach == self.reach,
            tree.wf() == self.wf(),
    {
        TargetTree {
            components: self.components.clone(),
            reach: self.reach,
            boxes: self.boxes.clone(),
        }
    }
}

impl SourceTree {
    /// The tree holds the boxes of exactly the listed lines.
    pub open spec fn wf(&self) -> bool {
        loaded(self.boxes) == Seq::new(
            self.components@.len(),
            |k: int| source_entry(self.components@[k], k),
        )
    }

    /// The number of lines.
    pub fn size(&self) -> (n: usize)
        requires
            self.wf(),
        ensures
            n == self.components@.len(),
    {
        size(&self.boxes)
    }
}

impl TargetTree {
    /// The tree holds the boxes of exactly the listed lines.
    pub open spec fn wf(&self) -> bool {
        loaded(self.boxes) == Seq::new(
            self.components@.len(),
            |k: int| target_entry(self.components@[k], self.reach, k),
        )
    }

    /// The number of lines.
    pub fn size(&self) -> (n: usize)
        requires
            self.wf(),
        ensures
            n == self.components@.len(),
    {
        size(&self.boxes)
    }
}

/// The tree of the lines of the source geometries. The lengths of the geometries are added to
/// `source_lens`.
pub fn create_source_rtree(x: &Vec<LineString>, source_lens: &mut Vec<Double>) -> (tree: SourceTree)
    requires
        forall|i: int| 0 <= i < x@.len() ==> (#[trigger] x@[i]).wf(),
    ensures
        tree.wf(),
        tree.components@ == components_in(x@),
        final(source_lens)@ == old(source_lens)@ + lengths_of(x@),
        final(source_lens)@.len() == old(source_lens)@.len() + x@.len(),
        forall|i: int|
            0 <= i < x@.len() ==> final(source_lens)@[old(source_lens)@.len() + i] == (
            #[trigger] x@[i]).length,
{
    let components = disassemble(x, source_lens);
    let mut entries: Vec<Entry> = Vec::new();
    let mut k: usize = 0;
    while k < components.len()
        invariant
            k <= components@.len(),
            entries@.len() == k,
            forall|j: int|
                0 <= j < k ==> #[trigger] entries@[j] == source_entry(components@[j], j),
            forall|j: int| 0 <= j < k ==> upright(#[trigger] entries@[j]),
        decreases components@.len() - k,
    {
        let line = components[k].line;
        entries.push(box_between(line.start, line.end, k));
        k = k + 1;
    }
    let tree = SourceTree { components, boxes: bulk_load(entries) };
    assert(loaded(tree.boxes) =~= Seq::new(
        tree.components@.len(),
        |k: int| source_entry(tree.components@[k], k),
    ));
    tree
}

/// The tree of the lines of the target geometries, each in a box that reaches `dist` beyond the
/// line. The lengths of the geometries are added to `target_lens`.
pub fn create_target_rtree(
    y: &Vec<LineString>,
    target_lens: &mut Vec<Double>,
    dist: Double,
) -> (tree: TargetTree)
    requires
        forall|i: int| 0 <= i < y@.len() ==> (#[trigger] y@[i]).wf(),
    ensures
        tree.wf(),
        tree.reach == dist,
        tree.components@ == components_in(y@),
        final(target_lens)@ == old(target_lens)@ + lengths_of(y@),
        final(target_lens)@.len() == old(target_lens)@.len() + y@.len(),
        forall|i: int|
            0 <= i < y@.len() ==> final(target_lens)@[old(target_lens)@.len() + i] == (
            #[trigger] y@[i]).length,
{
    let components = disassemble(y, target_lens);
    let mut entries: Vec<Entry> = Vec::new();
    let mut k: usize = 0;
    while k < components.len()
        invariant
            k <= components@.len(),
            entries@.len() == k,
            forall|j: int|
                0 <= j < k ==> #[trigger] entries@[j] == target_entry(components@[j], dist, j),
            forall|j: int| 0 <= j < k ==> upright(#[trigger] entries@[j]),
        decreases components@.len() - k,
    {
        let (lower, upper) = TarLine(components[k].line, dist).envelope();
        entries.push(box_between(lower, upper, k));
        k = k + 1;
    }
    let tree = TargetTree { components, reach: dist, boxes: bulk_load(entries) };
    assert(loaded(tree.boxes) =~= Seq::new(
        tree.components@.len(),
        |k: int| target_entry(tree.components@[k], tree.reach, k),
    ));
    tree
}

/// The box of a source line and that of a target line have a point in common.
pub open spec fn near(s: Component, t: Component, reach: Double) -> bool {
    meets(source_entry(s, 0), target_entry(t, reach, 0))
}

/// `pairs` lists every pair of lines whose boxes have a point in common, once.
pub open spec fn all_near_pairs(
    sources: Seq<Component>,
    targets: Seq<Component>,
    reach: Double,
    pairs: Seq<(usize, usize)>,
) -> bool {
    &&& pairs.no_duplicates()
    &&& forall|k: usize, l: usize|
        #[trigger] pairs.contains((k, l)) <==> k < sources.len() && l < targets.len() && near(
            sources[k as int],
            targets[l as int],
            reach,
        )
}

/// The pairs of a source line and a target line whose boxes have a point in common.
pub fn intersection_candidates(source: &SourceTree, target: &TargetTree) -> (pairs: Vec<
    (usize, usize),
>)
    requires
        source.wf(),
        target.wf(),
    ensures
        all_near_pairs(source.components@, target.components@, target.reach, pairs@),
{
    assert(source.components.len() == source.components@.len());
    assert(target.components.len() == target.components@.len());
    intersection_candidates_with_other_tree(&source.boxes, &target.boxes)
}

} // verus!
