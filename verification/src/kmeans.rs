//! A k-means style optimizer over any kind of element.
//!
//! The element type is free; a [`KmeansContext`] supplies what the optimizer
//! needs to know of it: how to seed a centroid, how to compute the centroid
//! of a set of elements, the distance between two elements, and an optional
//! stop criterion. Everything is stated over the views of the elements.

use vstd::prelude::*;
use vstd::seq_lib::to_multiset_build;
use crate::seq_util::{
    first_min,
    is_last_max,
    last_max,
    lemma_first_min_exists,
    lemma_first_min_is,
    lemma_last_max_exists,
    lemma_last_max_is,
    views,
};

verus! {

/// An element's membership in a cluster: the element's position in the
/// input, and its distance to the cluster's centroid when it was assigned.
#[derive(Clone, Copy, Debug)]
pub struct Assignment {
    pub index: usize,
    pub diff: u32,
}

/// A cluster: its centroid and the elements assigned to it.
pub struct Cluster<T> {
    pub centroid: T,
    pub elements: Vec<Assignment>,
}

/// The view of a cluster: the view of its centroid, and its assignments.
pub struct ClusterView<V> {
    pub centroid: V,
    pub elements: Seq<Assignment>,
}

impl<T: View> View for Cluster<T> {
    type V = ClusterView<T::V>;

    open spec fn view(&self) -> ClusterView<T::V> {
        ClusterView { centroid: self.centroid@, elements: self.elements@ }
    }
}

/// The element of a cluster that lies farthest from its centroid: the
/// cluster, the position of the assignment among the cluster's elements,
/// and what the assignment holds.
#[derive(Clone, Copy, Debug)]
pub struct Diff {
    pub cluster: usize,
    pub position: usize,
    pub index: usize,
    pub diff: u32,
}

/// What the optimizer needs to know of its elements.
pub trait KmeansContext<T: View> {
    /// The elements this context can work on.
    spec fn accepts(&self, element: T::V) -> bool;

    /// The centroids that cluster `k` may be seeded with.
    spec fn is_seed(&self, k: usize, centroid: T::V) -> bool;

    /// The distance between two elements; 0 where the context takes them
    /// for equal.
    spec fn distance(&self, a: T::V, b: T::V) -> u32;

    /// The centroid of a non-empty collection of elements.
    spec fn centroid_of(&self, members: Seq<T::V>) -> T::V;

    /// Whether the optimization is to end after iteration `i`.
    spec fn stops(&self, i: u32, clusters: Seq<ClusterView<T::V>>) -> bool;

    /// Initialize a centroid for a cluster
    fn initialize_centroid(&self, k: usize) -> (centroid: T)
        ensures
            self.accepts(centroid@),
            self.is_seed(k, centroid@),
    ;

    /// Determine centroid for cluster by set of elements
    fn determine_centroid(&self, elements: &Vec<&T>) -> (centroid: T)
        requires
            elements@.len() > 0,
            forall|i: int| 0 <= i < elements@.len() ==> self.accepts(#[trigger] elements@[i]@),
        ensures
            centroid@ == self.centroid_of(views(elements@)),
            self.accepts(centroid@),
    ;

    /// Calculate difference between two elements
    ///
    /// 0 means the elements count as equal
    fn diff(&self, a: &T, b: &T) -> (d: u32)
        requires
            self.accepts(a@),
            self.accepts(b@),
        ensures
            d == self.distance(a@, b@),
    ;

    /// Called for each iteration
    ///
    /// If true is returned it means a stop criteria was reached and the main
    /// optimization loop should exit.
    fn iteration_callback(&self, i: u32, clusters: &Vec<Cluster<T>>) -> (stop: bool)
        requires
            forall|j: int|
                0 <= j < clusters@.len() ==> self.accepts((#[trigger] clusters@[j]).centroid@),
        ensures
            stop == self.stops(i, views(clusters@)),
    ;
}

/// The centroids of a sequence of clusters.
pub open spec fn centroids<V>(clusters: Seq<ClusterView<V>>) -> Seq<V> {
    Seq::new(clusters.len(), |j: int| clusters[j].centroid)
}

/// The context accepts the centroid of every cluster.
pub open spec fn centroids_accepted<T: View, C: KmeansContext<T>>(
    context: &C,
    clusters: Seq<ClusterView<T::V>>,
) -> bool {
    forall|j: int| 0 <= j < clusters.len() ==> context.accepts((#[trigger] clusters[j]).centroid)
}

/// The context accepts every element.
pub open spec fn all_accepted<T: View, C: KmeansContext<T>>(
    context: &C,
    elements: Seq<T::V>,
) -> bool {
    forall|i: int| 0 <= i < elements.len() ==> context.accepts(#[trigger] elements[i])
}

/// Every assignment of every cluster names one of `n` elements.
pub open spec fn indices_below<V>(clusters: Seq<ClusterView<V>>, n: nat) -> bool {
    forall|j: int, k: int|
        0 <= j < clusters.len() && 0 <= k < clusters[j].elements.len() ==> (
        #[trigger] clusters[j].elements[k]).index < n
}

/// The distances of `element` to each centroid, in order.
pub open spec fn distances<T: View, C: KmeansContext<T>>(
    context: &C,
    centroids: Seq<T::V>,
    element: T::V,
) -> Seq<int> {
    Seq::new(centroids.len(), |j: int| context.distance(centroids[j], element) as int)
}

/// The cluster whose centroid is nearest to `element`: of several at the
/// same least distance, the first.
pub open spec fn nearest<T: View, C: KmeansContext<T>>(
    context: &C,
    centroids: Seq<T::V>,
    element: T::V,
) -> int {
    first_min(distances::<T, C>(context, centroids, element))
}

/// The assignments that cluster `j` receives from the first `m` elements:
/// one for each element that is nearest to it, in the order of the elements.
pub open spec fn assigned<T: View, C: KmeansContext<T>>(
    context: &C,
    centroids: Seq<T::V>,
    elements: Seq<T::V>,
    m: nat,
    j: int,
) -> Seq<Assignment>
    decreases m,
{
    if m == 0 {
        Seq::empty()
    } else {
        let rest = assigned::<T, C>(context, centroids, elements, (m - 1) as nat, j);
        let element = elements[m - 1];
        if nearest::<T, C>(context, centroids, element) == j {
            rest.push(
                Assignment {
                    index: (m - 1) as usize,
                    diff: context.distance(centroids[j], element),
                },
            )
        } else {
            rest
        }
    }
}

/// The clusters with no element assigned.
pub open spec fn cleared<V>(clusters: Seq<ClusterView<V>>) -> Seq<ClusterView<V>> {
    Seq::new(
        clusters.len(),
        |j: int| ClusterView { centroid: clusters[j].centroid, elements: Seq::empty() },
    )
}

/// The clusters after each element has been added to the cluster nearest to it.
pub open spec fn reassigned<T: View, C: KmeansContext<T>>(
    context: &C,
    clusters: Seq<ClusterView<T::V>>,
    elements: Seq<T::V>,
) -> Seq<ClusterView<T::V>> {
    Seq::new(
        clusters.len(),
        |j: int|
            ClusterView {
                centroid: clusters[j].centroid,
                elements: clusters[j].elements + assigned::<T, C>(
                    context,
                    centroids(clusters),
                    elements,
                    elements.len(),
                    j,
                ),
            },
    )
}

/// The elements that a list of assignments names.
pub open spec fn members<V>(elements: Seq<V>, assignments: Seq<Assignment>) -> Seq<V> {
    Seq::new(assignments.len(), |k: int| elements[assignments[k].index as int])
}

/// The clusters after every cluster that has elements got the centroid of
/// its elements; a cluster without elements keeps its centroid.
pub open spec fn recentered<T: View, C: KmeansContext<T>>(
    context: &C,
    clusters: Seq<ClusterView<T::V>>,
    elements: Seq<T::V>,
) -> Seq<ClusterView<T::V>> {
    Seq::new(
        clusters.len(),
        |j: int|
            if clusters[j].elements.len() > 0 {
                ClusterView {
                    centroid: context.centroid_of(members(elements, clusters[j].elements)),
                    elements: clusters[j].elements,
                }
            } else {
                clusters[j]
            },
    )
}

/// The recorded distances of a list of assignments.
pub open spec fn diffs_of(assignments: Seq<Assignment>) -> Seq<int> {
    Seq::new(assignments.len(), |k: int| assignments[k].diff as int)
}

/// Where the farthest assignment of a cluster stands among its elements:
/// of several at the same greatest distance, the last.
pub open spec fn farthest_position(assignments: Seq<Assignment>) -> int {
    last_max(diffs_of(assignments))
}

/// The assignment of cluster `cluster` that lies farthest from its centroid.
pub open spec fn farthest(cluster: int, assignments: Seq<Assignment>) -> Diff {
    let position = farthest_position(assignments);
    Diff {
        cluster: cluster as usize,
        position: position as usize,
        index: assignments[position].index,
        diff: assignments[position].diff,
    }
}

/// The farthest elements of the clusters that hold two elements or more, in
/// the order of the clusters.
pub open spec fn deviations<V>(clusters: Seq<ClusterView<V>>) -> Seq<Diff>
    decreases clusters.len(),
{
    if clusters.len() == 0 {
        Seq::empty()
    } else {
        let rest = deviations(clusters.drop_last());
        if clusters.last().elements.len() >= 2 {
            rest.push(farthest(clusters.len() - 1, clusters.last().elements))
        } else {
            rest
        }
    }
}

/// `sorted` with `d` put in behind every item whose distance is not below its own.
pub open spec fn insert_descending(sorted: Seq<Diff>, d: Diff) -> Seq<Diff>
    decreases sorted.len(),
{
    if sorted.len() == 0 {
        seq![d]
    } else if sorted.last().diff >= d.diff {
        sorted.push(d)
    } else {
        insert_descending(sorted.drop_last(), d).push(sorted.last())
    }
}

/// `items` in descending order of distance; items of equal distance keep
/// their order.
pub open spec fn sorted_descending(items: Seq<Diff>) -> Seq<Diff>
    decreases items.len(),
{
    if items.len() == 0 {
        Seq::empty()
    } else {
        insert_descending(sorted_descending(items.drop_last()), items.last())
    }
}

/// The farthest elements of the clusters that hold two elements or more,
/// the farthest of them first.
pub open spec fn highest_deviations<V>(clusters: Seq<ClusterView<V>>) -> Seq<Diff> {
    sorted_descending(deviations(clusters))
}

/// The approximation is perfect: some cluster holds two elements or more,
/// and no element of such a cluster lies away from its centroid.
pub open spec fn perfect<V>(clusters: Seq<ClusterView<V>>) -> bool {
    highest_deviations(clusters).len() > 0 && highest_deviations(clusters)[0].diff == 0
}

/// Number of clusters before cluster `j` that hold no element.
pub open spec fn empties_before<V>(clusters: Seq<ClusterView<V>>, j: int) -> nat
    decreases j,
{
    if j <= 0 {
        0
    } else if clusters[j - 1].elements.len() == 0 {
        empties_before(clusters, j - 1) + 1
    } else {
        empties_before(clusters, j - 1)
    }
}

/// The number of farthest elements that the repair moves: one for every
/// empty cluster, as long as there are any.
pub open spec fn taken<V>(clusters: Seq<ClusterView<V>>) -> int {
    if empties_before(clusters, clusters.len() as int) < highest_deviations(clusters).len() {
        empties_before(clusters, clusters.len() as int) as int
    } else {
        highest_deviations(clusters).len() as int
    }
}

/// Cluster `j` is among the first `count` clusters that give their
/// farthest element away.
pub open spec fn gives_among<V>(clusters: Seq<ClusterView<V>>, j: int, count: int) -> bool {
    exists|r: int| 0 <= r < count && (#[trigger] highest_deviations(clusters)[r]).cluster == j
}

/// The empty cluster `j` is filled: there is a farthest element left for it.
pub open spec fn is_filled<V>(clusters: Seq<ClusterView<V>>, j: int) -> bool {
    clusters[j].elements.len() == 0 && empties_before(clusters, j) < highest_deviations(
        clusters,
    ).len()
}

/// The cluster that holds the one element `index`, at distance 0, and has
/// the centroid of it.
pub open spec fn cluster_of_one<T: View, C: KmeansContext<T>>(
    context: &C,
    elements: Seq<T::V>,
    index: usize,
) -> ClusterView<T::V> {
    ClusterView {
        centroid: context.centroid_of(seq![elements[index as int]]),
        elements: seq![Assignment { index, diff: 0 }],
    }
}

/// `cluster` without its farthest element; the centroid stays.
pub open spec fn without_farthest<V>(cluster: ClusterView<V>) -> ClusterView<V> {
    ClusterView {
        centroid: cluster.centroid,
        elements: cluster.elements.remove(farthest_position(cluster.elements)),
    }
}

/// The clusters while the repair is under way: the empty clusters before
/// `j` are filled, and the first `count` farthest elements have left their
/// clusters.
pub open spec fn repaired_until<T: View, C: KmeansContext<T>>(
    context: &C,
    clusters: Seq<ClusterView<T::V>>,
    elements: Seq<T::V>,
    j: int,
    count: int,
) -> Seq<ClusterView<T::V>> {
    Seq::new(
        clusters.len(),
        |q: int|
            if q < j && is_filled(clusters, q) {
                cluster_of_one::<T, C>(
                    context,
                    elements,
                    highest_deviations(clusters)[empties_before(clusters, q) as int].index,
                )
            } else if gives_among(clusters, q, count) {
                without_farthest(clusters[q])
            } else {
                clusters[q]
            },
    )
}

/// The clusters after the empty ones have been filled: the first empty
/// cluster steals the farthest element of all, the second the next, as long
/// as there are any. An empty cluster that stole an element holds that one
/// element at distance 0, and has the centroid of it. A cluster whose
/// farthest element was stolen holds its other elements, and keeps its
/// centroid. All other clusters stay as they are.
pub open spec fn repaired<T: View, C: KmeansContext<T>>(
    context: &C,
    clusters: Seq<ClusterView<T::V>>,
    elements: Seq<T::V>,
) -> Seq<ClusterView<T::V>> {
    Seq::new(
        clusters.len(),
        |j: int|
            if is_filled(clusters, j) {
                cluster_of_one::<T, C>(
                    context,
                    elements,
                    highest_deviations(clusters)[empties_before(clusters, j) as int].index,
                )
            } else if gives_among(clusters, j, taken(clusters)) {
                without_farthest(clusters[j])
            } else {
                clusters[j]
            },
    )
}

/// One iteration: the clusters after it, and whether the optimization ends
/// with it.
///
/// Every element is assigned to the nearest cluster and the centroids are
/// computed anew. In an iteration whose number is a multiple of `every`, a
/// perfect approximation ends the optimization at once, and otherwise the
/// empty clusters are filled. At last the context's stop criterion is asked.
pub open spec fn step<T: View, C: KmeansContext<T>>(
    context: &C,
    clusters: Seq<ClusterView<T::V>>,
    elements: Seq<T::V>,
    i: u32,
    every: u32,
) -> (Seq<ClusterView<T::V>>, bool) {
    let centered = recentered::<T, C>(
        context,
        reassigned::<T, C>(context, cleared(clusters), elements),
        elements,
    );
    if i % every == 0 && perfect(centered) {
        (centered, true)
    } else {
        let next = if i % every == 0 {
            repaired::<T, C>(context, centered, elements)
        } else {
            centered
        };
        (next, context.stops(i, next))
    }
}

/// The clusters that the iterations `i`, `i + 1`, ... below `max_iterations`
/// lead to, started from `clusters`.
pub open spec fn run<T: View, C: KmeansContext<T>>(
    context: &C,
    clusters: Seq<ClusterView<T::V>>,
    elements: Seq<T::V>,
    i: u32,
    max_iterations: u32,
    every: u32,
) -> Seq<ClusterView<T::V>>
    decreases max_iterations - i,
{
    if i >= max_iterations {
        clusters
    } else {
        let (next, done) = step::<T, C>(context, clusters, elements, i, every);
        if done {
            next
        } else {
            run::<T, C>(context, next, elements, (i + 1) as u32, max_iterations, every)
        }
    }
}

/// The number of iterations that are carried out from iteration `i` on.
pub open spec fn iterations<T: View, C: KmeansContext<T>>(
    context: &C,
    clusters: Seq<ClusterView<T::V>>,
    elements: Seq<T::V>,
    i: u32,
    max_iterations: u32,
    every: u32,
) -> nat
    decreases max_iterations - i,
{
    if i >= max_iterations {
        0
    } else {
        let (next, done) = step::<T, C>(context, clusters, elements, i, every);
        if done {
            1
        } else {
            1 + iterations::<T, C>(context, next, elements, (i + 1) as u32, max_iterations, every)
        }
    }
}

/// Removes every assignment; the centroids stay.
pub fn reset_cluster_assignments<T: View>(clusters: &mut Vec<Cluster<T>>)
    ensures
        views(final(clusters)@) == cleared(views(old(clusters)@)),
{
    let mut j: usize = 0;
    while j < clusters.len()
        invariant
            j <= clusters@.len(),
            clusters@.len() == old(clusters)@.len(),
            forall|q: int|
                0 <= q < j ==> (#[trigger] clusters@[q]).centroid == old(clusters)@[q].centroid
                    && clusters@[q].elements@.len() == 0,
            forall|q: int|
                j <= q < clusters@.len() ==> #[trigger] clusters@[q] == old(clusters)@[q],
        decreases clusters@.len() - j,
    {
        clusters[j].elements.clear();
        j += 1;
    }
    assert(views(clusters@) =~= cleared(views(old(clusters)@))) by {
        assert forall|q: int| 0 <= q < clusters@.len() implies views(clusters@)[q] == cleared(
            views(old(clusters)@),
        )[q] by {
            assert(clusters@[q].elements@ =~= Seq::empty());
        }
    }
}

/// The cluster nearest to `element`, and the distance to its centroid.
fn nearest_cluster<T: View, C: KmeansContext<T>>(
    context: &C,
    clusters: &Vec<Cluster<T>>,
    element: &T,
) -> (best: (usize, u32))
    requires
        clusters@.len() > 0,
        centroids_accepted::<T, C>(context, views(clusters@)),
        context.accepts(element@),
    ensures
        best.0 == nearest::<T, C>(context, centroids(views(clusters@)), element@),
        best.0 < clusters@.len(),
        best.1 == context.distance(clusters@[best.0 as int].centroid@, element@),
{
    let ghost ds = distances::<T, C>(context, centroids(views(clusters@)), element@);
    assert(views(clusters@)[0].centroid == clusters@[0].centroid@);
    let mut best_cluster_idx: usize = 0;
    let mut best_diff: u32 = context.diff(&clusters[0].centroid, element);
    let mut j: usize = 1;
    while j < clusters.len()
        invariant
            1 <= j <= clusters@.len(),
            centroids_accepted::<T, C>(context, views(clusters@)),
            context.accepts(element@),
            ds == distances::<T, C>(context, centroids(views(clusters@)), element@),
            best_cluster_idx < j,
            best_diff == ds[best_cluster_idx as int],
            forall|q: int| 0 <= q < j ==> ds[best_cluster_idx as int] <= #[trigger] ds[q],
            forall|q: int|
                0 <= q < best_cluster_idx ==> ds[best_cluster_idx as int] < #[trigger] ds[q],
        decreases clusters@.len() - j,
    {
        assert(views(clusters@)[j as int].centroid == clusters@[j as int].centroid@);
        let diff = context.diff(&clusters[j].centroid, element);
        if diff < best_diff {
            best_cluster_idx = j;
            best_diff = diff;
        }
        j += 1;
    }
    proof {
        lemma_first_min_is(ds, best_cluster_idx as int);
    }
    (best_cluster_idx, best_diff)
}

/// Adds every element to the cluster whose centroid is nearest to it.
pub fn reassign_elements<T: View, C: KmeansContext<T>>(
    context: &C,
    clusters: &mut Vec<Cluster<T>>,
    elements: &Vec<T>,
)
    requires
        old(clusters)@.len() > 0,
        centroids_accepted::<T, C>(context, views(old(clusters)@)),
        all_accepted::<T, C>(context, views(elements@)),
    ensures
        views(final(clusters)@) == reassigned::<T, C>(
            context,
            views(old(clusters)@),
            views(elements@),
        ),
{
    let ghost before = views(clusters@);
    let ghost es = views(elements@);
    let mut index: usize = 0;
    while index < elements.len()
        invariant
            index <= elements@.len(),
            clusters@.len() == before.len(),
            before.len() > 0,
            before == views(old(clusters)@),
            es == views(elements@),
            centroids_accepted::<T, C>(context, before),
            all_accepted::<T, C>(context, es),
            forall|j: int|
                0 <= j < before.len() ==> (#[trigger] clusters@[j]).centroid@ == before[j].centroid,
            forall|j: int|
                0 <= j < before.len() ==> (#[trigger] clusters@[j]).elements@ == before[j].elements
                    + assigned::<T, C>(context, centroids(before), es, index as nat, j),
        decreases elements@.len() - index,
    {
        proof {
            assert(centroids(views(clusters@)) =~= centroids(before));
            assert(context.accepts(es[index as int]));
        }
        let best = nearest_cluster(context, clusters, &elements[index]);
        clusters[best.0].elements.push(Assignment { index, diff: best.1 });
        index += 1;
    }
}

/// Determines the centroid of the elements that `cluster_elements` names.
pub fn recalculate_centroid<T: View, C: KmeansContext<T>>(
    cluster_elements: &Vec<Assignment>,
    elements: &Vec<T>,
    context: &C,
) -> (centroid: T)
    requires
        cluster_elements@.len() > 0,
        forall|k: int|
            0 <= k < cluster_elements@.len() ==> (#[trigger] cluster_elements@[k]).index
                < elements@.len(),
        all_accepted::<T, C>(context, views(elements@)),
    ensures
        centroid@ == context.centroid_of(members(views(elements@), cluster_elements@)),
        context.accepts(centroid@),
{
    let mut element_refs: Vec<&T> = Vec::new();
    let mut k: usize = 0;
    while k < cluster_elements.len()
        invariant
            k <= cluster_elements@.len(),
            element_refs@.len() == k,
            forall|q: int|
                0 <= q < cluster_elements@.len() ==> (#[trigger] cluster_elements@[q]).index
                    < elements@.len(),
            forall|q: int|
                0 <= q < k ==> *(#[trigger] element_refs@[q])
                    == elements@[cluster_elements@[q].index as int],
        decreases cluster_elements@.len() - k,
    {
        let assignment = &cluster_elements[k];
        element_refs.push(&elements[assignment.index]);
        k += 1;
    }
    proof {
        let es = views(elements@);
        assert(views(element_refs@) =~= members(es, cluster_elements@));
        assert forall|q: int| 0 <= q < element_refs@.len() implies context.accepts(
            #[trigger] element_refs@[q]@,
        ) by {
            assert(context.accepts(es[cluster_elements@[q].index as int]));
        }
    }
    context.determine_centroid(&element_refs)
}

/// Gives every cluster that has elements the centroid of its elements.
pub fn recalculate_centroids<T: View, C: KmeansContext<T>>(
    context: &C,
    clusters: &mut Vec<Cluster<T>>,
    elements: &Vec<T>,
)
    requires
        indices_below(views(old(clusters)@), elements@.len() as nat),
        all_accepted::<T, C>(context, views(elements@)),
    ensures
        views(final(clusters)@) == recentered::<T, C>(
            context,
            views(old(clusters)@),
            views(elements@),
        ),
        centroids_accepted::<T, C>(context, views(old(clusters)@)) ==> centroids_accepted::<T, C>(
            context,
            views(final(clusters)@),
        ),
{
    let ghost before = views(clusters@);
    let ghost es = views(elements@);
    let mut j: usize = 0;
    while j < clusters.len()
        invariant
            j <= clusters@.len(),
            clusters@.len() == before.len(),
            before == views(old(clusters)@),
            es == views(elements@),
            indices_below(before, elements@.len() as nat),
            all_accepted::<T, C>(context, es),
            forall|q: int|
                0 <= q < j ==> (#[trigger] clusters@[q])@ == recentered::<T, C>(
                    context,
                    before,
                    es,
                )[q],
            forall|q: int| j <= q < before.len() ==> (#[trigger] clusters@[q])@ == before[q],
            forall|q: int|
                0 <= q < j && before[q].elements.len() > 0 ==> context.accepts(
                    (#[trigger] clusters@[q]).centroid@,
                ),
        decreases clusters@.len() - j,
    {
        if !(clusters[j].elements.len() == 0) {
            proof {
                assert forall|k: int| 0 <= k < clusters@[j as int].elements@.len() implies (
                #[trigger] clusters@[j as int].elements@[k]).index < elements@.len() by {
                    assert(before[j as int].elements[k].index < elements@.len());
                }
            }
            let centroid = recalculate_centroid(&clusters[j].elements, elements, context);
            clusters[j].centroid = centroid;
        }
        j += 1;
    }
}

/// Where `d` goes in a descending sequence: behind the items that are not
/// below it, before the items that are.
proof fn lemma_insert_descending(sorted: Seq<Diff>, d: Diff, pos: int)
    requires
        0 <= pos <= sorted.len(),
        forall|q: int| pos <= q < sorted.len() ==> (#[trigger] sorted[q]).diff < d.diff,
        pos > 0 ==> sorted[pos - 1].diff >= d.diff,
    ensures
        insert_descending(sorted, d) == sorted.insert(pos, d),
    decreases sorted.len(),
{
    if pos < sorted.len() {
        lemma_insert_descending(sorted.drop_last(), d, pos);
    }
}

/// Sorting keeps the number of items, and what holds of every item.
pub proof fn lemma_sorted_descending_keeps(items: Seq<Diff>, holds: spec_fn(Diff) -> bool)
    requires
        forall|i: int| 0 <= i < items.len() ==> holds(#[trigger] items[i]),
    ensures
        sorted_descending(items).len() == items.len(),
        forall|i: int|
            0 <= i < items.len() ==> holds(#[trigger] sorted_descending(items)[i]),
    decreases items.len(),
{
    if items.len() > 0 {
        let front = items.drop_last();
        lemma_sorted_descending_keeps(front, holds);
        lemma_insert_descending_keeps(sorted_descending(front), items.last(), holds);
    }
}

/// Putting an item in keeps what holds of every item and of the new one.
proof fn lemma_insert_descending_keeps(sorted: Seq<Diff>, d: Diff, holds: spec_fn(Diff) -> bool)
    requires
        forall|i: int| 0 <= i < sorted.len() ==> holds(#[trigger] sorted[i]),
        holds(d),
    ensures
        insert_descending(sorted, d).len() == sorted.len() + 1,
        forall|i: int|
            0 <= i < sorted.len() + 1 ==> holds(#[trigger] insert_descending(sorted, d)[i]),
    decreases sorted.len(),
{
    if sorted.len() > 0 && sorted.last().diff < d.diff {
        let front = sorted.drop_last();
        lemma_insert_descending_keeps(front, d, holds);
    }
}

/// Putting an item in adds that item and takes none away.
proof fn lemma_insert_descending_permutation(sorted: Seq<Diff>, d: Diff)
    ensures
        insert_descending(sorted, d).to_multiset() == sorted.to_multiset().insert(d),
    decreases sorted.len(),
{
    if sorted.len() == 0 {
        assert(seq![d] =~= sorted.push(d));
        to_multiset_build(sorted, d);
    } else if sorted.last().diff >= d.diff {
        to_multiset_build(sorted, d);
    } else {
        let front = sorted.drop_last();
        lemma_insert_descending_permutation(front, d);
        to_multiset_build(insert_descending(front, d), sorted.last());
        to_multiset_build(front, sorted.last());
        assert(front.push(sorted.last()) =~= sorted);
    }
}

/// The sorted sequence holds the same items as often as the sequence that
/// was sorted.
pub proof fn lemma_sorted_descending_permutation(items: Seq<Diff>)
    ensures
        sorted_descending(items).to_multiset() == items.to_multiset(),
    decreases items.len(),
{
    if items.len() == 0 {
        assert(sorted_descending(items) =~= items);
    } else {
        let front = items.drop_last();
        lemma_sorted_descending_permutation(front);
        lemma_insert_descending_permutation(sorted_descending(front), items.last());
        to_multiset_build(front, items.last());
        assert(front.push(items.last()) =~= items);
    }
}

/// The sorted sequence is in descending order of distance.
pub proof fn lemma_sorted_descending_ordered(items: Seq<Diff>)
    ensures
        forall|i: int, j: int|
            0 <= i <= j < sorted_descending(items).len() ==> (#[trigger] sorted_descending(
                items,
            )[i]).diff >= (#[trigger] sorted_descending(items)[j]).diff,
    decreases items.len(),
{
    if items.len() > 0 {
        lemma_sorted_descending_ordered(items.drop_last());
        lemma_insert_descending_ordered(sorted_descending(items.drop_last()), items.last());
    }
}

/// Putting an item into a descending sequence leaves it descending.
proof fn lemma_insert_descending_ordered(sorted: Seq<Diff>, d: Diff)
    requires
        forall|i: int, j: int|
            0 <= i <= j < sorted.len() ==> (#[trigger] sorted[i]).diff >= (
            #[trigger] sorted[j]).diff,
    ensures
        forall|i: int, j: int|
            0 <= i <= j < insert_descending(sorted, d).len() ==> (#[trigger] insert_descending(
                sorted,
                d,
            )[i]).diff >= (#[trigger] insert_descending(sorted, d)[j]).diff,
        insert_descending(sorted, d).len() == sorted.len() + 1,
        forall|i: int|
            0 <= i < sorted.len() + 1 ==> (#[trigger] insert_descending(sorted, d)[i]).diff
                >= d.diff || insert_descending(sorted, d)[i].diff >= sorted[sorted.len() - 1].diff,
    decreases sorted.len(),
{
    if sorted.len() > 0 && sorted.last().diff < d.diff {
        let front = sorted.drop_last();
        lemma_insert_descending_ordered(front, d);
    }
}

/// Sorts by distance, the greatest first; items of equal distance keep their order.
fn sort_descending(items: &Vec<Diff>) -> (sorted: Vec<Diff>)
    ensures
        sorted@ == sorted_descending(items@),
{
    let mut sorted: Vec<Diff> = Vec::new();
    let mut i: usize = 0;
    while i < items.len()
        invariant
            i <= items@.len(),
            sorted@ == sorted_descending(items@.take(i as int)),
            sorted@.len() == i,
        decreases items@.len() - i,
    {
        let d = items[i];
        let mut pos: usize = sorted.len();
        while pos > 0 && sorted[pos - 1].diff < d.diff
            invariant
                pos <= sorted@.len(),
                forall|q: int| pos <= q < sorted@.len() ==> (#[trigger] sorted@[q]).diff < d.diff,
            decreases pos,
        {
            pos -= 1;
        }
        proof {
            lemma_insert_descending(sorted@, d, pos as int);
            assert(items@.take(i + 1).drop_last() =~= items@.take(i as int));
        }
        sorted.insert(pos, d);
        i += 1;
    }
    assert(items@.take(items@.len() as int) =~= items@);
    sorted
}

/// The element of cluster `cluster` that lies farthest from its centroid.
fn farthest_of(cluster: usize, elements: &Vec<Assignment>) -> (worst: Diff)
    requires
        elements@.len() > 0,
    ensures
        worst == farthest(cluster as int, elements@),
        worst.position < elements@.len(),
{
    let ghost ds = diffs_of(elements@);
    let mut best: usize = 0;
    let mut k: usize = 1;
    while k < elements.len()
        invariant
            1 <= k <= elements@.len(),
            best < k,
            ds == diffs_of(elements@),
            forall|q: int| 0 <= q < k ==> #[trigger] ds[q] <= ds[best as int],
            forall|q: int| best < q < k ==> #[trigger] ds[q] < ds[best as int],
        decreases elements@.len() - k,
    {
        if elements[k].diff >= elements[best].diff {
            best = k;
        }
        k += 1;
    }
    proof {
        lemma_last_max_is(ds, best as int);
    }
    Diff { cluster, position: best, index: elements[best].index, diff: elements[best].diff }
}

/// The farthest elements of the clusters that hold two elements or more,
/// the farthest of them first.
pub fn get_highest_deviations_by_cluster<T: View>(clusters: &Vec<Cluster<T>>) -> (max_diffs: Vec<
    Diff,
>)
    ensures
        max_diffs@ == highest_deviations(views(clusters@)),
{
    let ghost cs = views(clusters@);
    let mut max_diffs: Vec<Diff> = Vec::new();
    let mut j: usize = 0;
    while j < clusters.len()
        invariant
            j <= clusters@.len(),
            cs == views(clusters@),
            max_diffs@ == deviations(cs.take(j as int)),
        decreases clusters@.len() - j,
    {
        proof {
            assert(cs.take(j + 1).drop_last() =~= cs.take(j as int));
        }
        if clusters[j].elements.len() >= 2 {
            let max = farthest_of(j, &clusters[j].elements);
            max_diffs.push(max);
        }
        j += 1;
    }
    assert(cs.take(clusters@.len() as int) =~= cs);
    sort_descending(&max_diffs)
}

/// `d` is the farthest element of a cluster of two elements or more.
pub open spec fn is_donor<V>(clusters: Seq<ClusterView<V>>, d: Diff) -> bool {
    &&& d.cluster < clusters.len()
    &&& clusters[d.cluster as int].elements.len() >= 2
    &&& d == farthest(d.cluster as int, clusters[d.cluster as int].elements)
    &&& 0 <= farthest_position(clusters[d.cluster as int].elements)
        < clusters[d.cluster as int].elements.len()
}

/// No two items come from one cluster.
pub open spec fn from_different_clusters(items: Seq<Diff>) -> bool {
    forall|a: int, b: int|
        0 <= a < b < items.len() ==> (#[trigger] items[a]).cluster != (#[trigger] items[b]).cluster
}

/// Putting in an item of a new cluster keeps the clusters different.
proof fn lemma_insert_descending_different(sorted: Seq<Diff>, d: Diff)
    requires
        from_different_clusters(sorted),
        forall|i: int| 0 <= i < sorted.len() ==> (#[trigger] sorted[i]).cluster != d.cluster,
    ensures
        from_different_clusters(insert_descending(sorted, d)),
    decreases sorted.len(),
{
    if sorted.len() > 0 && sorted.last().diff < d.diff {
        let front = sorted.drop_last();
        let last = sorted.last();
        assert forall|a: int, b: int| 0 <= a < b < front.len() implies (#[trigger] front[a]).cluster
            != (#[trigger] front[b]).cluster by {
            assert(sorted[a].cluster != sorted[b].cluster);
        }
        assert forall|i: int| 0 <= i < front.len() implies (#[trigger] front[i]).cluster
            != d.cluster by {
            assert(sorted[i].cluster != d.cluster);
        }
        lemma_insert_descending_different(front, d);
        let other = |x: Diff| x.cluster != last.cluster;
        assert forall|i: int| 0 <= i < front.len() implies other(#[trigger] front[i]) by {
            assert(sorted[i].cluster != sorted[sorted.len() - 1].cluster);
        }
        assert(other(d)) by {
            assert(sorted[sorted.len() - 1].cluster != d.cluster);
        }
        lemma_insert_descending_keeps(front, d, other);
        let inner = insert_descending(front, d);
        let out = insert_descending(sorted, d);
        assert(out == inner.push(last));
        assert forall|a: int, b: int| 0 <= a < b < out.len() implies (#[trigger] out[a]).cluster
            != (#[trigger] out[b]).cluster by {
            if b < inner.len() {
                assert(inner[a].cluster != inner[b].cluster);
            } else {
                assert(other(inner[a]));
            }
        }
    } else {
        let out = insert_descending(sorted, d);
        assert(out == sorted.push(d));
    }
}

/// Sorting keeps the clusters of the items different.
proof fn lemma_sorted_descending_different(items: Seq<Diff>)
    requires
        from_different_clusters(items),
    ensures
        from_different_clusters(sorted_descending(items)),
    decreases items.len(),
{
    if items.len() > 0 {
        let front = items.drop_last();
        let last = items.last();
        assert forall|a: int, b: int| 0 <= a < b < front.len() implies (#[trigger] front[a]).cluster
            != (#[trigger] front[b]).cluster by {
            assert(items[a].cluster != items[b].cluster);
        }
        lemma_sorted_descending_different(front);
        let other = |x: Diff| x.cluster != last.cluster;
        assert forall|i: int| 0 <= i < front.len() implies other(#[trigger] front[i]) by {
            assert(items[i].cluster != items[items.len() - 1].cluster);
        }
        lemma_sorted_descending_keeps(front, other);
        assert forall|i: int| 0 <= i < sorted_descending(front).len() implies (
        #[trigger] sorted_descending(front)[i]).cluster != last.cluster by {
            assert(other(sorted_descending(front)[i]));
        }
        lemma_insert_descending_different(sorted_descending(front), last);
    }
}

/// The farthest elements are what their name says: each is the farthest
/// element of a cluster of two elements or more, and no two come from one
/// cluster.
pub proof fn lemma_donors<V>(clusters: Seq<ClusterView<V>>)
    requires
        clusters.len() <= usize::MAX,
    ensures
        forall|r: int|
            0 <= r < deviations(clusters).len() ==> is_donor(
                clusters,
                #[trigger] deviations(clusters)[r],
            ),
        from_different_clusters(deviations(clusters)),
        forall|r: int|
            0 <= r < highest_deviations(clusters).len() ==> is_donor(
                clusters,
                #[trigger] highest_deviations(clusters)[r],
            ),
        from_different_clusters(highest_deviations(clusters)),
    decreases clusters.len(),
{
    if clusters.len() > 0 {
        let front = clusters.drop_last();
        lemma_donors(front);
        let rest = deviations(front);
        let all = deviations(clusters);
        let last = clusters.last().elements;
        if last.len() >= 2 {
            lemma_last_max_exists(diffs_of(last));
        }
        assert forall|r: int| 0 <= r < all.len() implies is_donor(clusters, #[trigger] all[r]) by {
            if r < rest.len() {
                assert(all[r] == rest[r]);
                assert(is_donor(front, rest[r]));
                assert(front[rest[r].cluster as int] == clusters[rest[r].cluster as int]);
            } else {
                let d = farthest(clusters.len() - 1, last);
                assert(all[r] == d);
                assert(is_last_max(diffs_of(last), farthest_position(last)));
                assert(clusters[d.cluster as int].elements == last);
            }
        }
        assert forall|a: int, b: int| 0 <= a < b < all.len() implies (#[trigger] all[a]).cluster
            != (#[trigger] all[b]).cluster by {
            assert(all[a] == rest[a]);
            assert(is_donor(front, rest[a]));
            if b < rest.len() {
                assert(all[b] == rest[b]);
                assert(rest[a].cluster != rest[b].cluster);
            }
        }
    }
    lemma_sorted_descending_keeps(deviations(clusters), |d: Diff| is_donor(clusters, d));
    lemma_sorted_descending_different(deviations(clusters));
}

/// The count of empty clusters grows with the position.
proof fn lemma_empties_before_monotone<V>(clusters: Seq<ClusterView<V>>, i: int, j: int)
    requires
        0 <= i <= j,
    ensures
        empties_before(clusters, i) <= empties_before(clusters, j),
        i < j && clusters[i].elements.len() == 0 ==> empties_before(clusters, i)
            < empties_before(clusters, j),
    decreases j - i,
{
    if i < j {
        lemma_empties_before_monotone(clusters, i, j - 1);
    }
}

/// Fills empty clusters with the elements that lie farthest from their
/// centroids, unless the approximation is perfect, which is the result.
/// An element that fills an empty cluster leaves the cluster it was in.
pub fn fill_empty_clusters<T: View, C: KmeansContext<T>>(
    context: &C,
    clusters: &mut Vec<Cluster<T>>,
    elements: &Vec<T>,
) -> (done: bool)
    requires
        indices_below(views(old(clusters)@), elements@.len() as nat),
        all_accepted::<T, C>(context, views(elements@)),
    ensures
        done == perfect(views(old(clusters)@)),
        done ==> views(final(clusters)@) == views(old(clusters)@),
        !done ==> views(final(clusters)@) == repaired::<T, C>(
            context,
            views(old(clusters)@),
            views(elements@),
        ),
        centroids_accepted::<T, C>(context, views(old(clusters)@)) ==> centroids_accepted::<T, C>(
            context,
            views(final(clusters)@),
        ),
        is_partition(views(old(clusters)@), elements@.len()) ==> is_partition(
            views(final(clusters)@),
            elements@.len(),
        ),
{
    let ghost before = views(clusters@);
    let ghost es = views(elements@);
    let max_diffs = get_highest_deviations_by_cluster(clusters);
    if max_diffs.len() > 0 && max_diffs[0].diff == 0 {
        return true;
    }
    proof {
        assert(clusters@.len() == clusters.len());
        lemma_donors(before);
    }
    let mut next: usize = 0;
    let mut j: usize = 0;
    while j < clusters.len() && next < max_diffs.len()
        invariant
            j <= clusters@.len(),
            clusters@.len() == before.len(),
            before.len() <= usize::MAX,
            before == views(old(clusters)@),
            es == views(elements@),
            max_diffs@ == highest_deviations(before),
            all_accepted::<T, C>(context, es),
            indices_below(before, elements@.len() as nat),
            forall|r: int| 0 <= r < max_diffs@.len() ==> is_donor(before, #[trigger] max_diffs@[r]),
            from_different_clusters(max_diffs@),
            next <= max_diffs@.len(),
            next == empties_before(before, j as int),
            forall|q: int|
                0 <= q < before.len() ==> (#[trigger] clusters@[q])@ == repaired_until::<T, C>(
                    context,
                    before,
                    es,
                    j as int,
                    next as int,
                )[q],
            forall|q: int|
                0 <= q < j && before[q].elements.len() == 0 ==> context.accepts(
                    (#[trigger] clusters@[q]).centroid@,
                ),
        decreases clusters@.len() - j,
    {
        let ghost current = clusters@;
        proof {
            lemma_giver_stays(before, j as int, next as int);
        }
        if clusters[j].elements.len() == 0 {
            let donor = max_diffs[next];
            proof {
                assert(is_donor(before, max_diffs@[next as int]));
                assert(clusters@[donor.cluster as int].elements@.len()
                    == clusters@[donor.cluster as int].elements.len());
                assert(donor.position == farthest_position(
                    before[donor.cluster as int].elements,
                ));
                lemma_gives_among_next(before, donor.cluster as int, next as int);
                if gives_among(before, donor.cluster as int, next as int) {
                    let r = choose|r: int|
                        0 <= r < next && (#[trigger] highest_deviations(before)[r]).cluster
                            == donor.cluster;
                    assert(max_diffs@[r].cluster != max_diffs@[next as int].cluster);
                }
                assert(current[donor.cluster as int]@ == before[donor.cluster as int]);
            }
            clusters[j].elements.push(Assignment { index: donor.index, diff: 0 });
            proof {
                assert(clusters@[j as int].elements@ =~= seq![
                    Assignment { index: donor.index, diff: 0 },
                ]);
                assert(members(es, clusters@[j as int].elements@) =~= seq![
                    es[donor.index as int],
                ]);
            }
            let centroid = recalculate_centroid(&clusters[j].elements, elements, context);
            clusters[j].centroid = centroid;
            let ghost filled = clusters@;
            clusters[donor.cluster].elements.remove(donor.position);
            proof {
                assert forall|q: int| 0 <= q < before.len() implies (#[trigger] clusters@[q])@
                    == repaired_until::<T, C>(context, before, es, j + 1, next + 1)[q] by {
                    lemma_gives_among_next(before, q, next as int);
                    if q == j {
                        assert(is_filled(before, q));
                        assert(clusters@[q] == filled[q]);
                    } else if q == donor.cluster {
                        assert(filled[q] == current[q]);
                        assert(clusters@[q].elements@ == before[q].elements.remove(
                            donor.position as int,
                        ));
                        assert(clusters@[q]@ == without_farthest(before[q]));
                    } else {
                        assert(clusters@[q] == current[q]);
                    }
                }
            }
            next += 1;
        } else {
            proof {
                assert forall|q: int| 0 <= q < before.len() implies (#[trigger] clusters@[q])@
                    == repaired_until::<T, C>(context, before, es, j + 1, next as int)[q] by {
                    assert(clusters@[q] == current[q]);
                }
            }
        }
        j += 1;
    }
    proof {
        lemma_empties_before_monotone(before, j as int, before.len() as int);
        assert forall|q: int| 0 <= q < before.len() implies (#[trigger] clusters@[q])@
            == repaired::<T, C>(context, before, es)[q] by {
            if q >= j {
                lemma_empties_before_monotone(before, j as int, q);
            }
        }
        assert(views(clusters@) =~= repaired::<T, C>(context, before, es));
        if is_partition(before, elements@.len()) {
            lemma_repaired_is_partition::<T, C>(context, before, es, elements@.len());
        }
        if centroids_accepted::<T, C>(context, before) {
            assert forall|q: int| 0 <= q < clusters@.len() implies context.accepts(
                (#[trigger] views(clusters@)[q]).centroid,
            ) by {
                if q < j && before[q].elements.len() == 0 {
                    assert(context.accepts(clusters@[q].centroid@));
                } else {
                    assert(views(clusters@)[q].centroid == before[q].centroid);
                }
            }
        }
    }
    false
}

/// A cluster that gave its farthest element away was no empty cluster,
/// and is none after it.
proof fn lemma_giver_stays<V>(clusters: Seq<ClusterView<V>>, q: int, count: int)
    requires
        clusters.len() <= usize::MAX,
        0 <= q < clusters.len(),
        0 <= count <= highest_deviations(clusters).len(),
    ensures
        gives_among(clusters, q, count) ==> clusters[q].elements.len() >= 2 && without_farthest(
            clusters[q],
        ).elements.len() == clusters[q].elements.len() - 1,
{
    lemma_donors(clusters);
    if gives_among(clusters, q, count) {
        let r = choose|r: int|
            0 <= r < count && (#[trigger] highest_deviations(clusters)[r]).cluster == q;
        assert(is_donor(clusters, highest_deviations(clusters)[r]));
    }
}

/// Whether a cluster gives among the first `count + 1` farthest elements:
/// it gives among the first `count`, or the next one is its own.
proof fn lemma_gives_among_next<V>(clusters: Seq<ClusterView<V>>, q: int, count: int)
    requires
        0 <= count < highest_deviations(clusters).len(),
    ensures
        gives_among(clusters, q, count + 1) <==> gives_among(clusters, q, count)
            || highest_deviations(clusters)[count].cluster == q,
{
    let donors = highest_deviations(clusters);
    if gives_among(clusters, q, count + 1) {
        let r = choose|r: int| 0 <= r < count + 1 && (#[trigger] donors[r]).cluster == q;
        if r < count {
            assert(gives_among(clusters, q, count));
        }
    }
    if gives_among(clusters, q, count) {
        let r = choose|r: int| 0 <= r < count && (#[trigger] donors[r]).cluster == q;
        assert(donors[r].cluster == q);
    }
    if donors[count].cluster == q {
        assert(gives_among(clusters, q, count + 1));
    }
}

/// `seeds` is a possible start of an optimization with `k` clusters:
/// `k` clusters without elements, each with a centroid that the context
/// accepts and may seed it with.
pub open spec fn is_seeding<T: View, C: KmeansContext<T>>(
    context: &C,
    seeds: Seq<ClusterView<T::V>>,
    k: nat,
) -> bool {
    &&& seeds.len() == k
    &&& centroids_accepted::<T, C>(context, seeds)
    &&& forall|j: int| 0 <= j < k ==> context.is_seed(j as usize, (#[trigger] seeds[j]).centroid)
    &&& forall|j: int| 0 <= j < k ==> (#[trigger] seeds[j]).elements.len() == 0
}

/// `k` clusters without elements, each with the centroid that the context
/// seeds it with.
pub fn initialize_clusters<T: View, C: KmeansContext<T>>(context: &C, k: usize) -> (clusters: Vec<
    Cluster<T>,
>)
    ensures
        clusters@.len() == k,
        is_seeding::<T, C>(context, views(clusters@), k as nat),
{
    let mut clusters: Vec<Cluster<T>> = Vec::with_capacity(k);
    let mut i: usize = 0;
    while i < k
        invariant
            i <= k,
            clusters@.len() == i,
            forall|j: int| 0 <= j < i ==> context.accepts((#[trigger] clusters@[j]).centroid@),
            forall|j: int|
                0 <= j < i ==> context.is_seed(j as usize, (#[trigger] clusters@[j]).centroid@),
            forall|j: int| 0 <= j < i ==> (#[trigger] clusters@[j]).elements@.len() == 0,
        decreases k - i,
    {
        let c = Cluster { centroid: context.initialize_centroid(i), elements: Vec::new() };
        clusters.push(c);
        i += 1;
    }
    clusters
}

/// Elements assigned from the first `m` elements name elements below `m`.
pub proof fn lemma_assigned_indices<T: View, C: KmeansContext<T>>(
    context: &C,
    centroids: Seq<T::V>,
    elements: Seq<T::V>,
    m: nat,
    j: int,
)
    requires
        m <= usize::MAX,
    ensures
        forall|k: int|
            0 <= k < assigned::<T, C>(context, centroids, elements, m, j).len() ==> (
            #[trigger] assigned::<T, C>(context, centroids, elements, m, j)[k]).index < m,
    decreases m,
{
    if m > 0 {
        lemma_assigned_indices::<T, C>(context, centroids, elements, (m - 1) as nat, j);
        assert(assigned::<T, C>(context, centroids, elements, m, j).len() >= assigned::<T, C>(
            context,
            centroids,
            elements,
            (m - 1) as nat,
            j,
        ).len());
    }
}

/// Refines `clusters` for at most `max_iterations` iterations.
///
/// Each iteration assigns every element to the nearest cluster and computes
/// the centroids anew. Every `fill_empty_clusters_every_nth_iteration`
/// iterations the empty clusters are filled, unless the approximation is
/// perfect, which ends the optimization, as the context's stop criterion does.
pub fn optimize<T: View, C: KmeansContext<T>>(
    context: &C,
    clusters: Vec<Cluster<T>>,
    elements: &Vec<T>,
    max_iterations: u32,
    fill_empty_clusters_every_nth_iteration: u32,
) -> (result: Vec<Cluster<T>>)
    requires
        clusters@.len() > 0,
        fill_empty_clusters_every_nth_iteration > 0,
        centroids_accepted::<T, C>(context, views(clusters@)),
        all_accepted::<T, C>(context, views(elements@)),
    ensures
        views(result@) == run::<T, C>(
            context,
            views(clusters@),
            views(elements@),
            0,
            max_iterations,
            fill_empty_clusters_every_nth_iteration,
        ),
        result@.len() == clusters@.len(),
        centroids_accepted::<T, C>(context, views(result@)),
        max_iterations > 0 ==> is_partition(views(result@), elements@.len()),
{
    let ghost start = views(clusters@);
    let ghost es = views(elements@);
    let every = fill_empty_clusters_every_nth_iteration;
    let mut working = clusters;
    let mut i: u32 = 0;
    assert(elements@.len() == elements.len());
    proof {
        assert(clusters@.len() == clusters.len());
        if max_iterations > 0 {
            lemma_run_is_partition::<T, C>(context, start, es, 0, max_iterations, every);
        }
    }
    while i < max_iterations
        invariant
            i <= max_iterations,
            max_iterations > 0 ==> is_partition(
                run::<T, C>(context, start, es, 0, max_iterations, every),
                es.len(),
            ),
            every > 0,
            every == fill_empty_clusters_every_nth_iteration,
            working@.len() == start.len(),
            start == views(clusters@),
            start.len() == clusters@.len(),
            start.len() > 0,
            es == views(elements@),
            es.len() <= usize::MAX,
            centroids_accepted::<T, C>(context, views(working@)),
            all_accepted::<T, C>(context, es),
            run::<T, C>(context, views(working@), es, i, max_iterations, every) == run::<T, C>(
                context,
                start,
                es,
                0,
                max_iterations,
                every,
            ),
        decreases max_iterations - i,
    {
        reset_cluster_assignments(&mut working);
        let ghost emptied = views(working@);
        reassign_elements(context, &mut working, elements);
        proof {
            assert forall|j: int, k: int|
                0 <= j < views(working@).len() && 0 <= k < views(working@)[j].elements.len() implies (
            #[trigger] views(working@)[j].elements[k]).index < elements@.len() by {
                lemma_assigned_indices::<T, C>(context, centroids(emptied), es, es.len(), j);
            }
        }
        recalculate_centroids(context, &mut working, elements);
        if i % every == 0 {
            if fill_empty_clusters(context, &mut working, elements) {
                // perfect approximation reached
                return working;
            }
        }
        proof {
            assert forall|j: int| 0 <= j < working@.len() implies context.accepts(
                (#[trigger] working@[j]).centroid@,
            ) by {
                assert(context.accepts(views(working@)[j].centroid));
            }
        }
        let stop = context.iteration_callback(i, &working);
        if stop {
            return working;
        }
        i += 1;
    }
    working
}

/// Groups `elements` into `k` clusters: seeds `k` centroids with the
/// context and refines them with [`optimize`].
pub fn kmeans<T: View, C: KmeansContext<T>>(
    context: &C,
    k: usize,
    elements: &Vec<T>,
    max_iterations: u32,
    fill_empty_clusters_every_nth_iteration: u32,
) -> (clusters: Vec<Cluster<T>>)
    requires
        k > 0,
        fill_empty_clusters_every_nth_iteration > 0,
        all_accepted::<T, C>(context, views(elements@)),
    ensures
        clusters@.len() == k,
        centroids_accepted::<T, C>(context, views(clusters@)),
        max_iterations > 0 ==> is_partition(views(clusters@), elements@.len()),
        exists|seeds: Seq<ClusterView<T::V>>|
            #[trigger] is_seeding::<T, C>(context, seeds, k as nat) && views(clusters@) == run::<
                T,
                C,
            >(
                context,
                seeds,
                views(elements@),
                0,
                max_iterations,
                fill_empty_clusters_every_nth_iteration,
            ),
{
    let clusters = initialize_clusters(context, k);
    optimize(context, clusters, elements, max_iterations, fill_empty_clusters_every_nth_iteration)
}

/// Every assignment that cluster `j` receives names an element whose
/// nearest cluster is `j`, and records the distance of that element to the
/// centroid of `j`, which is its least distance to any centroid.
pub proof fn lemma_assigned_nearest<T: View, C: KmeansContext<T>>(
    context: &C,
    centroids: Seq<T::V>,
    elements: Seq<T::V>,
    m: nat,
    j: int,
)
    requires
        m <= usize::MAX,
        m <= elements.len(),
        centroids.len() > 0,
    ensures
        forall|k: int|
            0 <= k < assigned::<T, C>(context, centroids, elements, m, j).len() ==> {
                let a = #[trigger] assigned::<T, C>(context, centroids, elements, m, j)[k];
                &&& a.index < m
                &&& 0 <= j < centroids.len()
                &&& nearest::<T, C>(context, centroids, elements[a.index as int]) == j
                &&& a.diff == context.distance(centroids[j], elements[a.index as int])
                &&& forall|q: int|
                    0 <= q < centroids.len() ==> a.diff <= #[trigger] context.distance(
                        centroids[q],
                        elements[a.index as int],
                    )
            },
    decreases m,
{
    if m > 0 {
        lemma_assigned_nearest::<T, C>(context, centroids, elements, (m - 1) as nat, j);
        let rest = assigned::<T, C>(context, centroids, elements, (m - 1) as nat, j);
        let all = assigned::<T, C>(context, centroids, elements, m, j);
        let element = elements[m - 1];
        let ds = distances::<T, C>(context, centroids, element);
        lemma_first_min_exists(ds);
        assert forall|k: int| 0 <= k < all.len() implies {
            let a = #[trigger] all[k];
            &&& a.index < m
            &&& 0 <= j < centroids.len()
            &&& nearest::<T, C>(context, centroids, elements[a.index as int]) == j
            &&& a.diff == context.distance(centroids[j], elements[a.index as int])
            &&& forall|q: int|
                0 <= q < centroids.len() ==> a.diff <= #[trigger] context.distance(
                    centroids[q],
                    elements[a.index as int],
                )
        } by {
            if k >= rest.len() {
                assert forall|q: int| 0 <= q < centroids.len() implies all[k].diff
                    <= #[trigger] context.distance(centroids[q], element) by {
                    assert(ds[j] <= ds[q]);
                }
            }
        }
    }
}

/// Where no element lies away from its centroid, no farthest element does.
proof fn lemma_deviations_zero<V>(clusters: Seq<ClusterView<V>>)
    requires
        forall|j: int, k: int|
            0 <= j < clusters.len() && 0 <= k < clusters[j].elements.len() ==> (
            #[trigger] clusters[j].elements[k]).diff == 0,
    ensures
        forall|i: int|
            0 <= i < deviations(clusters).len() ==> (#[trigger] deviations(clusters)[i]).diff == 0,
        (exists|j: int| 0 <= j < clusters.len() && (#[trigger] clusters[j]).elements.len() >= 2)
            ==> deviations(clusters).len() > 0,
    decreases clusters.len(),
{
    if clusters.len() > 0 {
        let front = clusters.drop_last();
        lemma_deviations_zero(front);
        let last = clusters.last().elements;
        if last.len() >= 2 {
            lemma_last_max_exists(diffs_of(last));
        }
        if exists|j: int| 0 <= j < clusters.len() && (#[trigger] clusters[j]).elements.len() >= 2 {
            let j = choose|j: int|
                0 <= j < clusters.len() && (#[trigger] clusters[j]).elements.len() >= 2;
            if j < front.len() {
                assert(front[j].elements.len() >= 2);
            }
        }
    }
}

/// Some centroid lies at distance 0 from `element`.
pub open spec fn has_exact_centroid<T: View, C: KmeansContext<T>>(
    context: &C,
    clusters: Seq<ClusterView<T::V>>,
    element: T::V,
) -> bool {
    exists|j: int|
        0 <= j < clusters.len() && context.distance((#[trigger] clusters[j]).centroid, element) == 0
}

/// A perfect tiling ends the optimization.
///
/// If, at the start of an iteration in which the empty clusters are due
/// to be filled, every element is at distance 0 from some centroid, and
/// some cluster is the nearest of two elements or more, then that
/// iteration finds the approximation perfect: it is the last that is
/// carried out, however many are allowed, and the optimization returns the
/// clusters as they are after the assignment and the computation of the
/// centroids.
pub proof fn lemma_perfect_tiling_stops<T: View, C: KmeansContext<T>>(
    context: &C,
    clusters: Seq<ClusterView<T::V>>,
    elements: Seq<T::V>,
    i: u32,
    max_iterations: u32,
    every: u32,
)
    requires
        clusters.len() > 0,
        elements.len() <= usize::MAX,
        i < max_iterations,
        every > 0,
        i % every == 0,
        forall|e: int|
            0 <= e < elements.len() ==> #[trigger] has_exact_centroid::<T, C>(
                context,
                clusters,
                elements[e],
            ),
        exists|j: int|
            0 <= j < clusters.len() && (#[trigger] assigned::<T, C>(
                context,
                centroids(clusters),
                elements,
                elements.len(),
                j,
            )).len() >= 2,
    ensures
        step::<T, C>(context, clusters, elements, i, every).1,
        perfect(step::<T, C>(context, clusters, elements, i, every).0),
        run::<T, C>(context, clusters, elements, i, max_iterations, every) == recentered::<T, C>(
            context,
            reassigned::<T, C>(context, cleared(clusters), elements),
            elements,
        ),
        iterations::<T, C>(context, clusters, elements, i, max_iterations, every) == 1,
{
    let empty = cleared(clusters);
    let cents = centroids(clusters);
    assert(centroids(empty) =~= cents);
    let filled = reassigned::<T, C>(context, empty, elements);
    let centered = recentered::<T, C>(context, filled, elements);
    assert forall|j: int, k: int|
        0 <= j < centered.len() && 0 <= k < centered[j].elements.len() implies (
    #[trigger] centered[j].elements[k]).diff == 0 by {
        let list = assigned::<T, C>(context, cents, elements, elements.len(), j);
        lemma_assigned_nearest::<T, C>(context, cents, elements, elements.len(), j);
        let a = list[k];
        let element = elements[a.index as int];
        assert(has_exact_centroid::<T, C>(context, clusters, elements[a.index as int]));
        let q = choose|q: int|
            0 <= q < clusters.len() && context.distance((#[trigger] clusters[q]).centroid, element)
                == 0;
        assert(a.diff <= context.distance(cents[q], element));
    }
    lemma_deviations_zero(centered);
    let witness = choose|j: int|
        0 <= j < clusters.len() && (#[trigger] assigned::<T, C>(
            context,
            cents,
            elements,
            elements.len(),
            j,
        )).len() >= 2;
    assert(centered[witness].elements.len() >= 2);
    let zero = |d: Diff| d.diff == 0;
    lemma_sorted_descending_keeps(deviations(centered), zero);
}

/// The number of assignments that the clusters before cluster `j` receive
/// from the first `m` elements.
pub open spec fn assigned_before<T: View, C: KmeansContext<T>>(
    context: &C,
    centroids: Seq<T::V>,
    elements: Seq<T::V>,
    m: nat,
    j: int,
) -> int
    decreases j,
{
    if j <= 0 {
        0
    } else {
        assigned_before::<T, C>(context, centroids, elements, m, j - 1) + assigned::<T, C>(
            context,
            centroids,
            elements,
            m,
            j - 1,
        ).len()
    }
}

/// One more element adds one assignment, to the cluster nearest to it.
proof fn lemma_assigned_before_step<T: View, C: KmeansContext<T>>(
    context: &C,
    centroids: Seq<T::V>,
    elements: Seq<T::V>,
    m: nat,
    j: int,
)
    requires
        m > 0,
        0 <= j,
    ensures
        assigned_before::<T, C>(context, centroids, elements, m, j) == assigned_before::<T, C>(
            context,
            centroids,
            elements,
            (m - 1) as nat,
            j,
        ) + if 0 <= nearest::<T, C>(context, centroids, elements[m - 1]) < j {
            1int
        } else {
            0int
        },
    decreases j,
{
    if j > 0 {
        lemma_assigned_before_step::<T, C>(context, centroids, elements, m, j - 1);
    }
}

/// The clusters together receive as many assignments as there are
/// elements: one for every element.
pub proof fn lemma_assigned_partition<T: View, C: KmeansContext<T>>(
    context: &C,
    centroids: Seq<T::V>,
    elements: Seq<T::V>,
    m: nat,
)
    requires
        centroids.len() > 0,
    ensures
        assigned_before::<T, C>(context, centroids, elements, m, centroids.len() as int) == m,
    decreases m,
{
    if m == 0 {
        lemma_assigned_before_none::<T, C>(context, centroids, elements, centroids.len() as int);
    } else {
        lemma_assigned_partition::<T, C>(context, centroids, elements, (m - 1) as nat);
        lemma_assigned_before_step::<T, C>(
            context,
            centroids,
            elements,
            m,
            centroids.len() as int,
        );
        lemma_first_min_exists(distances::<T, C>(context, centroids, elements[m - 1]));
    }
}

/// Without elements nothing is assigned.
proof fn lemma_assigned_before_none<T: View, C: KmeansContext<T>>(
    context: &C,
    centroids: Seq<T::V>,
    elements: Seq<T::V>,
    j: int,
)
    ensures
        assigned_before::<T, C>(context, centroids, elements, 0, j) == 0,
    decreases j,
{
    if j > 0 {
        lemma_assigned_before_none::<T, C>(context, centroids, elements, j - 1);
    }
}

/// Clusters that hold one element at most hold no more elements than
/// there are clusters.
proof fn lemma_assigned_before_bound<T: View, C: KmeansContext<T>>(
    context: &C,
    centroids: Seq<T::V>,
    elements: Seq<T::V>,
    m: nat,
    j: int,
)
    requires
        0 <= j,
        forall|q: int|
            0 <= q < j ==> (#[trigger] assigned::<T, C>(context, centroids, elements, m, q)).len()
                <= 1,
    ensures
        assigned_before::<T, C>(context, centroids, elements, m, j) <= j,
    decreases j,
{
    if j > 0 {
        lemma_assigned_before_bound::<T, C>(context, centroids, elements, m, j - 1);
    }
}

/// Of more elements than clusters, two go to one cluster.
pub proof fn lemma_crowded_cluster<T: View, C: KmeansContext<T>>(
    context: &C,
    centroids: Seq<T::V>,
    elements: Seq<T::V>,
)
    requires
        0 < centroids.len() < elements.len(),
    ensures
        exists|j: int|
            0 <= j < centroids.len() && (#[trigger] assigned::<T, C>(
                context,
                centroids,
                elements,
                elements.len(),
                j,
            )).len() >= 2,
{
    lemma_assigned_partition::<T, C>(context, centroids, elements, elements.len());
    if forall|q: int|
        0 <= q < centroids.len() ==> (#[trigger] assigned::<T, C>(
            context,
            centroids,
            elements,
            elements.len(),
            q,
        )).len() <= 1 {
        lemma_assigned_before_bound::<T, C>(
            context,
            centroids,
            elements,
            elements.len(),
            centroids.len() as int,
        );
    }
}

/// A perfect tiling of more elements than clusters ends the optimization.
///
/// If, at the start of an iteration in which the empty clusters are due
/// to be filled, every element is at distance 0 from some centroid, and
/// there are more elements than clusters, that iteration is the last that
/// is carried out, however many are allowed.
pub proof fn lemma_perfect_tiling_of_many_stops<T: View, C: KmeansContext<T>>(
    context: &C,
    clusters: Seq<ClusterView<T::V>>,
    elements: Seq<T::V>,
    i: u32,
    max_iterations: u32,
    every: u32,
)
    requires
        0 < clusters.len() < elements.len() <= usize::MAX,
        i < max_iterations,
        every > 0,
        i % every == 0,
        forall|e: int|
            0 <= e < elements.len() ==> #[trigger] has_exact_centroid::<T, C>(
                context,
                clusters,
                elements[e],
            ),
    ensures
        perfect(run::<T, C>(context, clusters, elements, i, max_iterations, every)),
        run::<T, C>(context, clusters, elements, i, max_iterations, every) == recentered::<T, C>(
            context,
            reassigned::<T, C>(context, cleared(clusters), elements),
            elements,
        ),
        iterations::<T, C>(context, clusters, elements, i, max_iterations, every) == 1,
{
    lemma_crowded_cluster::<T, C>(context, centroids(clusters), elements);
    lemma_perfect_tiling_stops::<T, C>(context, clusters, elements, i, max_iterations, every);
}

/// Every element is assigned to the cluster nearest to it.
pub proof fn lemma_element_is_assigned<T: View, C: KmeansContext<T>>(
    context: &C,
    centroids: Seq<T::V>,
    elements: Seq<T::V>,
    m: nat,
    i: int,
)
    requires
        0 <= i < m <= usize::MAX,
    ensures
        exists|k: int|
            0 <= k < assigned::<T, C>(
                context,
                centroids,
                elements,
                m,
                nearest::<T, C>(context, centroids, elements[i]),
            ).len() && (#[trigger] assigned::<T, C>(
                context,
                centroids,
                elements,
                m,
                nearest::<T, C>(context, centroids, elements[i]),
            )[k]).index == i,
    decreases m,
{
    let j = nearest::<T, C>(context, centroids, elements[i]);
    let all = assigned::<T, C>(context, centroids, elements, m, j);
    let rest = assigned::<T, C>(context, centroids, elements, (m - 1) as nat, j);
    if i == m - 1 {
        assert(all[rest.len() as int].index == i);
    } else {
        lemma_element_is_assigned::<T, C>(context, centroids, elements, (m - 1) as nat, i);
        let k = choose|k: int| 0 <= k < rest.len() && (#[trigger] rest[k]).index == i;
        assert(all[k].index == i);
    }
}

/// The assignments of a cluster name their elements in ascending order,
/// so that no element is named twice.
pub proof fn lemma_assigned_ascending<T: View, C: KmeansContext<T>>(
    context: &C,
    centroids: Seq<T::V>,
    elements: Seq<T::V>,
    m: nat,
    j: int,
)
    requires
        m <= usize::MAX,
    ensures
        forall|k1: int, k2: int|
            0 <= k1 < k2 < assigned::<T, C>(context, centroids, elements, m, j).len() ==> (
            #[trigger] assigned::<T, C>(context, centroids, elements, m, j)[k1]).index < (
            #[trigger] assigned::<T, C>(context, centroids, elements, m, j)[k2]).index,
    decreases m,
{
    if m > 0 {
        lemma_assigned_ascending::<T, C>(context, centroids, elements, (m - 1) as nat, j);
        lemma_assigned_indices::<T, C>(context, centroids, elements, (m - 1) as nat, j);
        let rest = assigned::<T, C>(context, centroids, elements, (m - 1) as nat, j);
        let all = assigned::<T, C>(context, centroids, elements, m, j);
        assert forall|k1: int, k2: int| 0 <= k1 < k2 < all.len() implies (#[trigger] all[k1]).index
            < (#[trigger] all[k2]).index by {
            if k2 < rest.len() {
                assert(rest[k1].index < rest[k2].index);
            } else {
                assert(rest[k1].index < m - 1);
            }
        }
    }
}

/// The assignment at place `k` of cluster `j` names element `i`.
pub open spec fn names<V>(clusters: Seq<ClusterView<V>>, j: int, k: int, i: int) -> bool {
    &&& 0 <= j < clusters.len()
    &&& 0 <= k < clusters[j].elements.len()
    &&& clusters[j].elements[k].index == i
}

/// Some cluster names element `i`.
pub open spec fn is_named<V>(clusters: Seq<ClusterView<V>>, i: int) -> bool {
    exists|j: int, k: int| names(clusters, j, k, i)
}

/// The clusters are disjoint and together cover the `n` elements: every
/// element is named by exactly one assignment of exactly one cluster.
pub open spec fn is_partition<V>(clusters: Seq<ClusterView<V>>, n: nat) -> bool {
    &&& indices_below(clusters, n)
    &&& forall|i: int| 0 <= i < n ==> #[trigger] is_named(clusters, i)
    &&& forall|j1: int, k1: int, j2: int, k2: int|
        #![trigger clusters[j1].elements[k1], clusters[j2].elements[k2]]
        0 <= j1 < clusters.len() && 0 <= k1 < clusters[j1].elements.len() && 0 <= j2
            < clusters.len() && 0 <= k2 < clusters[j2].elements.len()
            && clusters[j1].elements[k1].index == clusters[j2].elements[k2].index ==> j1 == j2
            && k1 == k2
}

/// After the assignment every element stands in exactly one cluster.
pub proof fn lemma_reassigned_is_partition<T: View, C: KmeansContext<T>>(
    context: &C,
    clusters: Seq<ClusterView<T::V>>,
    elements: Seq<T::V>,
)
    requires
        clusters.len() > 0,
        elements.len() <= usize::MAX,
    ensures
        is_partition(reassigned::<T, C>(context, cleared(clusters), elements), elements.len()),
{
    let n = elements.len();
    let cents = centroids(clusters);
    assert(centroids(cleared(clusters)) =~= cents);
    let after = reassigned::<T, C>(context, cleared(clusters), elements);
    assert forall|j: int| 0 <= j < after.len() implies (#[trigger] after[j]).elements == assigned::<
        T,
        C,
    >(context, cents, elements, n, j) by {
        assert(after[j].elements =~= assigned::<T, C>(context, cents, elements, n, j));
    }
    assert forall|j: int, k: int| 0 <= j < after.len() && 0 <= k < after[j].elements.len() implies (
    #[trigger] after[j].elements[k]).index < n by {
        lemma_assigned_nearest::<T, C>(context, cents, elements, n, j);
    }
    assert forall|i: int| 0 <= i < n implies #[trigger] is_named(after, i) by {
        lemma_element_is_assigned::<T, C>(context, cents, elements, n, i);
        let j = nearest::<T, C>(context, cents, elements[i]);
        lemma_first_min_exists(distances::<T, C>(context, cents, elements[i]));
        let list = assigned::<T, C>(context, cents, elements, n, j);
        let k = choose|k: int| 0 <= k < list.len() && (#[trigger] list[k]).index == i;
        assert(names(after, j, k, i));
    }
    assert forall|j1: int, k1: int, j2: int, k2: int|
        #![trigger after[j1].elements[k1], after[j2].elements[k2]]
        0 <= j1 < after.len() && 0 <= k1 < after[j1].elements.len() && 0 <= j2 < after.len() && 0
            <= k2 < after[j2].elements.len() && after[j1].elements[k1].index
            == after[j2].elements[k2].index implies j1 == j2 && k1 == k2 by {
        lemma_assigned_nearest::<T, C>(context, cents, elements, n, j1);
        lemma_assigned_nearest::<T, C>(context, cents, elements, n, j2);
        lemma_assigned_ascending::<T, C>(context, cents, elements, n, j1);
        let list1 = assigned::<T, C>(context, cents, elements, n, j1);
        let list2 = assigned::<T, C>(context, cents, elements, n, j2);
        assert(nearest::<T, C>(context, cents, elements[list1[k1].index as int]) == j1);
        assert(nearest::<T, C>(context, cents, elements[list2[k2].index as int]) == j2);
        if k1 < k2 {
            assert(list1[k1].index < list1[k2].index);
        }
        if k2 < k1 {
            assert(list1[k2].index < list1[k1].index);
        }
    }
}

/// Below every count of empty clusters there is an empty cluster with
/// that many empty clusters before it.
proof fn lemma_nth_empty<V>(clusters: Seq<ClusterView<V>>, j: int, r: int)
    requires
        0 <= r < empties_before(clusters, j),
    ensures
        exists|q: int|
            0 <= q < j && (#[trigger] clusters[q]).elements.len() == 0 && empties_before(
                clusters,
                q,
            ) == r,
    decreases j,
{
    if j > 0 {
        if clusters[j - 1].elements.len() == 0 && empties_before(clusters, j - 1) == r {
            assert(clusters[j - 1].elements.len() == 0);
        } else {
            lemma_nth_empty(clusters, j - 1, r);
            let q = choose|q: int|
                0 <= q < j - 1 && (#[trigger] clusters[q]).elements.len() == 0 && empties_before(
                    clusters,
                    q,
                ) == r;
            assert(clusters[q].elements.len() == 0);
        }
    }
}

/// Where an assignment of the repaired clusters stood before the repair.
spec fn origin<V>(clusters: Seq<ClusterView<V>>, j: int, k: int) -> (int, int) {
    if is_filled(clusters, j) {
        let c = highest_deviations(clusters)[empties_before(clusters, j) as int].cluster as int;
        (c, farthest_position(clusters[c].elements))
    } else if gives_among(clusters, j, taken(clusters)) {
        (
            j,
            if k < farthest_position(clusters[j].elements) {
                k
            } else {
                k + 1
            },
        )
    } else {
        (j, k)
    }
}

/// An assignment of the repaired clusters names the element that the
/// assignment at its origin named before the repair.
proof fn lemma_origin<T: View, C: KmeansContext<T>>(
    context: &C,
    clusters: Seq<ClusterView<T::V>>,
    elements: Seq<T::V>,
    j: int,
    k: int,
)
    requires
        clusters.len() <= usize::MAX,
        0 <= j < clusters.len(),
        0 <= k < repaired::<T, C>(context, clusters, elements)[j].elements.len(),
    ensures
        names(
            clusters,
            origin(clusters, j, k).0,
            origin(clusters, j, k).1,
            repaired::<T, C>(context, clusters, elements)[j].elements[k].index as int,
        ),
        is_filled(clusters, j) ==> k == 0 && gives_among(
            clusters,
            origin(clusters, j, k).0,
            taken(clusters),
        ),
        !is_filled(clusters, j) && gives_among(clusters, j, taken(clusters)) ==> origin(
            clusters,
            j,
            k,
        ).1 != farthest_position(clusters[j].elements),
{
    let donors = highest_deviations(clusters);
    lemma_donors(clusters);
    if is_filled(clusters, j) {
        let r = empties_before(clusters, j) as int;
        lemma_empties_before_monotone(clusters, j, clusters.len() as int);
        assert(is_donor(clusters, donors[r]));
        assert(donors[r].cluster == origin(clusters, j, k).0);
    } else if gives_among(clusters, j, taken(clusters)) {
        lemma_giver_stays(clusters, j, taken(clusters));
    }
}

/// The repair keeps every element in exactly one cluster: an element that
/// fills an empty cluster has left the cluster it was in.
pub proof fn lemma_repaired_is_partition<T: View, C: KmeansContext<T>>(
    context: &C,
    clusters: Seq<ClusterView<T::V>>,
    elements: Seq<T::V>,
    n: nat,
)
    requires
        clusters.len() <= usize::MAX,
        is_partition(clusters, n),
    ensures
        is_partition(repaired::<T, C>(context, clusters, elements), n),
{
    let after = repaired::<T, C>(context, clusters, elements);
    let donors = highest_deviations(clusters);
    let count = taken(clusters);
    lemma_donors(clusters);
    assert forall|j: int, k: int| 0 <= j < after.len() && 0 <= k < after[j].elements.len() implies (
    #[trigger] after[j].elements[k]).index < n by {
        lemma_origin::<T, C>(context, clusters, elements, j, k);
        let o = origin(clusters, j, k);
        assert(clusters[o.0].elements[o.1].index < n);
    }
    assert forall|i: int| 0 <= i < n implies #[trigger] is_named(after, i) by {
        assert(is_named(clusters, i));
        let (j, k) = choose|j: int, k: int| names(clusters, j, k, i);
        if gives_among(clusters, j, count) {
            lemma_giver_stays(clusters, j, count);
            let position = farthest_position(clusters[j].elements);
            if k == position {
                let r = choose|r: int| 0 <= r < count && (#[trigger] donors[r]).cluster == j;
                assert(is_donor(clusters, donors[r]));
                lemma_nth_empty(clusters, clusters.len() as int, r);
                let q = choose|q: int|
                    0 <= q < clusters.len() && (#[trigger] clusters[q]).elements.len() == 0
                        && empties_before(clusters, q) == r;
                assert(is_filled(clusters, q));
                assert(names(after, q, 0, i));
            } else if k < position {
                assert(names(after, j, k, i));
            } else {
                assert(names(after, j, k - 1, i));
            }
        } else {
            assert(names(after, j, k, i));
        }
    }
    assert forall|j1: int, k1: int, j2: int, k2: int|
        #![trigger after[j1].elements[k1], after[j2].elements[k2]]
        0 <= j1 < after.len() && 0 <= k1 < after[j1].elements.len() && 0 <= j2 < after.len() && 0
            <= k2 < after[j2].elements.len() && after[j1].elements[k1].index
            == after[j2].elements[k2].index implies j1 == j2 && k1 == k2 by {
        lemma_origin::<T, C>(context, clusters, elements, j1, k1);
        lemma_origin::<T, C>(context, clusters, elements, j2, k2);
        let o1 = origin(clusters, j1, k1);
        let o2 = origin(clusters, j2, k2);
        assert(clusters[o1.0].elements[o1.1].index == clusters[o2.0].elements[o2.1].index);
        assert(o1 == o2);
        if is_filled(clusters, j1) && is_filled(clusters, j2) {
            let r1 = empties_before(clusters, j1) as int;
            let r2 = empties_before(clusters, j2) as int;
            if r1 < r2 {
                assert(donors[r1].cluster != donors[r2].cluster);
            }
            if r2 < r1 {
                assert(donors[r2].cluster != donors[r1].cluster);
            }
            if j1 < j2 {
                lemma_empties_before_monotone(clusters, j1, j2);
            }
            if j2 < j1 {
                lemma_empties_before_monotone(clusters, j2, j1);
            }
        }
    }
}

/// Clusters that hold the same elements as a partition are a partition.
proof fn lemma_same_elements_partition<V>(
    a: Seq<ClusterView<V>>,
    b: Seq<ClusterView<V>>,
    n: nat,
)
    requires
        a.len() == b.len(),
        forall|j: int| 0 <= j < a.len() ==> (#[trigger] a[j]).elements == b[j].elements,
        is_partition(a, n),
    ensures
        is_partition(b, n),
{
    assert forall|j: int, k: int| 0 <= j < b.len() && 0 <= k < b[j].elements.len() implies (
    #[trigger] b[j].elements[k]).index < n by {
        assert(a[j].elements[k].index < n);
    }
    assert forall|i: int| 0 <= i < n implies #[trigger] is_named(b, i) by {
        assert(is_named(a, i));
        let (j, k) = choose|j: int, k: int| names(a, j, k, i);
        assert(a[j].elements == b[j].elements);
        assert(names(b, j, k, i));
    }
    assert forall|j1: int, k1: int, j2: int, k2: int|
        #![trigger b[j1].elements[k1], b[j2].elements[k2]]
        0 <= j1 < b.len() && 0 <= k1 < b[j1].elements.len() && 0 <= j2 < b.len() && 0 <= k2
            < b[j2].elements.len() && b[j1].elements[k1].index == b[j2].elements[k2].index implies j1
        == j2 && k1 == k2 by {
        assert(a[j1].elements == b[j1].elements);
        assert(a[j2].elements == b[j2].elements);
        assert(a[j1].elements[k1].index == a[j2].elements[k2].index);
    }
}

/// After every iteration every element stands in exactly one cluster.
pub proof fn lemma_step_is_partition<T: View, C: KmeansContext<T>>(
    context: &C,
    clusters: Seq<ClusterView<T::V>>,
    elements: Seq<T::V>,
    i: u32,
    every: u32,
)
    requires
        0 < clusters.len() <= usize::MAX,
        elements.len() <= usize::MAX,
    ensures
        is_partition(step::<T, C>(context, clusters, elements, i, every).0, elements.len()),
        step::<T, C>(context, clusters, elements, i, every).0.len() == clusters.len(),
{
    let filled = reassigned::<T, C>(context, cleared(clusters), elements);
    let centered = recentered::<T, C>(context, filled, elements);
    lemma_reassigned_is_partition::<T, C>(context, clusters, elements);
    lemma_same_elements_partition(filled, centered, elements.len());
    lemma_repaired_is_partition::<T, C>(context, centered, elements, elements.len());
}

/// The clusters that an optimization of one iteration or more returns are
/// disjoint and together cover the elements: every element stands in
/// exactly one cluster, exactly once.
pub proof fn lemma_run_is_partition<T: View, C: KmeansContext<T>>(
    context: &C,
    clusters: Seq<ClusterView<T::V>>,
    elements: Seq<T::V>,
    i: u32,
    max_iterations: u32,
    every: u32,
)
    requires
        0 < clusters.len() <= usize::MAX,
        elements.len() <= usize::MAX,
        i < max_iterations,
    ensures
        is_partition(
            run::<T, C>(context, clusters, elements, i, max_iterations, every),
            elements.len(),
        ),
    decreases max_iterations - i,
{
    lemma_step_is_partition::<T, C>(context, clusters, elements, i, every);
    let (next, done) = step::<T, C>(context, clusters, elements, i, every);
    if !done {
        if i + 1 < max_iterations {
            lemma_run_is_partition::<T, C>(
                context,
                next,
                elements,
                (i + 1) as u32,
                max_iterations,
                every,
            );
        } else {
            assert(run::<T, C>(context, next, elements, (i + 1) as u32, max_iterations, every)
                == next);
        }
    }
}

} // verus!
