use hcscrgen::charset::{CharsetGeneratorContext, ScreenProfile};
use hcscrgen::kmeans::{
    fill_empty_clusters, get_highest_deviations_by_cluster, initialize_clusters, kmeans, optimize,
    reassign_elements, recalculate_centroid, recalculate_centroids, reset_cluster_assignments,
    Assignment, Cluster,
};
use hcscrgen::raster::PixelBlock;

// Elements are blocks of one grey pixel: the distance of two of them is
// three times the difference of their grey values.

fn context() -> CharsetGeneratorContext {
    CharsetGeneratorContext::new(&ScreenProfile {
        lines: 1,
        columns: 1,
        character_width: 1,
        character_height: 1,
        chars: 2,
    })
}

fn grey(value: u8) -> PixelBlock {
    PixelBlock::from_pixel(1, 1, (value, value, value))
}

fn greys(values: &[u8]) -> Vec<PixelBlock> {
    values.iter().map(|v| grey(*v)).collect()
}

fn value(block: &PixelBlock) -> u8 {
    let (r, g, b) = block.get_pixel(0, 0);
    assert!(r == g && g == b);
    r
}

fn seeds(values: &[u8]) -> Vec<Cluster<PixelBlock>> {
    values.iter().map(|v| Cluster { centroid: grey(*v), elements: Vec::new() }).collect()
}

fn with_elements(centroid: u8, elements: &[(usize, u32)]) -> Cluster<PixelBlock> {
    Cluster {
        centroid: grey(centroid),
        elements: elements
            .iter()
            .map(|(index, diff)| Assignment { index: *index, diff: *diff })
            .collect(),
    }
}

fn members(cluster: &Cluster<PixelBlock>) -> Vec<(usize, u32)> {
    cluster.elements.iter().map(|a| (a.index, a.diff)).collect()
}

fn times_named(clusters: &Vec<Cluster<PixelBlock>>, n: usize) -> Vec<usize> {
    let mut seen = vec![0; n];
    for cluster in clusters {
        for a in &cluster.elements {
            seen[a.index] += 1;
        }
    }
    seen
}

fn centroids(clusters: &Vec<Cluster<PixelBlock>>) -> Vec<u8> {
    clusters.iter().map(|c| value(&c.centroid)).collect()
}

#[test]
fn initialize_clusters_makes_k_empty_clusters() {
    let clusters = initialize_clusters(&context(), 5);
    assert_eq!(clusters.len(), 5);
    for cluster in &clusters {
        assert!(cluster.elements.is_empty());
        assert_eq!(cluster.centroid.width(), 1);
        assert_eq!(cluster.centroid.height(), 1);
        let v = value(&cluster.centroid);
        assert!(v == 0 || v == 255);
    }
}

#[test]
fn initialize_clusters_may_make_none() {
    assert!(initialize_clusters(&context(), 0).is_empty());
}

#[test]
fn reset_cluster_assignments_keeps_the_centroids() {
    let mut clusters = vec![with_elements(7, &[(0, 1), (3, 2)]), with_elements(9, &[])];
    reset_cluster_assignments(&mut clusters);
    assert_eq!(centroids(&clusters), vec![7, 9]);
    assert!(clusters[0].elements.is_empty());
    assert!(clusters[1].elements.is_empty());
}

#[test]
fn reassign_elements_takes_the_nearest_cluster() {
    let mut clusters = seeds(&[0, 100]);
    reassign_elements(&context(), &mut clusters, &greys(&[10, 90, 0, 100]));
    assert_eq!(members(&clusters[0]), vec![(0, 30), (2, 0)]);
    assert_eq!(members(&clusters[1]), vec![(1, 30), (3, 0)]);
    assert_eq!(centroids(&clusters), vec![0, 100]);
}

#[test]
fn reassign_elements_takes_the_first_of_equally_near_clusters() {
    let mut clusters = seeds(&[100, 0, 100]);
    reassign_elements(&context(), &mut clusters, &greys(&[50, 100]));
    assert_eq!(members(&clusters[0]), vec![(0, 150), (1, 0)]);
    assert!(clusters[1].elements.is_empty());
    assert!(clusters[2].elements.is_empty());
}

#[test]
fn reassign_elements_adds_to_what_is_there() {
    let mut clusters = vec![with_elements(0, &[(5, 1)]), with_elements(200, &[])];
    reassign_elements(&context(), &mut clusters, &greys(&[1, 199]));
    assert_eq!(members(&clusters[0]), vec![(5, 1), (0, 3)]);
    assert_eq!(members(&clusters[1]), vec![(1, 3)]);
}

#[test]
fn reassign_elements_puts_every_element_into_one_cluster() {
    let elements = greys(&[3, 250, 128, 127, 0, 64, 200, 90]);
    let mut clusters = seeds(&[0, 128, 255]);
    reassign_elements(&context(), &mut clusters, &elements);
    let mut seen = vec![0; elements.len()];
    for cluster in &clusters {
        for a in &cluster.elements {
            seen[a.index] += 1;
        }
    }
    assert_eq!(seen, vec![1; elements.len()]);
}

#[test]
fn recalculate_centroid_is_the_average_rounded_down() {
    let elements = greys(&[1, 2, 100]);
    let list = vec![Assignment { index: 0, diff: 0 }, Assignment { index: 1, diff: 0 }];
    assert_eq!(value(&recalculate_centroid(&list, &elements, &context())), 1);
    let list = vec![
        Assignment { index: 0, diff: 0 },
        Assignment { index: 1, diff: 0 },
        Assignment { index: 2, diff: 0 },
    ];
    assert_eq!(value(&recalculate_centroid(&list, &elements, &context())), 34);
}

#[test]
fn recalculate_centroids_leaves_empty_clusters_alone() {
    let elements = greys(&[10, 50, 0, 90]);
    let mut clusters = vec![
        with_elements(0, &[(0, 30), (1, 150), (2, 0)]),
        with_elements(77, &[]),
        with_elements(100, &[(3, 30)]),
    ];
    recalculate_centroids(&context(), &mut clusters, &elements);
    assert_eq!(centroids(&clusters), vec![20, 77, 90]);
    assert_eq!(members(&clusters[0]), vec![(0, 30), (1, 150), (2, 0)]);
    assert_eq!(members(&clusters[2]), vec![(3, 30)]);
}

#[test]
fn highest_deviations_come_from_clusters_of_two_or_more() {
    let clusters = vec![
        with_elements(0, &[(0, 5), (1, 9), (2, 9)]),
        with_elements(0, &[(3, 1000)]),
        with_elements(0, &[(4, 20), (5, 3)]),
        with_elements(0, &[]),
        with_elements(0, &[(6, 9), (7, 1)]),
    ];
    let found: Vec<(usize, usize, usize, u32)> = get_highest_deviations_by_cluster(&clusters)
        .iter()
        .map(|d| (d.cluster, d.position, d.index, d.diff))
        .collect();
    // cluster 0 gives its last element of distance 9; equal distances keep the clusters' order
    assert_eq!(found, vec![(2, 0, 4, 20), (0, 2, 2, 9), (4, 0, 6, 9)]);
}

#[test]
fn highest_deviations_of_small_clusters_are_none() {
    let clusters = vec![with_elements(0, &[(0, 5)]), with_elements(0, &[])];
    assert!(get_highest_deviations_by_cluster(&clusters).is_empty());
}

#[test]
fn fill_empty_clusters_reports_a_perfect_approximation() {
    let elements = greys(&[5, 5, 9]);
    let mut clusters =
        vec![
            with_elements(5, &[(0, 0), (1, 0)]),
            with_elements(50, &[]),
            with_elements(9, &[(2, 0)]),
        ];
    assert!(fill_empty_clusters(&context(), &mut clusters, &elements));
    assert_eq!(centroids(&clusters), vec![5, 50, 9]);
    assert!(clusters[1].elements.is_empty());
}

#[test]
fn fill_empty_clusters_gives_the_farthest_elements_away_first() {
    let elements = greys(&[10, 20, 30, 40, 50, 60, 70, 80]);
    let mut clusters = vec![
        with_elements(0, &[(0, 10), (4, 30)]),
        with_elements(1, &[]),
        with_elements(2, &[(7, 60), (1, 2)]),
        with_elements(3, &[]),
        with_elements(4, &[]),
    ];
    assert!(!fill_empty_clusters(&context(), &mut clusters, &elements));
    // the first empty cluster takes element 7 (distance 60), the second
    // element 4 (distance 30), the third finds nothing left
    assert_eq!(members(&clusters[1]), vec![(7, 0)]);
    assert_eq!(value(&clusters[1].centroid), 80);
    assert_eq!(members(&clusters[3]), vec![(4, 0)]);
    assert_eq!(value(&clusters[3].centroid), 50);
    assert!(clusters[4].elements.is_empty());
    assert_eq!(value(&clusters[4].centroid), 4);
    // the clusters that gave have lost what they gave, and keep their centroids
    assert_eq!(members(&clusters[0]), vec![(0, 10)]);
    assert_eq!(members(&clusters[2]), vec![(1, 2)]);
    assert_eq!(value(&clusters[0].centroid), 0);
    assert_eq!(value(&clusters[2].centroid), 2);
}

#[test]
fn fill_empty_clusters_without_givers_changes_nothing() {
    let elements = greys(&[10, 20]);
    let mut clusters =
        vec![with_elements(0, &[(0, 30)]), with_elements(1, &[]), with_elements(2, &[(1, 54)])];
    assert!(!fill_empty_clusters(&context(), &mut clusters, &elements));
    assert_eq!(centroids(&clusters), vec![0, 1, 2]);
    assert!(clusters[1].elements.is_empty());
}

#[test]
fn optimize_without_iterations_returns_the_seeds() {
    let clusters = optimize(&context(), seeds(&[3, 4]), &greys(&[1, 2]), 0, 5);
    assert_eq!(centroids(&clusters), vec![3, 4]);
    assert!(clusters[0].elements.is_empty());
    assert!(clusters[1].elements.is_empty());
}

#[test]
fn optimize_ends_at_once_when_every_element_is_a_centroid() {
    let elements = greys(&[0, 100, 100, 0, 100]);
    let clusters = optimize(&context(), seeds(&[0, 100, 50]), &elements, 50, 5);
    assert_eq!(centroids(&clusters), vec![0, 100, 50]);
    assert_eq!(members(&clusters[0]), vec![(0, 0), (3, 0)]);
    assert_eq!(members(&clusters[1]), vec![(1, 0), (2, 0), (4, 0)]);
    // the perfect approximation ended the optimization before the empty
    // cluster was filled
    assert!(clusters[2].elements.is_empty());
}

#[test]
fn optimize_moves_the_centroids_to_the_averages() {
    let elements = greys(&[10, 20, 200]);
    let clusters = optimize(&context(), seeds(&[0, 255]), &elements, 3, 1);
    assert_eq!(centroids(&clusters), vec![15, 200]);
    assert_eq!(members(&clusters[0]), vec![(0, 15), (1, 15)]);
    assert_eq!(members(&clusters[1]), vec![(2, 0)]);
}

#[test]
fn optimize_fills_an_empty_cluster_with_the_farthest_element() {
    // all three elements go to the first cluster, whose centroid becomes
    // 43; element 0 lies farthest from the old centroid and seeds the second
    let elements = greys(&[0, 10, 120]);
    let clusters = optimize(&context(), seeds(&[100, 255]), &elements, 1, 1);
    assert_eq!(centroids(&clusters), vec![43, 0]);
    assert_eq!(members(&clusters[0]), vec![(1, 270), (2, 60)]);
    assert_eq!(members(&clusters[1]), vec![(0, 0)]);
}

#[test]
fn optimize_fills_empty_clusters_in_every_nth_iteration_only() {
    let elements = greys(&[0, 10, 120]);
    // with the filling due in iterations 0, 5, ... the second iteration
    // assigns anew and leaves the third cluster empty
    let clusters = optimize(&context(), seeds(&[100, 255, 254]), &elements, 2, 5);
    assert_eq!(centroids(&clusters), vec![120, 5, 254]);
    assert_eq!(members(&clusters[0]), vec![(2, 231)]);
    assert_eq!(members(&clusters[1]), vec![(0, 0), (1, 30)]);
    assert!(clusters[2].elements.is_empty());
    // with the filling due in every iteration the third cluster takes
    // the farthest element of the second
    let clusters = optimize(&context(), seeds(&[100, 255, 254]), &elements, 2, 1);
    assert_eq!(centroids(&clusters), vec![120, 5, 10]);
    assert_eq!(members(&clusters[0]), vec![(2, 231)]);
    assert_eq!(members(&clusters[1]), vec![(0, 0)]);
    assert_eq!(members(&clusters[2]), vec![(1, 0)]);
}

#[test]
fn kmeans_makes_k_clusters() {
    let elements = greys(&[0, 255, 0, 255, 7]);
    let clusters = kmeans(&context(), 4, &elements, 10, 5);
    assert_eq!(clusters.len(), 4);
    assert_eq!(times_named(&clusters, elements.len()), vec![1; elements.len()]);
}

#[test]
fn kmeans_without_iterations_returns_random_black_or_white_seeds() {
    let clusters = kmeans(&context(), 16, &greys(&[1, 2, 3]), 0, 5);
    assert_eq!(clusters.len(), 16);
    for cluster in &clusters {
        let v = value(&cluster.centroid);
        assert!(v == 0 || v == 255);
        assert!(cluster.elements.is_empty());
    }
}

#[test]
fn fill_empty_clusters_keeps_every_element_in_one_cluster() {
    let elements = greys(&[10, 20, 30, 40, 50, 60]);
    let mut clusters = vec![
        with_elements(0, &[(0, 10), (4, 30), (2, 5)]),
        with_elements(1, &[]),
        with_elements(2, &[(5, 60), (1, 2)]),
        with_elements(3, &[(3, 9)]),
        with_elements(4, &[]),
        with_elements(5, &[]),
    ];
    assert!(!fill_empty_clusters(&context(), &mut clusters, &elements));
    assert_eq!(times_named(&clusters, 6), vec![1; 6]);
    assert_eq!(members(&clusters[0]), vec![(0, 10), (2, 5)]);
    assert_eq!(members(&clusters[1]), vec![(5, 0)]);
    assert_eq!(members(&clusters[2]), vec![(1, 2)]);
    assert_eq!(members(&clusters[3]), vec![(3, 9)]);
    assert_eq!(members(&clusters[4]), vec![(4, 0)]);
    assert!(clusters[5].elements.is_empty());
}

#[test]
fn optimize_returns_every_element_in_one_cluster() {
    let elements = greys(&[0, 3, 9, 200, 210, 90, 91, 92, 255, 17]);
    for every in [1, 2, 5] {
        for iterations in [1, 2, 3, 7] {
            let clusters =
                optimize(&context(), seeds(&[100, 255, 254, 0, 1]), &elements, iterations, every);
            assert_eq!(clusters.len(), 5);
            assert_eq!(times_named(&clusters, elements.len()), vec![1; elements.len()]);
        }
    }
}
