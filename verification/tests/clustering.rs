use lidar_ld19::dbscan::{dbscan, MIN_PTS};

/// Neighbour lists of points on a line where points closer than `eps` are neighbours
/// (each point is its own neighbour).
fn line_neighbours(xs: &[i64], eps: i64) -> Vec<Vec<usize>> {
    xs.iter()
        .map(|&a| (0..xs.len()).filter(|&j| (xs[j] - a).abs() <= eps).collect())
        .collect()
}

#[test]
fn no_points_no_clusters() {
    assert!(dbscan(&Vec::new()).is_empty());
}

#[test]
fn sparse_points_are_noise() {
    let nb = line_neighbours(&[0, 100, 200, 300], 10);
    assert!(dbscan(&nb).is_empty());
}

#[test]
fn two_dense_runs_make_two_clusters() {
    let xs = [0, 1, 2, 3, 4, 50, 100, 101, 102, 103];
    let nb = line_neighbours(&xs, 2);
    let g = dbscan(&nb);
    assert_eq!(g, vec![vec![0, 1, 2, 3, 4], vec![6, 7, 8, 9]]);
}

#[test]
fn a_border_point_joins_the_first_cluster_that_reaches_it() {
    // point 4 is a neighbour of core points of both dense runs
    let mut nb: Vec<Vec<usize>> = vec![
        vec![0, 1, 2, 3],
        vec![0, 1, 2, 3],
        vec![0, 1, 2, 3],
        vec![0, 1, 2, 3, 4],
        vec![3, 4, 5],
        vec![4, 5, 6, 7, 8],
        vec![5, 6, 7, 8],
        vec![5, 6, 7, 8],
        vec![5, 6, 7, 8],
    ];
    assert_eq!(dbscan(&nb), vec![vec![0, 1, 2, 3, 4], vec![5, 6, 7, 8]]);
    // the same point, listed in the second run only, joins the second cluster
    nb[3] = vec![0, 1, 2, 3];
    assert_eq!(dbscan(&nb), vec![vec![0, 1, 2, 3], vec![4, 5, 6, 7, 8]]);
}

#[test]
fn chained_core_points_form_one_cluster() {
    let xs: Vec<i64> = (0..20).collect();
    let nb = line_neighbours(&xs, 2);
    let g = dbscan(&nb);
    assert_eq!(g.len(), 1);
    assert_eq!(g[0], (0..20).collect::<Vec<usize>>());
}

#[test]
fn core_threshold_is_four_neighbours() {
    assert_eq!(MIN_PTS, 4);
    let nb: Vec<Vec<usize>> = vec![vec![0, 1, 2], vec![0, 1, 2], vec![0, 1, 2]];
    assert!(dbscan(&nb).is_empty());
    let nb: Vec<Vec<usize>> = vec![vec![0, 1, 2, 3], vec![1], vec![2], vec![3]];
    assert_eq!(dbscan(&nb), vec![vec![0, 1, 2, 3]]);
}

#[test]
fn a_group_of_fewer_than_four_points_is_noise() {
    // point 4 is a core point whose neighbours were all taken by the first cluster,
    // so its own group would hold it alone
    let nb: Vec<Vec<usize>> = vec![
        vec![0, 1, 2, 3],
        vec![0, 1, 4],
        vec![0, 2, 4],
        vec![0, 3, 4],
        vec![1, 2, 3, 4],
    ];
    assert_eq!(dbscan(&nb), vec![vec![0, 1, 2, 3]]);
}

#[test]
fn a_small_group_between_two_clusters_is_dropped_in_order() {
    // the middle core point 5 keeps only itself and 6; the two outer clusters stay, in order
    let nb: Vec<Vec<usize>> = vec![
        vec![0, 1, 2, 3],
        vec![0, 1, 5],
        vec![0, 2, 5],
        vec![0, 3, 5],
        vec![4, 7, 8, 9],
        vec![1, 2, 3, 5, 6],
        vec![5, 6],
        vec![4, 7, 8, 9],
        vec![4, 7, 8, 9],
        vec![4, 7, 8, 9],
    ];
    assert_eq!(dbscan(&nb), vec![vec![0, 1, 2, 3], vec![4, 7, 8, 9]]);
}

#[test]
fn adjacent_core_points_share_a_cluster() {
    // symmetric lists: 2 and 3 are core points listing each other
    let xs = [0, 1, 2, 3, 4, 5];
    let nb = line_neighbours(&xs, 2);
    let g = dbscan(&nb);
    let group_of = |p: usize| g.iter().position(|grp| grp.contains(&p));
    assert!(nb[2].len() >= MIN_PTS && nb[3].len() >= MIN_PTS);
    assert_eq!(group_of(2), group_of(3));
    assert!(group_of(2).is_some());
}

#[test]
fn renumbering_the_points_keeps_the_clusters() {
    let xs = [0, 1, 2, 3, 4, 50, 100, 101, 102, 103, 104];
    // the new point k is the old point perm[k]
    let perm: Vec<usize> = vec![7, 2, 10, 5, 0, 9, 3, 8, 1, 6, 4];
    let ys: Vec<i64> = perm.iter().map(|&k| xs[k]).collect();
    let old = dbscan(&line_neighbours(&xs, 2));
    let new = dbscan(&line_neighbours(&ys, 2));
    let mut back: Vec<Vec<usize>> = new
        .iter()
        .map(|grp| {
            let mut v: Vec<usize> = grp.iter().map(|&k| perm[k]).collect();
            v.sort();
            v
        })
        .collect();
    back.sort();
    assert_eq!(old, vec![vec![0, 1, 2, 3, 4], vec![6, 7, 8, 9, 10]]);
    assert_eq!(back, old);
}

/// The lists of the same points numbered anew: the new point `k` is the old point `perm[k]`.
fn renumber(nb: &[Vec<usize>], perm: &[usize]) -> Vec<Vec<usize>> {
    let mut inv = vec![0; perm.len()];
    for (k, &p) in perm.iter().enumerate() {
        inv[p] = k;
    }
    perm.iter()
        .map(|&p| {
            let mut v: Vec<usize> = nb[p].iter().map(|&x| inv[x]).collect();
            v.sort();
            v
        })
        .collect()
}

#[test]
fn renumbering_can_change_which_small_group_is_noise() {
    // two core points, 0 and 4, share the border points 1, 2, 3; whichever is
    // scanned first takes them, and the other is left alone and dropped
    let nb: Vec<Vec<usize>> = vec![
        vec![0, 1, 2, 3],
        vec![0, 1, 4],
        vec![0, 2, 4],
        vec![0, 3, 4],
        vec![1, 2, 3, 4],
    ];
    assert_eq!(dbscan(&nb), vec![vec![0, 1, 2, 3]]);
    let perm = [4, 1, 2, 3, 0];
    let new = dbscan(&renumber(&nb, &perm));
    assert_eq!(new, vec![vec![0, 1, 2, 3]]);
    let mut back: Vec<usize> = new[0].iter().map(|&k| perm[k]).collect();
    back.sort();
    assert_eq!(back, vec![1, 2, 3, 4]);
}
