use zoom_focus::cluster::{
    auto_segments, cluster_at, window_moves, ClusterBox, ClusterBuilder, WindowMoves,
};

fn keys(v: &[i64]) -> Vec<Option<i64>> {
    v.iter().map(|x| Some(*x)).collect()
}

#[test]
fn new_box_is_the_single_move() {
    let b = ClusterBox::new(3);
    assert_eq!(b, ClusterBox { first: 3, min_x: 3, max_x: 3, min_y: 3, max_y: 3 });
}

#[test]
fn grown_box_moves_only_strictly_exceeded_extremes() {
    let xs = keys(&[5, 2, 9, 5]);
    let ys = keys(&[5, 7, 1, 5]);
    let b = ClusterBox::new(0);
    let g = b.grown(&xs, &ys, 1);
    assert_eq!(g, ClusterBox { first: 0, min_x: 1, max_x: 0, min_y: 0, max_y: 1 });
    let g2 = g.grown(&xs, &ys, 2);
    assert_eq!(g2, ClusterBox { first: 0, min_x: 1, max_x: 2, min_y: 2, max_y: 1 });
    let g3 = g2.grown(&xs, &ys, 3);
    assert_eq!(g3, g2);
}

#[test]
fn grown_box_lets_nan_give_way() {
    let xs = vec![None, Some(4), None];
    let ys = vec![Some(1), None, Some(3)];
    let g = ClusterBox::new(0).grown(&xs, &ys, 1);
    assert_eq!(g, ClusterBox { first: 0, min_x: 1, max_x: 1, min_y: 0, max_y: 0 });
    let g2 = g.grown(&xs, &ys, 2);
    assert_eq!(g2, ClusterBox { first: 0, min_x: 1, max_x: 1, min_y: 0, max_y: 2 });
}

#[test]
fn builder_joins_and_splits() {
    let xs = keys(&[0, 1, 100, 101]);
    let ys = keys(&[0, 1, 100, 99]);
    let mut b = ClusterBuilder::start(&xs, &ys, 0);
    let c = b.candidate(&xs, &ys, 1);
    assert_eq!(c, ClusterBox { first: 0, min_x: 0, max_x: 1, min_y: 0, max_y: 1 });
    b.add(&xs, &ys, 1, true);
    b.add(&xs, &ys, 2, false);
    b.add(&xs, &ys, 3, true);
    let clusters = b.finish();
    assert_eq!(
        clusters,
        vec![
            ClusterBox { first: 0, min_x: 0, max_x: 1, min_y: 0, max_y: 1 },
            ClusterBox { first: 2, min_x: 2, max_x: 3, min_y: 3, max_y: 2 },
        ]
    );
}

#[test]
fn builder_single_move_gives_single_cluster() {
    let xs = keys(&[7]);
    let ys = keys(&[8]);
    let b = ClusterBuilder::start(&xs, &ys, 0);
    assert_eq!(b.finish(), vec![ClusterBox::new(0)]);
}

#[test]
fn window_moves_inside() {
    let times = keys(&[0, 100, 200, 300, 400]);
    assert_eq!(window_moves(&times, Some(100), Some(300)), WindowMoves::Inside(vec![1, 2, 3]));
    assert_eq!(window_moves(&times, Some(150), Some(250)), WindowMoves::Inside(vec![2]));
}

#[test]
fn window_moves_falls_back_to_previous_move() {
    let times = keys(&[0, 100, 200]);
    assert_eq!(window_moves(&times, Some(120), Some(180)), WindowMoves::Fallback(1));
    assert_eq!(window_moves(&times, Some(500), Some(600)), WindowMoves::Fallback(2));
}

#[test]
fn window_moves_falls_back_to_first_later_move() {
    let times = keys(&[300, 400]);
    assert_eq!(window_moves(&times, Some(100), Some(200)), WindowMoves::Fallback(0));
    let with_nan = vec![None, Some(300)];
    assert_eq!(window_moves(&with_nan, Some(100), Some(200)), WindowMoves::Fallback(1));
}

#[test]
fn window_moves_with_a_nan_end_falls_back() {
    let times = keys(&[10, 20]);
    assert_eq!(window_moves(&times, Some(0), None), WindowMoves::Fallback(0));
}

#[test]
fn window_moves_without_comparable_moves() {
    assert_eq!(window_moves(&vec![], Some(0), Some(10)), WindowMoves::Nothing);
    assert_eq!(window_moves(&keys(&[1, 2]), None, Some(10)), WindowMoves::Nothing);
    assert_eq!(window_moves(&vec![None], Some(0), Some(10)), WindowMoves::Nothing);
}

#[test]
fn cluster_at_picks_last_opened_or_first() {
    let starts = keys(&[100, 200, 300]);
    assert_eq!(cluster_at(&starts, Some(250)), Some(1));
    assert_eq!(cluster_at(&starts, Some(300)), Some(2));
    assert_eq!(cluster_at(&starts, Some(50)), Some(0));
    assert_eq!(cluster_at(&starts, None), Some(0));
    assert_eq!(cluster_at(&vec![], Some(50)), None);
}

#[test]
fn auto_segments_keeps_auto_ones_in_order() {
    assert_eq!(auto_segments(&vec![true, false, true, true, false]), vec![0, 2, 3]);
    assert_eq!(auto_segments(&vec![false]), Vec::<usize>::new());
}
