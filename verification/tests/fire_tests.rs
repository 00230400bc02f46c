use lib::fire::FireGrid;

fn column(g: &FireGrid, x: usize) -> Vec<u8> {
    (0..g.rows()).map(|y| g.heat(x, y)).collect()
}

fn row(g: &FireGrid, y: usize) -> Vec<u8> {
    (0..g.cols()).map(|x| g.heat(x, y)).collect()
}

#[test]
fn new_grid_is_cold() {
    let g = FireGrid::new(4, 3);
    assert_eq!(g.cols(), 4);
    assert_eq!(g.rows(), 3);
    for y in 0..3 {
        assert_eq!(row(&g, y), vec![0, 0, 0, 0]);
    }
}

#[test]
fn resize_only_when_size_changes() {
    let mut g = FireGrid::new(0, 0);
    assert!(g.resize(4, 3));
    assert_eq!((g.cols(), g.rows()), (4, 3));
    g.seed_source(&vec![5, 6, 7, 8]);
    assert!(!g.resize(4, 3));
    assert_eq!(row(&g, 2), vec![5, 6, 7, 8]);
    assert!(g.resize(3, 3));
    assert_eq!(row(&g, 2), vec![0, 0, 0]);
}

#[test]
fn source_row_is_capped() {
    let mut g = FireGrid::new(3, 2);
    g.seed_source(&vec![10, 35, 200]);
    assert_eq!(row(&g, 1), vec![10, 35, 35]);
    assert_eq!(row(&g, 0), vec![0, 0, 0]);
}

#[test]
fn second_row_only_on_tall_grids() {
    let mut g = FireGrid::new(3, 3);
    g.seed_second_row(&vec![Some(5), None, Some(50)]);
    assert_eq!(row(&g, 1), vec![5, 0, 35]);
    let mut short = FireGrid::new(3, 2);
    short.seed_second_row(&vec![Some(5), Some(6), Some(7)]);
    assert_eq!(row(&short, 0), vec![0, 0, 0]);
    assert_eq!(row(&short, 1), vec![0, 0, 0]);
}

#[test]
fn plume_fills_bottom_three_rows() {
    let mut g = FireGrid::new(10, 5);
    g.ignite_plume(2, 3);
    for y in 0..5 {
        let expect: Vec<u8> = (0..10)
            .map(|x| if (2..5).contains(&x) && y >= 2 { 35 } else { 0 })
            .collect();
        assert_eq!(row(&g, y), expect, "row {}", y);
    }
    let mut edge = FireGrid::new(10, 5);
    edge.ignite_plume(8, 5);
    assert_eq!(row(&edge, 4), vec![0, 0, 0, 0, 0, 0, 0, 0, 35, 35]);
}

fn seeded_three_by_three() -> FireGrid {
    let mut g = FireGrid::new(3, 3);
    g.seed_source(&vec![10, 20, 40]);
    g.seed_second_row(&vec![Some(5), None, Some(50)]);
    g
}

#[test]
fn propagate_straight_up() {
    let mut g = seeded_three_by_three();
    g.propagate(&vec![0; 9], &vec![2; 9]);
    assert_eq!(row(&g, 0), vec![3, 0, 33]);
    assert_eq!(row(&g, 1), vec![8, 18, 33]);
    assert_eq!(row(&g, 2), vec![10, 20, 35]);
}

#[test]
fn propagate_drift_and_minimum_decay() {
    let mut g = seeded_three_by_three();
    let mut drift = vec![0; 9];
    let mut decay = vec![2; 9];
    drift[6] = 1; // bottom-left heat drifts right, then is overwritten by its neighbour
    decay[7] = 0; // a zero decay still cools by one
    drift[8] = 1; // drifting past the right edge stays in the last column
    g.propagate(&drift, &decay);
    assert_eq!(row(&g, 1), vec![5, 19, 33]);
    assert_eq!(row(&g, 2), vec![10, 20, 35]);
}

#[test]
fn propagate_drift_left_clamps() {
    let mut g = seeded_three_by_three();
    let mut drift = vec![0; 9];
    drift[6] = -1;
    drift[7] = -1;
    g.propagate(&drift, &vec![1; 9]);
    // column 0 of row 1 is written by x=0 (clamped) then by x=1
    assert_eq!(row(&g, 1), vec![19, 0, 34]);
}

#[test]
fn blast_fills_a_disc() {
    let mut g = FireGrid::new(20, 20);
    g.ignite_blast(10, 10);
    assert_eq!(g.heat(14, 10), 35);
    assert_eq!(g.heat(10, 14), 35);
    assert_eq!(g.heat(12, 13), 35);
    assert_eq!(g.heat(13, 13), 0);
    assert_eq!(g.heat(15, 10), 0);
    assert_eq!(g.heat(10, 5), 0);
    let lit = (0..20).flat_map(|y| (0..20).map(move |x| (x, y))).filter(|&(x, y)| g.heat(x, y) == 35).count();
    assert_eq!(lit, 49);
    let mut corner = FireGrid::new(5, 5);
    corner.ignite_blast(0, 0);
    assert_eq!(corner.heat(0, 0), 35);
    assert_eq!(corner.heat(4, 0), 35);
    assert_eq!(corner.heat(4, 4), 0);
    corner.ignite_blast(-3, 100);
    assert_eq!(corner.heat(4, 4), 0);
}

#[test]
fn column_heat_sums_twelve_cells_below() {
    let mut g = FireGrid::new(3, 20);
    g.ignite_blast(1, 10);
    assert_eq!(column(&g, 1)[6..15].to_vec(), vec![35; 9]);
    assert_eq!(g.column_heat(1, 5), 9 * 35);
    assert_eq!(g.column_heat(1, 0), 7 * 35);
    assert_eq!(g.column_heat(1, 19), 0);
    assert_eq!(g.column_heat(1, 100), 0);
}

#[test]
fn spark_row_is_lowest_ember_in_upper_part() {
    let mut g = FireGrid::new(1, 6);
    assert_eq!(g.find_spark_row(0), None);
    g.seed_source(&vec![20]);
    g.seed_second_row(&vec![Some(15)]);
    g.propagate(&vec![0; 6], &vec![1; 6]);
    assert_eq!(column(&g, 0), vec![0, 0, 0, 14, 19, 20]);
    assert_eq!(g.find_spark_row(0), Some(3));
    let mut hot = FireGrid::new(1, 6);
    hot.ignite_plume(0, 1);
    hot.propagate(&vec![0; 6], &vec![1; 6]);
    assert_eq!(column(&hot, 0), vec![0, 0, 34, 34, 34, 35]);
    assert_eq!(hot.find_spark_row(0), None);
    let two = FireGrid::new(1, 2);
    assert_eq!(two.find_spark_row(0), None);
}

#[test]
fn step_feeds_then_rises() {
    let mut by_parts = FireGrid::new(4, 4);
    by_parts.seed_source(&vec![10, 20, 30, 40]);
    by_parts.seed_second_row(&vec![Some(5), None, Some(9), None]);
    by_parts.ignite_plume(3, 2);
    let fed = FireGrid::new(4, 4).seeded(
        &vec![10, 20, 30, 40],
        &vec![Some(5), None, Some(9), None],
        Some((3, 2)),
    );
    assert_eq!(row(&fed, 3), row(&by_parts, 3));
    assert_eq!(row(&fed, 2), row(&by_parts, 2));
    assert_eq!(row(&fed, 1), row(&by_parts, 1));
    let mut drift = vec![0; 16];
    drift[9] = 1;
    let decay = vec![3; 16];
    by_parts.propagate(&drift, &decay);
    let mut stepped = FireGrid::new(4, 4);
    stepped.step(
        &vec![10, 20, 30, 40],
        &vec![Some(5), None, Some(9), None],
        Some((3, 2)),
        &drift,
        &decay,
    );
    for y in 0..4 {
        assert_eq!(row(&stepped, y), row(&by_parts, y), "row {}", y);
    }
    assert_eq!(row(&stepped, 3), vec![10, 20, 30, 35]);
}

#[test]
fn hotter_source_row_after_step() {
    let second = vec![None, None, None];
    let mut cool = FireGrid::new(3, 3);
    let mut hot = FireGrid::new(3, 3);
    cool.step(&vec![26, 27, 30], &second, None, &vec![0; 9], &vec![1; 9]);
    hot.step(&vec![30, 38, 31], &second, None, &vec![1; 9], &vec![5; 9]);
    for x in 0..3 {
        assert!(cool.heat(x, 2) <= hot.heat(x, 2));
    }
    assert_eq!(row(&hot, 2), vec![30, 35, 31]);
}
