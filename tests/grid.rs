use parameter_optimizer::grid::bin_cells;

#[test]
fn trials_grouped_by_cell() {
    let landed = vec![(1, 2), (3, 4), (1, 2), (0, 0), (3, 4), (1, 2)];
    let b = bin_cells(&landed);
    assert_eq!(b.cells, vec![(1, 2), (3, 4), (0, 0)]);
    assert_eq!(b.cell_of, vec![0, 1, 0, 2, 1, 0]);
}

#[test]
fn no_trials_no_cells() {
    let b = bin_cells(&Vec::new());
    assert!(b.cells.is_empty());
    assert!(b.cell_of.is_empty());
}
