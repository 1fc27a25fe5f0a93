use n_dimensional_minesweeper::coordinates::{get_neighbors, is_in_grid, to_coords, to_index};

#[test]
fn test_get_neighbors_2d_center() {
    let dimensions = vec![3, 3];
    let coords = vec![1, 1];
    let mut neighbors = get_neighbors(&coords, &dimensions);
    neighbors.sort(); // Sort for consistent comparison

    let mut expected = vec![
        vec![0, 0],
        vec![0, 1],
        vec![0, 2],
        vec![1, 0],
        vec![1, 2],
        vec![2, 0],
        vec![2, 1],
        vec![2, 2],
    ];
    expected.sort();

    assert_eq!(neighbors, expected);
}

#[test]
fn test_get_neighbors_2d_corner() {
    let dimensions = vec![3, 3];
    let coords = vec![0, 0];
    let mut neighbors = get_neighbors(&coords, &dimensions);
    neighbors.sort();
    let mut expected = vec![vec![0, 1], vec![1, 0], vec![1, 1]];
    expected.sort();
    assert_eq!(neighbors, expected);
}

#[test]
fn test_get_neighbors_2d_edge() {
    let dimensions = vec![3, 3];
    let coords = vec![0, 1];
    let mut neighbors = get_neighbors(&coords, &dimensions);
    neighbors.sort();
    let mut expected = vec![vec![0, 0], vec![0, 2], vec![1, 0], vec![1, 1], vec![1, 2]];
    expected.sort();
    assert_eq!(neighbors, expected);
}

#[test]
fn test_get_neighbors_1d() {
    let dimensions = vec![3];
    let coords = vec![1];
    let mut neighbors = get_neighbors(&coords, &dimensions);
    neighbors.sort();
    let mut expected = vec![vec![0], vec![2]];
    expected.sort();
    assert_eq!(neighbors, expected);
}

#[test]
fn test_get_neighbors_3d_center() {
    let dimensions = vec![3, 3, 3];
    let coords = vec![1, 1, 1];
    let neighbors = get_neighbors(&coords, &dimensions);
    assert_eq!(neighbors.len(), 26);
}

#[test]
fn neighbors_come_in_offset_order() {
    let neighbors = get_neighbors(&vec![1, 1], &[3, 3]);
    let expected: Vec<Vec<usize>> = vec![
        vec![0, 0],
        vec![1, 0],
        vec![2, 0],
        vec![0, 1],
        vec![2, 1],
        vec![0, 2],
        vec![1, 2],
        vec![2, 2],
    ];
    assert_eq!(neighbors, expected);
}

#[test]
fn neighbors_are_clipped_at_the_far_border() {
    let neighbors = get_neighbors(&vec![2, 2], &[3, 3]);
    let expected: Vec<Vec<usize>> = vec![vec![1, 1], vec![2, 1], vec![1, 2]];
    assert_eq!(neighbors, expected);
}

#[test]
fn single_cell_has_no_neighbors() {
    assert!(get_neighbors(&vec![0], &[1]).is_empty());
    assert!(get_neighbors(&vec![0, 0, 0], &[1, 1, 1]).is_empty());
    assert!(get_neighbors(&vec![], &[]).is_empty());
}

#[test]
fn interior_cells_have_all_their_neighbors() {
    assert_eq!(get_neighbors(&vec![1], &[3]).len(), 2);
    assert_eq!(get_neighbors(&vec![2, 1], &[4, 3]).len(), 8);
    assert_eq!(get_neighbors(&vec![1, 2, 3], &[3, 4, 5]).len(), 26);
    assert_eq!(get_neighbors(&vec![1, 1, 1, 1], &[3, 3, 3, 3]).len(), 80);
    assert_eq!(get_neighbors(&vec![1, 1, 1, 1, 1], &[3, 3, 3, 3, 3]).len(), 242);
}

#[test]
fn neighbors_differ_from_the_cell_by_at_most_one() {
    let dimensions = [4, 3, 5];
    let coords = vec![3, 1, 0];
    let neighbors = get_neighbors(&coords, &dimensions);
    assert_eq!(neighbors.len(), 2 * 3 * 2 - 1);
    for (i, neighbor) in neighbors.iter().enumerate() {
        assert_eq!(neighbor.len(), 3);
        assert_ne!(neighbor, &coords);
        for axis in 0..3 {
            assert!(neighbor[axis] < dimensions[axis]);
            assert!(neighbor[axis] + 1 >= coords[axis]);
            assert!(neighbor[axis] <= coords[axis] + 1);
        }
        for other in neighbors.iter().skip(i + 1) {
            assert_ne!(neighbor, other);
        }
    }
}

#[test]
fn to_index_weighs_each_axis_by_its_stride() {
    assert_eq!(to_index(&vec![0, 0], &[3, 3]), 0);
    assert_eq!(to_index(&vec![1, 0], &[3, 3]), 1);
    assert_eq!(to_index(&vec![0, 1], &[3, 3]), 3);
    assert_eq!(to_index(&vec![1, 2], &[3, 3]), 7);
    assert_eq!(to_index(&vec![2, 2], &[3, 3]), 8);
    assert_eq!(to_index(&vec![1, 2, 3], &[2, 3, 4]), 1 + 2 * 2 + 3 * 6);
    assert_eq!(to_index(&vec![4], &[7]), 4);
    assert_eq!(to_index(&vec![], &[]), 0);
}

#[test]
fn to_coords_decodes_each_axis() {
    assert_eq!(to_coords(0, &[3, 3]), vec![0, 0]);
    assert_eq!(to_coords(1, &[3, 3]), vec![1, 0]);
    assert_eq!(to_coords(3, &[3, 3]), vec![0, 1]);
    assert_eq!(to_coords(7, &[3, 3]), vec![1, 2]);
    assert_eq!(to_coords(23, &[2, 3, 4]), vec![1, 2, 3]);
    assert_eq!(to_coords(4, &[7]), vec![4]);
    assert_eq!(to_coords(0, &[]), Vec::<usize>::new());
}

#[test]
fn coordinates_and_indices_determine_each_other() {
    let dimensions = [2, 3, 4];
    let mut seen = vec![false; 24];
    for x in 0..2 {
        for y in 0..3 {
            for z in 0..4 {
                let coords = vec![x, y, z];
                let index = to_index(&coords, &dimensions);
                assert!(index < 24);
                assert!(!seen[index]);
                seen[index] = true;
                assert_eq!(to_coords(index, &dimensions), coords);
            }
        }
    }
    for index in 0..24 {
        assert_eq!(to_index(&to_coords(index, &dimensions), &dimensions), index);
    }
}

#[test]
fn is_in_grid_tests_length_and_range() {
    assert!(is_in_grid(&vec![0, 0], &[3, 3]));
    assert!(is_in_grid(&vec![2, 2], &[3, 3]));
    assert!(!is_in_grid(&vec![3, 0], &[3, 3]));
    assert!(!is_in_grid(&vec![0, 3], &[3, 3]));
    assert!(!is_in_grid(&vec![0], &[3, 3]));
    assert!(!is_in_grid(&vec![0, 0, 0], &[3, 3]));
    assert!(!is_in_grid(&vec![0], &[0]));
    assert!(is_in_grid(&vec![], &[]));
}

#[test]
fn to_coords_puts_the_excess_on_the_last_axis() {
    assert_eq!(to_coords(9, &[3, 3]), vec![0, 3]);
    assert_eq!(to_coords(10, &[3, 3]), vec![1, 3]);
    assert_eq!(to_coords(100, &[7]), vec![100]);
    assert_eq!(to_coords(50, &[2, 3, 4]), vec![0, 1, 8]);
    assert_eq!(to_coords(5, &[]), Vec::<usize>::new());
    assert_eq!(to_coords(usize::MAX, &[1, 1]), vec![0, usize::MAX]);
}
