use hard_disc::simulator::cell::{
    get_index, get_indices, get_neighbour, init_cells, Cell, CellPosition,
};
use hard_disc::simulator::extrema::Extrema;
use hard_disc::simulator::util::vec_to_array;

fn single_cell() -> Cell<u32> {
    Cell {
        index: 0,
        particles: Vec::new(),
        events: Vec::new(),
        positions: [CellPosition::Centre, CellPosition::Centre],
        neighbours: [Extrema { min: 0, max: 0 }, Extrema { min: 0, max: 0 }],
    }
}

#[test]
fn case1() {
    const NDIMS: usize = 2usize;
    let ncells: [usize; NDIMS] = [2, 3];
    assert_eq!(get_indices(NDIMS, &ncells, 0), [0, 0]);
    assert_eq!(get_indices(NDIMS, &ncells, 1), [1, 0]);
    assert_eq!(get_indices(NDIMS, &ncells, 2), [0, 1]);
    assert_eq!(get_indices(NDIMS, &ncells, 3), [1, 1]);
    assert_eq!(get_indices(NDIMS, &ncells, 4), [0, 2]);
    assert_eq!(get_indices(NDIMS, &ncells, 5), [1, 2]);
}

#[test]
fn cell_case1() {
    const NDIMS: usize = 2usize;
    let ncells: [usize; NDIMS] = [2, 3];
    let ncells = ncells.to_vec();
    assert_eq!(get_index(NDIMS, &ncells, &[0, 0]), 0);
    assert_eq!(get_index(NDIMS, &ncells, &[1, 0]), 1);
    assert_eq!(get_index(NDIMS, &ncells, &[0, 1]), 2);
    assert_eq!(get_index(NDIMS, &ncells, &[1, 1]), 3);
    assert_eq!(get_index(NDIMS, &ncells, &[0, 2]), 4);
    assert_eq!(get_index(NDIMS, &ncells, &[1, 2]), 5);
}

#[test]
fn case2() {
    const NDIMS: usize = 3usize;
    let ncells: [usize; NDIMS] = [3, 2, 4];
    assert_eq!(get_indices(NDIMS, &ncells, 0), [0, 0, 0]);
    assert_eq!(get_indices(NDIMS, &ncells, 1), [1, 0, 0]);
    assert_eq!(get_indices(NDIMS, &ncells, 2), [2, 0, 0]);
    assert_eq!(get_indices(NDIMS, &ncells, 3), [0, 1, 0]);
    assert_eq!(get_indices(NDIMS, &ncells, 4), [1, 1, 0]);
    assert_eq!(get_indices(NDIMS, &ncells, 5), [2, 1, 0]);
    assert_eq!(get_indices(NDIMS, &ncells, 6), [0, 0, 1]);
    assert_eq!(get_indices(NDIMS, &ncells, 7), [1, 0, 1]);
    assert_eq!(get_indices(NDIMS, &ncells, 8), [2, 0, 1]);
    assert_eq!(get_indices(NDIMS, &ncells, 9), [0, 1, 1]);
    assert_eq!(get_indices(NDIMS, &ncells, 10), [1, 1, 1]);
    assert_eq!(get_indices(NDIMS, &ncells, 11), [2, 1, 1]);
    assert_eq!(get_indices(NDIMS, &ncells, 12), [0, 0, 2]);
    assert_eq!(get_indices(NDIMS, &ncells, 13), [1, 0, 2]);
    assert_eq!(get_indices(NDIMS, &ncells, 14), [2, 0, 2]);
    assert_eq!(get_indices(NDIMS, &ncells, 15), [0, 1, 2]);
    assert_eq!(get_indices(NDIMS, &ncells, 16), [1, 1, 2]);
    assert_eq!(get_indices(NDIMS, &ncells, 17), [2, 1, 2]);
    assert_eq!(get_indices(NDIMS, &ncells, 18), [0, 0, 3]);
    assert_eq!(get_indices(NDIMS, &ncells, 19), [1, 0, 3]);
    assert_eq!(get_indices(NDIMS, &ncells, 20), [2, 0, 3]);
    assert_eq!(get_indices(NDIMS, &ncells, 21), [0, 1, 3]);
    assert_eq!(get_indices(NDIMS, &ncells, 22), [1, 1, 3]);
    assert_eq!(get_indices(NDIMS, &ncells, 23), [2, 1, 3]);
}

#[test]
fn cell_case2() {
    const NDIMS: usize = 3usize;
    let ncells: [usize; NDIMS] = [3, 2, 4];
    assert_eq!(get_index(NDIMS, &ncells, &[0, 0, 0]), 0);
    assert_eq!(get_index(NDIMS, &ncells, &[1, 0, 0]), 1);
    assert_eq!(get_index(NDIMS, &ncells, &[2, 0, 0]), 2);
    assert_eq!(get_index(NDIMS, &ncells, &[0, 1, 0]), 3);
    assert_eq!(get_index(NDIMS, &ncells, &[1, 1, 0]), 4);
    assert_eq!(get_index(NDIMS, &ncells, &[2, 1, 0]), 5);
    assert_eq!(get_index(NDIMS, &ncells, &[0, 0, 1]), 6);
    assert_eq!(get_index(NDIMS, &ncells, &[1, 0, 1]), 7);
    assert_eq!(get_index(NDIMS, &ncells, &[2, 0, 1]), 8);
    assert_eq!(get_index(NDIMS, &ncells, &[0, 1, 1]), 9);
    assert_eq!(get_index(NDIMS, &ncells, &[1, 1, 1]), 10);
    assert_eq!(get_index(NDIMS, &ncells, &[2, 1, 1]), 11);
    assert_eq!(get_index(NDIMS, &ncells, &[0, 0, 2]), 12);
    assert_eq!(get_index(NDIMS, &ncells, &[1, 0, 2]), 13);
    assert_eq!(get_index(NDIMS, &ncells, &[2, 0, 2]), 14);
    assert_eq!(get_index(NDIMS, &ncells, &[0, 1, 2]), 15);
    assert_eq!(get_index(NDIMS, &ncells, &[1, 1, 2]), 16);
    assert_eq!(get_index(NDIMS, &ncells, &[2, 1, 2]), 17);
    assert_eq!(get_index(NDIMS, &ncells, &[0, 0, 3]), 18);
    assert_eq!(get_index(NDIMS, &ncells, &[1, 0, 3]), 19);
    assert_eq!(get_index(NDIMS, &ncells, &[2, 0, 3]), 20);
    assert_eq!(get_index(NDIMS, &ncells, &[0, 1, 3]), 21);
    assert_eq!(get_index(NDIMS, &ncells, &[1, 1, 3]), 22);
    assert_eq!(get_index(NDIMS, &ncells, &[2, 1, 3]), 23);
}

#[test]
fn neighbor_x() {
    let ncells: [usize; 2] = [3, 2];
    assert_eq!(
        get_neighbour(&ncells, 0, 0),
        Extrema::<usize> { min: 2, max: 1 }
    );
    assert_eq!(
        get_neighbour(&ncells, 0, 1),
        Extrema::<usize> { min: 0, max: 2 }
    );
    assert_eq!(
        get_neighbour(&ncells, 0, 2),
        Extrema::<usize> { min: 1, max: 0 }
    );
    assert_eq!(
        get_neighbour(&ncells, 0, 3),
        Extrema::<usize> { min: 5, max: 4 }
    );
    assert_eq!(
        get_neighbour(&ncells, 0, 4),
        Extrema::<usize> { min: 3, max: 5 }
    );
    assert_eq!(
        get_neighbour(&ncells, 0, 5),
        Extrema::<usize> { min: 4, max: 3 }
    );
}

#[test]
fn neighbor_y() {
    let ncells: [usize; 2] = [3, 2];
    assert_eq!(
        get_neighbour(&ncells, 1, 0),
        Extrema::<usize> { min: 3, max: 3 }
    );
    assert_eq!(
        get_neighbour(&ncells, 1, 1),
        Extrema::<usize> { min: 4, max: 4 }
    );
    assert_eq!(
        get_neighbour(&ncells, 1, 2),
        Extrema::<usize> { min: 5, max: 5 }
    );
    assert_eq!(
        get_neighbour(&ncells, 1, 3),
        Extrema::<usize> { min: 0, max: 0 }
    );
    assert_eq!(
        get_neighbour(&ncells, 1, 4),
        Extrema::<usize> { min: 1, max: 1 }
    );
    assert_eq!(
        get_neighbour(&ncells, 1, 5),
        Extrema::<usize> { min: 2, max: 2 }
    );
}

#[test]
fn indices_and_index_are_inverse() {
    let ncells: [usize; 3] = [3, 5, 4];
    for index in 0..60 {
        let indices = get_indices(3, &ncells, index);
        assert_eq!(get_index(3, &ncells, &indices), index);
    }
}

#[test]
fn an_axis_has_at_least_three_cells() {
    let (ncells, cells) = init_cells::<u32>(&[0, 1]);
    assert_eq!(ncells, [3, 3]);
    assert_eq!(cells.len(), 9);
    let (ncells, cells) = init_cells::<u32>(&[5, 2]);
    assert_eq!(ncells, [5, 3]);
    assert_eq!(cells.len(), 15);
}

#[test]
fn cells_are_laid_out_in_rows() {
    let (ncells, cells) = init_cells::<u32>(&[4, 3]);
    assert_eq!(ncells, [4, 3]);
    assert_eq!(cells.len(), 12);
    for (n, cell) in cells.iter().enumerate() {
        assert_eq!(cell.index, n);
        assert!(cell.particles.is_empty());
        assert!(cell.events.is_empty());
    }
    // first cell of the first row
    assert_eq!(cells[0].positions, [CellPosition::NegativeEdge, CellPosition::NegativeEdge]);
    assert_eq!(cells[0].neighbours[0], Extrema { min: 3, max: 1 });
    assert_eq!(cells[0].neighbours[1], Extrema { min: 8, max: 4 });
    // a cell in the middle row
    assert_eq!(cells[5].positions, [CellPosition::Centre, CellPosition::Centre]);
    assert_eq!(cells[5].neighbours[0], Extrema { min: 4, max: 6 });
    assert_eq!(cells[5].neighbours[1], Extrema { min: 1, max: 9 });
    // last cell of the last row
    assert_eq!(cells[11].positions, [CellPosition::PositiveEdge, CellPosition::PositiveEdge]);
    assert_eq!(cells[11].neighbours[0], Extrema { min: 10, max: 8 });
    assert_eq!(cells[11].neighbours[1], Extrema { min: 7, max: 3 });
    // last cell of the first row
    assert_eq!(cells[3].positions, [CellPosition::PositiveEdge, CellPosition::NegativeEdge]);
}

#[test]
fn neighbours_of_a_cell_differ() {
    let (_, cells) = init_cells::<u32>(&[3, 3]);
    for cell in cells.iter() {
        for dim in 0..2 {
            assert_ne!(cell.neighbours[dim].min, cell.index);
            assert_ne!(cell.neighbours[dim].max, cell.index);
            assert_ne!(cell.neighbours[dim].min, cell.neighbours[dim].max);
            assert_eq!(cells[cell.neighbours[dim].min].neighbours[dim].max, cell.index);
            assert_eq!(cells[cell.neighbours[dim].max].neighbours[dim].min, cell.index);
        }
    }
}

#[test]
fn a_cell_appends_and_removes_residents() {
    let mut cell = single_cell();
    cell.append(7);
    cell.append(3);
    cell.append(9);
    assert_eq!(cell.particles, vec![7, 3, 9]);
    cell.remove(3);
    assert_eq!(cell.particles, vec![7, 9]);
    cell.remove(7);
    assert_eq!(cell.particles, vec![9]);
    assert_eq!(cell.index, 0);
    assert!(cell.events.is_empty());
}

#[test]
fn a_vector_of_two_becomes_an_array() {
    assert_eq!(vec_to_array(vec![5u8, 9u8]), [5u8, 9u8]);
    assert_eq!(vec_to_array(vec!["a", "b"]), ["a", "b"]);
}
