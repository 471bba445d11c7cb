use boggler_rs::board::{BoggleBoard, Pos};

fn grid(height: usize, width: usize) -> BoggleBoard {
    let rows: Vec<Vec<String>> = (0..height)
        .map(|r| (0..width).map(|c| format!("{}{}", r, c)).collect())
        .collect();
    BoggleBoard::new(rows)
}

fn sorted(mut v: Vec<Pos>) -> Vec<(usize, usize)> {
    v.sort_by_key(|p| (p.row, p.col));
    v.into_iter().map(|p| (p.row, p.col)).collect()
}

#[test]
fn board_dimensions() {
    let board = grid(3, 4);
    assert_eq!(3, board.height());
    assert_eq!(4, board.width());
}

#[test]
fn board_centre_has_eight_neighbours() {
    let board = grid(3, 3);
    let adj = board.get_adjacent_indexes(Pos::new(1, 1));
    assert_eq!(
        sorted(adj),
        vec![(0, 0), (0, 1), (0, 2), (1, 0), (1, 2), (2, 0), (2, 1), (2, 2)]
    );
}

#[test]
fn board_corner_has_three_neighbours() {
    let board = grid(4, 4);
    let adj = board.get_adjacent_indexes(Pos::new(0, 0));
    assert_eq!(sorted(adj), vec![(0, 1), (1, 0), (1, 1)]);
    let adj = board.get_adjacent_indexes(Pos::new(3, 3));
    assert_eq!(sorted(adj), vec![(2, 2), (2, 3), (3, 2)]);
}

#[test]
fn board_neighbour_order() {
    let board = grid(3, 3);
    let adj: Vec<(usize, usize)> = board
        .get_adjacent_indexes(Pos::new(1, 1))
        .into_iter()
        .map(|p| (p.row, p.col))
        .collect();
    assert_eq!(
        adj,
        vec![(0, 1), (0, 0), (0, 2), (2, 1), (2, 0), (2, 2), (1, 0), (1, 2)]
    );
}

#[test]
fn board_single_cell_has_no_neighbour() {
    let board = grid(1, 1);
    assert!(board.get_adjacent_indexes(Pos::new(0, 0)).is_empty());
}

#[test]
fn board_single_row() {
    let board = grid(1, 3);
    let adj = board.get_adjacent_indexes(Pos::new(0, 1));
    assert_eq!(sorted(adj), vec![(0, 0), (0, 2)]);
}
