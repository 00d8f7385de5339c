use word_hunt::{
    find_char_in_matrix, find_neighbor, find_next_letter, CharInMatrix, EngineError, NextLetter,
    PositionInMatrix,
};

fn at(x: isize, y: isize) -> PositionInMatrix {
    PositionInMatrix { x, y }
}

#[test]
fn cell_is_found_by_row_then_column() {
    let mut matrix = [[CharInMatrix { char: 'a', value: 1, word_multiplier: 1 }; 5]; 5];
    matrix[2][3] = CharInMatrix { char: 'q', value: 7, word_multiplier: 2 };
    assert_eq!(
        find_char_in_matrix(&matrix, &at(3, 2)),
        Ok(&CharInMatrix { char: 'q', value: 7, word_multiplier: 2 })
    );
    assert_eq!(find_char_in_matrix(&matrix, &at(2, 3)).unwrap().char, 'a');
}

#[test]
fn cell_outside_the_grid_is_refused() {
    let matrix = [[CharInMatrix { char: 'a', value: 1, word_multiplier: 1 }; 5]; 5];
    assert_eq!(find_char_in_matrix(&matrix, &at(5, 0)), Err(EngineError::OutOfBounds));
    assert_eq!(find_char_in_matrix(&matrix, &at(0, 5)), Err(EngineError::OutOfBounds));
    assert_eq!(find_char_in_matrix(&matrix, &at(-1, 2)), Err(EngineError::OutOfBounds));
    assert_eq!(find_char_in_matrix(&matrix, &at(2, -1)), Err(EngineError::OutOfBounds));
}

#[test]
fn inner_cell_has_eight_neighbours_clockwise() {
    assert_eq!(
        find_neighbor(at(2, 2)),
        vec![at(1, 1), at(2, 1), at(3, 1), at(3, 2), at(3, 3), at(2, 3), at(1, 3), at(1, 2)]
    );
}

#[test]
fn corner_cells_have_three_neighbours() {
    assert_eq!(find_neighbor(at(0, 0)), vec![at(1, 0), at(1, 1), at(0, 1)]);
    assert_eq!(find_neighbor(at(4, 0)), vec![at(4, 1), at(3, 1), at(3, 0)]);
    assert_eq!(find_neighbor(at(4, 4)), vec![at(3, 3), at(4, 3), at(3, 4)]);
    assert_eq!(find_neighbor(at(0, 4)), vec![at(0, 3), at(1, 3), at(1, 4)]);
}

#[test]
fn edge_cell_has_five_neighbours() {
    assert_eq!(find_neighbor(at(2, 0)), vec![at(3, 0), at(3, 1), at(2, 1), at(1, 1), at(1, 0)]);
}

#[test]
fn positions_outside_the_grid_have_the_neighbours_that_lie_inside() {
    assert_eq!(find_neighbor(at(5, 5)), vec![at(4, 4)]);
    assert_eq!(find_neighbor(at(-1, 2)), vec![at(0, 1), at(0, 2), at(0, 3)]);
    assert_eq!(find_neighbor(at(7, 2)), vec![]);
    assert_eq!(find_neighbor(at(isize::MIN, isize::MAX)), vec![]);
    assert_eq!(find_neighbor(at(isize::MAX, 0)), vec![]);
}

#[test]
fn neighbours_are_the_same_on_every_call() {
    for y in 0..5 {
        for x in 0..5 {
            assert_eq!(find_neighbor(at(x, y)), find_neighbor(at(x, y)));
        }
    }
}

#[test]
fn first_candidate_with_the_letter_is_found() {
    let candidates = vec![
        NextLetter { char: 'a', would_be_word: false },
        NextLetter { char: 'b', would_be_word: false },
        NextLetter { char: 'b', would_be_word: true },
    ];
    assert_eq!(
        find_next_letter(&candidates, 'b'),
        Some(NextLetter { char: 'b', would_be_word: false })
    );
    assert_eq!(find_next_letter(&candidates, 'c'), None);
    assert_eq!(find_next_letter(&vec![], 'a'), None);
}
