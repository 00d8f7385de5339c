use trees::Tree;
use word_hunt::{walk_tree, walk_tree_checked, CharInMatrix, CharLeaf, EngineError, Matrix, PositionInMatrix, Word};

fn plain_grid() -> Matrix {
    [[CharInMatrix { char: 'a', value: 1, word_multiplier: 1 }; 5]; 5]
}

fn at(x: isize, y: isize) -> PositionInMatrix {
    PositionInMatrix { x, y }
}

fn node(char: char, is_word: bool, x: isize, y: isize) -> Tree<CharLeaf> {
    Tree::new(CharLeaf { char, is_word, pos: at(x, y) })
}

#[test]
fn lone_root_yields_no_word() {
    let matrix = plain_grid();
    let tree = node('a', false, 0, 0);
    assert_eq!(walk_tree(tree, &matrix), Ok(vec![]));
}

#[test]
fn multiplier_on_the_path_multiplies_the_whole_word() {
    let mut matrix = plain_grid();
    matrix[0][0] = CharInMatrix { char: 'o', value: 1, word_multiplier: 3 };
    matrix[0][1] = CharInMatrix { char: 'x', value: 2, word_multiplier: 1 };
    let mut tree = node('o', false, 0, 0);
    tree.push_back(node('x', true, 1, 0));
    let words = walk_tree(tree, &matrix).unwrap();
    assert_eq!(
        words,
        vec![Word { word: String::from("ox"), value: 9, path: vec![at(0, 0), at(1, 0)] }]
    );
}

#[test]
fn node_outside_the_grid_is_refused() {
    let matrix = plain_grid();
    let mut tree = node('a', false, 0, 0);
    tree.push_back(node('b', true, 5, 0));
    assert_eq!(walk_tree_checked(tree, &matrix), Some(Err(EngineError::OutOfBounds)));
}

#[test]
fn word_that_ends_inside_the_tree_is_found_before_longer_ones() {
    let matrix = plain_grid();
    let mut far = node('c', true, 2, 0);
    far.push_back(node('d', true, 3, 0));
    let mut near = node('b', true, 1, 0);
    near.push_back(far);
    near.push_back(node('e', false, 1, 1));
    let mut tree = node('a', false, 0, 0);
    tree.push_back(near);
    tree.push_back(node('f', true, 0, 1));
    let words = walk_tree(tree, &matrix).unwrap();
    let listed: Vec<(&str, u16, usize)> =
        words.iter().map(|w| (w.word.as_str(), w.value, w.path.len())).collect();
    assert_eq!(listed, vec![("ab", 2, 2), ("abc", 3, 3), ("abcd", 4, 4), ("af", 2, 2)]);
    assert_eq!(words[2].path, vec![at(0, 0), at(1, 0), at(2, 0), at(3, 0)]);
    assert_eq!(words[3].path, vec![at(0, 0), at(0, 1)]);
}

#[test]
fn score_uses_the_greater_of_the_two_multipliers() {
    let mut matrix = plain_grid();
    matrix[0][0] = CharInMatrix { char: 'a', value: 2, word_multiplier: 2 };
    matrix[0][1] = CharInMatrix { char: 'b', value: 3, word_multiplier: 3 };
    matrix[0][2] = CharInMatrix { char: 'c', value: 4, word_multiplier: 1 };
    let mut middle = node('b', true, 1, 0);
    middle.push_back(node('c', true, 2, 0));
    let mut tree = node('a', false, 0, 0);
    tree.push_back(middle);
    let words = walk_tree(tree, &matrix).unwrap();
    // "ab": (2 + 3) * max(3, 2); "abc": (2 + 3 + 4) * max(1, 3).
    assert_eq!(words.iter().map(|w| w.value).collect::<Vec<u16>>(), vec![15, 27]);
}

#[test]
fn leaving_a_multiplier_cell_resets_the_multiplier_to_one() {
    let mut matrix = plain_grid();
    matrix[0][0] = CharInMatrix { char: 'a', value: 1, word_multiplier: 2 };
    matrix[0][1] = CharInMatrix { char: 'b', value: 1, word_multiplier: 3 };
    matrix[0][2] = CharInMatrix { char: 'c', value: 1, word_multiplier: 1 };
    matrix[1][0] = CharInMatrix { char: 'd', value: 1, word_multiplier: 1 };
    // a(x2) has the children b(x3) and d; b has the child c.
    let mut inner = node('b', false, 1, 0);
    inner.push_back(node('c', true, 2, 0));
    let mut tree = node('a', false, 0, 0);
    tree.push_back(inner);
    tree.push_back(node('d', true, 0, 1));
    let words = walk_tree(tree, &matrix).unwrap();
    // "abc" is inside both cells: 3 points times 3. When b is left the
    // multiplier falls back to 1, not to the 2 of a, so "ad" scores 2 * 1.
    assert_eq!(
        words,
        vec![
            Word { word: String::from("abc"), value: 9, path: vec![at(0, 0), at(1, 0), at(2, 0)] },
            Word { word: String::from("ad"), value: 2, path: vec![at(0, 0), at(0, 1)] },
        ]
    );
}

#[test]
fn multiplier_of_a_leaf_counts_for_its_own_word_only() {
    let mut matrix = plain_grid();
    matrix[0][1] = CharInMatrix { char: 'b', value: 1, word_multiplier: 4 };
    let mut tree = node('a', false, 0, 0);
    tree.push_back(node('b', true, 1, 0));
    tree.push_back(node('c', true, 0, 1));
    let words = walk_tree(tree, &matrix).unwrap();
    assert_eq!(words.iter().map(|w| w.value).collect::<Vec<u16>>(), vec![8, 2]);
}

#[test]
fn multiplier_zero_counts_as_one() {
    let mut matrix = plain_grid();
    matrix[0][1] = CharInMatrix { char: 'b', value: 5, word_multiplier: 0 };
    let mut tree = node('a', false, 0, 0);
    tree.push_back(node('b', true, 1, 0));
    let words = walk_tree(tree, &matrix).unwrap();
    assert_eq!(words[0].value, 6);
}

#[test]
fn letters_come_from_the_nodes_and_points_from_the_grid() {
    let mut matrix = plain_grid();
    matrix[1][1] = CharInMatrix { char: 'q', value: 10, word_multiplier: 1 };
    let mut tree = node('x', false, 0, 0);
    tree.push_back(node('y', true, 1, 1));
    let words = walk_tree(tree, &matrix).unwrap();
    assert_eq!(words, vec![Word { word: String::from("xy"), value: 11, path: vec![at(0, 0), at(1, 1)] }]);
}

#[test]
fn score_that_does_not_fit_is_reported() {
    let mut matrix = plain_grid();
    matrix[0][0] = CharInMatrix { char: 'a', value: 40000, word_multiplier: 1 };
    matrix[0][1] = CharInMatrix { char: 'b', value: 30000, word_multiplier: 1 };
    let mut tree = node('a', false, 0, 0);
    tree.push_back(node('b', true, 1, 0));
    assert_eq!(walk_tree_checked(tree, &matrix), None);

    let mut matrix = plain_grid();
    matrix[0][0] = CharInMatrix { char: 'a', value: 30000, word_multiplier: 3 };
    let mut tree = node('a', false, 0, 0);
    tree.push_back(node('b', true, 1, 0));
    assert_eq!(walk_tree_checked(tree, &matrix), None);

    let mut matrix = plain_grid();
    matrix[0][0] = CharInMatrix { char: 'a', value: 65534, word_multiplier: 1 };
    let mut tree = node('a', false, 0, 0);
    tree.push_back(node('b', true, 1, 0));
    let words = walk_tree_checked(tree, &matrix).unwrap().unwrap();
    assert_eq!(words[0].value, 65535);
}

#[test]
fn what_comes_first_in_the_traversal_decides() {
    let mut matrix = plain_grid();
    matrix[0][0] = CharInMatrix { char: 'a', value: 65535, word_multiplier: 1 };
    // The node outside the grid is met before the score that does not fit.
    let mut tree = node('a', false, 0, 0);
    tree.push_back(node('b', false, 9, 9));
    tree.push_back(node('c', true, 1, 0));
    assert_eq!(walk_tree_checked(tree, &matrix), Some(Err(EngineError::OutOfBounds)));
    // And the other way round.
    let mut tree = node('a', false, 0, 0);
    tree.push_back(node('c', true, 1, 0));
    tree.push_back(node('b', false, 9, 9));
    assert_eq!(walk_tree_checked(tree, &matrix), None);
}

#[test]
fn checked_walk_agrees_with_the_plain_one() {
    let matrix = plain_grid();
    let build = || {
        let mut tree = node('a', false, 0, 0);
        let mut b = node('b', true, 1, 0);
        b.push_back(node('c', true, 2, 0));
        tree.push_back(b);
        tree
    };
    assert_eq!(walk_tree_checked(build(), &matrix), Some(walk_tree(build(), &matrix)));
}

#[test]
fn leaf_is_labelled_with_its_letter() {
    let leaf = CharLeaf { char: 'q', is_word: true, pos: at(1, 2) };
    assert_eq!(leaf.label(), "CharLeaf (q)");
}

#[test]
fn smaller_multiplier_inside_a_greater_one_does_not_lower_it() {
    let mut matrix = plain_grid();
    matrix[0][0] = CharInMatrix { char: 'a', value: 1, word_multiplier: 3 };
    matrix[0][1] = CharInMatrix { char: 'b', value: 1, word_multiplier: 2 };
    matrix[0][2] = CharInMatrix { char: 'c', value: 1, word_multiplier: 1 };
    let mut inner = node('b', false, 1, 0);
    inner.push_back(node('c', true, 2, 0));
    let mut tree = node('a', false, 0, 0);
    tree.push_back(inner);
    let words = walk_tree(tree, &matrix).unwrap();
    assert_eq!(words.len(), 1);
    assert_eq!(words[0].value, 9);
}
