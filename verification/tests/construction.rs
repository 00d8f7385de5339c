use trees::Tree;
use word_hunt::{
    construct_exploration_tree, walk_tree, CharInMatrix, CharLeaf, Construction, EngineError,
    Matrix, NextLetter, PositionInMatrix, Word,
};

fn at(x: isize, y: isize) -> PositionInMatrix {
    PositionInMatrix { x, y }
}

/// A grid of 25 different letters, each worth one point.
fn alphabet_grid() -> Matrix {
    let mut matrix = [[CharInMatrix { char: 'a', value: 1, word_multiplier: 1 }; 5]; 5];
    let letters: Vec<char> = "abcdefghijklmnopqrstuvwxy".chars().collect();
    for y in 0..5 {
        for x in 0..5 {
            matrix[y][x].char = letters[y * 5 + x];
        }
    }
    matrix
}

/// Answers as a dictionary that holds exactly `entries`.
fn look_up(entries: &[&str], prefix: &[char]) -> Vec<NextLetter> {
    let prefix: String = prefix.iter().collect();
    let mut candidates: Vec<NextLetter> = Vec::new();
    for entry in entries {
        if entry.len() > prefix.len() && entry.starts_with(&prefix) {
            let letter = entry.chars().nth(prefix.len()).unwrap();
            let whole = entry.len() == prefix.len() + 1;
            match candidates.iter_mut().find(|candidate| candidate.char == letter) {
                Some(candidate) => candidate.would_be_word = candidate.would_be_word || whole,
                None => candidates.push(NextLetter { char: letter, would_be_word: whole }),
            }
        }
    }
    candidates
}

/// Runs a construction to its end and lists the prefixes it asked about.
fn grow(
    matrix: Matrix,
    start: PositionInMatrix,
    entries: &[&str],
) -> (Tree<CharLeaf>, Vec<String>) {
    let mut asked: Vec<String> = Vec::new();
    let mut state = construct_exploration_tree(matrix, start).unwrap();
    loop {
        match state {
            Construction::Finished(tree) => return (tree, asked),
            Construction::Pending(builder) => {
                let prefix = builder.request();
                asked.push(prefix.iter().collect());
                state = builder.resume(Some(look_up(entries, &prefix))).unwrap();
            }
        }
    }
}

fn describe_node(node: &trees::Node<CharLeaf>, out: &mut String) {
    out.push(node.data().char);
    if node.data().is_word {
        out.push('!');
    }
    if !node.has_no_child() {
        out.push('(');
        for child in node.iter() {
            describe_node(child, out);
        }
        out.push(')');
    }
}

/// The tree in one line: each node's letter, `!` where it ends a word, and
/// its children in brackets.
fn describe(tree: &Tree<CharLeaf>) -> String {
    let mut out = String::new();
    describe_node(tree.root(), &mut out);
    out
}

#[test]
fn single_word_is_found_once() {
    // c a t sit at (2,0), (1,1), (0,2) in a grid of filler letters.
    let mut matrix = [[CharInMatrix { char: 'z', value: 1, word_multiplier: 1 }; 5]; 5];
    matrix[0][2].char = 'c';
    matrix[1][1].char = 'a';
    matrix[2][0].char = 't';
    let (tree, _) = grow(matrix, at(2, 0), &["cat"]);
    let words = walk_tree(tree, &matrix).unwrap();
    assert_eq!(
        words,
        vec![Word { word: String::from("cat"), value: 3, path: vec![at(2, 0), at(1, 1), at(0, 2)] }]
    );
}

#[test]
fn root_gets_every_neighbour_and_deeper_nodes_are_pruned() {
    let matrix = alphabet_grid();
    // From the corner 'a' the neighbours are b (1,0), g (1,1), f (0,1), in that order.
    let (tree, asked) = grow(matrix, at(0, 0), &["abc", "abh", "agm"]);
    assert_eq!(describe(&tree), "a(b(c!h!)g(m!)f)");
    assert_eq!(asked, vec!["ab", "abc", "abh", "ag", "agm", "af"]);
}

#[test]
fn words_of_two_letters_are_never_flagged() {
    let matrix = alphabet_grid();
    let (tree, asked) = grow(matrix, at(0, 0), &["ab", "abc"]);
    assert_eq!(describe(&tree), "a(b(c!)gf)");
    assert!(!asked.contains(&String::from("a")));
    let words = walk_tree(tree, &matrix).unwrap();
    assert_eq!(words.len(), 1);
    assert_eq!(words[0].word, "abc");
}

#[test]
fn a_cell_is_not_visited_twice() {
    let mut matrix = [[CharInMatrix { char: 'z', value: 1, word_multiplier: 1 }; 5]; 5];
    matrix[0][0].char = 'a';
    matrix[0][1].char = 'b';
    // "aba" would need the cell (0,0) twice.
    let (tree, _) = grow(matrix, at(0, 0), &["aba"]);
    assert_eq!(describe(&tree), "a(bzz)");
    assert_eq!(walk_tree(tree, &matrix), Ok(vec![]));
}

#[test]
fn same_letters_on_two_paths_give_two_words() {
    let mut matrix = [[CharInMatrix { char: 'z', value: 1, word_multiplier: 1 }; 5]; 5];
    matrix[0][0].char = 'c';
    matrix[0][1].char = 'a';
    matrix[1][0].char = 'a';
    matrix[1][1].char = 't';
    let (tree, _) = grow(matrix, at(0, 0), &["cat"]);
    let words = walk_tree(tree, &matrix).unwrap();
    assert_eq!(
        words,
        vec![
            Word { word: String::from("cat"), value: 3, path: vec![at(0, 0), at(1, 0), at(1, 1)] },
            Word { word: String::from("cat"), value: 3, path: vec![at(0, 0), at(0, 1), at(1, 1)] },
        ]
    );
}

#[test]
fn unavailable_dictionary_ends_the_construction() {
    let matrix = alphabet_grid();
    match construct_exploration_tree(matrix, at(2, 2)).unwrap() {
        Construction::Pending(builder) => {
            assert_eq!(builder.request(), vec!['m', 'g']);
            match builder.resume(None) {
                Err(error) => assert_eq!(error, EngineError::LookupUnavailable),
                Ok(_) => panic!("the construction went on without an answer"),
            }
        }
        Construction::Finished(_) => panic!("no request was made"),
    }
}

#[test]
fn unavailable_dictionary_later_on_ends_the_construction() {
    let matrix = alphabet_grid();
    let first = construct_exploration_tree(matrix, at(0, 0)).unwrap();
    let second = match first {
        Construction::Pending(builder) => {
            builder.resume(Some(vec![NextLetter { char: 'c', would_be_word: false }])).unwrap()
        }
        Construction::Finished(_) => panic!("no request was made"),
    };
    match second {
        Construction::Pending(builder) => {
            assert_eq!(builder.request(), vec!['a', 'b', 'c']);
            assert!(matches!(builder.resume(None), Err(EngineError::LookupUnavailable)));
        }
        Construction::Finished(_) => panic!("no second request was made"),
    }
}

#[test]
fn start_outside_the_grid_is_refused() {
    let matrix = alphabet_grid();
    assert!(matches!(
        construct_exploration_tree(matrix, at(5, 0)),
        Err(EngineError::OutOfBounds)
    ));
    assert!(matches!(
        construct_exploration_tree(matrix, at(0, -1)),
        Err(EngineError::OutOfBounds)
    ));
}

#[test]
fn the_first_candidate_for_a_letter_decides() {
    let matrix = alphabet_grid();
    let first = construct_exploration_tree(matrix, at(0, 0)).unwrap();
    let answer = vec![
        NextLetter { char: 'c', would_be_word: false },
        NextLetter { char: 'c', would_be_word: true },
        NextLetter { char: 'h', would_be_word: true },
    ];
    let mut state = match first {
        Construction::Pending(builder) => builder.resume(Some(answer)).unwrap(),
        Construction::Finished(_) => panic!("no request was made"),
    };
    let tree = loop {
        match state {
            Construction::Finished(tree) => break tree,
            Construction::Pending(builder) => state = builder.resume(Some(vec![])).unwrap(),
        }
    };
    assert_eq!(describe(&tree), "a(b(ch!)gf)");
}

#[test]
fn building_and_walking_twice_gives_the_same_words() {
    let matrix = alphabet_grid();
    let entries = ["mgh", "mgab", "mgb", "mrs", "mrst", "mnoj"];
    let (first, asked_first) = grow(matrix, at(2, 2), &entries);
    let (second, asked_second) = grow(matrix, at(2, 2), &entries);
    assert_eq!(asked_first, asked_second);
    let first = walk_tree(first, &matrix).unwrap();
    let second = walk_tree(second, &matrix).unwrap();
    assert_eq!(first.len(), 6);
    assert_eq!(first, second);
}

#[test]
fn words_have_as_many_cells_as_letters_and_no_cell_twice() {
    let matrix = alphabet_grid();
    let entries = ["mgh", "mgab", "mgb", "mrs", "mrst", "mnoj", "mgm"];
    let (tree, _) = grow(matrix, at(2, 2), &entries);
    let words = walk_tree(tree, &matrix).unwrap();
    assert_eq!(words.len(), 6);
    for word in &words {
        assert_eq!(word.word.chars().count(), word.path.len());
        assert_eq!(word.value as usize, word.path.len());
        for (i, p) in word.path.iter().enumerate() {
            assert!(!word.path[..i].contains(p));
            assert_eq!(matrix[p.y as usize][p.x as usize].char, word.word.chars().nth(i).unwrap());
        }
    }
}

#[test]
fn dictionary_is_asked_once_for_each_node_but_the_root() {
    let matrix = alphabet_grid();
    let entries = ["mgh", "mgab", "mgb", "mrs", "mrst", "mnoj"];
    for (x, y) in [(2, 2), (0, 0), (4, 1)] {
        let (tree, asked) = grow(matrix, at(x, y), &entries);
        assert_eq!(asked.len() + 1, tree.root().node_count());
    }
    let (tree, asked) = grow(matrix, at(2, 2), &entries);
    // The root, its eight neighbours, and what the dictionary lets through.
    assert_eq!(describe(&tree), "m(g(a(b!)b!h!)hin(o(j!))sr(s!(t!))ql)");
    assert_eq!(asked.len(), 16);
    assert_eq!(asked[..6], ["mg", "mga", "mgab", "mgb", "mgh", "mh"]);
}

#[test]
fn scores_are_at_least_the_points_of_the_cells() {
    let mut matrix = alphabet_grid();
    for y in 0..5 {
        for x in 0..5 {
            matrix[y][x].value = (1 + x + 2 * y) as u16;
            matrix[y][x].word_multiplier = ((x * y) % 4) as u16;
        }
    }
    let entries = ["mgh", "mgab", "mgb", "mrs", "mrst", "mnoj", "msy", "mstx"];
    let (tree, _) = grow(matrix, at(2, 2), &entries);
    let words = walk_tree(tree, &matrix).unwrap();
    assert_eq!(words.len(), 8);
    for word in &words {
        let points: u16 = word.path.iter().map(|p| matrix[p.y as usize][p.x as usize].value).sum();
        assert!(word.value >= points);
        assert_eq!(word.value % points, 0);
    }
    // "mgh": m (2,2) 7 points x0, g (1,1) 4 points x1, h (2,1) 5 points x2.
    assert_eq!(words[0].word, "mgab");
    let mgh = words.iter().find(|w| w.word == "mgh").unwrap();
    assert_eq!(mgh.value, (7 + 4 + 5) * 2);
}

#[test]
fn every_cell_can_be_a_starting_cell() {
    let matrix = alphabet_grid();
    let entries = ["abc", "mgh", "yxw", "uvw", "eji", "ejd"];
    let mut found: Vec<String> = Vec::new();
    for y in 0..5 {
        for x in 0..5 {
            let (tree, _) = grow(matrix, at(x, y), &entries);
            assert_eq!(tree.root().data().pos, at(x, y));
            assert!(!tree.root().data().is_word);
            for word in walk_tree(tree, &matrix).unwrap() {
                assert_eq!(word.path[0], at(x, y));
                found.push(word.word);
            }
        }
    }
    found.sort();
    assert_eq!(found, vec!["abc", "ejd", "eji", "mgh", "uvw", "yxw"]);
}
