//! Word search on a fixed 5x5 letter grid.
//!
//! A word is spelled by walking from cell to adjacent cell without visiting a
//! cell twice. For one starting cell the engine first grows the tree of all
//! such walks that a dictionary still accepts, and then reads the scored words
//! off that tree.
//!
//! * [`grid`]: positions, cells, the adjacency function.
//! * [`dictionary`]: what a dictionary answers for a prefix.
//! * [`tree`]: the exploration tree and its depth-first traversal.
//! * [`construction`]: growing the tree, one dictionary answer at a time.
//! * [`walk`]: reading the scored words off a tree.
//! * [`words`]: the words of a tree, and what holds of them.
//! * [`exploration`]: the exploration tree, and what holds of it and its words.
//! * [`tracking`]: that a construction grows the exploration tree.
//! * [`progress`]: that a construction ends, and how often it asks.
//! * [`store`]: the query for a dictionary that is kept in a database table.

pub mod construction;
pub mod dictionary;
pub mod exploration;
pub mod grid;
pub mod progress;
pub mod store;
pub mod strings;
pub mod tracking;
pub mod tree;
pub mod walk;
pub mod words;

pub use construction::{construct_exploration_tree, Builder, Construction};
pub use dictionary::{find_next_letter, NextLetter};
pub use grid::{find_char_in_matrix, find_neighbor, CharInMatrix, EngineError, Matrix, PositionInMatrix};
pub use store::{prepare_search, read_next_letter};
pub use tree::{CharLeaf, Visit, VisitKind};
pub use walk::{walk_tree, walk_tree_checked, Word};
