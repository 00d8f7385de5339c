//! Asking a dictionary that is kept in a database table.
//!
//! The table `test` has a column `path` that holds each word as a label path,
//! one label for each letter (`c.a.t`). This file writes the query that finds
//! the letters that may follow a prefix, and reads one row of its answer. It
//! does not talk to the database.

use vstd::prelude::*;
use vstd::string::StrSliceExecFns;
use vstd::string::StringExecFns;
use crate::dictionary::NextLetter;

verus! {

/// The digit for a number below ten.
pub open spec fn digit(value: nat) -> char {
    if value == 0 {
        '0'
    } else if value == 1 {
        '1'
    } else if value == 2 {
        '2'
    } else if value == 3 {
        '3'
    } else if value == 4 {
        '4'
    } else if value == 5 {
        '5'
    } else if value == 6 {
        '6'
    } else if value == 7 {
        '7'
    } else if value == 8 {
        '8'
    } else {
        '9'
    }
}

/// A number written in decimal digits.
pub open spec fn decimal(number: nat) -> Seq<char>
    decreases number,
{
    if number < 10 {
        seq![digit(number)]
    } else {
        decimal(number / 10).push(digit(number % 10))
    }
}

/// The label path of a prefix, with the dot that a further label would
/// follow: each letter, and a dot after it.
pub open spec fn label_path(letters: Seq<char>) -> Seq<char>
    decreases letters.len(),
{
    if letters.len() == 0 {
        Seq::empty()
    } else {
        label_path(letters.drop_last()).push(letters.last()).push('.')
    }
}

/// The query for the letters that may follow a prefix. For each label that
/// follows the prefix in some path of the table it gives one row: the label,
/// and whether the prefix with that label is a whole path of the table.
pub open spec fn search_query(letters: Seq<char>) -> Seq<char> {
    let level = decimal(letters.len());
    let path = label_path(letters);
    "SELECT subpath(path, "@ + level + ", 1)::text AS nextLetter, max((path::text = concat('"@
        + path + "', subpath(path, "@ + level
        + ", 1)::text))::int)::bool AS isWord FROM test WHERE path ~ '"@ + path
        + "*' AND nlevel(path) > "@ + level + " GROUP BY nextLetter"@
}

/// The digit for a number below ten.
fn digit_of(value: usize) -> (letter: char)
    requires
        value < 10,
    ensures
        letter == digit(value as nat),
{
    if value == 0 {
        '0'
    } else if value == 1 {
        '1'
    } else if value == 2 {
        '2'
    } else if value == 3 {
        '3'
    } else if value == 4 {
        '4'
    } else if value == 5 {
        '5'
    } else if value == 6 {
        '6'
    } else if value == 7 {
        '7'
    } else if value == 8 {
        '8'
    } else {
        '9'
    }
}

/// Appends a number in decimal digits.
fn push_decimal(text: &mut String, number: usize)
    ensures
        final(text)@ == old(text)@ + decimal(number as nat),
    decreases number,
{
    if number < 10 {
        text.push(digit_of(number));
        assert(final(text)@ =~= old(text)@ + decimal(number as nat));
    } else {
        push_decimal(text, number / 10);
        text.push(digit_of(number % 10));
        assert(final(text)@ =~= old(text)@ + decimal(number as nat));
    }
}

/// Appends the label path of a prefix.
fn push_label_path(text: &mut String, letters: &Vec<char>)
    ensures
        final(text)@ == old(text)@ + label_path(letters@),
{
    let mut i: usize = 0;
    assert(letters@.take(0) =~= Seq::empty());
    assert(text@ =~= old(text)@ + label_path(letters@.take(0)));
    while i < letters.len()
        invariant
            i <= letters.len(),
            text@ == old(text)@ + label_path(letters@.take(i as int)),
        decreases letters.len() - i,
    {
        text.push(letters[i]);
        text.push('.');
        proof {
            let longer = letters@.take(i as int + 1);
            assert(longer.drop_last() =~= letters@.take(i as int));
            assert(text@ =~= old(text)@ + label_path(longer));
        }
        i = i + 1;
    }
    assert(letters@.take(letters.len() as int) =~= letters@);
}

/// Writes the query for the letters that may follow a prefix.
pub fn prepare_search(letters: &Vec<char>) -> (query: String)
    ensures
        query@ == search_query(letters@),
{
    let mut query = String::from_str("SELECT subpath(path, ");
    push_decimal(&mut query, letters.len());
    query.append(", 1)::text AS nextLetter, max((path::text = concat('");
    push_label_path(&mut query, letters);
    query.append("', subpath(path, ");
    push_decimal(&mut query, letters.len());
    query.append(", 1)::text))::int)::bool AS isWord FROM test WHERE path ~ '");
    push_label_path(&mut query, letters);
    query.append("*' AND nlevel(path) > ");
    push_decimal(&mut query, letters.len());
    query.append(" GROUP BY nextLetter");
    query
}

/// Reads one row of the answer: the letter is the first character of the
/// label. A row with an empty label names no letter.
pub fn read_next_letter(label: &str, would_be_word: bool) -> (read: Option<NextLetter>)
    ensures
        label@.len() == 0 ==> read is None,
        label@.len() > 0 ==> read == Some(NextLetter { char: label@[0], would_be_word }),
{
    if label.unicode_len() == 0 {
        None
    } else {
        Some(NextLetter { char: label.get_char(0), would_be_word })
    }
}

} // verus!
