use word_hunt::{prepare_search, read_next_letter, NextLetter};

#[test]
fn query_names_the_prefix_as_a_label_path_and_its_length() {
    assert_eq!(
        prepare_search(&vec!['c', 'a']),
        "SELECT subpath(path, 2, 1)::text AS nextLetter, \
         max((path::text = concat('c.a.', subpath(path, 2, 1)::text))::int)::bool AS isWord \
         FROM test WHERE path ~ 'c.a.*' AND nlevel(path) > 2 GROUP BY nextLetter"
    );
}

#[test]
fn query_writes_long_prefixes_in_decimal() {
    let letters: Vec<char> = "abcdefghijklmnopqrstuvwxy".chars().collect();
    let query = prepare_search(&letters);
    assert!(query.starts_with("SELECT subpath(path, 25, 1)::text"));
    assert!(query.contains("concat('a.b.c.d.e.f.g.h.i.j.k.l.m.n.o.p.q.r.s.t.u.v.w.x.y.', subpath(path, 25, 1)"));
    assert!(query.ends_with("AND nlevel(path) > 25 GROUP BY nextLetter"));
    let hundred: Vec<char> = vec!['z'; 100];
    assert!(prepare_search(&hundred).ends_with("AND nlevel(path) > 100 GROUP BY nextLetter"));
    assert!(prepare_search(&vec![]).ends_with("WHERE path ~ '*' AND nlevel(path) > 0 GROUP BY nextLetter"));
}

#[test]
fn row_gives_the_first_character_of_its_label() {
    assert_eq!(read_next_letter("t", true), Some(NextLetter { char: 't', would_be_word: true }));
    assert_eq!(read_next_letter("é", false), Some(NextLetter { char: 'é', would_be_word: false }));
    assert_eq!(read_next_letter("th", false), Some(NextLetter { char: 't', would_be_word: false }));
    assert_eq!(read_next_letter("", true), None);
}
