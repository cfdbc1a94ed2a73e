use std::collections::HashSet;
use xwords::crossword::Crossword;
use xwords::crossword::Direction;
use xwords::crossword::WordIterator;
use xwords::parse::WordBoundary;

#[test]
fn crossword_it_works() {
    let result = Crossword::square(String::from(
        "
abc
def
ghi
",
    ));

    assert!(result.is_ok());

    let c = result.unwrap();
    assert_eq!(String::from("abcdefghi"), c.contents());
    assert_eq!(3, c.width());
    assert_eq!(3, c.height());
    println!("{}", c.render());
}

#[test]
fn crossword_iterator_works() {
    let input = Crossword::square(String::from("ABCDEFGHI")).unwrap();
    let word_boundary = WordBoundary {
        start_col: 0,
        start_row: 0,
        direction: Direction::Across,
        length: 3,
    };

    let t = WordIterator::new(&input, &word_boundary);

    let s: String = t.to_string();

    assert_eq!(String::from("ABC"), s);

    let word_boundary = WordBoundary {
        start_col: 0,
        start_row: 0,
        direction: Direction::Down,
        length: 3,
    };

    let t = WordIterator::new(&input, &word_boundary);

    let s: String = t.to_string();

    assert_eq!(String::from("ADG"), s);
}

#[test]
fn crossword_iterator_eq_works() {
    let input = Crossword::square(String::from("ABCB  C  ")).unwrap();
    let a = WordBoundary {
        start_col: 0,
        start_row: 0,
        direction: Direction::Across,
        length: 3,
    };
    let b = WordBoundary {
        start_col: 0,
        start_row: 0,
        direction: Direction::Down,
        length: 3,
    };

    let a_iter = WordIterator::new(&input, &a);

    let b_iter = WordIterator::new(&input, &b);

    assert_eq!(a_iter, b_iter);
}

#[test]
fn crossword_iterator_hash_works() {
    let input = Crossword::square(String::from("ABCB  C  ")).unwrap();
    let a = WordBoundary {
        start_col: 0,
        start_row: 0,
        direction: Direction::Across,
        length: 3,
    };
    let b = WordBoundary {
        start_col: 0,
        start_row: 0,
        direction: Direction::Down,
        length: 3,
    };

    let a_iter = WordIterator::new(&input, &a);

    let b_iter = WordIterator::new(&input, &b);

    let mut set = HashSet::new();

    set.insert(a_iter);

    assert!(set.contains(&b_iter));
}

#[test]
fn square_rejects_non_square_contents() {
    let result = Crossword::square(String::from("abcdef"));
    assert_eq!(result.unwrap_err(), String::from("Contents are not a square."));
}

#[test]
fn square_rejects_bad_character() {
    let result = Crossword::square(String::from("ab#c"));
    assert_eq!(
        result.unwrap_err(),
        String::from("Contents contain an invalid character.")
    );
}

#[test]
fn rectangle_rejects_mismatched_dimensions() {
    let result = Crossword::rectangle(String::from("abc"), 2, 2);
    assert_eq!(
        result.unwrap_err(),
        String::from("Contents do not match specified dimensions")
    );
}

#[test]
fn render_then_parse_preserves_cells() {
    let c = Crossword::rectangle(String::from("AB*C D*EF GH "), 13, 1).unwrap();
    let text = c.render();
    let back = Crossword::rectangle(text, 13, 1).unwrap();
    assert_eq!(back, c);

    let c = Crossword::square(String::from("AB CD*EF*")).unwrap();
    let back = Crossword::square(c.render()).unwrap();
    assert_eq!(back.contents(), c.contents());
}
