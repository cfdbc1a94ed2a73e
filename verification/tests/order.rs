use core::cmp::Ordering;
use xwords::crossword::Crossword;
use xwords::crossword::WordIterator;
use xwords::crossword::Direction;
use xwords::ngram::bigrams;
use xwords::order::FrequencyOrderableCrossword;
use xwords::order::WordScore;
use xwords::order::score_crossword;
use xwords::order::score_iter;
use xwords::parse::WordBoundary;

#[test]
fn test() {
    assert_eq!((1, 2).cmp(&(3, 4)), Ordering::Less)
}

#[test]
fn score_crossword_words() {
    let words = vec![
        String::from("ABC"),
        String::from("DEF"),
        String::from("GHI"),
        String::from("ADG"),
        String::from("BEH"),
        String::from("CFI"),
    ];

    let bigrams = bigrams(&words);

    let crossword = Crossword::square(String::from(
        "
ABC
DEF
GHI
",
    ))
    .unwrap();

    assert_eq!(1, score_crossword(&bigrams, &crossword));

    let crossword = Crossword::square(String::from(
        "
AXX
DEF
GHI
",
    ))
    .unwrap();
    assert_eq!(0, score_crossword(&bigrams, &crossword));

    let crossword = Crossword::square(String::from("\n   \nDEF\nGHI\n")).unwrap();
    assert_eq!(1, score_crossword(&bigrams, &crossword));
}

#[test]
fn score_iter_works() {
    let bigrams = bigrams(&vec![String::from("ASDF"), String::from("DF")]);

    let c = Crossword::square(String::from("ASDF            ")).unwrap();
    let w = WordBoundary {
        direction: Direction::Across,
        length: 4,
        start_col: 0,
        start_row: 0,
    };
    let input = WordIterator::new(&c, &w);
    assert_eq!(
        WordScore {
            length: 4,
            space_count: 0,
            fillability_score: 1,
            start_col: w.start_col,
            start_row: w.start_row,
        },
        score_iter(&input, &bigrams)
    );

    let w = WordBoundary {
        direction: Direction::Across,
        length: 2,
        start_col: 2,
        start_row: 0,
    };
    let input = WordIterator::new(&c, &w);
    assert_eq!(
        WordScore {
            length: 2,
            fillability_score: 2,
            space_count: 0,
            start_col: w.start_col,
            start_row: w.start_row,
        },
        score_iter(&input, &bigrams)
    );
}

#[test]
fn word_score_ord_works() {
    assert_eq!(
        WordScore {
            length: 4,
            space_count: 5,
            fillability_score: 1,
            start_col: 0,
            start_row: 0,
        }
        .cmp(&WordScore {
            length: 3,
            space_count: 10,
            fillability_score: 2,
            start_col: 0,
            start_row: 0,
        }),
        Ordering::Less
    );

    assert_eq!(
        WordScore {
            length: 3,
            space_count: 5,
            fillability_score: 1,
            start_col: 0,
            start_row: 0,
        }
        .cmp(&WordScore {
            length: 3,
            space_count: 10,
            fillability_score: 2,
            start_col: 0,
            start_row: 0,
        }),
        Ordering::Less
    );

    assert_eq!(
        WordScore {
            length: 9,
            space_count: 5,
            fillability_score: 3,
            start_col: 0,
            start_row: 0,
        }
        .cmp(&WordScore {
            length: 9,
            space_count: 5,
            fillability_score: 2,
            start_col: 0,
            start_row: 0,
        }),
        Ordering::Greater
    );
}

#[test]
fn crossword_ord_works() {
    let words = vec![
        String::from("TN"),
        String::from("NE"),
        String::from("RT"),
        String::from("TR"),
        String::from("NT"),
        String::from("EN"),
    ];
    let bigrams = bigrams(&words);

    let a = FrequencyOrderableCrossword::new(
        Crossword::square(String::from("   TNERTN")).unwrap(),
        &bigrams,
    );
    println!("{:?}", a);

    let b = FrequencyOrderableCrossword::new(
        Crossword::square(String::from("   XYQQWZ")).unwrap(),
        &bigrams,
    );

    println!("{:?}", b);

    assert_eq!(a.cmp(&b), Ordering::Greater)
}
