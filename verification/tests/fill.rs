use xwords::crossword::Crossword;
use xwords::crossword::Direction;
use xwords::crossword::WordIterator;
use xwords::fill::cache::CachedIsViable;
use xwords::fill::fill_one_word;
use xwords::parse::WordBoundary;
use xwords::trie::Trie;

#[test]
fn fill_fill_one_word_works() {
    let c = Crossword::square(String::from(
        "
abc
def
ghi
",
    ))
    .unwrap();

    assert_eq!(
        fill_one_word(
            &c,
            &WordIterator::new(
                &c,
                &WordBoundary {
                    start_col: 0,
                    start_row: 0,
                    length: 3,
                    direction: Direction::Across,
                },
            ),
            "cat"
        ),
        Crossword::square(String::from(
            "
cat
def
ghi
",
        ))
        .unwrap()
    );

    assert_eq!(
        fill_one_word(
            &c,
            &WordIterator::new(
                &c,
                &WordBoundary {
                    start_col: 0,
                    start_row: 0,
                    length: 3,
                    direction: Direction::Down,
                }
            ),
            "cat",
        ),
        Crossword::square(String::from(
            "
cbc
aef
thi
",
        ))
        .unwrap()
    );
}

#[test]
fn mod_fill_one_word_works() {
    let c = Crossword::square(String::from(
        "
abc
def
ghi
",
    ))
    .unwrap();

    assert_eq!(
        fill_one_word(
            &c,
            &WordIterator::new(
                &c,
                &WordBoundary {
                    start_col: 0,
                    start_row: 0,
                    length: 3,
                    direction: Direction::Across,
                },
            ),
            "cat"
        ),
        Crossword::square(String::from(
            "
cat
def
ghi
",
        ))
        .unwrap()
    );

    assert_eq!(
        fill_one_word(
            &c,
            &WordIterator::new(
                &c,
                &WordBoundary {
                    start_col: 0,
                    start_row: 0,
                    length: 3,
                    direction: Direction::Down,
                }
            ),
            "cat",
        ),
        Crossword::square(String::from(
            "
cbc
aef
thi
",
        ))
        .unwrap()
    );
}

#[test]
fn cache_works() {
    let trie = Trie::build(vec![
        String::from("bass"),
        String::from("bats"),
        String::from("bess"),
        String::from("be"),
    ]);

    let crossword = Crossword::square(String::from(
        "\nbass\na   \ns   \ns   \n",
    ))
    .unwrap();
    let word_boundary = WordBoundary {
        start_row: 0,
        start_col: 0,
        direction: Direction::Across,
        length: 4,
    };
    let iter = WordIterator::new(&crossword, &word_boundary);

    let mut cache = CachedIsViable::new();
    assert!(cache.is_viable(&iter, &trie));

    let word_boundary = WordBoundary {
        start_row: 0,
        start_col: 0,
        direction: Direction::Down,
        length: 4,
    };
    let iter = WordIterator::new(&crossword, &word_boundary);

    assert!(cache.is_viable(&iter, &trie));
}

#[test]
fn fill_one_word_preserves_other_cells() {
    let c = Crossword::square(String::from("AB*C D*EF")).unwrap();
    let b = WordBoundary {
        start_row: 1,
        start_col: 0,
        length: 2,
        direction: Direction::Across,
    };
    let it = WordIterator::new(&c, &b);
    let filled = fill_one_word(&c, &it, "XY");
    assert_eq!(filled.contents(), String::from("AB*XYD*EF"));
}

#[test]
fn is_viable_reuse_works() {
    let trie = Trie::build(vec![
        String::from("ABC"),
        String::from("ADG"),
        String::from("BEH"),
        String::from("DEF"),
        String::from("GHI"),
    ]);
    let mut cache = CachedIsViable::new();

    let crossword = Crossword::square(String::from("\n   \n   \n   \n")).unwrap();
    let word_boundaries = xwords::parse::parse_word_boundaries(&crossword);
    let (viable, used) =
        xwords::fill::is_viable_reuse(&crossword, &word_boundaries, &trie, Vec::new(), &mut cache);
    assert!(viable);
    let mut used = used;
    used.clear();

    // the third column reads "CF ", which no word of the list completes
    let crossword = Crossword::square(String::from("ABCDEFGH ")).unwrap();
    let word_boundaries = xwords::parse::parse_word_boundaries(&crossword);
    let (viable, used) =
        xwords::fill::is_viable_reuse(&crossword, &word_boundaries, &trie, used, &mut cache);
    assert!(!viable);
    let mut used = used;
    used.clear();

    // a complete grid that repeats an entry within one direction is rejected
    let crossword = Crossword::rectangle(String::from("AB\n**\nAB"), 2, 3).unwrap();
    let word_boundaries = xwords::parse::parse_word_boundaries(&crossword);
    let (viable, _) =
        xwords::fill::is_viable_reuse(&crossword, &word_boundaries, &trie, used, &mut cache);
    assert!(!viable);
}
