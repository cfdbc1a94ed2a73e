use std::collections::HashSet;
use xwords::crossword::Crossword;
use xwords::fill::Fill;
use xwords::fill::simple::Filler;
use xwords::fill::single_threaded::SingleThreadedFiller;
use xwords::fill_crossword_with_default_wordlist;
use xwords::ngram::bigrams;
use xwords::parse::parse_word_boundaries;
use xwords::single_threaded_fill::fill_crossword_single_threaded;
use xwords::trie::Trie;

fn words_of(list: &[&str]) -> Vec<String> {
    list.iter().map(|w| String::from(*w)).collect()
}

/// The entries of every word of the grid, split by direction.
fn entries(g: &Crossword) -> (Vec<String>, Vec<String>) {
    let mut across = Vec::new();
    let mut down = Vec::new();
    for b in parse_word_boundaries(g) {
        let it = xwords::crossword::WordIterator::new(g, &b);
        match b.direction {
            xwords::crossword::Direction::Across => across.push(it.to_string()),
            xwords::crossword::Direction::Down => down.push(it.to_string()),
        }
    }
    (across, down)
}

fn assert_valid_fill(init: &Crossword, g: &Crossword, dictionary: &[&str]) {
    assert_eq!(g.width(), init.width());
    assert_eq!(g.height(), init.height());
    let initial: Vec<char> = init.contents().chars().collect();
    let filled: Vec<char> = g.contents().chars().collect();
    for (a, b) in initial.iter().zip(filled.iter()) {
        if *a != ' ' {
            assert_eq!(a, b);
        }
    }
    let dict: HashSet<String> = dictionary.iter().map(|w| String::from(*w)).collect();
    let (across, down) = entries(g);
    for w in across.iter().chain(down.iter()) {
        assert!(!w.contains(' '));
        assert!(dict.contains(w), "entry {} is not in the dictionary", w);
    }
    let across_set: HashSet<&String> = across.iter().collect();
    assert_eq!(across_set.len(), across.len(), "a repeated across entry");
    let down_set: HashSet<&String> = down.iter().collect();
    assert_eq!(down_set.len(), down.len(), "a repeated down entry");
}

#[test]
fn fills_three_by_three_from_small_dictionary() {
    let dictionary = [
        "CAT", "CAR", "TAR", "COT", "CAP", "ATE", "TOT", "OAR", "ARE", "EAT", "EAR", "ERA",
        "RAT", "TAP", "ORE", "ORA", "APE",
    ];
    let trie = Trie::build(words_of(&dictionary));
    let bigram_table = bigrams(&words_of(&dictionary));
    let grid = Crossword::square(String::from("         ")).unwrap();

    let mut filler = SingleThreadedFiller::new(&trie, &bigram_table);
    let filled = filler.fill(&grid).expect("no fill found");
    assert_valid_fill(&grid, &filled, &dictionary);

    let mut simple = Filler::new(&trie);
    let filled = simple.fill(&grid).expect("no fill found");
    assert_valid_fill(&grid, &filled, &dictionary);
}

#[test]
fn completes_partial_first_row_and_column() {
    let dictionary = ["CAT", "ACE", "TEE", "ACT", "CEE", "ATE"];
    let trie = Trie::build(words_of(&dictionary));
    let bigram_table = bigrams(&words_of(&dictionary));
    let grid = Crossword::square(String::from("CATA  T  ")).unwrap();

    let filled = fill_crossword_single_threaded(&grid, &trie, &bigram_table)
        .expect("no fill found");
    assert_valid_fill(&grid, &filled, &dictionary);
    let contents = filled.contents();
    assert!(
        contents == "CATACETEE" || contents == "CATATETEE",
        "unexpected completion {}",
        contents
    );
}

#[test]
fn fills_four_by_four_word_square() {
    let dictionary = ["LANE", "AREA", "NEAT", "EATS"];
    let trie = Trie::build(words_of(&dictionary));
    let bigram_table = bigrams(&words_of(&dictionary));
    let grid = Crossword::square(String::from("                ")).unwrap();

    let mut filler = SingleThreadedFiller::new(&trie, &bigram_table);
    let filled = filler.fill(&grid).expect("no fill found");
    assert_valid_fill(&grid, &filled, &dictionary);
}

#[test]
fn fills_large_skeleton_preserving_letters() {
    // a 15x15 skeleton: blocks on every third row and column leave 25
    // two-by-two regions; every cell is pre-filled except one.
    let mut rows: Vec<String> = Vec::new();
    let mut dictionary: Vec<String> = Vec::new();
    for r in 0..15 {
        let mut row = String::new();
        for c in 0..15 {
            if r % 3 == 2 || c % 3 == 2 {
                row.push('*');
            } else {
                let k = (r / 3) * 5 + c / 3;
                let letter = (b'A' + k as u8) as char;
                if r % 3 == 0 && c % 3 == 0 {
                    // the top-left cell of each region; leave one blank
                    if k == 0 {
                        row.push(' ');
                    } else {
                        row.push(letter);
                    }
                } else if (r % 3 == 0 && c % 3 == 1) || (r % 3 == 1 && c % 3 == 0) {
                    row.push('Z');
                } else {
                    row.push(letter);
                }
            }
        }
        rows.push(row);
    }
    for k in 0..25u8 {
        let letter = (b'A' + k) as char;
        dictionary.push(format!("{}Z", letter));
        dictionary.push(format!("Z{}", letter));
    }
    let text = rows.join("\n");
    let grid = Crossword::square(text).unwrap();
    let dict_refs: Vec<&str> = dictionary.iter().map(|s| s.as_str()).collect();
    let trie = Trie::build(dictionary.clone());
    let bigram_table = bigrams(&dictionary);

    let filled = fill_crossword_single_threaded(&grid, &trie, &bigram_table)
        .expect("no fill found");
    assert_valid_fill(&grid, &filled, &dict_refs);
    assert_eq!(filled.cell(0, 0), 'A');
}

#[test]
fn rejects_pattern_with_no_completion() {
    let dictionary = ["LANE", "AREA"];
    let trie = Trie::build(words_of(&dictionary));
    let bigram_table = bigrams(&words_of(&dictionary));
    let grid = Crossword::rectangle(String::from("QZ  "), 4, 1).unwrap();

    let r = fill_crossword_single_threaded(&grid, &trie, &bigram_table);
    assert!(r.is_err());
}

#[test]
fn rejects_forced_duplicate_across_regions() {
    // two independent regions whose only completions introduce the same
    // across entry twice
    let dictionary = ["AB"];
    let trie = Trie::build(words_of(&dictionary));
    let bigram_table = bigrams(&words_of(&dictionary));
    let grid = Crossword::rectangle(String::from("  \n**\n  "), 2, 3).unwrap();

    let r = fill_crossword_single_threaded(&grid, &trie, &bigram_table);
    assert!(r.is_err());

    let mut simple = Filler::new(&trie);
    assert!(simple.fill(&grid).is_err());
}

#[test]
fn complete_valid_grid_returned_unchanged() {
    let dictionary = ["ERA", "RAT", "ATE"];
    let trie = Trie::build(words_of(&dictionary));
    let bigram_table = bigrams(&words_of(&dictionary));
    let grid = Crossword::square(String::from("ERARATATE")).unwrap();

    let filled = fill_crossword_single_threaded(&grid, &trie, &bigram_table).unwrap();
    assert_eq!(filled.contents(), grid.contents());
}

#[test]
fn complete_invalid_grid_rejected() {
    let dictionary = ["ERA", "RAT", "ATE"];
    let trie = Trie::build(words_of(&dictionary));
    let bigram_table = bigrams(&words_of(&dictionary));
    let grid = Crossword::square(String::from("XXXXXXXXX")).unwrap();

    let r = fill_crossword_single_threaded(&grid, &trie, &bigram_table);
    assert!(r.is_err());
}

#[test]
fn duplicate_initial_entries_rejected() {
    let dictionary = ["AB", "CD"];
    let trie = Trie::build(words_of(&dictionary));
    let bigram_table = bigrams(&words_of(&dictionary));
    let grid = Crossword::rectangle(String::from("AB\n**\nAB"), 2, 3).unwrap();

    let r = fill_crossword_single_threaded(&grid, &trie, &bigram_table);
    assert!(r.is_err());
}

#[test]
fn grid_without_slots_fills_trivially() {
    let dictionary = ["AB"];
    let trie = Trie::build(words_of(&dictionary));
    let bigram_table = bigrams(&words_of(&dictionary));
    let grid = Crossword::rectangle(String::from(" *\n* "), 2, 2).unwrap();

    let filled = fill_crossword_single_threaded(&grid, &trie, &bigram_table).unwrap();
    assert_eq!(filled.contents(), grid.contents());
}

#[test]
fn fills_from_serialized_wordlist() {
    let dictionary = ["CAT", "ACE", "TEE", "ACT", "CEE", "ATE"];
    let trie = Trie::build(words_of(&dictionary));
    let bytes = trie.to_bytes();
    let grid = Crossword::square(String::from("CATA  T  ")).unwrap();

    let filled = fill_crossword_with_default_wordlist(&grid, &bytes).expect("no fill found");
    assert_valid_fill(&grid, &filled, &dictionary);

    let r = fill_crossword_with_default_wordlist(&grid, &vec![9u8, 9, 9]);
    assert!(r.is_err());
}

#[test]
fn rejects_duplicate_between_non_crossing_directions() {
    // one across word and one down word that share no cell: their entries
    // may not coincide, and the only dictionary word would force them to
    let dictionary = ["AB"];
    let trie = Trie::build(words_of(&dictionary));
    let bigram_table = bigrams(&words_of(&dictionary));
    let grid = Crossword::square(String::from("  *** ** ")).unwrap();

    let r = fill_crossword_single_threaded(&grid, &trie, &bigram_table);
    assert!(r.is_err());

    let mut simple = Filler::new(&trie);
    assert!(simple.fill(&grid).is_err());
}

#[test]
fn allows_shared_entry_between_crossing_words() {
    // a start grid can force a crossing Across and Down pair to spell the
    // same entry; such a fill is accepted
    let dictionary = ["AA"];
    let trie = Trie::build(words_of(&dictionary));
    let bigram_table = bigrams(&words_of(&dictionary));
    let grid = Crossword::square(String::from("   *")).unwrap();

    let r = fill_crossword_single_threaded(&grid, &trie, &bigram_table);
    let filled = r.expect("no fill found");
    assert_eq!(filled.cell(0, 0), 'A');
    assert_eq!(filled.cell(0, 1), 'A');
    assert_eq!(filled.cell(1, 0), 'A');
}
