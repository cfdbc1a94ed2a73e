//! Utilities to fill crossword puzzles: a grid model, a dictionary trie with
//! wildcard lookups, a word-boundary parser, bigram-based ordering heuristics,
//! and backtracking search drivers that tie them together.

pub mod crossword;
pub mod fill;
pub mod ngram;
pub mod order;
pub mod parse;
pub mod single_threaded_fill;
pub mod trie;

use crate::crossword::Crossword;
use crate::fill::Fill;
use crate::fill::fill_post;
use crate::fill::simple::Filler;
use crate::trie::Trie;
use crate::trie::spec_parse_trie;
use vstd::prelude::*;

verus! {

/// Load a serialized word list and fill the crossword from it with the
/// depth-first driver. Fails when the bytes are not a well-formed word
/// list; otherwise the result keeps every promise a filling algorithm
/// makes, for a trie that stores exactly the serialized words.
pub fn fill_crossword_with_default_wordlist(crossword: &Crossword, serialized_trie: &Vec<u8>) -> (r:
    Result<Crossword, String>)
    ensures
        spec_parse_trie(serialized_trie@) is None ==> r is Err,
        spec_parse_trie(serialized_trie@) is Some ==> (exists|t: Trie|
            (forall|w: Seq<char>|
                #[trigger] t.has_word(w) <==> spec_parse_trie(serialized_trie@)->Some_0.contains(
                    w,
                )) && fill_post(*crossword, t, r)),
{
    let trie = match Trie::from_bytes(serialized_trie) {
        Ok(t) => t,
        Err(e) => {
            return Err(e);
        },
    };
    let mut filler = Filler::new(&trie);
    let r = filler.fill(crossword);
    proof {
        assert((forall|w: Seq<char>|
            #[trigger] trie.has_word(w) <==> spec_parse_trie(
                serialized_trie@,
            )->Some_0.contains(w)) && fill_post(*crossword, trie, r));
    }
    r
}

} // verus!
