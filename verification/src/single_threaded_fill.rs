//! Filling a crossword with the frontier driver, as a single call.

use crate::crossword::Crossword;
use crate::fill::Fill;
use crate::fill::fill_post;
use crate::fill::single_threaded::SingleThreadedFiller;
use crate::ngram::BigramTable;
use crate::trie::Trie;
use vstd::prelude::*;

verus! {

/// Fill the crossword from the given word list with the single-threaded
/// frontier driver.
pub fn fill_crossword_single_threaded(
    crossword: &Crossword,
    trie: &Trie,
    bigrams: &BigramTable,
) -> (r: Result<Crossword, String>)
    ensures
        fill_post(*crossword, *trie, r),
{
    let mut filler = SingleThreadedFiller::new(trie, bigrams);
    filler.fill(crossword)
}

} // verus!
