//! Utility methods consumed in filling a crossword puzzle.

pub mod cache;
pub mod simple;
pub mod single_threaded;

use crate::crossword::Crossword;
use crate::crossword::WordIterator;
use crate::crossword::append_chars;
use crate::crossword::is_letter;
use crate::crossword::lemma_crossword_view;
use crate::crossword::letter_char;
use crate::crossword::string_to_chars;
use crate::fill::cache::CachedIsViable;
use crate::fill::cache::chars_eq;
use crate::ngram::BigramTable;
use crate::order::FrequencyOrderableCrossword;
use crate::order::WordScore;
use crate::order::score_iter;
use crate::order::spec_space_count;
use crate::parse::WordBoundary;
use crate::parse::is_slot_of;
use crate::parse::lemma_slot_cell_index;
use crate::parse::slot_view;
use crate::trie::Trie;
use crate::trie::pattern_matches;
use vstd::pervasive::VecAdditionalExecFns;
use vstd::prelude::*;

verus! {

/// At least one word of the list matches the current characters of the word
/// `b` in the grid `g`.
pub open spec fn viable_slot(g: Crossword, b: WordBoundary, t: Trie) -> bool {
    exists|w: Seq<char>| t.has_word(w) && pattern_matches(w, slot_view(g, b))
}

/// The word `b` holds no blank cell in `g`.
pub open spec fn slot_full(g: Crossword, b: WordBoundary) -> bool {
    !slot_view(g, b).contains(' ')
}

/// Every word of the grid is completely filled.
pub open spec fn no_open_slot(g: Crossword) -> bool {
    forall|b: WordBoundary| #[trigger] is_slot_of(g, b) ==> slot_full(g, b)
}

/// Whether two words of opposite directions share a cell.
pub open spec fn slots_cross(b1: WordBoundary, b2: WordBoundary) -> bool {
    match (b1.direction, b2.direction) {
        (crate::crossword::Direction::Across, crate::crossword::Direction::Down) => b1.start_col
            <= b2.start_col < b1.start_col + b1.length && b2.start_row <= b1.start_row
            < b2.start_row + b2.length,
        (crate::crossword::Direction::Down, crate::crossword::Direction::Across) => b2.start_col
            <= b1.start_col < b2.start_col + b2.length && b1.start_row <= b2.start_row
            < b1.start_row + b1.length,
        _ => false,
    }
}

/// Whether two words may not hold the same entry: every pair of distinct
/// words, except an Across and a Down word that cross - a start grid can
/// force a crossing pair to spell the same entry, so such a pair is exempt.
pub open spec fn must_differ(b1: WordBoundary, b2: WordBoundary) -> bool {
    b1 != b2 && (b1.direction == b2.direction || !slots_cross(b1, b2))
}

/// Two distinct words that may not share an entry already hold identical
/// complete entries.
pub open spec fn has_duplicate_entries(g: Crossword) -> bool {
    exists|b1: WordBoundary, b2: WordBoundary|
        #![trigger is_slot_of(g, b1), is_slot_of(g, b2)]
        is_slot_of(g, b1) && is_slot_of(g, b2) && must_differ(b1, b2) && slot_full(g, b1)
            && slot_view(g, b1) == slot_view(g, b2)
}

/// Some word of the grid admits no completion from the word list.
pub open spec fn has_unviable_slot(g: Crossword, t: Trie) -> bool {
    exists|b: WordBoundary| #[trigger] is_slot_of(g, b) && !viable_slot(g, b, t)
}

/// The row-major cell `i` lies under some word of the grid.
pub open spec fn cell_covered_by_slot(g: Crossword, i: int) -> bool {
    exists|b: WordBoundary| #[trigger] is_slot_of(g, b) && b.covers(i, g.spec_width() as int)
}

/// What a returned filled grid promises: same shape as the start grid, all
/// non-blank start cells and all cells outside every word unchanged, every
/// word completely filled with letters spelling an entry from the word
/// list, and no entry repeated - except that an Across and a Down word
/// which cross may share theirs, which a start grid can force.
pub open spec fn is_valid_fill(init: Crossword, g: Crossword, t: Trie) -> bool {
    &&& g.spec_width() == init.spec_width()
    &&& g.spec_height() == init.spec_height()
    &&& g@.len() == init@.len()
    &&& (forall|i: int| 0 <= i < init@.len() && #[trigger] init@[i] != ' ' ==> g@[i] == init@[i])
    &&& (forall|i: int|
        0 <= i < init@.len() && !cell_covered_by_slot(init, i) ==> #[trigger] g@[i] == init@[i])
    &&& (forall|i: int|
        0 <= i < init@.len() && cell_covered_by_slot(init, i) ==> is_letter(#[trigger] g@[i]))
    &&& (forall|b: WordBoundary|
        #[trigger] is_slot_of(init, b) ==> slot_full(g, b) && t.has_word(slot_view(g, b)))
    &&& (forall|b1: WordBoundary, b2: WordBoundary|
        #![trigger is_slot_of(init, b1), is_slot_of(init, b2)]
        is_slot_of(init, b1) && is_slot_of(init, b2) && must_differ(b1, b2) ==> slot_view(g, b1)
            != slot_view(g, b2))
}

/// `g` agrees with `c` on every cell that `c` has already decided: `c` can
/// still be completed into `g`.
pub open spec fn extends(c: Crossword, g: Crossword) -> bool {
    &&& same_dims(g, c)
    &&& (forall|i: int| 0 <= i < c@.len() && #[trigger] c@[i] != ' ' ==> g@[i] == c@[i])
}

/// Some complete valid fill of the start grid exists.
pub open spec fn fill_exists(init: Crossword, t: Trie) -> bool {
    exists|g: Crossword| is_valid_fill(init, g, t)
}

/// A grid reached during a search keeps the start grid's shape, its
/// non-blank cells, and its cells outside every word.
pub open spec fn partial_fill_ok(init: Crossword, c: Crossword) -> bool {
    &&& same_dims(c, init)
    &&& (forall|i: int| 0 <= i < init@.len() && #[trigger] init@[i] != ' ' ==> c@[i] == init@[i])
    &&& (forall|i: int|
        0 <= i < init@.len() && !cell_covered_by_slot(init, i) ==> #[trigger] c@[i] == init@[i])
}

/// A word whose view in `a` is already complete reads the same in any grid
/// that `a` extends to.
pub proof fn lemma_full_view_transfer(a: Crossword, b: Crossword, bd: WordBoundary)
    requires
        extends(a, b),
        a@.len() == a.spec_width() * a.spec_height(),
        bd.fits(a.spec_width() as int, a.spec_height() as int),
        !slot_view(a, bd).contains(' '),
    ensures
        slot_view(b, bd) == slot_view(a, bd),
{
    assert forall|k: int|
        0 <= k < bd.length implies slot_view(b, bd)[k] == slot_view(a, bd)[k] by {
        lemma_slot_cell_index(bd, k, a.spec_width() as int, a.spec_height() as int);
        if slot_view(a, bd)[k] == ' ' {
            assert(slot_view(a, bd).contains(' '));
        }
        let idx = bd.cell_index(k, a.spec_width() as int);
        assert(slot_view(a, bd)[k] == a@[idx]);
        assert(a@[idx] != ' ');
        assert(b@[idx] == a@[idx]);
        assert(b.spec_width() == a.spec_width());
        assert(bd.cell_index(k, b.spec_width() as int) == idx);
        assert(slot_view(b, bd)[k] == b@[idx]);
    }
    assert(slot_view(b, bd) =~= slot_view(a, bd));
}

/// In any grid that `c` extends to, a word's entry matches the pattern that
/// the word currently shows in `c`.
pub proof fn lemma_extends_matches(c: Crossword, g: Crossword, bd: WordBoundary)
    requires
        extends(c, g),
        c@.len() == c.spec_width() * c.spec_height(),
        bd.fits(c.spec_width() as int, c.spec_height() as int),
    ensures
        pattern_matches(slot_view(g, bd), slot_view(c, bd)),
{
    assert forall|k: int|
        0 <= k < bd.length implies slot_view(c, bd)[k] == ' ' || slot_view(g, bd)[k]
            == slot_view(c, bd)[k] by {
        lemma_slot_cell_index(bd, k, c.spec_width() as int, c.spec_height() as int);
        let idx = bd.cell_index(k, c.spec_width() as int);
        assert(slot_view(c, bd)[k] == c@[idx]);
        if c@[idx] != ' ' {
            assert(g@[idx] == c@[idx]);
            assert(g.spec_width() == c.spec_width());
            assert(bd.cell_index(k, g.spec_width() as int) == idx);
            assert(slot_view(g, bd)[k] == g@[idx]);
        }
    }
}

/// A start grid that some valid fill completes passes the initial checks:
/// it holds no duplicate entry and no word without a completion.
pub proof fn lemma_fill_exists_passes_initial(init: Crossword, g: Crossword, t: Trie)
    requires
        init.wf(),
        is_valid_fill(init, g, t),
    ensures
        !has_duplicate_entries(init),
        !has_unviable_slot(init, t),
{
    lemma_crossword_view(&init);
    assert(init@.len() == init.spec_width() * init.spec_height());
    assert(extends(init, g)) by {
        assert(same_dims(g, init));
    }
    if has_duplicate_entries(init) {
        let (b1, b2) = choose|b1: WordBoundary, b2: WordBoundary|
            #![trigger is_slot_of(init, b1), is_slot_of(init, b2)]
            is_slot_of(init, b1) && is_slot_of(init, b2) && must_differ(b1, b2) && slot_full(
                init,
                b1,
            ) && slot_view(init, b1) == slot_view(init, b2);
        lemma_full_view_transfer(init, g, b1);
        lemma_full_view_transfer(init, g, b2);
        assert(slot_view(g, b1) == slot_view(g, b2));
        assert(slot_view(g, b1) != slot_view(g, b2));
    }
    if has_unviable_slot(init, t) {
        let b = choose|b: WordBoundary|
            #[trigger] is_slot_of(init, b) && !viable_slot(init, b, t);
        lemma_extends_matches(init, g, b);
        assert(t.has_word(slot_view(g, b)));
        assert(viable_slot(init, b, t));
    }
}

/// What every filling algorithm promises of its result: a returned grid is a
/// valid fill of the start grid; when any valid fill exists the search finds
/// one; a start grid that already holds a duplicate entry, or a word with no
/// completion, is rejected; and a start grid with no open word is returned
/// unchanged exactly when it is already valid.
pub open spec fn fill_post(init: Crossword, t: Trie, r: Result<Crossword, String>) -> bool {
    &&& (r matches Ok(g) ==> is_valid_fill(init, g, t))
    &&& (fill_exists(init, t) ==> r is Ok)
    &&& (has_duplicate_entries(init) ==> r is Err)
    &&& (has_unviable_slot(init, t) ==> r is Err)
    &&& (no_open_slot(init) && is_valid_fill(init, init, t) ==> (r matches Ok(g) && same_grid(
        g,
        init,
    )))
    &&& (no_open_slot(init) && !is_valid_fill(init, init, t) ==> r is Err)
}

/// Two grids with the same shape.
pub open spec fn same_dims(a: Crossword, b: Crossword) -> bool {
    &&& a.spec_width() == b.spec_width()
    &&& a.spec_height() == b.spec_height()
    &&& a@.len() == b@.len()
}

/// Two grids with the same shape and the same cells.
pub open spec fn same_grid(a: Crossword, b: Crossword) -> bool {
    &&& a@ == b@
    &&& a.spec_width() == b.spec_width()
    &&& a.spec_height() == b.spec_height()
}

/// The sole trait involved in filling crossword puzzles. Algorithms that
/// conform to this interface will be easy to compare against each other.
pub trait Fill {
    /// The word list the algorithm fills from.
    spec fn spec_trie(&self) -> Trie;

    /// Fill the given crossword completely, or report that no fill was
    /// found.
    fn fill(&mut self, crossword: &Crossword) -> (r: Result<Crossword, String>)
        ensures
            fill_post(*crossword, old(self).spec_trie(), r),
    ;
}

/// A complete view is matched by exactly the word that spells it.
pub proof fn lemma_full_view_matches(v: Seq<char>)
    requires
        !v.contains(' '),
    ensures
        forall|w: Seq<char>| #[trigger] pattern_matches(w, v) <==> w == v,
{
    assert forall|w: Seq<char>| #[trigger] pattern_matches(w, v) <==> w == v by {
        if pattern_matches(w, v) {
            assert forall|i: int| 0 <= i < v.len() implies w[i] == v[i] by {
                if v[i] == ' ' {
                    assert(v.contains(' '));
                }
            }
            assert(w =~= v);
        }
        if w == v {
            assert(w.len() == v.len());
        }
    }
}

/// Blanks never appear where the covering sequence has none.
pub proof fn lemma_space_count_le(a: Seq<char>, b: Seq<char>)
    requires
        a.len() == b.len(),
        forall|i: int| 0 <= i < b.len() && #[trigger] b[i] == ' ' ==> a[i] == ' ',
    ensures
        spec_space_count(b) <= spec_space_count(a),
    decreases a.len(),
{
    if a.len() > 0 {
        assert forall|i: int|
            0 <= i < b.drop_first().len() && #[trigger] b.drop_first()[i] == ' '
                implies a.drop_first()[i] == ' ' by {
            assert(b.drop_first()[i] == b[i + 1]);
            assert(a.drop_first()[i] == a[i + 1]);
        }
        lemma_space_count_le(a.drop_first(), b.drop_first());
    }
}

/// Replacing at least one blank with a letter strictly lowers the blank
/// count.
pub proof fn lemma_space_count_lt(a: Seq<char>, b: Seq<char>, j: int)
    requires
        a.len() == b.len(),
        forall|i: int| 0 <= i < b.len() && #[trigger] b[i] == ' ' ==> a[i] == ' ',
        0 <= j < a.len(),
        a[j] == ' ',
        b[j] != ' ',
    ensures
        spec_space_count(b) < spec_space_count(a),
    decreases a.len(),
{
    assert forall|i: int|
        0 <= i < b.drop_first().len() && #[trigger] b.drop_first()[i] == ' '
            implies a.drop_first()[i] == ' ' by {
        assert(b.drop_first()[i] == b[i + 1]);
        assert(a.drop_first()[i] == a[i + 1]);
    }
    if j == 0 {
        lemma_space_count_le(a.drop_first(), b.drop_first());
    } else {
        lemma_space_count_lt(a.drop_first(), b.drop_first(), j - 1);
    }
}

/// Distinct positions of one word lie in distinct cells.
pub proof fn lemma_cell_index_injective(b: WordBoundary, w: int, k1: int, k2: int)
    requires
        w >= 1,
        0 <= k1 < k2,
    ensures
        b.cell_index(k1, w) != b.cell_index(k2, w),
{
    match b.direction {
        crate::crossword::Direction::Across => {
        },
        crate::crossword::Direction::Down => {
            assert((b.start_row + k1) * w + w <= (b.start_row + k2) * w) by (nonlinear_arith)
                requires
                    w >= 1,
                    k1 < k2,
            ;
        },
    }
}

/// Returns a new crossword in which the cells of the word walked by `iter`
/// hold the characters of `word`, in order, and every other cell is
/// unchanged. The replacement does not examine the pre-existing letters.
pub fn fill_one_word(candidate: &Crossword, iter: &WordIterator, word: &str) -> (r: Crossword)
    requires
        iter.spec_word_boundary().fits(
            candidate.spec_width() as int,
            candidate.spec_height() as int,
        ),
        word@.len() == iter.spec_word_boundary().length,
        forall|k: int| 0 <= k < word@.len() ==> is_letter(#[trigger] word@[k]),
    ensures
        r.spec_width() == candidate.spec_width(),
        r.spec_height() == candidate.spec_height(),
        r@.len() == candidate@.len(),
        forall|k: int|
            0 <= k < word@.len() ==> r@[iter.spec_word_boundary().cell_index(
                k,
                candidate.spec_width() as int,
            )] == word@[k],
        forall|i: int|
            0 <= i < candidate@.len() && !iter.spec_word_boundary().covers(
                i,
                candidate.spec_width() as int,
            ) ==> #[trigger] r@[i] == candidate@[i],
{
    proof {
        use_type_invariant(candidate);
        lemma_crossword_view(candidate);
    }
    let b = iter.word_boundary();
    let wchars = string_to_chars(word);
    let width = candidate.width;
    let ghost w_int = candidate.spec_width() as int;
    let mut contents: Vec<char> = Vec::new();
    append_chars(&mut contents, &candidate.contents);
    proof {
        assert(contents@ =~= candidate@);
        if word@.len() > 0 {
            assert(w_int >= 1);
        }
    }
    let mut k: usize = 0;
    while k < wchars.len()
        invariant
            wchars@ == word@,
            iter.spec_word_boundary() == *b,
            b.fits(w_int, candidate.spec_height() as int),
            word@.len() == b.length,
            forall|t: int| 0 <= t < word@.len() ==> is_letter(#[trigger] word@[t]),
            width == candidate.spec_width(),
            w_int == candidate.spec_width() as int,
            k <= wchars@.len(),
            contents@.len() == candidate@.len(),
            candidate@.len() == candidate.spec_width() * candidate.spec_height(),
            forall|j: int| 0 <= j < k ==> contents@[b.cell_index(j, w_int)] == word@[j],
            forall|i: int|
                0 <= i < contents@.len() && (forall|j: int|
                    0 <= j < k ==> b.cell_index(j, w_int) != i) ==> #[trigger] contents@[i]
                    == candidate@[i],
        decreases wchars@.len() - k,
    {
        proof {
            lemma_slot_cell_index(*b, k as int, w_int, candidate.spec_height() as int);
            assert(contents.len() == contents@.len());
            assert(w_int >= 1);
        }
        let idx = match b.direction {
            crate::crossword::Direction::Across => b.start_row * width + (b.start_col + k),
            crate::crossword::Direction::Down => (b.start_row + k) * width + b.start_col,
        };
        proof {
            assert(idx == b.cell_index(k as int, w_int));
        }
        let ghost before = contents@;
        contents.set(idx, wchars[k]);
        proof {
            assert forall|j: int|
                0 <= j < k + 1 implies contents@[b.cell_index(j, w_int)] == word@[j] by {
                if j < k {
                    lemma_slot_cell_index(*b, j, w_int, candidate.spec_height() as int);
                    lemma_cell_index_injective(*b, w_int, j, k as int);
                    assert(contents@[b.cell_index(j, w_int)] == before[b.cell_index(j, w_int)]);
                }
            }
            assert forall|i: int|
                0 <= i < contents@.len() && (forall|j: int|
                    0 <= j < k + 1 ==> b.cell_index(j, w_int) != i) implies #[trigger] contents@[i]
                == candidate@[i] by {
                assert(b.cell_index(k as int, w_int) != i);
                assert(contents@[i] == before[i]);
            }
        }
        k = k + 1;
    }
    proof {
        assert forall|i: int|
            0 <= i < contents@.len() implies crate::crossword::is_valid_cell(
            #[trigger] contents@[i],
        ) by {
            if forall|j: int| 0 <= j < word@.len() ==> b.cell_index(j, w_int) != i {
                assert(contents@[i] == candidate@[i]);
            } else {
                let j = choose|j: int| 0 <= j < word@.len() && b.cell_index(j, w_int) == i;
                assert(contents@[i] == word@[j]);
            }
        }
    }
    let r = Crossword { contents, width: candidate.width, height: candidate.height };
    proof {
        lemma_crossword_view(&r);
        assert forall|i: int|
            0 <= i < candidate@.len() && !iter.spec_word_boundary().covers(i, w_int)
                implies #[trigger] r@[i] == candidate@[i] by {
            assert forall|j: int| 0 <= j < word@.len() implies b.cell_index(j, w_int) != i by {
                if b.cell_index(j, w_int) == i {
                    assert(b.covers(i, w_int));
                }
            }
        }
    }
    r
}

/// Every given word admits a completion from the list, and no complete
/// entry among the given words repeats an earlier one.
pub open spec fn boundaries_viable_and_distinct(
    g: Crossword,
    bs: Seq<WordBoundary>,
    t: Trie,
) -> bool {
    &&& (forall|i: int| 0 <= i < bs.len() ==> viable_slot(g, #[trigger] bs[i], t))
    &&& (forall|i: int, j: int|
        #![trigger bs[i], bs[j]]
        0 <= i < j < bs.len() && !slot_view(g, bs[j]).contains(' ') ==> slot_view(g, bs[i])
            != slot_view(g, bs[j]))
}

/// Determines whether a given crossword is viable. `already_used` must come
/// in cleared and is handed back for reuse.
///
/// The answer is exact: the check passes exactly when every given word
/// admits a completion from the word list and no complete entry among the
/// given words repeats an earlier one.
pub fn is_viable_reuse(
    candidate: &Crossword,
    word_boundaries: &Vec<WordBoundary>,
    trie: &Trie,
    already_used: Vec<Vec<char>>,
    is_viable_cache: &mut CachedIsViable,
) -> (r: (bool, Vec<Vec<char>>))
    requires
        forall|i: int|
            0 <= i < word_boundaries@.len() ==> (#[trigger] word_boundaries@[i]).fits(
                candidate.spec_width() as int,
                candidate.spec_height() as int,
            ),
        already_used@.len() == 0,
        old(is_viable_cache).consistent(*trie),
    ensures
        final(is_viable_cache).consistent(*trie),
        r.0 <==> boundaries_viable_and_distinct(*candidate, word_boundaries@, *trie),
{
    let mut used = already_used;
    let mut i: usize = 0;
    while i < word_boundaries.len()
        invariant
            forall|t: int|
                0 <= t < word_boundaries@.len() ==> (#[trigger] word_boundaries@[t]).fits(
                    candidate.spec_width() as int,
                    candidate.spec_height() as int,
                ),
            is_viable_cache.consistent(*trie),
            i <= word_boundaries@.len(),
            used@.len() == i,
            forall|t: int|
                0 <= t < i ==> (#[trigger] used@[t])@ == slot_view(
                    *candidate,
                    word_boundaries@[t],
                ),
            forall|t: int|
                0 <= t < i ==> viable_slot(*candidate, #[trigger] word_boundaries@[t], *trie),
            forall|t: int, u: int|
                #![trigger word_boundaries@[t], word_boundaries@[u]]
                0 <= t < u < i && !slot_view(*candidate, word_boundaries@[u]).contains(' ')
                    ==> slot_view(*candidate, word_boundaries@[t]) != slot_view(
                    *candidate,
                    word_boundaries@[u],
                ),
        decreases word_boundaries@.len() - i,
    {
        let b = &word_boundaries[i];
        let it = WordIterator::new(candidate, b);
        let chars = it.chars();
        let full = !it.has_space();
        if full {
            let mut t: usize = 0;
            while t < used.len()
                invariant
                    is_viable_cache.consistent(*trie),
                    t <= used@.len(),
                    chars@ == slot_view(*candidate, word_boundaries@[i as int]),
                    !slot_view(*candidate, word_boundaries@[i as int]).contains(' '),
                    used@.len() == i,
                    i < word_boundaries@.len(),
                    forall|u: int|
                        0 <= u < i ==> (#[trigger] used@[u])@ == slot_view(
                            *candidate,
                            word_boundaries@[u],
                        ),
                    forall|u: int| 0 <= u < t ==> (#[trigger] used@[u])@ != chars@,
                decreases used@.len() - t,
            {
                if chars_eq(&used[t], &chars) {
                    proof {
                        assert(slot_view(*candidate, word_boundaries@[t as int]) == slot_view(
                            *candidate,
                            word_boundaries@[i as int],
                        ));
                        assert(!boundaries_viable_and_distinct(
                            *candidate,
                            word_boundaries@,
                            *trie,
                        ));
                    }
                    return (false, used);
                }
                t = t + 1;
            }
        }
        used.push(chars);
        if !is_viable_cache.is_viable(&it, trie) {
            proof {
                assert(!viable_slot(*candidate, word_boundaries@[i as int], *trie));
                assert(!boundaries_viable_and_distinct(*candidate, word_boundaries@, *trie));
            }
            return (false, used);
        }
        proof {
            assert(viable_slot(*candidate, word_boundaries@[i as int], *trie)) by {
                let w = choose|w: Seq<char>|
                    trie.has_word(w) && pattern_matches(w, it@);
                assert(trie.has_word(w) && pattern_matches(
                    w,
                    slot_view(*candidate, word_boundaries@[i as int]),
                ));
            }
            assert forall|t: int, u: int|
                #![trigger word_boundaries@[t], word_boundaries@[u]]
                0 <= t < u < i + 1 && !slot_view(*candidate, word_boundaries@[u]).contains(' ')
                    implies slot_view(*candidate, word_boundaries@[t]) != slot_view(
                *candidate,
                word_boundaries@[u],
            ) by {
                if u == i as int {
                    assert(full);
                    assert(used@[t]@ == slot_view(*candidate, word_boundaries@[t]));
                    assert(used@[t]@ != chars@);
                }
            }
        }
        i = i + 1;
    }
    (true, used)
}

/// How a word lies over one cell.
pub open spec fn covers_cell(b: WordBoundary, row: int, col: int) -> bool {
    match b.direction {
        crate::crossword::Direction::Across => b.start_row == row && b.start_col <= col
            < b.start_col + b.length,
        crate::crossword::Direction::Down => b.start_col == col && b.start_row <= row < b.start_row
            + b.length,
    }
}

/// The row of the `k`-th cell of a word.
pub open spec fn cell_row(b: WordBoundary, k: int) -> int {
    match b.direction {
        crate::crossword::Direction::Across => b.start_row as int,
        crate::crossword::Direction::Down => b.start_row + k,
    }
}

/// The column of the `k`-th cell of a word.
pub open spec fn cell_col(b: WordBoundary, k: int) -> int {
    match b.direction {
        crate::crossword::Direction::Across => b.start_col + k,
        crate::crossword::Direction::Down => b.start_col as int,
    }
}

/// The other direction.
pub open spec fn perpendicular(d: crate::crossword::Direction) -> crate::crossword::Direction {
    match d {
        crate::crossword::Direction::Across => crate::crossword::Direction::Down,
        crate::crossword::Direction::Down => crate::crossword::Direction::Across,
    }
}

/// A word of the perpendicular direction covers at most one cell of a word.
pub proof fn lemma_perpendicular_covers_once(b: WordBoundary, o: WordBoundary, k1: int, k2: int)
    requires
        o.direction == perpendicular(b.direction),
        0 <= k1 < b.length,
        0 <= k2 < b.length,
        covers_cell(o, cell_row(b, k1), cell_col(b, k1)),
        covers_cell(o, cell_row(b, k2), cell_col(b, k2)),
    ensures
        k1 == k2,
{
}

/// A lookup from a direction and a cell to the word of that direction that
/// covers the cell.
pub struct WordBoundaryLookup {
    pub(crate) entries: Vec<WordBoundary>,
}

impl WordBoundaryLookup {
    pub closed spec fn spec_entries(&self) -> Seq<WordBoundary> {
        self.entries@
    }

    /// The word of the given direction that covers the given cell, if the
    /// lookup holds one; `None` exactly when it holds none.
    pub fn get(
        &self,
        direction: crate::crossword::Direction,
        row: usize,
        col: usize,
    ) -> (r: Option<WordBoundary>)
        ensures
            r matches Some(b) ==> self.spec_entries().contains(b) && b.direction == direction
                && covers_cell(b, row as int, col as int),
            r is None ==> forall|i: int|
                0 <= i < self.spec_entries().len() ==> !((#[trigger] self.spec_entries()[
                    i
                ]).direction == direction && covers_cell(
                    self.spec_entries()[i],
                    row as int,
                    col as int,
                )),
    {
        let mut i: usize = 0;
        while i < self.entries.len()
            invariant
                i <= self.entries@.len(),
                forall|t: int|
                    0 <= t < i ==> !((#[trigger] self.entries@[t]).direction == direction
                        && covers_cell(self.entries@[t], row as int, col as int)),
            decreases self.entries@.len() - i,
        {
            let b = &self.entries[i];
            let dir_match = b.direction == direction;
            if dir_match {
                let hit = match b.direction {
                    crate::crossword::Direction::Across => b.start_row == row && b.start_col <= col
                        && col - b.start_col < b.length,
                    crate::crossword::Direction::Down => b.start_col == col && b.start_row <= row
                        && row - b.start_row < b.length,
                };
                if hit {
                    proof {
                        assert(self.spec_entries()[i as int] == *b);
                        assert(self.spec_entries().contains(*b));
                        assert(covers_cell(*b, row as int, col as int));
                    }
                    return Some(*b);
                }
            }
            i = i + 1;
        }
        None
    }
}

/// Build the lookup that maps a direction and a covered cell to its word.
pub fn build_square_word_boundary_lookup(word_boundaries: &Vec<WordBoundary>) -> (r:
    WordBoundaryLookup)
    ensures
        r.spec_entries() == word_boundaries@,
{
    let mut entries: Vec<WordBoundary> = Vec::new();
    let mut i: usize = 0;
    while i < word_boundaries.len()
        invariant
            i <= word_boundaries@.len(),
            entries@ == word_boundaries@.take(i as int),
        decreases word_boundaries@.len() - i,
    {
        entries.push(word_boundaries[i]);
        proof {
            assert(entries@ =~= word_boundaries@.take(i + 1));
        }
        i = i + 1;
    }
    proof {
        assert(entries@ =~= word_boundaries@);
    }
    WordBoundaryLookup { entries }
}

/// Identifies the words that cross a given word: for each of its cells in
/// order, the word of the perpendicular direction covering that cell,
/// wherever the lookup holds one. These are the words affected when the
/// given word is filled.
pub fn words_orthogonal_to_word(to_fill: &WordBoundary, word_boundary_lookup: &WordBoundaryLookup)
    -> (r: Vec<WordBoundary>)
    requires
        (match to_fill.direction {
            crate::crossword::Direction::Across => to_fill.start_col + to_fill.length
                <= usize::MAX,
            crate::crossword::Direction::Down => to_fill.start_row + to_fill.length <= usize::MAX,
        }),
    ensures
        r@.len() <= to_fill.length,
        forall|i: int|
            0 <= i < r@.len() ==> word_boundary_lookup.spec_entries().contains(#[trigger] r@[i])
                && r@[i].direction == perpendicular(to_fill.direction) && (exists|k: int|
                0 <= k < to_fill.length && covers_cell(
                    r@[i],
                    cell_row(*to_fill, k),
                    cell_col(*to_fill, k),
                )),
        forall|k: int|
            #![trigger cell_row(*to_fill, k)]
            0 <= k < to_fill.length && (exists|t: int|
                0 <= t < word_boundary_lookup.spec_entries().len()
                    && (#[trigger] word_boundary_lookup.spec_entries()[t]).direction
                    == perpendicular(to_fill.direction) && covers_cell(
                    word_boundary_lookup.spec_entries()[t],
                    cell_row(*to_fill, k),
                    cell_col(*to_fill, k),
                )) ==> (exists|i: int|
                0 <= i < r@.len() && covers_cell(
                    #[trigger] r@[i],
                    cell_row(*to_fill, k),
                    cell_col(*to_fill, k),
                )),
        forall|i: int, j: int| 0 <= i < j < r@.len() ==> r@[i] != r@[j],
        forall|i: int, j: int, ki: int, kj: int|
            #![trigger r@[i], r@[j], cell_row(*to_fill, ki), cell_row(*to_fill, kj)]
            0 <= i < j < r@.len() && 0 <= ki < to_fill.length && 0 <= kj < to_fill.length
                && covers_cell(r@[i], cell_row(*to_fill, ki), cell_col(*to_fill, ki))
                && covers_cell(r@[j], cell_row(*to_fill, kj), cell_col(*to_fill, kj)) ==> ki < kj,
{
    let mut r: Vec<WordBoundary> = Vec::new();
    let mut k: usize = 0;
    while k < to_fill.length
        invariant
            (match to_fill.direction {
                crate::crossword::Direction::Across => to_fill.start_col + to_fill.length
                    <= usize::MAX,
                crate::crossword::Direction::Down => to_fill.start_row + to_fill.length
                    <= usize::MAX,
            }),
            k <= to_fill.length,
            r@.len() <= k,
            forall|i: int|
                0 <= i < r@.len() ==> word_boundary_lookup.spec_entries().contains(
                    #[trigger] r@[i],
                ) && r@[i].direction == perpendicular(to_fill.direction) && (exists|k2: int|
                    0 <= k2 < k && covers_cell(
                        r@[i],
                        cell_row(*to_fill, k2),
                        cell_col(*to_fill, k2),
                    )),
            forall|k2: int|
                #![trigger cell_row(*to_fill, k2)]
                0 <= k2 < k && (exists|t: int|
                    0 <= t < word_boundary_lookup.spec_entries().len()
                        && (#[trigger] word_boundary_lookup.spec_entries()[t]).direction
                        == perpendicular(to_fill.direction) && covers_cell(
                        word_boundary_lookup.spec_entries()[t],
                        cell_row(*to_fill, k2),
                        cell_col(*to_fill, k2),
                    )) ==> (exists|i: int|
                    0 <= i < r@.len() && covers_cell(
                        #[trigger] r@[i],
                        cell_row(*to_fill, k2),
                        cell_col(*to_fill, k2),
                    )),
            forall|i: int, j: int| 0 <= i < j < r@.len() ==> r@[i] != r@[j],
            forall|i: int, j: int, ki: int, kj: int|
                #![trigger r@[i], r@[j], cell_row(*to_fill, ki), cell_row(*to_fill, kj)]
                0 <= i < j < r@.len() && 0 <= ki < to_fill.length && 0 <= kj < to_fill.length
                    && covers_cell(r@[i], cell_row(*to_fill, ki), cell_col(*to_fill, ki))
                    && covers_cell(r@[j], cell_row(*to_fill, kj), cell_col(*to_fill, kj)) ==> ki
                    < kj,
        decreases to_fill.length - k,
    {
        let (row, col) = match to_fill.direction {
            crate::crossword::Direction::Across => (to_fill.start_row, to_fill.start_col + k),
            crate::crossword::Direction::Down => (to_fill.start_row + k, to_fill.start_col),
        };
        proof {
            assert(row as int == cell_row(*to_fill, k as int));
            assert(col as int == cell_col(*to_fill, k as int));
        }
        let perp_dir = match to_fill.direction {
            crate::crossword::Direction::Across => crate::crossword::Direction::Down,
            crate::crossword::Direction::Down => crate::crossword::Direction::Across,
        };
        proof {
            assert(perp_dir == perpendicular(to_fill.direction));
        }
        let found = word_boundary_lookup.get(perp_dir, row, col);
        let ghost r0 = r@;
        match found {
            Some(b) => {
                proof {
                    assert(b.direction == perpendicular(to_fill.direction));
                    assert(covers_cell(b, cell_row(*to_fill, k as int), cell_col(*to_fill, k as int)));
                    assert forall|i: int| 0 <= i < r0.len() implies r0[i] != b by {
                        let k2 = choose|k2: int|
                            0 <= k2 < k && covers_cell(
                                r0[i],
                                cell_row(*to_fill, k2),
                                cell_col(*to_fill, k2),
                            );
                        if r0[i] == b {
                            lemma_perpendicular_covers_once(*to_fill, b, k2, k as int);
                        }
                    }
                }
                r.push(b);
                proof {
                    assert forall|i: int, j: int, ki: int, kj: int|
                        #![trigger r@[i], r@[j], cell_row(*to_fill, ki), cell_row(*to_fill, kj)]
                        0 <= i < j < r@.len() && 0 <= ki < to_fill.length && 0 <= kj
                            < to_fill.length && covers_cell(
                            r@[i],
                            cell_row(*to_fill, ki),
                            cell_col(*to_fill, ki),
                        ) && covers_cell(
                            r@[j],
                            cell_row(*to_fill, kj),
                            cell_col(*to_fill, kj),
                        ) implies ki < kj by {
                        if j == r@.len() - 1 {
                            assert(r@[j] == b);
                            lemma_perpendicular_covers_once(*to_fill, b, kj, k as int);
                            assert(r@[i] == r0[i]);
                            let k2 = choose|k2: int|
                                0 <= k2 < k && covers_cell(
                                    r0[i],
                                    cell_row(*to_fill, k2),
                                    cell_col(*to_fill, k2),
                                );
                            lemma_perpendicular_covers_once(*to_fill, r0[i], ki, k2);
                        } else {
                            assert(r@[i] == r0[i] && r@[j] == r0[j]);
                        }
                    }
                }
            },
            None => {
            },
        }
        proof {
            assert forall|k2: int|
                #![trigger cell_row(*to_fill, k2)]
                0 <= k2 < k + 1 && (exists|t: int|
                    0 <= t < word_boundary_lookup.spec_entries().len()
                        && (#[trigger] word_boundary_lookup.spec_entries()[t]).direction
                        == perpendicular(to_fill.direction) && covers_cell(
                        word_boundary_lookup.spec_entries()[t],
                        cell_row(*to_fill, k2),
                        cell_col(*to_fill, k2),
                    )) implies (exists|i: int|
                0 <= i < r@.len() && covers_cell(
                    #[trigger] r@[i],
                    cell_row(*to_fill, k2),
                    cell_col(*to_fill, k2),
                )) by {
                if k2 < k {
                    let i = choose|i: int|
                        0 <= i < r0.len() && covers_cell(
                            #[trigger] r0[i],
                            cell_row(*to_fill, k2),
                            cell_col(*to_fill, k2),
                        );
                    assert(r@[i] == r0[i]);
                } else {
                    match found {
                        Some(b) => {
                            assert(r@[r@.len() - 1] == b);
                            assert(covers_cell(
                                r@[r@.len() - 1],
                                cell_row(*to_fill, k2),
                                cell_col(*to_fill, k2),
                            ));
                        },
                        None => {
                            let t = choose|t: int|
                                0 <= t < word_boundary_lookup.spec_entries().len()
                                    && (#[trigger] word_boundary_lookup.spec_entries()[
                                t]).direction == perpendicular(to_fill.direction) && covers_cell(
                                    word_boundary_lookup.spec_entries()[t],
                                    cell_row(*to_fill, k2),
                                    cell_col(*to_fill, k2),
                                );
                            assert(false);
                        },
                    }
                }
            }
        }
        k = k + 1;
    }
    r
}

/// Whether two words of opposite directions share a cell.
pub fn slots_cross_exec(b1: &WordBoundary, b2: &WordBoundary) -> (r: bool)
    ensures
        r == slots_cross(*b1, *b2),
{
    match (b1.direction, b2.direction) {
        (crate::crossword::Direction::Across, crate::crossword::Direction::Down) => b1.start_col
            <= b2.start_col && b2.start_col - b1.start_col < b1.length && b2.start_row
            <= b1.start_row && b1.start_row - b2.start_row < b2.length,
        (crate::crossword::Direction::Down, crate::crossword::Direction::Across) => b2.start_col
            <= b1.start_col && b1.start_col - b2.start_col < b2.length && b1.start_row
            <= b2.start_row && b2.start_row - b1.start_row < b1.length,
        _ => false,
    }
}

/// Which pairs must differ does not depend on the order of the pair.
pub proof fn lemma_must_differ_sym(b1: WordBoundary, b2: WordBoundary)
    ensures
        must_differ(b1, b2) == must_differ(b2, b1),
{
}

/// Decide whether `g` is a valid fill of `init`: same shape, all non-blank
/// start cells and all uncovered cells unchanged, every word completely
/// filled with letters spelling an entry from the word list, and no two
/// words that must differ holding the same entry. `boundaries` must be
/// exactly the words of `init`.
pub fn check_solution(
    init: &Crossword,
    g: &Crossword,
    boundaries: &Vec<WordBoundary>,
    trie: &Trie,
) -> (r: bool)
    requires
        forall|i: int|
            0 <= i < boundaries@.len() ==> is_slot_of(*init, #[trigger] boundaries@[i]),
        forall|b: WordBoundary| is_slot_of(*init, b) ==> boundaries@.contains(b),
        forall|i: int, j: int| 0 <= i < j < boundaries@.len() ==> boundaries@[i] != boundaries@[j],
    ensures
        r == is_valid_fill(*init, *g, *trie),
{
    proof {
        use_type_invariant(init);
        use_type_invariant(g);
        lemma_crossword_view(init);
        lemma_crossword_view(g);
    }
    let ghost wd = init.spec_width() as int;
    let ghost ht = init.spec_height() as int;
    if g.width() != init.width() || g.height() != init.height() {
        return false;
    }
    proof {
        assert(g@.len() == init@.len());
    }
    let len = init.contents.len();
    let mut covered: Vec<bool> = Vec::new();
    let mut i0: usize = 0;
    while i0 < len
        invariant
            i0 <= len,
            covered@.len() == i0,
            forall|t: int| 0 <= t < i0 ==> !(#[trigger] covered@[t]),
        decreases len - i0,
    {
        covered.push(false);
        i0 = i0 + 1;
    }
    let width = init.width;
    let mut bi: usize = 0;
    while bi < boundaries.len()
        invariant
            init.wf(),
            wd == init.spec_width(),
            ht == init.spec_height(),
            width == init.spec_width(),
            len == init@.len(),
            init@ == init.contents@,
            covered@.len() == len,
            bi <= boundaries@.len(),
            forall|i: int|
                0 <= i < boundaries@.len() ==> is_slot_of(*init, #[trigger] boundaries@[i]),
            forall|t: int| 0 <= t < len && #[trigger] covered@[t] ==> cell_covered_by_slot(
                *init,
                t,
            ),
            forall|j: int, k2: int|
                #![trigger boundaries@[j].cell_index(k2, wd)]
                0 <= j < bi && 0 <= k2 < boundaries@[j].length ==> covered@[boundaries@[
                    j
                ].cell_index(k2, wd)],
        decreases boundaries@.len() - bi,
    {
        let b = &boundaries[bi];
        let mut k: usize = 0;
        while k < b.length
            invariant
                init.wf(),
                wd == init.spec_width(),
                ht == init.spec_height(),
                width == init.spec_width(),
                len == init@.len(),
                init@ == init.contents@,
                covered@.len() == len,
                bi < boundaries@.len(),
                b == &boundaries@[bi as int],
                k <= b.length,
                forall|i: int|
                    0 <= i < boundaries@.len() ==> is_slot_of(*init, #[trigger] boundaries@[i]),
                forall|t: int| 0 <= t < len && #[trigger] covered@[t] ==> cell_covered_by_slot(
                    *init,
                    t,
                ),
                forall|j: int, k2: int|
                    #![trigger boundaries@[j].cell_index(k2, wd)]
                    0 <= j < bi && 0 <= k2 < boundaries@[j].length ==> covered@[boundaries@[
                        j
                    ].cell_index(k2, wd)],
                forall|k2: int|
                    0 <= k2 < k ==> covered@[#[trigger] b.cell_index(k2, wd)],
            decreases b.length - k,
        {
            proof {
                lemma_crossword_view(init);
                lemma_slot_cell_index(*b, k as int, wd, ht);
                assert(init.contents.len() == init.contents@.len());
            }
            let idx = match b.direction {
                crate::crossword::Direction::Across => b.start_row * width + (b.start_col + k),
                crate::crossword::Direction::Down => (b.start_row + k) * width + b.start_col,
            };
            proof {
                assert(idx == b.cell_index(k as int, wd));
                assert(b.covers(idx as int, wd));
            }
            covered.set(idx, true);
            proof {
                assert forall|j: int, k2: int|
                    #![trigger boundaries@[j].cell_index(k2, wd)]
                    0 <= j < bi && 0 <= k2 < boundaries@[j].length implies covered@[boundaries@[
                    j
                ].cell_index(k2, wd)] by {
                    lemma_slot_cell_index(boundaries@[j], k2, wd, ht);
                }
                assert forall|k2: int|
                    0 <= k2 < k + 1 implies covered@[#[trigger] b.cell_index(k2, wd)] by {
                    lemma_slot_cell_index(*b, k2, wd, ht);
                }
            }
            k = k + 1;
        }
        bi = bi + 1;
    }
    proof {
        assert forall|i: int|
            0 <= i < len implies (covered@[i] <==> cell_covered_by_slot(*init, i)) by {
            if cell_covered_by_slot(*init, i) {
                let b = choose|b: WordBoundary|
                    #[trigger] is_slot_of(*init, b) && b.covers(i, wd);
                assert(boundaries@.contains(b));
                let j = choose|j: int| 0 <= j < boundaries@.len() && boundaries@[j] == b;
                let k2 = choose|k2: int|
                    0 <= k2 < b.length && #[trigger] b.cell_index(k2, wd) == i;
                assert(covered@[boundaries@[j].cell_index(k2, wd)]);
            }
        }
    }
    let mut i: usize = 0;
    while i < len
        invariant
            init.wf(),
            g.wf(),
            g@.len() == init@.len(),
            len == init@.len(),
            covered@.len() == len,
            i <= len,
            init@ == init.contents@,
            g@ == g.contents@,
            forall|t: int| 0 <= t < len ==> (covered@[t] <==> cell_covered_by_slot(*init, t)),
            forall|t: int| 0 <= t < i && #[trigger] init@[t] != ' ' ==> g@[t] == init@[t],
            forall|t: int|
                0 <= t < i && !cell_covered_by_slot(*init, t) ==> #[trigger] g@[t] == init@[t],
            forall|t: int|
                0 <= t < i && cell_covered_by_slot(*init, t) ==> is_letter(#[trigger] g@[t]),
        decreases len - i,
    {
        let ic = init.contents[i];
        let gc = g.contents[i];
        if ic != ' ' && gc != ic {
            return false;
        }
        if !covered[i] && gc != ic {
            return false;
        }
        if covered[i] && !letter_char(gc) {
            return false;
        }
        i = i + 1;
    }
    let mut bi: usize = 0;
    while bi < boundaries.len()
        invariant
            init.wf(),
            g.wf(),
            wd == init.spec_width(),
            ht == init.spec_height(),
            g.spec_width() == init.spec_width(),
            g.spec_height() == init.spec_height(),
            bi <= boundaries@.len(),
            forall|i2: int|
                0 <= i2 < boundaries@.len() ==> is_slot_of(*init, #[trigger] boundaries@[i2]),
            forall|j: int|
                0 <= j < bi ==> slot_full(*g, #[trigger] boundaries@[j]) && trie.has_word(
                    slot_view(*g, boundaries@[j]),
                ),
        decreases boundaries@.len() - bi,
    {
        let b = &boundaries[bi];
        proof {
            assert(b.fits(g.spec_width() as int, g.spec_height() as int));
        }
        let it = WordIterator::new(g, b);
        let chars = it.chars();
        if it.has_space() {
            proof {
                assert(!slot_full(*g, boundaries@[bi as int]));
            }
            return false;
        }
        if !trie.is_viable(&chars) {
            proof {
                lemma_full_view_matches(chars@);
                if trie.has_word(slot_view(*g, boundaries@[bi as int])) {
                    assert(trie.has_word(chars@) && pattern_matches(chars@, chars@));
                }
            }
            return false;
        }
        proof {
            lemma_full_view_matches(chars@);
            let w = choose|w: Seq<char>| trie.has_word(w) && pattern_matches(w, chars@);
            assert(w == chars@);
            assert(trie.has_word(slot_view(*g, boundaries@[bi as int])));
        }
        bi = bi + 1;
    }
    let n = boundaries.len();
    let mut i2: usize = 0;
    while i2 < n
        invariant
            init.wf(),
            g.wf(),
            g.spec_width() == init.spec_width(),
            g.spec_height() == init.spec_height(),
            n == boundaries@.len(),
            i2 <= n,
            forall|q: int|
                0 <= q < boundaries@.len() ==> is_slot_of(*init, #[trigger] boundaries@[q]),
            forall|t: int, u: int|
                #![trigger boundaries@[t], boundaries@[u]]
                0 <= t < u < n ==> boundaries@[t] != boundaries@[u],
            forall|t: int, u: int|
                #![trigger boundaries@[t], boundaries@[u]]
                0 <= t < u < n && t < i2 && must_differ(boundaries@[t], boundaries@[u])
                    ==> slot_view(*g, boundaries@[t]) != slot_view(*g, boundaries@[u]),
        decreases n - i2,
    {
        let vi = WordIterator::new(g, &boundaries[i2]).chars();
        let mut j2: usize = i2 + 1;
        while j2 < n
            invariant
                init.wf(),
                g.wf(),
                g.spec_width() == init.spec_width(),
                g.spec_height() == init.spec_height(),
                n == boundaries@.len(),
                i2 < n,
                i2 < j2 <= n,
                vi@ == slot_view(*g, boundaries@[i2 as int]),
                forall|q: int|
                    0 <= q < boundaries@.len() ==> is_slot_of(*init, #[trigger] boundaries@[q]),
                forall|t: int, u: int|
                    #![trigger boundaries@[t], boundaries@[u]]
                    0 <= t < u < n ==> boundaries@[t] != boundaries@[u],
                forall|u: int|
                    i2 < u < j2 && must_differ(boundaries@[i2 as int], #[trigger] boundaries@[u])
                        ==> slot_view(*g, boundaries@[i2 as int]) != slot_view(
                        *g,
                        boundaries@[u],
                    ),
            decreases n - j2,
        {
            let care = boundaries[i2].direction == boundaries[j2].direction || !slots_cross_exec(
                &boundaries[i2],
                &boundaries[j2],
            );
            if care {
                let vj = WordIterator::new(g, &boundaries[j2]).chars();
                if chars_eq(&vi, &vj) {
                    proof {
                        let b1 = boundaries@[i2 as int];
                        let b2 = boundaries@[j2 as int];
                        assert(b1 != b2);
                        assert(must_differ(b1, b2));
                        assert(is_slot_of(*init, b1) && is_slot_of(*init, b2));
                        assert(slot_view(*g, b1) == slot_view(*g, b2));
                    }
                    return false;
                }
            }
            j2 = j2 + 1;
        }
        i2 = i2 + 1;
    }
    proof {
        assert forall|b: WordBoundary|
            #[trigger] is_slot_of(*init, b) implies slot_full(*g, b) && trie.has_word(
            slot_view(*g, b),
        ) by {
            assert(boundaries@.contains(b));
            let j = choose|j: int| 0 <= j < boundaries@.len() && boundaries@[j] == b;
        }
        assert forall|b1: WordBoundary, b2: WordBoundary|
            #![trigger is_slot_of(*init, b1), is_slot_of(*init, b2)]
            is_slot_of(*init, b1) && is_slot_of(*init, b2) && must_differ(b1, b2)
                implies slot_view(*g, b1) != slot_view(*g, b2) by {
            assert(boundaries@.contains(b1));
            assert(boundaries@.contains(b2));
            let t = choose|t: int| 0 <= t < boundaries@.len() && boundaries@[t] == b1;
            let u = choose|u: int| 0 <= u < boundaries@.len() && boundaries@[u] == b2;
            assert(t != u);
            if t < u {
                assert(slot_view(*g, boundaries@[t]) != slot_view(*g, boundaries@[u]));
            } else {
                lemma_must_differ_sym(b1, b2);
                assert(slot_view(*g, boundaries@[u]) != slot_view(*g, boundaries@[t]));
            }
        }
    }
    true
}


/// The boundary list is exactly the words of the grid, each once.
pub open spec fn boundaries_exact(g: Crossword, bs: Seq<WordBoundary>) -> bool {
    &&& (forall|i: int| 0 <= i < bs.len() ==> is_slot_of(g, #[trigger] bs[i]))
    &&& (forall|b: WordBoundary| is_slot_of(g, b) ==> bs.contains(b))
    &&& (forall|i: int, j: int| 0 <= i < j < bs.len() ==> bs[i] != bs[j])
}

/// Check the start grid before any search: every word must admit a
/// completion, and no two complete entries of words that must differ may
/// coincide. Also report whether any word still holds a blank.
pub fn initial_check(
    init: &Crossword,
    boundaries: &Vec<WordBoundary>,
    trie: &Trie,
    cache: &mut CachedIsViable,
) -> (r: (bool, bool))
    requires
        boundaries_exact(*init, boundaries@),
        old(cache).consistent(*trie),
    ensures
        final(cache).consistent(*trie),
        r.0 <==> (!has_duplicate_entries(*init) && !has_unviable_slot(*init, *trie)),
        r.1 <==> !no_open_slot(*init),
{
    proof {
        use_type_invariant(init);
    }
    let n = boundaries.len();
    let mut all_viable = true;
    let mut i: usize = 0;
    while i < n
        invariant
            init.wf(),
            boundaries_exact(*init, boundaries@),
            cache.consistent(*trie),
            n == boundaries@.len(),
            i <= n,
            all_viable <==> (forall|t: int|
                0 <= t < i ==> viable_slot(*init, #[trigger] boundaries@[t], *trie)),
        decreases n - i,
    {
        proof {
            assert(is_slot_of(*init, boundaries@[i as int]));
        }
        let it = WordIterator::new(init, &boundaries[i]);
        if !cache.is_viable(&it, trie) {
            proof {
                assert(!viable_slot(*init, boundaries@[i as int], *trie));
            }
            all_viable = false;
        }
        i = i + 1;
    }
    let mut dup = false;
    let mut i2: usize = 0;
    while i2 < n
        invariant
            init.wf(),
            boundaries_exact(*init, boundaries@),
            n == boundaries@.len(),
            i2 <= n,
            dup ==> has_duplicate_entries(*init),
            !dup ==> (forall|t: int, u: int|
                #![trigger boundaries@[t], boundaries@[u]]
                0 <= t < u < n && t < i2 && must_differ(boundaries@[t], boundaries@[u])
                    && slot_full(*init, boundaries@[t]) ==> slot_view(*init, boundaries@[t])
                    != slot_view(*init, boundaries@[u])),
        decreases n - i2,
    {
        proof {
            assert(is_slot_of(*init, boundaries@[i2 as int]));
        }
        let it = WordIterator::new(init, &boundaries[i2]);
        let vi = it.chars();
        let full = !it.has_space();
        if full {
            let mut j2: usize = i2 + 1;
            while j2 < n
                invariant
                    init.wf(),
                    boundaries_exact(*init, boundaries@),
                    n == boundaries@.len(),
                    i2 < n,
                    i2 < j2 <= n,
                    vi@ == slot_view(*init, boundaries@[i2 as int]),
                    !slot_view(*init, boundaries@[i2 as int]).contains(' '),
                    dup ==> has_duplicate_entries(*init),
                    !dup ==> (forall|t: int, u: int|
                        #![trigger boundaries@[t], boundaries@[u]]
                        0 <= t < u < n && t < i2 && must_differ(boundaries@[t], boundaries@[u])
                            && slot_full(*init, boundaries@[t]) ==> slot_view(
                            *init,
                            boundaries@[t],
                        ) != slot_view(*init, boundaries@[u])),
                    !dup ==> (forall|u: int|
                        i2 < u < j2 && must_differ(
                            boundaries@[i2 as int],
                            #[trigger] boundaries@[u],
                        ) ==> slot_view(*init, boundaries@[i2 as int]) != slot_view(
                            *init,
                            boundaries@[u],
                        )),
                decreases n - j2,
            {
                let care = boundaries[i2].direction == boundaries[j2].direction
                    || !slots_cross_exec(&boundaries[i2], &boundaries[j2]);
                if care {
                    let vj = WordIterator::new(init, &boundaries[j2]).chars();
                    if chars_eq(&vi, &vj) {
                        proof {
                            let b1 = boundaries@[i2 as int];
                            let b2 = boundaries@[j2 as int];
                            assert(b1 != b2);
                            assert(must_differ(b1, b2));
                            assert(is_slot_of(*init, b1) && is_slot_of(*init, b2));
                            assert(slot_full(*init, b1));
                            assert(slot_view(*init, b1) == slot_view(*init, b2));
                            assert(has_duplicate_entries(*init));
                        }
                        dup = true;
                    }
                }
                j2 = j2 + 1;
            }
        } else {
            proof {
                assert forall|u: int|
                    i2 < u < n && must_differ(boundaries@[i2 as int], #[trigger] boundaries@[u])
                        && slot_full(*init, boundaries@[i2 as int]) implies slot_view(
                    *init,
                    boundaries@[i2 as int],
                ) != slot_view(*init, boundaries@[u]) by {
                    assert(slot_view(*init, boundaries@[i2 as int]).contains(' '));
                }
            }
        }
        i2 = i2 + 1;
    }
    let ok = all_viable && !dup;
    proof {
        if all_viable {
            assert(!has_unviable_slot(*init, *trie)) by {
                if has_unviable_slot(*init, *trie) {
                    let b = choose|b: WordBoundary|
                        #[trigger] is_slot_of(*init, b) && !viable_slot(*init, b, *trie);
                    assert(boundaries@.contains(b));
                    let q = choose|q: int| 0 <= q < boundaries@.len() && boundaries@[q] == b;
                    assert(viable_slot(*init, boundaries@[q], *trie));
                }
            }
        } else {
            let t = choose|t: int|
                0 <= t < n && !viable_slot(*init, #[trigger] boundaries@[t], *trie);
            assert(is_slot_of(*init, boundaries@[t]));
            assert(has_unviable_slot(*init, *trie));
        }
        if !dup {
            assert(!has_duplicate_entries(*init)) by {
                if has_duplicate_entries(*init) {
                    let (b1, b2) = choose|b1: WordBoundary, b2: WordBoundary|
                        #![trigger is_slot_of(*init, b1), is_slot_of(*init, b2)]
                        is_slot_of(*init, b1) && is_slot_of(*init, b2) && must_differ(b1, b2)
                            && slot_full(*init, b1) && slot_view(*init, b1) == slot_view(
                            *init,
                            b2,
                        );
                    assert(boundaries@.contains(b1));
                    assert(boundaries@.contains(b2));
                    let t = choose|t: int| 0 <= t < boundaries@.len() && boundaries@[t] == b1;
                    let u = choose|u: int| 0 <= u < boundaries@.len() && boundaries@[u] == b2;
                    assert(t != u);
                    if t < u {
                        assert(slot_view(*init, boundaries@[t]) != slot_view(
                            *init,
                            boundaries@[u],
                        ));
                    } else {
                        lemma_must_differ_sym(b1, b2);
                        assert(slot_full(*init, b2)) by {
                            assert(slot_view(*init, b2).len() == slot_view(*init, b1).len());
                        }
                        assert(slot_view(*init, boundaries@[u]) != slot_view(
                            *init,
                            boundaries@[t],
                        ));
                    }
                }
            }
        }
    }
    let mut open = false;
    let mut j: usize = 0;
    while j < boundaries.len()
        invariant
            boundaries_exact(*init, boundaries@),
            init.wf(),
            j <= boundaries@.len(),
            open ==> !no_open_slot(*init),
            !open ==> forall|t: int|
                0 <= t < j ==> slot_full(*init, #[trigger] boundaries@[t]),
        decreases boundaries@.len() - j,
    {
        let b = &boundaries[j];
        proof {
            assert(is_slot_of(*init, boundaries@[j as int]));
        }
        let it = WordIterator::new(init, b);
        if it.has_space() {
            proof {
                assert(!slot_full(*init, boundaries@[j as int]));
                assert(is_slot_of(*init, boundaries@[j as int]));
            }
            open = true;
        }
        j = j + 1;
    }
    proof {
        if !open {
            assert forall|b: WordBoundary|
                #[trigger] is_slot_of(*init, b) implies slot_full(*init, b) by {
                assert(boundaries@.contains(b));
                let q = choose|q: int| 0 <= q < boundaries@.len() && boundaries@[q] == b;
            }
        }
    }
    (ok, open)
}

/// Among the words that still hold a blank, pick the one with the greatest
/// word score: the most constrained word to fill next.
pub fn pick_open_slot(
    candidate: &Crossword,
    boundaries: &Vec<WordBoundary>,
    bigrams: &BigramTable,
) -> (r: Option<usize>)
    requires
        forall|i: int|
            0 <= i < boundaries@.len() ==> (#[trigger] boundaries@[i]).fits(
                candidate.spec_width() as int,
                candidate.spec_height() as int,
            ),
    ensures
        match r {
            Some(i) => i < boundaries@.len() && slot_view(
                *candidate,
                boundaries@[i as int],
            ).contains(' '),
            None => forall|i: int|
                0 <= i < boundaries@.len() ==> !slot_view(
                    *candidate,
                    #[trigger] boundaries@[i],
                ).contains(' '),
        },
{
    let mut best: Option<usize> = None;
    let mut best_score = WordScore {
        length: 0,
        space_count: 0,
        fillability_score: 0,
        start_col: 0,
        start_row: 0,
    };
    let mut i: usize = 0;
    while i < boundaries.len()
        invariant
            forall|t: int|
                0 <= t < boundaries@.len() ==> (#[trigger] boundaries@[t]).fits(
                    candidate.spec_width() as int,
                    candidate.spec_height() as int,
                ),
            i <= boundaries@.len(),
            match best {
                Some(bi) => bi < i && slot_view(
                    *candidate,
                    boundaries@[bi as int],
                ).contains(' '),
                None => forall|t: int|
                    0 <= t < i ==> !slot_view(
                        *candidate,
                        #[trigger] boundaries@[t],
                    ).contains(' '),
            },
        decreases boundaries@.len() - i,
    {
        let it = WordIterator::new(candidate, &boundaries[i]);
        if it.has_space() {
            let score = score_iter(&it, bigrams);
            let take = match best {
                None => true,
                Some(_) => score.lt(&best_score),
            };
            if take {
                best = Some(i);
                best_score = score;
            }
        }
        i = i + 1;
    }
    best
}

/// Among the words that still hold a blank, pick the longest, and of equal
/// lengths the one with the fewest blanks: the simple policy's choice.
pub fn pick_open_slot_simple(candidate: &Crossword, boundaries: &Vec<WordBoundary>) -> (r: Option<
    usize,
>)
    requires
        forall|i: int|
            0 <= i < boundaries@.len() ==> (#[trigger] boundaries@[i]).fits(
                candidate.spec_width() as int,
                candidate.spec_height() as int,
            ),
    ensures
        match r {
            Some(i) => i < boundaries@.len() && slot_view(
                *candidate,
                boundaries@[i as int],
            ).contains(' '),
            None => forall|i: int|
                0 <= i < boundaries@.len() ==> !slot_view(
                    *candidate,
                    #[trigger] boundaries@[i],
                ).contains(' '),
        },
{
    let mut best: Option<usize> = None;
    let mut best_len: usize = 0;
    let mut best_spaces: usize = 0;
    let mut i: usize = 0;
    while i < boundaries.len()
        invariant
            forall|t: int|
                0 <= t < boundaries@.len() ==> (#[trigger] boundaries@[t]).fits(
                    candidate.spec_width() as int,
                    candidate.spec_height() as int,
                ),
            i <= boundaries@.len(),
            match best {
                Some(bi) => bi < i && slot_view(
                    *candidate,
                    boundaries@[bi as int],
                ).contains(' '),
                None => forall|t: int|
                    0 <= t < i ==> !slot_view(
                        *candidate,
                        #[trigger] boundaries@[t],
                    ).contains(' '),
            },
        decreases boundaries@.len() - i,
    {
        let it = WordIterator::new(candidate, &boundaries[i]);
        if it.has_space() {
            let spaces = crate::order::count_spaces(&it.chars());
            let len = boundaries[i].length;
            let take = match best {
                None => true,
                Some(_) => len > best_len || (len == best_len && spaces < best_spaces),
            };
            if take {
                best = Some(i);
                best_len = len;
                best_spaces = spaces;
            }
        }
        i = i + 1;
    }
    best
}

/// If one grid key does not exceed a second, and the second does not exceed
/// a third, the first does not exceed the third.
proof fn lemma_frontier_cmp_transfer(
    a: FrequencyOrderableCrossword,
    b: FrequencyOrderableCrossword,
    c: FrequencyOrderableCrossword,
)
    requires
        a.spec_cmp(&b) != core::cmp::Ordering::Greater,
        c.spec_cmp(&b) == core::cmp::Ordering::Greater,
    ensures
        a.spec_cmp(&c) != core::cmp::Ordering::Greater,
{
    crate::order::lemma_lex_cmp_order(
        b.spec_crossword()@,
        a.spec_crossword()@,
        c.spec_crossword()@,
    );
}

/// No grid key exceeds itself.
proof fn lemma_frontier_cmp_refl(a: FrequencyOrderableCrossword)
    ensures
        a.spec_cmp(&a) != core::cmp::Ordering::Greater,
{
    crate::order::lemma_lex_cmp_refl(a.spec_crossword()@);
}

/// Whether two grids have the same shape and the same cells.
fn same_grid_exec(a: &Crossword, b: &Crossword) -> (r: bool)
    ensures
        r == same_grid(*a, *b),
{
    proof {
        lemma_crossword_view(a);
        lemma_crossword_view(b);
    }
    if a.width != b.width || a.height != b.height {
        return false;
    }
    chars_eq(&a.contents, &b.contents)
}

/// The shared state of a search: the frontier of candidate grids and the
/// grids already enqueued, plus a flag a finished worker raises.
pub struct CrosswordFillState {
    pub(crate) processed_candidates: Vec<Crossword>,
    pub(crate) candidate_queue: Vec<FrequencyOrderableCrossword>,
    pub(crate) done: bool,
}

impl CrosswordFillState {
    pub closed spec fn spec_queue(&self) -> Seq<FrequencyOrderableCrossword> {
        self.candidate_queue@
    }

    pub closed spec fn spec_done(&self) -> bool {
        self.done
    }

    /// An empty frontier.
    pub fn new() -> (r: CrosswordFillState)
        ensures
            r.spec_queue().len() == 0,
            !r.spec_done(),
    {
        CrosswordFillState {
            processed_candidates: Vec::new(),
            candidate_queue: Vec::new(),
            done: false,
        }
    }

    /// Remove and return the best candidate under the frontier ordering, if
    /// the frontier still holds one.
    pub fn take_candidate(&mut self) -> (r: Option<Crossword>)
        ensures
            final(self).spec_done() == old(self).spec_done(),
            match r {
                None => final(self).spec_queue() == old(self).spec_queue() && old(
                    self,
                ).spec_queue().len() == 0,
                Some(c) => {
                    &&& old(self).spec_queue().len() > 0
                    &&& final(self).spec_queue().len() == old(self).spec_queue().len() - 1
                    &&& (exists|i: int|
                        0 <= i < old(self).spec_queue().len() && (#[trigger] old(
                            self,
                        ).spec_queue()[i]).spec_crossword() == c && (forall|j: int|
                            0 <= j < old(self).spec_queue().len() ==> (#[trigger] old(
                                self,
                            ).spec_queue()[j]).spec_cmp(&old(self).spec_queue()[i])
                                != core::cmp::Ordering::Greater) && final(self).spec_queue()
                            == old(self).spec_queue().update(
                            i,
                            old(self).spec_queue().last(),
                        ).drop_last())
                    &&& (forall|j: int|
                        0 <= j < final(self).spec_queue().len() ==> (exists|i: int|
                            0 <= i < old(self).spec_queue().len() && old(self).spec_queue()[i]
                                == #[trigger] final(self).spec_queue()[j]))
                },
            },
    {
        if self.candidate_queue.len() == 0 {
            return None;
        }
        let mut best: usize = 0;
        proof {
            lemma_frontier_cmp_refl(self.candidate_queue@[0]);
        }
        let mut i: usize = 1;
        while i < self.candidate_queue.len()
            invariant
                *self == *old(self),
                self.candidate_queue@.len() > 0,
                best < self.candidate_queue@.len(),
                i <= self.candidate_queue@.len(),
                forall|j: int|
                    0 <= j < i ==> (#[trigger] self.candidate_queue@[j]).spec_cmp(
                        &self.candidate_queue@[best as int],
                    ) != core::cmp::Ordering::Greater,
            decreases self.candidate_queue@.len() - i,
        {
            let better = matches!(
                self.candidate_queue[i].cmp(&self.candidate_queue[best]),
                core::cmp::Ordering::Greater
            );
            if better {
                proof {
                    assert forall|j: int|
                        0 <= j < i + 1 implies (#[trigger] self.candidate_queue@[j]).spec_cmp(
                        &self.candidate_queue@[i as int],
                    ) != core::cmp::Ordering::Greater by {
                        if j == i as int {
                            lemma_frontier_cmp_refl(self.candidate_queue@[j]);
                        }
                        if j < i as int {
                            lemma_frontier_cmp_transfer(
                                self.candidate_queue@[j],
                                self.candidate_queue@[best as int],
                                self.candidate_queue@[i as int],
                            );
                        }
                    }
                }
                best = i;
            }
            i = i + 1;
        }
        let ghost q0 = self.candidate_queue@;
        let fo = self.candidate_queue.swap_remove(best);
        proof {
            assert(fo == q0[best as int]);
            assert(q0 == old(self).spec_queue());
            assert((old(self).spec_queue()[best as int]).spec_crossword()
                == fo.spec_crossword());
            assert(forall|j: int|
                0 <= j < old(self).spec_queue().len() ==> (#[trigger] old(
                    self,
                ).spec_queue()[j]).spec_cmp(&old(self).spec_queue()[best as int])
                    != core::cmp::Ordering::Greater);
            assert(self.spec_queue() =~= old(self).spec_queue().update(
                best as int,
                old(self).spec_queue().last(),
            ).drop_last());
            assert forall|j: int|
                0 <= j < self.candidate_queue@.len() implies (exists|i2: int|
                0 <= i2 < q0.len() && q0[i2] == #[trigger] self.candidate_queue@[j]) by {
                if j == best as int {
                    assert(self.candidate_queue@[j] == q0[q0.len() - 1]);
                } else {
                    assert(self.candidate_queue@[j] == q0[j]);
                }
            }
        }
        Some(fo.into_crossword())
    }

    pub closed spec fn spec_processed(&self) -> Seq<Crossword> {
        self.processed_candidates@
    }

    /// Whether a grid equal to `g` was enqueued before.
    pub open spec fn spec_enqueued_before(&self, g: Crossword) -> bool {
        exists|i: int|
            0 <= i < self.spec_processed().len() && same_grid(
                #[trigger] self.spec_processed()[i],
                g,
            )
    }

    /// Enqueue a candidate grid, unless an equal grid was enqueued before:
    /// then the frontier is left untouched.
    pub fn add_candidate(&mut self, candidate: FrequencyOrderableCrossword)
        ensures
            final(self).spec_done() == old(self).spec_done(),
            old(self).spec_enqueued_before(candidate.spec_crossword()) ==> *final(self) == *old(
                self,
            ),
            !old(self).spec_enqueued_before(candidate.spec_crossword()) ==> {
                &&& final(self).spec_queue() == old(self).spec_queue().push(candidate)
                &&& final(self).spec_processed().len() == old(self).spec_processed().len() + 1
                &&& (forall|i: int|
                    0 <= i < old(self).spec_processed().len() ==> final(self).spec_processed()[i]
                        == #[trigger] old(self).spec_processed()[i])
                &&& same_grid(
                    final(self).spec_processed().last(),
                    candidate.spec_crossword(),
                )
            },
            final(self).spec_queue() == old(self).spec_queue() || final(self).spec_queue() == old(
                self,
            ).spec_queue().push(candidate),
    {
        let mut seen = false;
        let mut i: usize = 0;
        while i < self.processed_candidates.len()
            invariant
                *self == *old(self),
                i <= self.processed_candidates@.len(),
                seen <==> (exists|t: int|
                    0 <= t < i && same_grid(
                        #[trigger] self.processed_candidates@[t],
                        candidate.spec_crossword(),
                    )),
            decreases self.processed_candidates@.len() - i,
        {
            if same_grid_exec(&self.processed_candidates[i], &candidate.crossword) {
                seen = true;
            }
            i = i + 1;
        }
        if !seen {
            let copy = candidate.crossword.clone();
            self.candidate_queue.push(candidate);
            self.processed_candidates.push(copy);
        }
    }

    /// Whether a finished worker has raised the done flag.
    pub fn is_done(&self) -> (r: bool)
        ensures
            r == self.spec_done(),
    {
        self.done
    }

    /// Raise the flag that tells every worker the search is over.
    pub fn mark_done(&mut self)
        ensures
            final(self).spec_done(),
            final(self).spec_queue() == old(self).spec_queue(),
    {
        self.done = true;
    }
}


/// Writing a word's own current characters back into its cells is the
/// identity: with the slot already fully filled, filling it with the entry
/// it holds returns an unchanged grid.
pub proof fn lemma_refill_same_word(g: Crossword, b: WordBoundary, r: Crossword)
    requires
        b.fits(g.spec_width() as int, g.spec_height() as int),
        same_dims(r, g),
        forall|k: int|
            0 <= k < b.length ==> r@[#[trigger] b.cell_index(k, g.spec_width() as int)]
                == slot_view(g, b)[k],
        forall|i: int|
            0 <= i < g@.len() && !b.covers(i, g.spec_width() as int) ==> #[trigger] r@[i]
                == g@[i],
    ensures
        r@ == g@,
{
    let w = g.spec_width() as int;
    assert forall|i: int| 0 <= i < g@.len() implies r@[i] == g@[i] by {
        if b.covers(i, w) {
            let k = choose|k: int| 0 <= k < b.length && #[trigger] b.cell_index(k, w) == i;
            assert(r@[b.cell_index(k, w)] == slot_view(g, b)[k]);
            assert(slot_view(g, b)[k] == g@[b.cell_index(k, w)]);
        }
    }
    assert(r@ =~= g@);
}

} // verus!
