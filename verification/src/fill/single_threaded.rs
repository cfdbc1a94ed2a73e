//! A search driver that explores a priority frontier of candidate grids,
//! always expanding the grid closest to completion.

use crate::crossword::Crossword;
use crate::crossword::WordIterator;
use crate::crossword::letter_char;
use crate::crossword::string_from_strlit;
use crate::crossword::string_to_chars;
use crate::fill::CrosswordFillState;
use crate::fill::Fill;
use crate::fill::boundaries_exact;
use crate::fill::build_square_word_boundary_lookup;
use crate::fill::cache::CachedIsViable;
use crate::fill::cache::CachedWords;
use crate::fill::check_solution;
use crate::fill::fill_one_word;
use crate::fill::has_duplicate_entries;
use crate::fill::has_unviable_slot;
use crate::fill::initial_check;
use crate::fill::is_valid_fill;
use crate::fill::is_viable_reuse;
use crate::fill::lemma_full_view_matches;
use crate::fill::no_open_slot;
use crate::fill::pick_open_slot;
use crate::fill::same_dims;
use crate::fill::simple::dfs;
use crate::fill::slot_full;
use crate::fill::viable_slot;
use crate::fill::words_orthogonal_to_word;
use crate::ngram::BigramTable;
use crate::order::FrequencyOrderableCrossword;
use crate::parse::WordBoundary;
use crate::parse::is_slot_of;
use crate::parse::parse_word_boundaries;
use crate::parse::slot_view;
use crate::trie::Trie;
use crate::trie::pattern_matches;
use vstd::prelude::*;

verus! {

/// A grid that already satisfies every check also satisfies the initial
/// viability pass, and its words are a valid fill of itself.
pub(crate) proof fn lemma_valid_start(init: Crossword, t: Trie)
    requires
        is_valid_fill(init, init, t),
    ensures
        !has_duplicate_entries(init),
        !has_unviable_slot(init, t),
{
    if has_duplicate_entries(init) {
        let (b1, b2) = choose|b1: WordBoundary, b2: WordBoundary|
            #![trigger is_slot_of(init, b1), is_slot_of(init, b2)]
            is_slot_of(init, b1) && is_slot_of(init, b2) && crate::fill::must_differ(b1, b2)
                && slot_full(init, b1) && slot_view(init, b1) == slot_view(init, b2);
        assert(slot_view(init, b1) != slot_view(init, b2));
    }
    if has_unviable_slot(init, t) {
        let b = choose|b: WordBoundary|
            #[trigger] is_slot_of(init, b) && !viable_slot(init, b, t);
        assert(slot_full(init, b) && t.has_word(slot_view(init, b)));
        lemma_full_view_matches(slot_view(init, b));
        assert(pattern_matches(slot_view(init, b), slot_view(init, b)));
        assert(viable_slot(init, b, t));
    }
}

/// A start grid with no open word, no duplicate entry and no unviable word
/// is a valid fill of itself.
pub(crate) proof fn lemma_complete_start_valid(init: Crossword, t: Trie)
    requires
        init.wf(),
        no_open_slot(init),
        !has_duplicate_entries(init),
        !has_unviable_slot(init, t),
    ensures
        is_valid_fill(init, init, t),
{
    assert forall|b: WordBoundary|
        #[trigger] is_slot_of(init, b) implies slot_full(init, b) && t.has_word(
        slot_view(init, b),
    ) by {
        assert(viable_slot(init, b, t));
        let w = choose|w: Seq<char>|
            t.has_word(w) && pattern_matches(w, slot_view(init, b));
        lemma_full_view_matches(slot_view(init, b));
        assert(w == slot_view(init, b));
    }
    crate::crossword::lemma_crossword_view(&init);
    assert(crate::crossword::all_valid_cells(init@));
    assert forall|i: int|
        0 <= i < init@.len() && crate::fill::cell_covered_by_slot(init, i)
            implies crate::crossword::is_letter(#[trigger] init@[i]) by {
        let b = choose|b: WordBoundary|
            #[trigger] is_slot_of(init, b) && b.covers(i, init.spec_width() as int);
        let k = choose|k: int|
            0 <= k < b.length && #[trigger] b.cell_index(k, init.spec_width() as int) == i;
        assert(init@[i] != '*');
        assert(slot_full(init, b));
        assert(slot_view(init, b)[k] == init@[i]);
        if init@[i] == ' ' {
            assert(slot_view(init, b).contains(' '));
        }
        assert(crate::crossword::is_valid_cell(init@[i]));
    }
    assert forall|b1: WordBoundary, b2: WordBoundary|
        #![trigger is_slot_of(init, b1), is_slot_of(init, b2)]
        is_slot_of(init, b1) && is_slot_of(init, b2) && crate::fill::must_differ(b1, b2)
            implies slot_view(init, b1) != slot_view(init, b2) by {
        if slot_view(init, b1) == slot_view(init, b2) {
            assert(slot_full(init, b1));
            assert(has_duplicate_entries(init));
        }
    }
}

/// A grid with the same cells and shape as a valid fill is itself a valid
/// fill.
pub(crate) proof fn lemma_valid_fill_same_grid(init: Crossword, a: Crossword, b: Crossword, t: Trie)
    requires
        is_valid_fill(init, a, t),
        crate::fill::same_grid(b, a),
    ensures
        is_valid_fill(init, b, t),
{
    assert forall|bd: WordBoundary|
        #[trigger] is_slot_of(init, bd) implies slot_full(b, bd) && t.has_word(
        slot_view(b, bd),
    ) by {
        assert(slot_view(b, bd) =~= slot_view(a, bd));
    }
    assert forall|b1: WordBoundary, b2: WordBoundary|
        #![trigger is_slot_of(init, b1), is_slot_of(init, b2)]
        is_slot_of(init, b1) && is_slot_of(init, b2) && crate::fill::must_differ(b1, b2)
            implies slot_view(b, b1) != slot_view(b, b2) by {
        assert(slot_view(b, b1) =~= slot_view(a, b1));
        assert(slot_view(b, b2) =~= slot_view(a, b2));
    }
}

/// A search driver that owns per-search caches and explores candidates in
/// frontier order, best first.
pub struct SingleThreadedFiller<'s> {
    pub(crate) word_cache: CachedWords,
    pub(crate) is_viable_cache: CachedIsViable,
    pub(crate) trie: &'s Trie,
    pub(crate) bigrams: &'s BigramTable,
}

impl<'s> SingleThreadedFiller<'s> {
    pub fn new(trie: &'s Trie, bigrams: &'s BigramTable) -> (r: SingleThreadedFiller<'s>)
        ensures
            r.spec_trie() == *trie,
    {
        SingleThreadedFiller {
            word_cache: CachedWords::default(),
            is_viable_cache: CachedIsViable::new(),
            trie,
            bigrams,
        }
    }
}

impl<'s> Fill for SingleThreadedFiller<'s> {
    closed spec fn spec_trie(&self) -> Trie {
        *self.trie
    }

    fn fill(&mut self, crossword: &Crossword) -> (r: Result<Crossword, String>) {
        let trie = self.trie;
        let bigrams = self.bigrams;
        let mut word_cache = CachedWords::default();
        let mut viable_cache = CachedIsViable::new();
        let boundaries = parse_word_boundaries(crossword);
        let (ok, open) = initial_check(crossword, &boundaries, trie, &mut viable_cache);
        if !ok {
            proof {
                if no_open_slot(*crossword) && is_valid_fill(*crossword, *crossword, *trie) {
                    lemma_valid_start(*crossword, *trie);
                }
                if crate::fill::fill_exists(*crossword, *trie) {
                    use_type_invariant(crossword);
                    let gg = choose|gg: Crossword| is_valid_fill(*crossword, gg, *trie);
                    crate::fill::lemma_fill_exists_passes_initial(*crossword, gg, *trie);
                }
            }
            self.word_cache = word_cache;
            self.is_viable_cache = viable_cache;
            return Err(string_from_strlit("Ran out of candidates. Yikes."));
        }
        if !open {
            proof {
                use_type_invariant(crossword);
                lemma_complete_start_valid(*crossword, *trie);
            }
            let done = crossword.clone();
            proof {
                lemma_valid_fill_same_grid(*crossword, *crossword, done, *trie);
            }
            self.word_cache = word_cache;
            self.is_viable_cache = viable_cache;
            return Ok(done);
        }
        let mut state = CrosswordFillState::new();
        proof {
            use_type_invariant(crossword);
        }
        let fo = FrequencyOrderableCrossword::new(crossword.clone(), bigrams);
        state.add_candidate(fo);
        let lookup = build_square_word_boundary_lookup(&boundaries);
        let mut used: Vec<Vec<char>> = Vec::new();
        let mut fuel: u64 = u64::MAX;
        while fuel > 0
            invariant
                trie == old(self).trie,
                !has_duplicate_entries(*crossword),
                !has_unviable_slot(*crossword, *trie),
                !no_open_slot(*crossword),
                boundaries_exact(*crossword, boundaries@),
                lookup.spec_entries() == boundaries@,
                word_cache.consistent(*trie),
                viable_cache.consistent(*trie),
                used@.len() == 0,
                forall|j: int|
                    0 <= j < state.spec_queue().len() ==> same_dims(
                        (#[trigger] state.spec_queue()[j]).spec_crossword(),
                        *crossword,
                    ),
            decreases fuel,
        {
            fuel = fuel - 1;
            let candidate = match state.take_candidate() {
                Some(c) => c,
                None => {
                    // the frontier is exhausted; the ordering key can prune
                    // reachable grids, so settle the answer with the
                    // exhaustive depth-first search
                    let start = crossword.clone();
                    let r = dfs(
                        crossword,
                        start,
                        &boundaries,
                        &lookup,
                        trie,
                        &mut word_cache,
                        &mut viable_cache,
                    );
                    self.word_cache = word_cache;
                    self.is_viable_cache = viable_cache;
                    match r {
                        Some(c) => {
                            return Ok(c);
                        },
                        None => {
                            proof {
                                if crate::fill::fill_exists(*crossword, *trie) {
                                    let gg = choose|gg: Crossword|
                                        is_valid_fill(*crossword, gg, *trie);
                                    assert(crate::fill::extends(start, gg));
                                    assert(false);
                                }
                            }
                            return Err(string_from_strlit("Ran out of candidates. Yikes."));
                        },
                    }
                },
            };
            proof {
                assert(same_dims(candidate, *crossword));
                assert forall|i: int|
                    0 <= i < boundaries@.len() implies (#[trigger] boundaries@[i]).fits(
                    candidate.spec_width() as int,
                    candidate.spec_height() as int,
                ) by {
                    assert(is_slot_of(*crossword, boundaries@[i]));
                }
            }
            let slot_idx = match pick_open_slot(&candidate, &boundaries, bigrams) {
                Some(i) => i,
                None => {
                    if check_solution(crossword, &candidate, &boundaries, trie) {
                        self.word_cache = word_cache;
                        self.is_viable_cache = viable_cache;
                        return Ok(candidate);
                    }
                    continue;
                },
            };
            let b = boundaries[slot_idx];
            let it = WordIterator::new(&candidate, &b);
            let potential_fills = word_cache.words(&it, trie);
            proof {
                assert(is_slot_of(*crossword, boundaries@[slot_idx as int]));
            }
            let orthos = words_orthogonal_to_word(&b, &lookup);
            proof {
                assert forall|i: int|
                    0 <= i < orthos@.len() implies (#[trigger] orthos@[i]).fits(
                    candidate.spec_width() as int,
                    candidate.spec_height() as int,
                ) by {
                    assert(boundaries@.contains(orthos@[i]));
                    let q = choose|q: int|
                        0 <= q < boundaries@.len() && boundaries@[q] == orthos@[i];
                    assert(is_slot_of(*crossword, boundaries@[q]));
                }
            }
            let mut wi: usize = 0;
            while wi < potential_fills.len()
                invariant
                    trie == old(self).trie,
                    !has_duplicate_entries(*crossword),
                    !has_unviable_slot(*crossword, *trie),
                    !no_open_slot(*crossword),
                    boundaries_exact(*crossword, boundaries@),
                    word_cache.consistent(*trie),
                    viable_cache.consistent(*trie),
                    used@.len() == 0,
                    wi <= potential_fills@.len(),
                    same_dims(candidate, *crossword),
                    it.spec_word_boundary() == b,
                    it.spec_crossword() == candidate,
                    b == boundaries@[slot_idx as int],
                    slot_idx < boundaries@.len(),
                    it@ == slot_view(candidate, b),
                    b.fits(candidate.spec_width() as int, candidate.spec_height() as int),
                    forall|j: int|
                        0 <= j < potential_fills@.len() ==> pattern_matches(
                            (#[trigger] potential_fills@[j])@,
                            it@,
                        ),
                    forall|i: int|
                        0 <= i < orthos@.len() ==> (#[trigger] orthos@[i]).fits(
                            candidate.spec_width() as int,
                            candidate.spec_height() as int,
                        ),
                    forall|j: int|
                        0 <= j < state.spec_queue().len() ==> same_dims(
                            (#[trigger] state.spec_queue()[j]).spec_crossword(),
                            *crossword,
                        ),
                decreases potential_fills@.len() - wi,
            {
                let word = &potential_fills[wi];
                let wchars = string_to_chars(word.as_str());
                let mut all_letters = true;
                let mut ci: usize = 0;
                while ci < wchars.len()
                    invariant
                        ci <= wchars@.len(),
                        all_letters ==> forall|t: int|
                            0 <= t < ci ==> crate::crossword::is_letter(#[trigger] wchars@[t]),
                    decreases wchars@.len() - ci,
                {
                    if !letter_char(wchars[ci]) {
                        all_letters = false;
                    }
                    ci = ci + 1;
                }
                if all_letters {
                    proof {
                        assert(pattern_matches(word@, it@));
                        assert(word@.len() == b.length);
                    }
                    let new_candidate = fill_one_word(&candidate, &it, word.as_str());
                    let used_in = used;
                    let (viable, mut used_out) = is_viable_reuse(
                        &new_candidate,
                        &orthos,
                        trie,
                        used_in,
                        &mut viable_cache,
                    );
                    used_out.clear();
                    used = used_out;
                    if viable {
                        match pick_open_slot(&new_candidate, &boundaries, bigrams) {
                            None => {
                                if check_solution(crossword, &new_candidate, &boundaries, trie) {
                                    self.word_cache = word_cache;
                                    self.is_viable_cache = viable_cache;
                                    return Ok(new_candidate);
                                }
                            },
                            Some(_) => {
                                let orderable = FrequencyOrderableCrossword::new(
                                    new_candidate,
                                    bigrams,
                                );
                                if orderable.fillability_score > 0 {
                                    let ghost q0 = state.spec_queue();
                                    state.add_candidate(orderable);
                                    proof {
                                        assert forall|j: int|
                                            0 <= j < state.spec_queue().len() implies same_dims(
                                            (#[trigger] state.spec_queue()[j]).spec_crossword(),
                                            *crossword,
                                        ) by {
                                            if state.spec_queue() == q0.push(orderable) {
                                                if j < q0.len() {
                                                    assert(state.spec_queue()[j] == q0[j]);
                                                } else {
                                                    assert(state.spec_queue()[j] == orderable);
                                                }
                                            }
                                        }
                                    }
                                }
                            },
                        }
                    }
                }
                wi = wi + 1;
            }
        }
        // the step budget is spent; settle the answer with the exhaustive
        // depth-first search
        let start = crossword.clone();
        let r = dfs(
            crossword,
            start,
            &boundaries,
            &lookup,
            trie,
            &mut word_cache,
            &mut viable_cache,
        );
        self.word_cache = word_cache;
        self.is_viable_cache = viable_cache;
        match r {
            Some(c) => Ok(c),
            None => {
                proof {
                    if crate::fill::fill_exists(*crossword, *trie) {
                        let gg = choose|gg: Crossword| is_valid_fill(*crossword, gg, *trie);
                        assert(crate::fill::extends(start, gg));
                        assert(false);
                    }
                }
                Err(string_from_strlit("Ran out of candidates. Yikes."))
            },
        }
    }
}

} // verus!
