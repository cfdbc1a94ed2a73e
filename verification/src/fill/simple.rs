//! An algorithm that composes algorithms and data structures throughout this
//! crate: a depth-first search that always dives into the most recently
//! produced candidate, preferring the longest, most-filled word.

use crate::crossword::Crossword;
use crate::crossword::WordIterator;
use crate::crossword::is_letter;
use crate::crossword::letter_char;
use crate::crossword::string_from_strlit;
use crate::crossword::string_to_chars;
use crate::fill::Fill;
use crate::fill::WordBoundaryLookup;
use crate::fill::boundaries_exact;
use crate::fill::build_square_word_boundary_lookup;
use crate::fill::cache::CachedIsViable;
use crate::fill::cache::CachedWords;
use crate::fill::check_solution;
use crate::fill::fill_one_word;
use crate::fill::initial_check;
use crate::fill::is_valid_fill;
use crate::fill::is_viable_reuse;
use crate::fill::lemma_space_count_lt;
use crate::fill::no_open_slot;
use crate::fill::pick_open_slot_simple;
use crate::fill::slot_full;
use crate::fill::words_orthogonal_to_word;
use crate::order::spec_space_count;
use crate::parse::WordBoundary;
use crate::parse::is_slot_of;
use crate::parse::lemma_slot_cell_index;
use crate::parse::parse_word_boundaries;
use crate::parse::slot_view;
use crate::trie::Trie;
use crate::trie::pattern_matches;
use vstd::prelude::*;

verus! {

/// Explore `g` depth first: fill the chosen word with each candidate entry
/// in turn and recurse; each step fills at least one blank, so the recursion
/// bottoms out. The search is complete: whenever `g` still extends to some
/// valid fill of the start grid, a valid fill is found.
pub(crate) fn dfs(
    init: &Crossword,
    g: Crossword,
    boundaries: &Vec<WordBoundary>,
    lookup: &WordBoundaryLookup,
    trie: &Trie,
    word_cache: &mut CachedWords,
    viable_cache: &mut CachedIsViable,
) -> (r: Option<Crossword>)
    requires
        boundaries_exact(*init, boundaries@),
        lookup.spec_entries() == boundaries@,
        crate::fill::partial_fill_ok(*init, g),
        old(word_cache).consistent(*trie),
        old(viable_cache).consistent(*trie),
    ensures
        final(word_cache).consistent(*trie),
        final(viable_cache).consistent(*trie),
        r matches Some(c) ==> is_valid_fill(*init, c, *trie),
        (exists|gg: Crossword| is_valid_fill(*init, gg, *trie) && crate::fill::extends(g, gg))
            ==> r is Some,
    decreases spec_space_count(g@),
{
    proof {
        assert forall|i: int|
            0 <= i < boundaries@.len() implies (#[trigger] boundaries@[i]).fits(
            g.spec_width() as int,
            g.spec_height() as int,
        ) by {
            assert(is_slot_of(*init, boundaries@[i]));
        }
    }
    let slot_idx = match pick_open_slot_simple(&g, boundaries) {
        Some(i) => i,
        None => {
            if check_solution(init, &g, boundaries, trie) {
                return Some(g);
            }
            proof {
                use_type_invariant(&g);
                crate::crossword::lemma_crossword_view(&g);
                if exists|gg: Crossword|
                    is_valid_fill(*init, gg, *trie) && crate::fill::extends(g, gg) {
                    let gg = choose|gg: Crossword|
                        is_valid_fill(*init, gg, *trie) && crate::fill::extends(g, gg);
                    assert forall|b: WordBoundary|
                        #[trigger] is_slot_of(*init, b) implies slot_full(g, b)
                        && trie.has_word(slot_view(g, b)) by {
                        assert(boundaries@.contains(b));
                        let q = choose|q: int|
                            0 <= q < boundaries@.len() && boundaries@[q] == b;
                        assert(!slot_view(g, boundaries@[q]).contains(' '));
                        crate::fill::lemma_full_view_transfer(g, gg, b);
                        assert(trie.has_word(slot_view(gg, b)));
                    }
                    assert forall|i: int|
                        0 <= i < init@.len() && crate::fill::cell_covered_by_slot(*init, i)
                            implies is_letter(#[trigger] g@[i]) by {
                        let b = choose|b: WordBoundary|
                            #[trigger] is_slot_of(*init, b) && b.covers(
                                i,
                                init.spec_width() as int,
                            );
                        let k = choose|k: int|
                            0 <= k < b.length && #[trigger] b.cell_index(
                                k,
                                init.spec_width() as int,
                            ) == i;
                        assert(slot_full(g, b));
                        assert(slot_view(g, b)[k] == g@[i]);
                        if g@[i] == ' ' {
                            assert(slot_view(g, b).contains(' '));
                        }
                        assert(gg@[i] == g@[i]);
                        assert(is_letter(gg@[i]));
                    }
                    assert forall|b1: WordBoundary, b2: WordBoundary|
                        #![trigger is_slot_of(*init, b1), is_slot_of(*init, b2)]
                        is_slot_of(*init, b1) && is_slot_of(*init, b2) && crate::fill::must_differ(
                            b1,
                            b2,
                        ) implies slot_view(g, b1) != slot_view(g, b2) by {
                        crate::fill::lemma_full_view_transfer(g, gg, b1);
                        crate::fill::lemma_full_view_transfer(g, gg, b2);
                    }
                    assert(is_valid_fill(*init, g, *trie));
                }
            }
            return None;
        },
    };
    let b = boundaries[slot_idx];
    let it = WordIterator::new(&g, &b);
    let words = word_cache.words(&it, trie);
    proof {
        assert(is_slot_of(*init, boundaries@[slot_idx as int]));
    }
    let orthos = words_orthogonal_to_word(&b, lookup);
    proof {
        assert forall|i: int|
            0 <= i < orthos@.len() implies (#[trigger] orthos@[i]).fits(
            g.spec_width() as int,
            g.spec_height() as int,
        ) && is_slot_of(*init, orthos@[i]) by {
            assert(boundaries@.contains(orthos@[i]));
            let q = choose|q: int| 0 <= q < boundaries@.len() && boundaries@[q] == orthos@[i];
            assert(is_slot_of(*init, boundaries@[q]));
        }
    }
    let mut used: Vec<Vec<char>> = Vec::new();
    proof {
        use_type_invariant(&g);
        crate::crossword::lemma_crossword_view(&g);
        assert forall|gg: Crossword|
            #![trigger is_valid_fill(*init, gg, *trie)]
            is_valid_fill(*init, gg, *trie) && crate::fill::extends(g, gg) implies (exists|j: int|
            0 <= j < words@.len() && (#[trigger] words@[j])@ == slot_view(gg, b)) by {
            crate::fill::lemma_extends_matches(g, gg, b);
            assert(trie.has_word(slot_view(gg, b)));
            assert(pattern_matches(slot_view(gg, b), slot_view(g, b)));
        }
    }
    let mut wi: usize = 0;
    while wi < words.len()
        invariant
            boundaries_exact(*init, boundaries@),
            lookup.spec_entries() == boundaries@,
            crate::fill::partial_fill_ok(*init, g),
            word_cache.consistent(*trie),
            viable_cache.consistent(*trie),
            used@.len() == 0,
            wi <= words@.len(),
            it.spec_word_boundary() == b,
            b == boundaries@[slot_idx as int],
            slot_idx < boundaries@.len(),
            is_slot_of(*init, b),
            it@ == slot_view(g, b),
            slot_view(g, b).contains(' '),
            b.fits(g.spec_width() as int, g.spec_height() as int),
            crate::fill::cache::words_exact(*trie, slot_view(g, b), words@),
            forall|i: int|
                0 <= i < orthos@.len() ==> (#[trigger] orthos@[i]).fits(
                    g.spec_width() as int,
                    g.spec_height() as int,
                ) && is_slot_of(*init, orthos@[i]) && orthos@[i].direction
                    == crate::fill::perpendicular(b.direction),
            forall|i: int, j: int| 0 <= i < j < orthos@.len() ==> orthos@[i] != orthos@[j],
            forall|gg: Crossword|
                #![trigger is_valid_fill(*init, gg, *trie)]
                is_valid_fill(*init, gg, *trie) && crate::fill::extends(g, gg) ==> (exists|j: int|
                    wi <= j < words@.len() && (#[trigger] words@[j])@ == slot_view(gg, b)),
        decreases words@.len() - wi,
    {
        let word = &words[wi];
        let wchars = string_to_chars(word.as_str());
        let mut all_letters = true;
        let mut ci: usize = 0;
        while ci < wchars.len()
            invariant
                ci <= wchars@.len(),
                all_letters <==> (forall|t: int|
                    0 <= t < ci ==> is_letter(#[trigger] wchars@[t])),
            decreases wchars@.len() - ci,
        {
            if !letter_char(wchars[ci]) {
                proof {
                    assert(!is_letter(wchars@[ci as int]));
                }
                all_letters = false;
            }
            ci = ci + 1;
        }
        let mut recursed: Option<Crossword> = None;
        let mut was_viable = false;
        if all_letters {
            proof {
                assert(pattern_matches(word@, slot_view(g, b)));
                assert(word@.len() == b.length);
            }
            let new_candidate = fill_one_word(&g, &it, word.as_str());
            proof {
                use_type_invariant(&g);
                crate::crossword::lemma_crossword_view(&g);
                use_type_invariant(&new_candidate);
                crate::crossword::lemma_crossword_view(&new_candidate);
                let w_int = g.spec_width() as int;
                assert forall|i: int|
                    0 <= i < new_candidate@.len() && #[trigger] new_candidate@[i] == ' '
                        implies g@[i] == ' ' by {
                    if b.covers(i, w_int) {
                        let k = choose|k: int|
                            0 <= k < b.length && #[trigger] b.cell_index(k, w_int) == i;
                        assert(new_candidate@[i] == word@[k]);
                        assert(is_letter(word@[k]));
                        assert(' ' as u32 == 32);
                        assert(false);
                    }
                }
                let k = choose|k: int| 0 <= k < slot_view(g, b).len() && slot_view(g, b)[k] == ' ';
                lemma_slot_cell_index(b, k, w_int, g.spec_height() as int);
                let j = b.cell_index(k, w_int);
                assert(g@[j] == ' ');
                assert(new_candidate@[j] == word@[k]);
                assert(is_letter(word@[k]));
                assert(' ' as u32 == 32);
                assert(new_candidate@[j] != ' ');
                lemma_space_count_lt(g@, new_candidate@, j);
                // the successor still keeps the start grid's decided cells
                assert forall|i: int|
                    0 <= i < init@.len() && #[trigger] init@[i] != ' '
                        implies new_candidate@[i] == init@[i] by {
                    if b.covers(i, w_int) {
                        let k2 = choose|k2: int|
                            0 <= k2 < b.length && #[trigger] b.cell_index(k2, w_int) == i;
                        assert(new_candidate@[i] == word@[k2]);
                        assert(slot_view(g, b)[k2] == g@[i]);
                        assert(g@[i] == init@[i]);
                        assert(word@[k2] == g@[i]);
                    }
                }
                assert forall|i: int|
                    0 <= i < init@.len() && !crate::fill::cell_covered_by_slot(*init, i)
                        implies #[trigger] new_candidate@[i] == init@[i] by {
                    if b.covers(i, w_int) {
                        assert(crate::fill::cell_covered_by_slot(*init, i));
                    }
                }
                assert(crate::fill::partial_fill_ok(*init, new_candidate));
            }
            let used_in = used;
            let (viable, mut used_out) = is_viable_reuse(
                &new_candidate,
                &orthos,
                trie,
                used_in,
                viable_cache,
            );
            used_out.clear();
            used = used_out;
            was_viable = viable;
            if viable {
                let sub = dfs(init, new_candidate, boundaries, lookup, trie, word_cache, viable_cache);
                match sub {
                    Some(c) => {
                        return Some(c);
                    },
                    None => {
                        recursed = sub;
                    },
                }
            }
            proof {
                // if this word is some remaining fill's own entry, the
                // branch above cannot have come back empty
                assert forall|gg: Crossword|
                    #![trigger is_valid_fill(*init, gg, *trie)]
                    is_valid_fill(*init, gg, *trie) && crate::fill::extends(g, gg) && word@
                        == slot_view(gg, b) implies false by {
                    let w_int = g.spec_width() as int;
                    assert(new_candidate@.len() == new_candidate.spec_width()
                        * new_candidate.spec_height());
                    // the successor extends gg
                    assert(crate::fill::extends(new_candidate, gg)) by {
                        assert forall|i: int|
                            0 <= i < new_candidate@.len() && #[trigger] new_candidate@[i] != ' '
                                implies gg@[i] == new_candidate@[i] by {
                            if b.covers(i, w_int) {
                                let k2 = choose|k2: int|
                                    0 <= k2 < b.length && #[trigger] b.cell_index(k2, w_int) == i;
                                assert(new_candidate@[i] == word@[k2]);
                                assert(slot_view(gg, b)[k2] == gg@[b.cell_index(k2, w_int)]);
                            } else {
                                assert(new_candidate@[i] == g@[i]);
                            }
                        }
                    }
                    // every crossing word stays completable, and no two
                    // full crossing entries coincide
                    assert forall|t: int|
                        0 <= t < orthos@.len() implies crate::fill::viable_slot(
                        new_candidate,
                        #[trigger] orthos@[t],
                        *trie,
                    ) by {
                        crate::fill::lemma_extends_matches(new_candidate, gg, orthos@[t]);
                        assert(trie.has_word(slot_view(gg, orthos@[t])));
                    }
                    assert forall|t: int, u: int|
                        #![trigger orthos@[t], orthos@[u]]
                        0 <= t < u < orthos@.len() && !slot_view(
                            new_candidate,
                            orthos@[u],
                        ).contains(' ') implies slot_view(new_candidate, orthos@[t])
                        != slot_view(new_candidate, orthos@[u]) by {
                        if slot_view(new_candidate, orthos@[t]) == slot_view(
                            new_candidate,
                            orthos@[u],
                        ) {
                            assert(!slot_view(new_candidate, orthos@[t]).contains(' '));
                            crate::fill::lemma_full_view_transfer(
                                new_candidate,
                                gg,
                                orthos@[t],
                            );
                            crate::fill::lemma_full_view_transfer(
                                new_candidate,
                                gg,
                                orthos@[u],
                            );
                            assert(slot_view(gg, orthos@[t]) == slot_view(gg, orthos@[u]));
                            assert(crate::fill::must_differ(orthos@[t], orthos@[u]));
                            assert(slot_view(gg, orthos@[t]) != slot_view(gg, orthos@[u]));
                        }
                    }
                    assert(crate::fill::boundaries_viable_and_distinct(
                        new_candidate,
                        orthos@,
                        *trie,
                    ));
                    assert(was_viable);
                    assert(recursed is None);
                    assert(exists|gg2: Crossword|
                        is_valid_fill(*init, gg2, *trie) && crate::fill::extends(
                            new_candidate,
                            gg2,
                        ));
                }
            }
        } else {
            proof {
                use_type_invariant(&g);
                crate::crossword::lemma_crossword_view(&g);
                assert forall|gg: Crossword|
                    #![trigger is_valid_fill(*init, gg, *trie)]
                    is_valid_fill(*init, gg, *trie) && crate::fill::extends(g, gg) && word@
                        == slot_view(gg, b) implies false by {
                    let t = choose|t: int| 0 <= t < wchars@.len() && !is_letter(wchars@[t]);
                    let w_int = g.spec_width() as int;
                    assert(wchars@.len() == slot_view(gg, b).len());
                    assert(0 <= t < b.length);
                    lemma_slot_cell_index(b, t, w_int, g.spec_height() as int);
                    assert(b.cell_index(t, w_int) < init@.len());
                    assert(gg.spec_width() == g.spec_width());
                    assert(slot_view(gg, b)[t] == gg@[b.cell_index(t, w_int)]);
                    assert(b.covers(b.cell_index(t, w_int), w_int));
                    assert(w_int == init.spec_width() as int);
                    assert(crate::fill::cell_covered_by_slot(*init, b.cell_index(t, w_int)));
                    assert(is_letter(gg@[b.cell_index(t, w_int)]));
                    assert(gg@[b.cell_index(t, w_int)] == wchars@[t]);
                }
            }
        }
        proof {
            assert forall|gg: Crossword|
                #![trigger is_valid_fill(*init, gg, *trie)]
                is_valid_fill(*init, gg, *trie) && crate::fill::extends(g, gg) implies (exists|
                    j: int,
                |
                    wi + 1 <= j < words@.len() && (#[trigger] words@[j])@ == slot_view(
                        gg,
                        b,
                    )) by {
                let j = choose|j: int|
                    wi <= j < words@.len() && (#[trigger] words@[j])@ == slot_view(gg, b);
                if j == wi {
                    assert(word@ == slot_view(gg, b));
                    assert(false);
                }
            }
        }
        wi = wi + 1;
    }
    proof {
        if exists|gg: Crossword|
            is_valid_fill(*init, gg, *trie) && crate::fill::extends(g, gg) {
            let gg = choose|gg: Crossword|
                is_valid_fill(*init, gg, *trie) && crate::fill::extends(g, gg);
            let j = choose|j: int|
                wi <= j < words@.len() && (#[trigger] words@[j])@ == slot_view(gg, b);
            assert(false);
        }
    }
    None
}

/// A depth-first search driver with per-search caches.
pub struct Filler<'s> {
    pub(crate) word_cache: CachedWords,
    pub(crate) is_viable_cache: CachedIsViable,
    pub(crate) trie: &'s Trie,
}

impl<'s> Filler<'s> {
    pub fn new(trie: &'s Trie) -> (r: Filler<'s>)
        ensures
            r.spec_trie() == *trie,
    {
        Filler {
            word_cache: CachedWords::default(),
            is_viable_cache: CachedIsViable::new(),
            trie,
        }
    }
}

impl<'s> Fill for Filler<'s> {
    closed spec fn spec_trie(&self) -> Trie {
        *self.trie
    }

    fn fill(&mut self, crossword: &Crossword) -> (r: Result<Crossword, String>) {
        let trie = self.trie;
        let mut word_cache = CachedWords::default();
        let mut viable_cache = CachedIsViable::new();
        let boundaries = parse_word_boundaries(crossword);
        let (ok, open) = initial_check(crossword, &boundaries, trie, &mut viable_cache);
        if !ok {
            proof {
                if no_open_slot(*crossword) && is_valid_fill(*crossword, *crossword, *trie) {
                    crate::fill::single_threaded::lemma_valid_start(*crossword, *trie);
                }
                if crate::fill::fill_exists(*crossword, *trie) {
                    use_type_invariant(crossword);
                    let gg = choose|gg: Crossword| is_valid_fill(*crossword, gg, *trie);
                    crate::fill::lemma_fill_exists_passes_initial(*crossword, gg, *trie);
                }
            }
            self.word_cache = word_cache;
            self.is_viable_cache = viable_cache;
            return Err(string_from_strlit("We failed"));
        }
        if !open {
            proof {
                use_type_invariant(crossword);
                crate::fill::single_threaded::lemma_complete_start_valid(*crossword, *trie);
            }
            let done = crossword.clone();
            proof {
                crate::fill::single_threaded::lemma_valid_fill_same_grid(
                    *crossword,
                    *crossword,
                    done,
                    *trie,
                );
            }
            self.word_cache = word_cache;
            self.is_viable_cache = viable_cache;
            return Ok(done);
        }
        let lookup = build_square_word_boundary_lookup(&boundaries);
        let start = crossword.clone();
        proof {
            assert(crate::fill::partial_fill_ok(*crossword, start));
            if crate::fill::fill_exists(*crossword, *trie) {
                let gg = choose|gg: Crossword| is_valid_fill(*crossword, gg, *trie);
                assert(crate::fill::extends(start, gg));
            }
        }
        let r = dfs(
            crossword,
            start,
            &boundaries,
            &lookup,
            trie,
            &mut word_cache,
            &mut viable_cache,
        );
        self.word_cache = word_cache;
        self.is_viable_cache = viable_cache;
        match r {
            Some(c) => Ok(c),
            None => {
                proof {
                    if crate::fill::fill_exists(*crossword, *trie) {
                        let gg = choose|gg: Crossword| is_valid_fill(*crossword, gg, *trie);
                        assert(crate::fill::extends(start, gg));
                        assert(false);
                    }
                }
                Err(string_from_strlit("We failed"))
            },
        }
    }
}

} // verus!
