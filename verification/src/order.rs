//! Ordering keys driven by bigram frequencies: a per-word key used to pick
//! the next word to fill, and a per-grid key used to order the search
//! frontier.

use crate::crossword::Crossword;
use crate::crossword::WordIterator;
use crate::ngram::BigramTable;
use core::cmp::Ordering;
use vstd::prelude::*;

verus! {

/// The ordering of two integers.
pub open spec fn ord_of(a: int, b: int) -> Ordering {
    if a < b {
        Ordering::Less
    } else if a == b {
        Ordering::Equal
    } else {
        Ordering::Greater
    }
}

/// The number of blank cells in a character sequence.
pub open spec fn spec_space_count(s: Seq<char>) -> nat
    decreases s.len(),
{
    if s.len() == 0 {
        0
    } else {
        (if s[0] == ' ' {
            1nat
        } else {
            0nat
        }) + spec_space_count(s.drop_first())
    }
}

pub proof fn lemma_space_count_push(s: Seq<char>, c: char)
    ensures
        spec_space_count(s.push(c)) == spec_space_count(s) + (if c == ' ' {
            1nat
        } else {
            0nat
        }),
    decreases s.len(),
{
    let t = s.push(c);
    if s.len() == 0 {
        assert(t.len() == 1);
        assert(t[0] == c);
        assert(t.drop_first() =~= Seq::<char>::empty());
        assert(spec_space_count(Seq::<char>::empty()) == 0);
        assert(spec_space_count(t.drop_first()) == 0);
        assert(spec_space_count(s) == 0);
    } else {
        assert(t[0] == s[0]);
        assert(t.drop_first() =~= s.drop_first().push(c));
        lemma_space_count_push(s.drop_first(), c);
    }
}

/// Count the blank cells in a character vector.
pub fn count_spaces(v: &Vec<char>) -> (r: usize)
    ensures
        r == spec_space_count(v@),
{
    let mut r: usize = 0;
    let mut i: usize = 0;
    while i < v.len()
        invariant
            i <= v@.len(),
            r <= i,
            r == spec_space_count(v@.take(i as int)),
        decreases v@.len() - i,
    {
        proof {
            lemma_space_count_push(v@.take(i as int), v@[i as int]);
            assert(v@.take(i as int).push(v@[i as int]) =~= v@.take(i + 1));
        }
        if v[i] == ' ' {
            r = r + 1;
        }
        i = i + 1;
    }
    proof {
        assert(v@.take(v@.len() as int) =~= v@);
    }
    r
}

/// The key used to pick which word to fill next.
#[derive(Debug, PartialEq, Eq, Structural, Clone, Copy)]
pub struct WordScore {
    pub length: usize,
    pub space_count: usize,
    pub fillability_score: u64,
    pub start_col: usize,
    pub start_row: usize,
}

impl WordScore {
    /// The most constrained word compares greatest: shorter length wins,
    /// then more blanks, then a higher fillability score; the start position
    /// breaks remaining ties.
    pub open spec fn spec_cmp(self, other: WordScore) -> Ordering {
        if self.length != other.length {
            ord_of(other.length as int, self.length as int)
        } else if self.space_count != other.space_count {
            ord_of(self.space_count as int, other.space_count as int)
        } else if self.fillability_score != other.fillability_score {
            ord_of(self.fillability_score as int, other.fillability_score as int)
        } else if self.start_col != other.start_col {
            ord_of(self.start_col as int, other.start_col as int)
        } else {
            ord_of(self.start_row as int, other.start_row as int)
        }
    }

    pub fn cmp(&self, other: &WordScore) -> (r: Ordering)
        ensures
            r == self.spec_cmp(*other),
    {
        if self.length != other.length {
            if other.length < self.length {
                Ordering::Less
            } else {
                Ordering::Greater
            }
        } else if self.space_count != other.space_count {
            if self.space_count < other.space_count {
                Ordering::Less
            } else {
                Ordering::Greater
            }
        } else if self.fillability_score != other.fillability_score {
            if self.fillability_score < other.fillability_score {
                Ordering::Less
            } else {
                Ordering::Greater
            }
        } else if self.start_col != other.start_col {
            if self.start_col < other.start_col {
                Ordering::Less
            } else {
                Ordering::Greater
            }
        } else {
            if self.start_row < other.start_row {
                Ordering::Less
            } else if self.start_row == other.start_row {
                Ordering::Equal
            } else {
                Ordering::Greater
            }
        }
    }

    /// Whether this key is below another, under the same ordering.
    pub fn lt(&self, other: &WordScore) -> (r: bool)
        ensures
            r == (self.spec_cmp(*other) == Ordering::Less),
    {
        matches!(self.cmp(other), Ordering::Less)
    }
}

/// Score the current characters of one word: its length, its number of
/// blanks, and the least bigram count among adjacent positions where neither
/// character is blank (the maximum possible value when no such pair exists).
pub fn score_iter(iter: &WordIterator, bigrams: &BigramTable) -> (r: WordScore)
    ensures
        r.length == iter.spec_word_boundary().length,
        r.space_count == spec_space_count(iter@),
        r.start_col == iter.spec_word_boundary().start_col,
        r.start_row == iter.spec_word_boundary().start_row,
        forall|q: int|
            1 <= q < iter@.len() && iter@[q - 1] != ' ' && iter@[q] != ' '
                ==> r.fillability_score as nat <= #[trigger] bigrams.count_of(
                iter@[q - 1],
                iter@[q],
            ),
        r.fillability_score == u64::MAX || (exists|q: int|
            1 <= q < iter@.len() && iter@[q - 1] != ' ' && iter@[q] != ' '
                && #[trigger] bigrams.count_of(iter@[q - 1], iter@[q])
                == r.fillability_score as nat),
{
    let v = iter.chars();
    let mut fillability_score: u64 = u64::MAX;
    let mut q: usize = 1;
    while q < v.len()
        invariant
            1 <= q,
            v@ == iter@,
            forall|t: int|
                1 <= t < q && t < v@.len() && v@[t - 1] != ' ' && v@[t] != ' '
                    ==> fillability_score as nat <= #[trigger] bigrams.count_of(
                    v@[t - 1],
                    v@[t],
                ),
            fillability_score == u64::MAX || (exists|t: int|
                1 <= t < q && t < v@.len() && v@[t - 1] != ' ' && v@[t] != ' '
                    && #[trigger] bigrams.count_of(v@[t - 1], v@[t])
                    == fillability_score as nat),
        decreases v@.len() - q,
    {
        let prev = v[q - 1];
        let cur = v[q];
        if prev != ' ' && cur != ' ' {
            let score = bigrams.get(prev, cur);
            if score < fillability_score {
                fillability_score = score;
            }
        }
        q = q + 1;
    }
    let b = iter.word_boundary();
    WordScore {
        length: b.length,
        space_count: count_spaces(&v),
        fillability_score,
        start_col: b.start_col,
        start_row: b.start_row,
    }
}

/// Whether the two cells at `(row, col - 1)` and `(row, col)` form a scored
/// horizontal pair: both in the grid, neither blank nor a block.
pub open spec fn h_pair(g: Crossword, row: int, col: int) -> bool {
    &&& 0 <= row < g.spec_height()
    &&& 1 <= col < g.spec_width()
    &&& g.spec_cell(row, col - 1) != ' '
    &&& g.spec_cell(row, col - 1) != '*'
    &&& g.spec_cell(row, col) != ' '
    &&& g.spec_cell(row, col) != '*'
}

/// Whether the two cells at `(row - 1, col)` and `(row, col)` form a scored
/// vertical pair.
pub open spec fn v_pair(g: Crossword, row: int, col: int) -> bool {
    &&& 1 <= row < g.spec_height()
    &&& 0 <= col < g.spec_width()
    &&& g.spec_cell(row - 1, col) != ' '
    &&& g.spec_cell(row - 1, col) != '*'
    &&& g.spec_cell(row, col) != ' '
    &&& g.spec_cell(row, col) != '*'
}

/// The grid fillability score: the least bigram count over every pair of
/// horizontally or vertically adjacent letter cells, or the maximum possible
/// value when the grid holds no such pair.
pub fn score_crossword(bigrams: &BigramTable, crossword: &Crossword) -> (r: u64)
    ensures
        forall|row: int, col: int|
            h_pair(*crossword, row, col) ==> r as nat <= #[trigger] bigrams.count_of(
                crossword.spec_cell(row, col - 1),
                crossword.spec_cell(row, col),
            ),
        forall|row: int, col: int|
            v_pair(*crossword, row, col) ==> r as nat <= #[trigger] bigrams.count_of(
                crossword.spec_cell(row - 1, col),
                crossword.spec_cell(row, col),
            ),
        r == u64::MAX || (exists|row: int, col: int|
            #![trigger crossword.spec_cell(row, col)]
            (h_pair(*crossword, row, col) && bigrams.count_of(
                crossword.spec_cell(row, col - 1),
                crossword.spec_cell(row, col),
            ) == r as nat) || (v_pair(*crossword, row, col) && bigrams.count_of(
                crossword.spec_cell(row - 1, col),
                crossword.spec_cell(row, col),
            ) == r as nat)),
{
    let g = crossword;
    let w = g.width();
    let h = g.height();
    let mut r: u64 = u64::MAX;
    let mut row: usize = 0;
    while row < h
        invariant
            w == g.spec_width(),
            h == g.spec_height(),
            row <= h,
            forall|r2: int, c2: int|
                h_pair(*g, r2, c2) && r2 < row ==> r as nat <= #[trigger] bigrams.count_of(
                    g.spec_cell(r2, c2 - 1),
                    g.spec_cell(r2, c2),
                ),
            r == u64::MAX || (exists|r2: int, c2: int|
                h_pair(*g, r2, c2) && r2 < row && #[trigger] bigrams.count_of(
                    g.spec_cell(r2, c2 - 1),
                    g.spec_cell(r2, c2),
                ) == r as nat),
        decreases h - row,
    {
        let mut col: usize = 1;
        while col < w
            invariant
                w == g.spec_width(),
                h == g.spec_height(),
                row < h,
                1 <= col,
                forall|r2: int, c2: int|
                    h_pair(*g, r2, c2) && (r2 < row || (r2 == row && c2 < col)) ==> r as nat
                        <= #[trigger] bigrams.count_of(
                        g.spec_cell(r2, c2 - 1),
                        g.spec_cell(r2, c2),
                    ),
                r == u64::MAX || (exists|r2: int, c2: int|
                    h_pair(*g, r2, c2) && (r2 < row || (r2 == row && c2 < col))
                        && #[trigger] bigrams.count_of(
                        g.spec_cell(r2, c2 - 1),
                        g.spec_cell(r2, c2),
                    ) == r as nat),
            decreases w - col,
        {
            let prev = g.cell(row, col - 1);
            let cur = g.cell(row, col);
            if prev != ' ' && cur != ' ' && prev != '*' && cur != '*' {
                let score = bigrams.get(prev, cur);
                if score < r {
                    r = score;
                }
            }
            col = col + 1;
        }
        row = row + 1;
    }
    let ghost r_h = r;
    let mut row: usize = 1;
    while row < h
        invariant
            w == g.spec_width(),
            h == g.spec_height(),
            1 <= row,
            r <= r_h,
            forall|r2: int, c2: int|
                h_pair(*g, r2, c2) ==> r_h as nat <= #[trigger] bigrams.count_of(
                    g.spec_cell(r2, c2 - 1),
                    g.spec_cell(r2, c2),
                ),
            r_h == u64::MAX || (exists|r2: int, c2: int|
                h_pair(*g, r2, c2) && #[trigger] bigrams.count_of(
                    g.spec_cell(r2, c2 - 1),
                    g.spec_cell(r2, c2),
                ) == r_h as nat),
            forall|r2: int, c2: int|
                v_pair(*g, r2, c2) && r2 < row ==> r as nat <= #[trigger] bigrams.count_of(
                    g.spec_cell(r2 - 1, c2),
                    g.spec_cell(r2, c2),
                ),
            r == r_h || (exists|r2: int, c2: int|
                v_pair(*g, r2, c2) && r2 < row && #[trigger] bigrams.count_of(
                    g.spec_cell(r2 - 1, c2),
                    g.spec_cell(r2, c2),
                ) == r as nat),
        decreases h - row,
    {
        let mut col: usize = 0;
        while col < w
            invariant
                w == g.spec_width(),
                h == g.spec_height(),
                1 <= row < h,
                r <= r_h,
                forall|r2: int, c2: int|
                    h_pair(*g, r2, c2) ==> r_h as nat <= #[trigger] bigrams.count_of(
                        g.spec_cell(r2, c2 - 1),
                        g.spec_cell(r2, c2),
                    ),
                r_h == u64::MAX || (exists|r2: int, c2: int|
                    h_pair(*g, r2, c2) && #[trigger] bigrams.count_of(
                        g.spec_cell(r2, c2 - 1),
                        g.spec_cell(r2, c2),
                    ) == r_h as nat),
                forall|r2: int, c2: int|
                    v_pair(*g, r2, c2) && (r2 < row || (r2 == row && c2 < col)) ==> r as nat
                        <= #[trigger] bigrams.count_of(
                        g.spec_cell(r2 - 1, c2),
                        g.spec_cell(r2, c2),
                    ),
                r == r_h || (exists|r2: int, c2: int|
                    v_pair(*g, r2, c2) && (r2 < row || (r2 == row && c2 < col))
                        && #[trigger] bigrams.count_of(
                        g.spec_cell(r2 - 1, c2),
                        g.spec_cell(r2, c2),
                    ) == r as nat),
            decreases w - col,
        {
            let prev = g.cell(row - 1, col);
            let cur = g.cell(row, col);
            if prev != ' ' && cur != ' ' && prev != '*' && cur != '*' {
                let score = bigrams.get(prev, cur);
                if score < r {
                    r = score;
                }
            }
            col = col + 1;
        }
        row = row + 1;
    }
    proof {
        if r != u64::MAX {
            if r == r_h {
                let (r2, c2) = choose|r2: int, c2: int|
                    h_pair(*g, r2, c2) && #[trigger] bigrams.count_of(
                        g.spec_cell(r2, c2 - 1),
                        g.spec_cell(r2, c2),
                    ) == r_h as nat;
                assert((h_pair(*crossword, r2, c2) && bigrams.count_of(
                    crossword.spec_cell(r2, c2 - 1),
                    crossword.spec_cell(r2, c2),
                ) == r as nat) || (v_pair(*crossword, r2, c2) && bigrams.count_of(
                    crossword.spec_cell(r2 - 1, c2),
                    crossword.spec_cell(r2, c2),
                ) == r as nat));
            } else {
                let (r2, c2) = choose|r2: int, c2: int|
                    v_pair(*g, r2, c2) && #[trigger] bigrams.count_of(
                        g.spec_cell(r2 - 1, c2),
                        g.spec_cell(r2, c2),
                    ) == r as nat;
                assert((h_pair(*crossword, r2, c2) && bigrams.count_of(
                    crossword.spec_cell(r2, c2 - 1),
                    crossword.spec_cell(r2, c2),
                ) == r as nat) || (v_pair(*crossword, r2, c2) && bigrams.count_of(
                    crossword.spec_cell(r2 - 1, c2),
                    crossword.spec_cell(r2, c2),
                ) == r as nat));
            }
            assert(exists|row: int, col: int|
                #![trigger crossword.spec_cell(row, col)]
                (h_pair(*crossword, row, col) && bigrams.count_of(
                    crossword.spec_cell(row, col - 1),
                    crossword.spec_cell(row, col),
                ) == r as nat) || (v_pair(*crossword, row, col) && bigrams.count_of(
                    crossword.spec_cell(row - 1, col),
                    crossword.spec_cell(row, col),
                ) == r as nat));
        }
    }
    r
}

/// A grid wrapped with the keys that order the search frontier.
#[derive(Debug)]
pub struct FrequencyOrderableCrossword {
    pub(crate) crossword: Crossword,
    pub(crate) space_count: usize,
    pub fillability_score: u64,
}

/// The ordering of two character sequences, position by position.
pub open spec fn lex_cmp(a: Seq<char>, b: Seq<char>) -> Ordering
    decreases a.len(),
{
    if a.len() == 0 && b.len() == 0 {
        Ordering::Equal
    } else if a.len() == 0 {
        Ordering::Less
    } else if b.len() == 0 {
        Ordering::Greater
    } else if (a[0] as u32) < (b[0] as u32) {
        Ordering::Less
    } else if (a[0] as u32) > (b[0] as u32) {
        Ordering::Greater
    } else {
        lex_cmp(a.drop_first(), b.drop_first())
    }
}

/// The lexicographic ordering is antisymmetric and transitive enough to
/// carry a maximum: if `a` is not above `x` (comparing through `x`) and `c`
/// is above `x`, then `a` is not above `c`.
pub proof fn lemma_lex_cmp_order(x: Seq<char>, a: Seq<char>, c: Seq<char>)
    ensures
        lex_cmp(x, a) != Ordering::Greater && lex_cmp(x, c) == Ordering::Greater ==> lex_cmp(
            c,
            a,
        ) != Ordering::Greater,
    decreases x.len() + a.len() + c.len(),
{
    if x.len() == 0 {
    } else {
        if a.len() > 0 && c.len() > 0 {
            lemma_lex_cmp_order(x.drop_first(), a.drop_first(), c.drop_first());
            lemma_lex_cmp_order(x.drop_first(), a.drop_first(), c);
            lemma_lex_cmp_order(x.drop_first(), a, c.drop_first());
            lemma_lex_cmp_order(x, a.drop_first(), c.drop_first());
            lemma_lex_cmp_order(x, a, c.drop_first());
            lemma_lex_cmp_order(x, a.drop_first(), c);
            lemma_lex_cmp_order(x.drop_first(), a, c);
        } else if a.len() > 0 {
            lemma_lex_cmp_order(x.drop_first(), a.drop_first(), c);
        } else if c.len() > 0 {
            lemma_lex_cmp_order(x.drop_first(), a, c.drop_first());
        }
    }
}

/// Comparing a sequence with itself yields equality.
pub proof fn lemma_lex_cmp_refl(s: Seq<char>)
    ensures
        lex_cmp(s, s) == Ordering::Equal,
    decreases s.len(),
{
    if s.len() > 0 {
        lemma_lex_cmp_refl(s.drop_first());
    }
}

/// Compare two character vectors lexicographically.
pub fn lex_compare(a: &Vec<char>, b: &Vec<char>) -> (r: Ordering)
    ensures
        r == lex_cmp(a@, b@),
{
    proof {
        assert(a@.skip(0) =~= a@);
        assert(b@.skip(0) =~= b@);
    }
    let mut i: usize = 0;
    while i < a.len() && i < b.len()
        invariant
            i <= a@.len(),
            i <= b@.len(),
            lex_cmp(a@, b@) == lex_cmp(a@.skip(i as int), b@.skip(i as int)),
        decreases a@.len() - i,
    {
        let x = a[i];
        let y = b[i];
        proof {
            assert(a@.skip(i as int)[0] == a@[i as int]);
            assert(b@.skip(i as int)[0] == b@[i as int]);
            assert(a@.skip(i as int).drop_first() =~= a@.skip(i + 1));
            assert(b@.skip(i as int).drop_first() =~= b@.skip(i + 1));
        }
        if (x as u32) < (y as u32) {
            return Ordering::Less;
        }
        if (x as u32) > (y as u32) {
            return Ordering::Greater;
        }
        proof {
            crate::trie::lemma_char_code_injective(x, y);
        }
        i = i + 1;
    }
    proof {
        assert(lex_cmp(a@.skip(i as int), b@.skip(i as int)) == (if a@.len() < b@.len() {
            Ordering::Less
        } else if a@.len() > b@.len() {
            Ordering::Greater
        } else {
            Ordering::Equal
        }));
    }
    if a.len() < b.len() {
        Ordering::Less
    } else if a.len() > b.len() {
        Ordering::Greater
    } else {
        Ordering::Equal
    }
}

impl FrequencyOrderableCrossword {
    pub open(crate) spec fn spec_crossword(&self) -> Crossword {
        self.crossword
    }

    pub closed spec fn spec_space_count_field(&self) -> usize {
        self.space_count
    }

    pub closed spec fn spec_fill_score(&self) -> u64 {
        self.fillability_score
    }

    /// Wrap a grid with its frontier keys: the number of blanks it still
    /// holds, and its grid fillability score.
    pub fn new(crossword: Crossword, bigrams: &BigramTable) -> (r: FrequencyOrderableCrossword)
        ensures
            r.spec_crossword() == crossword,
            r.spec_space_count_field() == spec_space_count(crossword@),
            forall|row: int, col: int|
                h_pair(crossword, row, col) ==> r.spec_fill_score() as nat
                    <= #[trigger] bigrams.count_of(
                    crossword.spec_cell(row, col - 1),
                    crossword.spec_cell(row, col),
                ),
            forall|row: int, col: int|
                v_pair(crossword, row, col) ==> r.spec_fill_score() as nat
                    <= #[trigger] bigrams.count_of(
                    crossword.spec_cell(row - 1, col),
                    crossword.spec_cell(row, col),
                ),
            r.spec_fill_score() == u64::MAX || (exists|row: int, col: int|
                #![trigger crossword.spec_cell(row, col)]
                (h_pair(crossword, row, col) && bigrams.count_of(
                    crossword.spec_cell(row, col - 1),
                    crossword.spec_cell(row, col),
                ) == r.spec_fill_score() as nat) || (v_pair(crossword, row, col)
                    && bigrams.count_of(
                    crossword.spec_cell(row - 1, col),
                    crossword.spec_cell(row, col),
                ) == r.spec_fill_score() as nat)),
    {
        proof {
            use_type_invariant(&crossword);
            crate::crossword::lemma_crossword_view(&crossword);
        }
        let space_count = count_spaces(&crossword.contents);
        let fillability_score = score_crossword(bigrams, &crossword);
        FrequencyOrderableCrossword { crossword, space_count, fillability_score }
    }

    /// Grids that are closer to completion compare greatest: fewer blanks
    /// wins, then a higher fillability score, then the lexicographically
    /// smaller contents.
    pub open spec fn spec_cmp(&self, other: &FrequencyOrderableCrossword) -> Ordering {
        if self.spec_space_count_field() != other.spec_space_count_field() {
            ord_of(
                other.spec_space_count_field() as int,
                self.spec_space_count_field() as int,
            )
        } else if self.spec_fill_score() != other.spec_fill_score() {
            ord_of(self.spec_fill_score() as int, other.spec_fill_score() as int)
        } else {
            lex_cmp(other.spec_crossword()@, self.spec_crossword()@)
        }
    }

    pub fn cmp(&self, other: &FrequencyOrderableCrossword) -> (r: Ordering)
        ensures
            r == self.spec_cmp(other),
    {
        if self.space_count != other.space_count {
            if other.space_count < self.space_count {
                Ordering::Less
            } else {
                Ordering::Greater
            }
        } else if self.fillability_score != other.fillability_score {
            if self.fillability_score < other.fillability_score {
                Ordering::Less
            } else {
                Ordering::Greater
            }
        } else {
            proof {
                crate::crossword::lemma_crossword_view(&self.crossword);
                crate::crossword::lemma_crossword_view(&other.crossword);
            }
            lex_compare(&other.crossword.contents, &self.crossword.contents)
        }
    }

    /// Hand the wrapped grid back.
    pub fn into_crossword(self) -> (r: Crossword)
        ensures
            r == self.spec_crossword(),
    {
        self.crossword
    }
}

} // verus!
