//! Core types to represent a crossword puzzle.

use crate::parse::WordBoundary;
use crate::parse::lemma_slot_cell_index;
use crate::parse::slot_view;
use vstd::prelude::*;

verus! {

/// The direction of a word in a Crossword.
#[derive(Debug, PartialEq, Eq, Clone, Copy, Hash, Structural)]
pub enum Direction {
    Across,
    Down,
}

/// A cell that holds a fixed letter: ASCII alphabetic.
pub open spec fn is_letter(c: char) -> bool {
    (65 <= c as u32 && c as u32 <= 90) || (97 <= c as u32 && c as u32 <= 122)
}

/// A permitted grid cell: a blank, a shaded square, or a letter.
pub open spec fn is_valid_cell(c: char) -> bool {
    c == ' ' || c == '*' || is_letter(c)
}

pub open spec fn all_valid_cells(s: Seq<char>) -> bool {
    forall|i: int| 0 <= i < s.len() ==> is_valid_cell(#[trigger] s[i])
}

pub fn letter_char(c: char) -> (r: bool)
    ensures
        r == is_letter(c),
{
    let u = c as u32;
    (65 <= u && u <= 90) || (97 <= u && u <= 122)
}

pub fn valid_cell_char(c: char) -> (r: bool)
    ensures
        r == is_valid_cell(c),
{
    c == ' ' || c == '*' || letter_char(c)
}

/// Whether some natural number multiplied by itself gives `n`.
pub open spec fn is_perfect_square(n: nat) -> bool {
    exists|w: nat| #[trigger] (w * w) == n
}

/// The grid text format ignores newline characters; everything else is a cell.
pub open spec fn strip_newlines(s: Seq<char>) -> Seq<char>
    decreases s.len(),
{
    if s.len() == 0 {
        Seq::empty()
    } else if s[0] == '\n' {
        strip_newlines(s.drop_first())
    } else {
        seq![s[0]] + strip_newlines(s.drop_first())
    }
}

pub proof fn lemma_strip_newlines_push(s: Seq<char>, c: char)
    ensures
        strip_newlines(s.push(c)) == strip_newlines(s) + (if c == '\n' {
            Seq::<char>::empty()
        } else {
            seq![c]
        }),
    decreases s.len(),
{
    let t = s.push(c);
    let x: Seq<char> = if c == '\n' {
        Seq::empty()
    } else {
        seq![c]
    };
    if s.len() == 0 {
        assert(t.len() == 1);
        assert(t[0] == c);
        assert(t.drop_first() =~= Seq::<char>::empty());
        assert(s =~= Seq::<char>::empty());
        assert(strip_newlines(Seq::<char>::empty()) == Seq::<char>::empty());
        if c == '\n' {
            assert(strip_newlines(t) == strip_newlines(t.drop_first()));
            assert(strip_newlines(t) =~= strip_newlines(s) + x);
        } else {
            assert(strip_newlines(t) == seq![t[0]] + strip_newlines(t.drop_first()));
            assert(strip_newlines(t) =~= strip_newlines(s) + x);
        }
    } else {
        assert(t[0] == s[0]);
        assert(t.drop_first() =~= s.drop_first().push(c));
        lemma_strip_newlines_push(s.drop_first(), c);
        assert(strip_newlines(s.drop_first().push(c)) == strip_newlines(s.drop_first()) + x);
        if s[0] == '\n' {
            assert(strip_newlines(t) == strip_newlines(t.drop_first()));
            assert(strip_newlines(s) == strip_newlines(s.drop_first()));
            assert(strip_newlines(t) =~= strip_newlines(s) + x);
        } else {
            assert(strip_newlines(t) == seq![t[0]] + strip_newlines(t.drop_first()));
            assert(strip_newlines(s) == seq![s[0]] + strip_newlines(s.drop_first()));
            assert(seq![s[0]] + (strip_newlines(s.drop_first()) + x) =~= (seq![s[0]]
                + strip_newlines(s.drop_first())) + x);
            assert(strip_newlines(t) =~= strip_newlines(s) + x);
        }
    }
}

/// The underlying representation of a crossword puzzle. All of the contents
/// are stored in row-major order and the dimensions of the grid are stored
/// explicitly.
///
/// In the contents, `*` represents a shaded square, and a ` ` represents a
/// blank square; everything else is a fixed letter.
#[derive(Debug)]
pub struct Crossword {
    pub(crate) contents: Vec<char>,
    pub(crate) width: usize,
    pub(crate) height: usize,
}

impl View for Crossword {
    type V = Seq<char>;

    closed spec fn view(&self) -> Seq<char> {
        self.contents@
    }
}

/// The view of a crossword is its cell contents in row-major order, and its
/// spec dimensions are its stored dimensions.
pub(crate) proof fn lemma_crossword_view(g: &Crossword)
    ensures
        g@ == g.contents@,
        g.spec_width() == g.width,
        g.spec_height() == g.height,
{
}

impl Clone for Crossword {
    fn clone(&self) -> (r: Self)
        ensures
            r@ == self@,
            r.spec_width() == self.spec_width(),
            r.spec_height() == self.spec_height(),
    {
        proof {
            use_type_invariant(self);
        }
        Crossword { contents: self.contents.clone(), width: self.width, height: self.height }
    }
}

impl PartialEq for Crossword {
    fn eq(&self, other: &Self) -> (r: bool) {
        if self.width != other.width || self.height != other.height {
            return false;
        }
        if self.contents.len() != other.contents.len() {
            return false;
        }
        let mut i: usize = 0;
        while i < self.contents.len()
            invariant
                i <= self.contents@.len(),
                self.contents@.len() == other.contents@.len(),
                forall|j: int| 0 <= j < i ==> self.contents@[j] == other.contents@[j],
            decreases self.contents@.len() - i,
        {
            if self.contents[i] != other.contents[i] {
                return false;
            }
            i = i + 1;
        }
        proof {
            assert(self.contents@ =~= other.contents@);
        }
        true
    }
}

impl Eq for Crossword {}

impl vstd::std_specs::cmp::PartialEqSpecImpl for Crossword {
    open spec fn obeys_eq_spec() -> bool {
        true
    }

    /// Two crosswords are equal when they agree on dimensions and contents.
    open spec fn eq_spec(&self, other: &Self) -> bool {
        &&& self@ == other@
        &&& self.spec_width() == other.spec_width()
        &&& self.spec_height() == other.spec_height()
    }
}

impl Crossword {
    /// Every crossword holds exactly `width * height` cells, each one permitted.
    #[verifier::type_invariant]
    pub open(crate) spec fn wf(self) -> bool {
        self.contents@.len() == self.width * self.height && all_valid_cells(self.contents@)
    }

    pub closed spec fn spec_width(&self) -> usize {
        self.width
    }

    pub closed spec fn spec_height(&self) -> usize {
        self.height
    }

    pub open spec fn spec_cell(&self, row: int, col: int) -> char {
        self@[row * self.spec_width() + col]
    }

    pub fn width(&self) -> (r: usize)
        ensures
            r == self.spec_width(),
    {
        self.width
    }

    pub fn height(&self) -> (r: usize)
        ensures
            r == self.spec_height(),
    {
        self.height
    }

    /// The shape facts that hold of every crossword, available to callers
    /// outside this module.
    pub proof fn shape(&self)
        requires
            self.wf(),
        ensures
            self@.len() == self.spec_width() * self.spec_height(),
            all_valid_cells(self@),
    {
    }

    pub fn cell(&self, row: usize, col: usize) -> (r: char)
        requires
            row < self.spec_height(),
            col < self.spec_width(),
        ensures
            r == self.spec_cell(row as int, col as int),
            is_valid_cell(r),
    {
        proof {
            use_type_invariant(self);
            lemma_row_major_index(row as int, col as int, self.width as int, self.height as int);
            assert(self.contents.len() == self.contents@.len());
        }
        self.contents[row * self.width + col]
    }

    /// The grid contents as a single string in row-major order.
    pub fn contents(&self) -> (r: String)
        ensures
            r@ == self@,
    {
        proof {
            use_type_invariant(self);
        }
        chars_to_string(&self.contents)
    }

    /// Parses a crossword. Assumes that grid width and height are equal and
    /// returns an Err if not. Newlines are removed.
    pub fn square(contents: String) -> (r: Result<Crossword, String>)
        ensures
            match r {
                Ok(g) => {
                    &&& all_valid_cells(strip_newlines(contents@))
                    &&& g@ == strip_newlines(contents@)
                    &&& g.spec_width() == g.spec_height()
                    &&& g@.len() == g.spec_width() * g.spec_height()
                },
                Err(e) => {
                    &&& !(all_valid_cells(strip_newlines(contents@)) && is_perfect_square(
                        strip_newlines(contents@).len(),
                    ))
                    &&& (!all_valid_cells(strip_newlines(contents@)) ==> e@
                        == "Contents contain an invalid character."@)
                    &&& (all_valid_cells(strip_newlines(contents@)) ==> e@
                        == "Contents are not a square."@)
                },
            },
    {
        let cells = match strip_and_check(&contents) {
            Ok(cells) => cells,
            Err(e) => {
                return Err(e);
            },
        };
        let n = cells.len();
        let mut w: usize = 0;
        while square_u128(w) < (n as u128)
            invariant
                w <= n,
                n == cells@.len(),
                forall|v: nat| v < w ==> #[trigger] (v * v) < n,
            decreases n - w,
        {
            proof {
                assert(w < n) by (nonlinear_arith)
                    requires
                        w * w < n,
                        w <= n,
                ;
            }
            w = w + 1;
        }
        if square_u128(w) == (n as u128) {
            proof {
                assert((w as nat) * (w as nat) == n as nat);
                assert(is_perfect_square(n as nat));
            }
            Ok(Crossword { contents: cells, width: w, height: w })
        } else {
            proof {
                assert(w * w > n);
                assert forall|v: nat| #[trigger] (v * v) != n as nat by {
                    if v >= w {
                        assert(v * v >= w * w) by (nonlinear_arith)
                            requires
                                v >= w,
                        ;
                    }
                }
                assert(!is_perfect_square(n as nat));
            }
            Err(string_from_strlit("Contents are not a square."))
        }
    }

    /// Parses a crossword. Assumes that width and height are as specified. If
    /// the length of the input does not match the input dimensions, an Err is
    /// returned. Newlines are removed.
    pub fn rectangle(contents: String, width: usize, height: usize) -> (r: Result<
        Crossword,
        String,
    >)
        ensures
            match r {
                Ok(g) => {
                    &&& all_valid_cells(strip_newlines(contents@))
                    &&& g@ == strip_newlines(contents@)
                    &&& g.spec_width() == width
                    &&& g.spec_height() == height
                    &&& strip_newlines(contents@).len() == width * height
                },
                Err(e) => {
                    &&& !(all_valid_cells(strip_newlines(contents@)) && strip_newlines(
                        contents@,
                    ).len() == width * height)
                    &&& (!all_valid_cells(strip_newlines(contents@)) ==> e@
                        == "Contents contain an invalid character."@)
                    &&& (all_valid_cells(strip_newlines(contents@)) ==> e@
                        == "Contents do not match specified dimensions"@)
                },
            },
    {
        let cells = match strip_and_check(&contents) {
            Ok(cells) => cells,
            Err(e) => {
                return Err(e);
            },
        };
        proof {
            assert(cells.len() == cells@.len());
        }
        let area = match width.checked_mul(height) {
            Some(a) => a,
            None => {
                return Err(string_from_strlit("Contents do not match specified dimensions"));
            },
        };
        if cells.len() != area {
            return Err(string_from_strlit("Contents do not match specified dimensions"));
        }
        Ok(Crossword { contents: cells, width, height })
    }
}

/// Remove newlines from the input and reject any character that is not a
/// permitted cell.
fn strip_and_check(contents: &String) -> (r: Result<Vec<char>, String>)
    ensures
        match r {
            Ok(cells) => cells@ == strip_newlines(contents@) && all_valid_cells(cells@),
            Err(e) => !all_valid_cells(strip_newlines(contents@)) && e@
                == "Contents contain an invalid character."@,
        },
{
    let s = contents.as_str();
    let len = s.unicode_len();
    let mut cells: Vec<char> = Vec::new();
    let mut i: usize = 0;
    while i < len
        invariant
            i <= len,
            len == s@.len(),
            s@ == contents@,
            cells@ == strip_newlines(s@.take(i as int)),
            all_valid_cells(cells@),
        decreases len - i,
    {
        let c = s.get_char(i);
        proof {
            assert(s@.take(i as int).push(s@[i as int]) =~= s@.take(i + 1));
            lemma_strip_newlines_push(s@.take(i as int), s@[i as int]);
        }
        if c != '\n' {
            if !valid_cell_char(c) {
                proof {
                    lemma_strip_newlines_prefix_bad(s@, i as int);
                }
                return Err(string_from_strlit("Contents contain an invalid character."));
            }
            cells.push(c);
        }
        i = i + 1;
    }
    proof {
        assert(s@.take(len as int) =~= s@);
    }
    Ok(cells)
}

/// If a non-newline character at position `i` is invalid, the stripped whole
/// sequence contains an invalid character.
proof fn lemma_strip_newlines_prefix_bad(s: Seq<char>, i: int)
    requires
        0 <= i < s.len(),
        s[i] != '\n',
        !is_valid_cell(s[i]),
    ensures
        !all_valid_cells(strip_newlines(s)),
    decreases s.len(),
{
    if i == 0 {
        assert(strip_newlines(s)[0] == s[0]);
    } else {
        lemma_strip_newlines_prefix_bad(s.drop_first(), i - 1);
        if s[0] == '\n' {
        } else {
            let t = strip_newlines(s.drop_first());
            let k = choose|k: int| 0 <= k < t.len() && !is_valid_cell(t[k]);
            assert(strip_newlines(s)[k + 1] == t[k]);
        }
    }
}

/// A view over the characters currently occupying one word of a crossword,
/// accounting for direction. The length of the word is stored in the word
/// boundary; the iterator walks the cells from its current position to the
/// end of the word.
#[derive(Debug, Clone, Copy)]
pub struct WordIterator<'s> {
    pub(crate) crossword: &'s Crossword,
    pub(crate) word_boundary: &'s WordBoundary,
    pub(crate) index: usize,
}

impl<'s> View for WordIterator<'s> {
    type V = Seq<char>;

    closed spec fn view(&self) -> Seq<char> {
        slot_view(*self.crossword, *self.word_boundary).skip(self.index as int)
    }
}

impl<'s> WordIterator<'s> {
    /// The word stays within the grid, and the position within the word.
    #[verifier::type_invariant]
    pub open(crate) spec fn inv(self) -> bool {
        &&& self.word_boundary.fits(
            self.crossword.spec_width() as int,
            self.crossword.spec_height() as int,
        )
        &&& self.index <= self.word_boundary.length
        &&& self.crossword.wf()
    }

    pub closed spec fn spec_word_boundary(&self) -> WordBoundary {
        *self.word_boundary
    }

    pub closed spec fn spec_crossword(&self) -> Crossword {
        *self.crossword
    }

    pub fn new(crossword: &'s Crossword, word_boundary: &'s WordBoundary) -> (r: WordIterator<'s>)
        requires
            word_boundary.fits(crossword.spec_width() as int, crossword.spec_height() as int),
        ensures
            r@ == slot_view(*crossword, *word_boundary),
            r.spec_word_boundary() == *word_boundary,
            r.spec_crossword() == *crossword,
    {
        proof {
            use_type_invariant(crossword);
        }
        let r = WordIterator { crossword, word_boundary, index: 0 };
        proof {
            assert(r@ =~= slot_view(*crossword, *word_boundary));
        }
        r
    }

    pub fn word_boundary(&self) -> (r: &'s WordBoundary)
        ensures
            *r == self.spec_word_boundary(),
    {
        self.word_boundary
    }

    /// The characters of the word from the current position to its end.
    pub fn chars(&self) -> (r: Vec<char>)
        ensures
            r@ == self@,
    {
        proof {
            use_type_invariant(self);
        }
        let b = self.word_boundary;
        let g = self.crossword;
        let mut r: Vec<char> = Vec::new();
        let mut k = self.index;
        while k < b.length
            invariant
                self.inv(),
                b == self.word_boundary,
                g == self.crossword,
                self.index <= k <= b.length,
                r@ =~= slot_view(*g, *b).subrange(self.index as int, k as int),
            decreases b.length - k,
        {
            proof {
                lemma_slot_cell_index(
                    *b,
                    k as int,
                    g.spec_width() as int,
                    g.spec_height() as int,
                );
            }
            let c = match b.direction {
                Direction::Across => g.cell(b.start_row, b.start_col + k),
                Direction::Down => g.cell(b.start_row + k, b.start_col),
            };
            r.push(c);
            proof {
                assert(slot_view(*g, *b)[k as int] == c);
                assert(r@ =~= slot_view(*g, *b).subrange(self.index as int, k + 1));
            }
            k = k + 1;
        }
        proof {
            assert(r@ =~= self@);
        }
        r
    }

    /// The characters of the word, joined into an owned string.
    pub fn to_string(&self) -> (r: String)
        ensures
            r@ == self@,
    {
        let v = self.chars();
        chars_to_string(&v)
    }

    /// Whether any remaining cell of the word is blank.
    pub fn has_space(&self) -> (r: bool)
        ensures
            r == self@.contains(' '),
    {
        let v = self.chars();
        let mut k: usize = 0;
        while k < v.len()
            invariant
                k <= v@.len(),
                v@ == self@,
                forall|j: int| 0 <= j < k ==> v@[j] != ' ',
            decreases v@.len() - k,
        {
            if v[k] == ' ' {
                return true;
            }
            k = k + 1;
        }
        false
    }
}

impl<'s> PartialEq for WordIterator<'s> {
    fn eq(&self, other: &Self) -> (r: bool) {
        proof {
            use_type_invariant(self);
            use_type_invariant(other);
        }
        if self.word_boundary.length != other.word_boundary.length {
            return false;
        }
        let a = self.chars();
        let b = other.chars();
        let m = if a.len() < b.len() {
            a.len()
        } else {
            b.len()
        };
        let mut k: usize = 0;
        while k < m
            invariant
                k <= m,
                m == vstd::math::min(a@.len() as int, b@.len() as int),
                a@ == self@,
                b@ == other@,
                forall|j: int| 0 <= j < k ==> a@[j] == b@[j],
            decreases m - k,
        {
            if a[k] != b[k] {
                return false;
            }
            k = k + 1;
        }
        true
    }
}

impl<'s> Eq for WordIterator<'s> {}

impl<'s> vstd::std_specs::cmp::PartialEqSpecImpl for WordIterator<'s> {
    open spec fn obeys_eq_spec() -> bool {
        true
    }

    /// Two word views are equal when their words have the same length and
    /// their characters agree over the shorter remainder.
    open spec fn eq_spec(&self, other: &Self) -> bool {
        &&& self.spec_word_boundary().length == other.spec_word_boundary().length
        &&& forall|j: int|
            0 <= j < vstd::math::min(self@.len() as int, other@.len() as int) ==> self@[j]
                == other@[j]
    }
}

impl<'s> core::hash::Hash for WordIterator<'s> {
    /// The iterator hashes as the sequence of its remaining characters, so
    /// that equal views hash alike whatever word boundary produced them.
    fn hash<H: core::hash::Hasher>(&self, state: &mut H) {
        let v = self.chars();
        hash_chars_into(&v, state);
    }
}

/// Relies on `char::hash`: feeds the given characters, in order, into the
/// hasher.
#[verifier::external_body]
fn hash_chars_into<H: core::hash::Hasher>(v: &Vec<char>, state: &mut H) {
    let mut i: usize = 0;
    while i < v.len() {
        core::hash::Hash::hash(&v[i], state);
        i += 1;
    }
}

/// The square of a machine word, computed without overflow.
fn square_u128(w: usize) -> (r: u128)
    ensures
        r == (w as nat) * (w as nat),
{
    proof {
        assert((w as u128) * (w as u128) <= u128::MAX) by (nonlinear_arith);
    }
    (w as u128) * (w as u128)
}

/// Row-major indexing stays within the cell array.
pub proof fn lemma_row_major_index(row: int, col: int, width: int, height: int)
    by (nonlinear_arith)
    requires
        0 <= row < height,
        0 <= col < width,
    ensures
        0 <= row * width + col < width * height,
        row * width + col <= (height - 1) * width + (width - 1),
{
}

/// Build an owned `String` out of a vector of characters.
pub fn chars_to_string(v: &Vec<char>) -> (r: String)
    ensures
        r@ == v@,
{
    let mut s = String::new();
    let mut i: usize = 0;
    while i < v.len()
        invariant
            i <= v.len(),
            s@ == v@.take(i as int),
        decreases v.len() - i,
    {
        push_char(&mut s, v[i]);
        proof {
            assert(v@.take(i as int).push(v@[i as int]) =~= v@.take(i + 1));
        }
        i = i + 1;
    }
    proof {
        assert(v@.take(v@.len() as int) =~= v@);
    }
    s
}

/// The characters of a string slice, as an owned vector.
pub fn string_to_chars(s: &str) -> (r: Vec<char>)
    ensures
        r@ == s@,
{
    let len = s.unicode_len();
    let mut r: Vec<char> = Vec::new();
    let mut i: usize = 0;
    while i < len
        invariant
            i <= len,
            len == s@.len(),
            r@ =~= s@.take(i as int),
        decreases len - i,
    {
        r.push(s.get_char(i));
        proof {
            assert(r@ =~= s@.take(i + 1));
        }
        i = i + 1;
    }
    proof {
        assert(r@ =~= s@);
    }
    r
}

/// Append the characters of `src` at the end of `dst`.
pub fn append_chars(dst: &mut Vec<char>, src: &Vec<char>)
    ensures
        final(dst)@ == old(dst)@ + src@,
{
    let mut i: usize = 0;
    while i < src.len()
        invariant
            i <= src@.len(),
            dst@ =~= old(dst)@ + src@.take(i as int),
        decreases src@.len() - i,
    {
        dst.push(src[i]);
        proof {
            assert(dst@ =~= old(dst)@ + src@.take(i + 1));
        }
        i = i + 1;
    }
    proof {
        assert(dst@ =~= old(dst)@ + src@);
    }
}

/// Copy a `&str` literal into an owned `String`.
pub fn string_from_strlit(s: &str) -> (r: String)
    ensures
        r@ == s@,
{
    String::from_str(s)
}

/// Relies on `String::push`: appends exactly one character at the end.
#[verifier::external_body]
pub(crate) fn push_char(s: &mut String, c: char)
    ensures
        final(s)@ == old(s)@.push(c),
{
    s.push(c);
}


/// A cell of an earlier output line sits before the current line starts.
proof fn lemma_row_chunk(r2: int, row: int, w: int, c2: int)
    by (nonlinear_arith)
    requires
        0 <= r2 < row,
        0 <= c2 <= w,
    ensures
        0 <= r2 * (w + 1) + c2 < row * (w + 1),
{
}

impl Crossword {
    /// The grid as text, one row per line: for each row in order, the row's
    /// cells followed by one newline. Stripping the newlines from the result
    /// gives back exactly the cells.
    pub fn render(&self) -> (r: String)
        ensures
            strip_newlines(r@) == self@,
            r@.len() == self@.len() + self.spec_height(),
            forall|row: int, col: int|
                0 <= row < self.spec_height() && 0 <= col < self.spec_width()
                    ==> #[trigger] r@[row * (self.spec_width() + 1) + col] == self@[row
                    * self.spec_width() + col],
            forall|row: int|
                0 <= row < self.spec_height() ==> #[trigger] r@[row * (self.spec_width() + 1)
                    + self.spec_width()] == '\n',
    {
        proof {
            use_type_invariant(self);
        }
        let mut out = String::new();
        proof {
            assert(strip_newlines(out@) =~= self.contents@.take(0));
        }
        let mut row: usize = 0;
        while row < self.height
            invariant
                self.wf(),
                row <= self.height,
                strip_newlines(out@) == self.contents@.take((row * self.width) as int),
                out@.len() == row * (self.width + 1),
                forall|r2: int, c2: int|
                    0 <= r2 < row && 0 <= c2 < self.width ==> #[trigger] out@[r2 * (self.width
                        + 1) + c2] == self.contents@[r2 * self.width + c2],
                forall|r2: int|
                    0 <= r2 < row ==> #[trigger] out@[r2 * (self.width + 1) + self.width]
                        == '\n',
            decreases self.height - row,
        {
            let mut col: usize = 0;
            while col < self.width
                invariant
                    self.wf(),
                    row < self.height,
                    col <= self.width,
                    strip_newlines(out@) == self.contents@.take(row * self.width + col),
                    out@.len() == row * (self.width + 1) + col,
                    forall|r2: int, c2: int|
                        0 <= r2 < row && 0 <= c2 < self.width ==> #[trigger] out@[r2 * (self.width
                            + 1) + c2] == self.contents@[r2 * self.width + c2],
                    forall|r2: int|
                        0 <= r2 < row ==> #[trigger] out@[r2 * (self.width + 1) + self.width]
                            == '\n',
                    forall|c2: int|
                        0 <= c2 < col ==> #[trigger] out@[row * (self.width + 1) + c2]
                            == self.contents@[row * self.width + c2],
                decreases self.width - col,
            {
                proof {
                    lemma_row_major_index(
                        row as int,
                        col as int,
                        self.width as int,
                        self.height as int,
                    );
                    assert(self.contents.len() == self.contents@.len());
                    assert(row * (self.width + 1) + col <= (self.height - 1) * (self.width + 1)
                        + self.width) by (nonlinear_arith)
                        requires
                            0 <= row < self.height,
                            0 <= col <= self.width,
                    ;
                }
                let c = self.contents[row * self.width + col];
                let ghost pre = out@;
                push_char(&mut out, c);
                proof {
                    lemma_strip_newlines_push(pre, c);
                    assert(is_valid_cell(c));
                    assert(c != '\n') by {
                        if c == '\n' {
                            assert('\n' as u32 == 10);
                        }
                    }
                    assert(self.contents@.take(row * self.width + col).push(c)
                        =~= self.contents@.take(row * self.width + col + 1));
                    assert(strip_newlines(out@) =~= self.contents@.take(
                        row * self.width + col + 1,
                    ));
                    assert(forall|k: int| 0 <= k < pre.len() ==> out@[k] == pre[k]);
                    assert(out@[row * (self.width + 1) + col] == c);
                    assert forall|r2: int, c2: int|
                        0 <= r2 < row && 0 <= c2 < self.width implies #[trigger] out@[r2
                        * (self.width + 1) + c2] == self.contents@[r2 * self.width + c2] by {
                        lemma_row_chunk(r2, row as int, self.width as int, c2);
                        assert(out@[r2 * (self.width + 1) + c2] == pre[r2 * (self.width + 1)
                            + c2]);
                    }
                    assert forall|r2: int|
                        0 <= r2 < row implies #[trigger] out@[r2 * (self.width + 1)
                        + self.width] == '\n' by {
                        lemma_row_chunk(r2, row as int, self.width as int, self.width as int);
                        assert(out@[r2 * (self.width + 1) + self.width] == pre[r2 * (self.width
                            + 1) + self.width]);
                    }
                }
                col = col + 1;
            }
            let ghost pre = out@;
            push_char(&mut out, '\n');
            proof {
                lemma_strip_newlines_push(pre, '\n');
                assert(strip_newlines(out@) =~= strip_newlines(pre));
                assert((row + 1) * self.width == row * self.width + self.width)
                    by (nonlinear_arith);
                assert((row + 1) * (self.width + 1) == row * (self.width + 1) + self.width + 1)
                    by (nonlinear_arith);
                assert(forall|k: int| 0 <= k < pre.len() ==> out@[k] == pre[k]);
                assert(out@[row * (self.width + 1) + self.width] == '\n');
                assert forall|r2: int, c2: int|
                    0 <= r2 < row + 1 && 0 <= c2 < self.width implies #[trigger] out@[r2
                    * (self.width + 1) + c2] == self.contents@[r2 * self.width + c2] by {
                    if r2 < row {
                        lemma_row_chunk(r2, row as int, self.width as int, c2);
                        assert(out@[r2 * (self.width + 1) + c2] == pre[r2 * (self.width + 1)
                            + c2]);
                    } else {
                        assert(out@[row * (self.width + 1) + c2] == pre[row * (self.width + 1)
                            + c2]);
                    }
                }
                assert forall|r2: int|
                    0 <= r2 < row + 1 implies #[trigger] out@[r2 * (self.width + 1)
                    + self.width] == '\n' by {
                    if r2 < row {
                        lemma_row_chunk(r2, row as int, self.width as int, self.width as int);
                        assert(out@[r2 * (self.width + 1) + self.width] == pre[r2 * (self.width
                            + 1) + self.width]);
                    }
                }
            }
            row = row + 1;
        }
        proof {
            assert(self.height * self.width == self.width * self.height) by (nonlinear_arith);
            assert(self.contents@.take((self.height * self.width) as int) =~= self.contents@);
            assert(self.height * (self.width + 1) == self.width * self.height + self.height)
                by (nonlinear_arith);
        }
        out
    }
}

/// Rendering a grid and parsing the text back preserves the cells: on the
/// render of `g`, the rectangle parser with `g`'s dimensions cannot fail,
/// and the grid it returns holds exactly `g`'s cells.
pub proof fn lemma_parse_render_round_trip(
    g: Crossword,
    s: Seq<char>,
    w: usize,
    h: usize,
    r: Result<Crossword, String>,
)
    requires
        g.wf(),
        w == g.spec_width(),
        h == g.spec_height(),
        strip_newlines(s) == g@,
        r matches Err(e) ==> !(all_valid_cells(strip_newlines(s)) && strip_newlines(s).len() == w
            * h),
        r matches Ok(g2) ==> g2@ == strip_newlines(s) && g2.spec_width() == w && g2.spec_height()
            == h,
    ensures
        r matches Ok(g2) && g2@ == g@ && g2.spec_width() == g.spec_width() && g2.spec_height()
            == g.spec_height(),
{
    assert(all_valid_cells(g@));
    assert(g@.len() == w * h);
}

} // verus!
