//! A prefix tree over the word list, supporting wildcard pattern lookups and
//! viability checks.

use crate::crossword::append_chars;
use crate::crossword::chars_to_string;
use crate::crossword::push_char;
use crate::crossword::string_from_strlit;
use crate::crossword::string_to_chars;
use vstd::prelude::*;

verus! {

/// One node of the prefix tree. Each non-root node carries one letter; the
/// terminal flag marks the end of a word from the list. Children are kept
/// sorted by their letter, each letter appearing at most once.
pub struct TrieNode {
    pub(crate) contents: Option<char>,
    pub(crate) is_terminal: bool,
    pub(crate) children: Vec<TrieNode>,
}

impl TrieNode {
    /// Every child carries a letter, the letters strictly increase, and the
    /// subtrees are themselves well formed.
    #[verifier::type_invariant]
    pub open(crate) spec fn wf(self) -> bool
        decreases self,
    {
        &&& (forall|i: int|
            0 <= i < self.children@.len() ==> (#[trigger] self.children@[i]).contents is Some)
        &&& (forall|i: int, j: int|
            0 <= i < j < self.children@.len()
                ==> (self.children@[i].contents->Some_0 as u32)
                < (self.children@[j].contents->Some_0 as u32))
        &&& (forall|i: int|
            0 <= i < self.children@.len() ==> (#[trigger] self.children@[i]).wf())
    }

    pub closed spec fn spec_contents(self) -> Option<char> {
        self.contents
    }

    pub fn new(contents: Option<char>) -> (r: TrieNode)
        ensures
            r.spec_contents() == contents,
            forall|w: Seq<char>| !node_has_word(r, w),
    {
        let r = TrieNode { contents, is_terminal: false, children: Vec::new() };
        proof {
            assert forall|w: Seq<char>| !node_has_word(r, w) by {
                if w.len() == 0 {
                } else {
                    assert(r.children@.len() == 0);
                }
            }
        }
        r
    }
}

/// The words stored under a node: a sequence of characters traced through
/// matching children down to a node with its terminal flag set.
pub open(crate) spec fn node_has_word(n: TrieNode, w: Seq<char>) -> bool
    decreases w.len(),
{
    if w.len() == 0 {
        n.is_terminal
    } else {
        exists|i: int|
            0 <= i < n.children@.len() && (#[trigger] n.children@[i]).contents == Some(w[0])
                && node_has_word(n.children@[i], w.drop_first())
    }
}

impl TrieNode {
    /// Insert the characters of `chars` from position `ci` on as a word below
    /// this node, creating missing children along the way.
    fn add_chars(self, chars: &Vec<char>, ci: usize) -> (r: TrieNode)
        requires
            ci <= chars@.len(),
        ensures
            r.spec_contents() == self.spec_contents(),
            forall|w: Seq<char>|
                #![trigger node_has_word(r, w)]
                #![trigger node_has_word(self, w)]
                node_has_word(r, w) <==> (node_has_word(self, w) || w == chars@.skip(ci as int)),
        decreases chars@.len() - ci,
    {
        proof {
            use_type_invariant(&self);
        }
        let ghost orig = self;
        let mut me = self;
        if ci == chars.len() {
            me.is_terminal = true;
            proof {
                assert(chars@.skip(ci as int) =~= Seq::<char>::empty());
                assert forall|w: Seq<char>|
                    node_has_word(me, w) <==> (node_has_word(orig, w) || w == chars@.skip(
                        ci as int,
                    )) by {
                    if w.len() == 0 {
                        assert(w =~= Seq::<char>::empty());
                    } else {
                        assert(me.children@ == orig.children@);
                        assert(node_has_word(me, w) == node_has_word(orig, w));
                    }
                }
            }
            me
        } else {
            let c = chars[ci];
            proof {
                assert(chars@.skip(ci as int).len() > 0);
                assert(chars@.skip(ci as int)[0] == chars@[ci as int]);
                assert(chars@.skip(ci as int).drop_first() =~= chars@.skip(ci + 1));
            }
            let mut kids: Vec<TrieNode> = Vec::new();
            core::mem::swap(&mut me.children, &mut kids);
            let ghost orig_kids = kids@;
            let n = kids.len();
            let mut i: usize = 0;
            let mut found: usize = n;
            while i < n && found == n
                invariant
                    kids@ == orig_kids,
                    orig_kids == orig.children@,
                    orig.wf(),
                    n == kids@.len(),
                    i <= n,
                    found <= n,
                    found == n ==> forall|j: int|
                        0 <= j < i ==> (#[trigger] kids@[j]).contents != Some(c),
                    found < n ==> kids@[found as int].contents == Some(c),
                decreases n - i,
            {
                let is_c = match &kids[i].contents {
                    Some(l) => *l == c,
                    None => false,
                };
                if is_c {
                    found = i;
                }
                i = i + 1;
            }
            if found < n {
                proof {
                    assert forall|j: int|
                        0 <= j < n && j != found implies (#[trigger] kids@[j]).contents != Some(
                        c,
                    ) by {
                        if j < found {
                            assert((kids@[j].contents->Some_0 as u32) < (
                            kids@[found as int].contents->Some_0 as u32));
                        } else {
                            assert((kids@[found as int].contents->Some_0 as u32) < (
                            kids@[j].contents->Some_0 as u32));
                        }
                    }
                }
                let child = kids.remove(found);
                let ghost removed = kids@;
                let child2 = child.add_chars(chars, ci + 1);
                proof {
                    use_type_invariant(&child2);
                }
                kids.insert(found, child2);
                proof {
                    assert(kids@ =~= orig_kids.update(found as int, child2));
                }
                me.children = kids;
                proof {
                    assert(me.is_terminal == orig.is_terminal);
                    assert forall|w: Seq<char>|
                        node_has_word(me, w) <==> (node_has_word(orig, w) || w == chars@.skip(
                            ci as int,
                        )) by {
                        lemma_replace_child(
                            orig,
                            me,
                            found as int,
                            child,
                            child2,
                            c,
                            w,
                            chars@.skip(ci as int),
                        );
                    }
                }
                me
            } else {
                // insertion point: first child whose letter exceeds `c`
                let mut pos: usize = 0;
                while pos < n && letter_lt(&kids[pos], c)
                    invariant
                        kids@ == orig_kids,
                        orig_kids == orig.children@,
                        orig.wf(),
                        n == kids@.len(),
                        pos <= n,
                        forall|j: int|
                            0 <= j < pos ==> ((#[trigger] kids@[j]).contents->Some_0 as u32)
                                < c as u32,
                        forall|j: int| 0 <= j < n ==> (#[trigger] kids@[j]).contents != Some(c),
                    decreases n - pos,
                {
                    pos = pos + 1;
                }
                proof {
                    assert forall|j: int|
                        pos <= j < n implies ((#[trigger] kids@[j]).contents->Some_0 as u32)
                        > c as u32 by {
                        if ((kids@[pos as int].contents->Some_0 as u32) == c as u32) {
                            lemma_char_code_injective(kids@[pos as int].contents->Some_0, c);
                        }
                        if j != pos {
                            assert((kids@[pos as int].contents->Some_0 as u32) < (
                            kids@[j].contents->Some_0 as u32));
                        }
                    }
                }
                let fresh = TrieNode { contents: Some(c), is_terminal: false, children: Vec::new() };
                proof {
                    assert forall|w: Seq<char>| !node_has_word(fresh, w) by {
                        if w.len() == 0 {
                        } else {
                            assert(fresh.children@.len() == 0);
                        }
                    }
                }
                let fresh2 = fresh.add_chars(chars, ci + 1);
                proof {
                    use_type_invariant(&fresh2);
                }
                kids.insert(pos, fresh2);
                proof {
                    assert(kids@ =~= orig_kids.insert(pos as int, fresh2));
                }
                me.children = kids;
                proof {
                    assert(me.is_terminal == orig.is_terminal);
                    assert forall|w: Seq<char>|
                        node_has_word(me, w) <==> (node_has_word(orig, w) || w == chars@.skip(
                            ci as int,
                        )) by {
                        lemma_insert_child(
                            orig,
                            me,
                            pos as int,
                            fresh2,
                            c,
                            w,
                            chars@.skip(ci as int),
                        );
                    }
                }
                me
            }
        }
    }
}

/// Two characters with the same scalar value are the same character.
pub proof fn lemma_char_code_injective(a: char, b: char)
    requires
        a as u32 == b as u32,
    ensures
        a == b,
{
    vstd::utf8::char_u32_cast(a, a as u32);
    vstd::utf8::char_u32_cast(b, b as u32);
}

/// Whether a child's letter is strictly below `c`.
fn letter_lt(n: &TrieNode, c: char) -> (r: bool)
    requires
        n.spec_contents() is Some,
    ensures
        r == ((n.spec_contents()->Some_0 as u32) < (c as u32)),
{
    match &n.contents {
        Some(l) => (*l as u32) < (c as u32),
        None => false,
    }
}

/// Replacing the child that carries `c` with a node that stores one more word
/// adds exactly that word, `c` prepended, to the words below the parent.
proof fn lemma_replace_child(
    orig: TrieNode,
    new: TrieNode,
    found: int,
    child: TrieNode,
    child2: TrieNode,
    c: char,
    w: Seq<char>,
    suffix: Seq<char>,
)
    requires
        0 <= found < orig.children@.len(),
        orig.children@[found].contents == Some(c),
        forall|j: int|
            0 <= j < orig.children@.len() && j != found ==> (#[trigger] orig.children@[j]).contents
                != Some(c),
        child == orig.children@[found],
        child2.spec_contents() == child.spec_contents(),
        new.children@ == orig.children@.update(found, child2),
        new.is_terminal == orig.is_terminal,
        suffix.len() > 0,
        suffix[0] == c,
        forall|v: Seq<char>|
            #![trigger node_has_word(child2, v)]
            #![trigger node_has_word(child, v)]
            node_has_word(child2, v) <==> (node_has_word(child, v) || v == suffix.drop_first()),
    ensures
        node_has_word(new, w) <==> (node_has_word(orig, w) || w == suffix),
{
    if w.len() == 0 {
        assert(w != suffix);
    } else {
        assert(new.children@.len() == orig.children@.len());
        assert(new.children@[found] == child2);
        assert(forall|j: int|
            0 <= j < orig.children@.len() && j != found ==> new.children@[j] == orig.children@[j]);
        if w[0] == c {
            assert forall|i: int|
                0 <= i < new.children@.len() && (#[trigger] new.children@[i]).contents == Some(
                    w[0],
                ) implies i == found by {}
            assert(node_has_word(new, w) <==> node_has_word(child2, w.drop_first()));
            assert(node_has_word(orig, w) <==> node_has_word(child, w.drop_first()));
            if w == suffix {
                assert(w.drop_first() == suffix.drop_first());
            }
            if w.drop_first() == suffix.drop_first() {
                assert(w.len() == suffix.len());
                assert forall|k: int| 0 <= k < w.len() implies w[k] == suffix[k] by {
                    if k > 0 {
                        assert(w[k] == w.drop_first()[k - 1]);
                        assert(suffix[k] == suffix.drop_first()[k - 1]);
                    }
                }
                assert(w =~= suffix);
            }
        } else {
            assert(w != suffix);
            assert forall|i: int|
                0 <= i < new.children@.len() && (#[trigger] new.children@[i]).contents == Some(
                    w[0],
                ) implies (new.children@[i] == orig.children@[i] && i != found) by {}
            assert(node_has_word(new, w) <==> node_has_word(orig, w)) by {
                if node_has_word(new, w) {
                    let i = choose|i: int|
                        0 <= i < new.children@.len() && (#[trigger] new.children@[i]).contents
                            == Some(w[0]) && node_has_word(new.children@[i], w.drop_first());
                    assert(orig.children@[i].contents == Some(w[0]));
                    assert(node_has_word(orig.children@[i], w.drop_first()));
                }
                if node_has_word(orig, w) {
                    let i = choose|i: int|
                        0 <= i < orig.children@.len() && (#[trigger] orig.children@[i]).contents
                            == Some(w[0]) && node_has_word(orig.children@[i], w.drop_first());
                    assert(i != found);
                    assert(new.children@[i].contents == Some(w[0]));
                    assert(node_has_word(new.children@[i], w.drop_first()));
                }
            }
        }
    }
}

/// Inserting a fresh child that carries `c` and stores one word adds exactly
/// that word, `c` prepended, to the words below the parent.
proof fn lemma_insert_child(
    orig: TrieNode,
    new: TrieNode,
    pos: int,
    fresh2: TrieNode,
    c: char,
    w: Seq<char>,
    suffix: Seq<char>,
)
    requires
        0 <= pos <= orig.children@.len(),
        forall|j: int|
            0 <= j < orig.children@.len() ==> (#[trigger] orig.children@[j]).contents != Some(c),
        fresh2.spec_contents() == Some(c),
        new.children@ == orig.children@.insert(pos, fresh2),
        new.is_terminal == orig.is_terminal,
        suffix.len() > 0,
        suffix[0] == c,
        forall|v: Seq<char>|
            #![trigger node_has_word(fresh2, v)]
            node_has_word(fresh2, v) <==> v == suffix.drop_first(),
    ensures
        node_has_word(new, w) <==> (node_has_word(orig, w) || w == suffix),
{
    assert(new.children@.len() == orig.children@.len() + 1);
    assert(new.children@[pos] == fresh2);
    assert(forall|j: int| 0 <= j < pos ==> new.children@[j] == orig.children@[j]);
    assert(forall|j: int|
        pos < j < new.children@.len() ==> new.children@[j] == orig.children@[j - 1]);
    if w.len() == 0 {
        assert(w != suffix);
    } else {
        if w[0] == c {
            assert forall|i: int|
                0 <= i < new.children@.len() && (#[trigger] new.children@[i]).contents == Some(
                    w[0],
                ) implies i == pos by {
                if i < pos {
                    assert(orig.children@[i].contents != Some(c));
                } else if i > pos {
                    assert(orig.children@[i - 1].contents != Some(c));
                }
            }
            assert(node_has_word(new, w) <==> node_has_word(fresh2, w.drop_first()));
            assert(!node_has_word(orig, w)) by {
                if node_has_word(orig, w) {
                    let i = choose|i: int|
                        0 <= i < orig.children@.len() && (#[trigger] orig.children@[i]).contents
                            == Some(w[0]) && node_has_word(orig.children@[i], w.drop_first());
                }
            }
            if w == suffix {
                assert(w.drop_first() == suffix.drop_first());
            }
            if w.drop_first() == suffix.drop_first() {
                assert(w.len() == suffix.len());
                assert forall|k: int| 0 <= k < w.len() implies w[k] == suffix[k] by {
                    if k > 0 {
                        assert(w[k] == w.drop_first()[k - 1]);
                        assert(suffix[k] == suffix.drop_first()[k - 1]);
                    }
                }
                assert(w =~= suffix);
            }
        } else {
            assert(w != suffix);
            assert(node_has_word(new, w) <==> node_has_word(orig, w)) by {
                if node_has_word(new, w) {
                    let i = choose|i: int|
                        0 <= i < new.children@.len() && (#[trigger] new.children@[i]).contents
                            == Some(w[0]) && node_has_word(new.children@[i], w.drop_first());
                    assert(i != pos);
                    if i < pos {
                        assert(orig.children@[i].contents == Some(w[0]));
                        assert(node_has_word(orig.children@[i], w.drop_first()));
                    } else {
                        assert(orig.children@[i - 1].contents == Some(w[0]));
                        assert(node_has_word(orig.children@[i - 1], w.drop_first()));
                    }
                }
                if node_has_word(orig, w) {
                    let i = choose|i: int|
                        0 <= i < orig.children@.len() && (#[trigger] orig.children@[i]).contents
                            == Some(w[0]) && node_has_word(orig.children@[i], w.drop_first());
                    if i < pos {
                        assert(new.children@[i].contents == Some(w[0]));
                        assert(node_has_word(new.children@[i], w.drop_first()));
                    } else {
                        assert(new.children@[i + 1].contents == Some(w[0]));
                        assert(node_has_word(new.children@[i + 1], w.drop_first()));
                    }
                }
            }
        }
    }
}


/// A word matches a pattern when it has the pattern's length and agrees with
/// it at every position that is not a blank; a blank matches any character.
pub open spec fn pattern_matches(w: Seq<char>, p: Seq<char>) -> bool {
    w.len() == p.len() && (forall|i: int| 0 <= i < p.len() ==> p[i] == ' ' || w[i] == p[i])
}

/// Whether some entry of `r` holds exactly the characters `w`.
pub open spec fn contains_chars(r: Seq<Vec<char>>, w: Seq<char>) -> bool {
    exists|j: int| 0 <= j < r.len() && (#[trigger] r[j])@ == w
}

impl TrieNode {
    /// Insert the characters of `chars` as a word below this node, creating
    /// missing children along the way and marking the final node terminal.
    pub fn add_sequence(self, chars: &str) -> (r: TrieNode)
        ensures
            r.spec_contents() == self.spec_contents(),
            forall|w: Seq<char>|
                #![trigger node_has_word(r, w)]
                #![trigger node_has_word(self, w)]
                node_has_word(r, w) <==> (node_has_word(self, w) || w == chars@),
    {
        let v = string_to_chars(chars);
        let r = self.add_chars(&v, 0);
        proof {
            assert(v@.skip(0) =~= chars@);
        }
        r
    }

    /// All suffixes stored under this node that match the pattern suffix that
    /// begins at `pi`.
    fn words_rec(&self, pattern: &Vec<char>, pi: usize) -> (r: Vec<Vec<char>>)
        requires
            pi <= pattern@.len(),
        ensures
            forall|j: int|
                0 <= j < r@.len() ==> node_has_word(*self, (#[trigger] r@[j])@)
                    && pattern_matches(r@[j]@, pattern@.skip(pi as int)),
            forall|w: Seq<char>|
                node_has_word(*self, w) && pattern_matches(w, pattern@.skip(pi as int))
                    ==> contains_chars(r@, w),
            forall|j: int, k: int| 0 <= j < k < r@.len() ==> r@[j]@ != r@[k]@,
        decreases pattern@.len() - pi,
    {
        proof {
            use_type_invariant(self);
        }
        let ghost p = pattern@.skip(pi as int);
        let mut r: Vec<Vec<char>> = Vec::new();
        if pi == pattern.len() {
            proof {
                assert(p =~= Seq::<char>::empty());
            }
            if self.is_terminal {
                r.push(Vec::new());
                proof {
                    assert(r@[0]@ =~= Seq::<char>::empty());
                    assert(node_has_word(*self, Seq::<char>::empty()));
                    assert forall|w: Seq<char>|
                        node_has_word(*self, w) && pattern_matches(w, p) implies contains_chars(
                        r@,
                        w,
                    ) by {
                        assert(w =~= Seq::<char>::empty());
                        assert(r@[0]@ == w);
                    }
                }
            } else {
                proof {
                    assert forall|w: Seq<char>|
                        node_has_word(*self, w) && pattern_matches(w, p) implies contains_chars(
                        r@,
                        w,
                    ) by {
                        assert(w =~= Seq::<char>::empty());
                    }
                }
            }
            return r;
        }
        let c = pattern[pi];
        proof {
            assert(p.len() > 0);
            assert(p[0] == pattern@[pi as int]);
            assert(p.drop_first() =~= pattern@.skip(pi + 1));
        }
        let n = self.children.len();
        if c == ' ' {
            let mut ci: usize = 0;
            while ci < n
                invariant
                    self.wf(),
                    pi < pattern.len(),
                    pattern@[pi as int] == ' ',
                    p == pattern@.skip(pi as int),
                    p.len() > 0,
                    p[0] == ' ',
                    p.drop_first() == pattern@.skip(pi + 1),
                    n == self.children@.len(),
                    ci <= n,
                    forall|j: int|
                        0 <= j < r@.len() ==> node_has_word(*self, (#[trigger] r@[j])@)
                            && pattern_matches(r@[j]@, p),
                    forall|j: int|
                        0 <= j < r@.len() ==> (#[trigger] r@[j])@.len() > 0 && (exists|i: int|
                            0 <= i < ci && (#[trigger] self.children@[i]).contents == Some(
                                r@[j]@[0],
                            )),
                    forall|w: Seq<char>|
                        pattern_matches(w, p) && w.len() > 0 && (exists|i: int|
                            0 <= i < ci && (#[trigger] self.children@[i]).contents == Some(w[0])
                                && node_has_word(self.children@[i], w.drop_first()))
                            ==> contains_chars(r@, w),
                    forall|j: int, k: int| 0 <= j < k < r@.len() ==> r@[j]@ != r@[k]@,
                decreases n - ci,
            {
                let child = &self.children[ci];
                proof {
                    use_type_invariant(child);
                }
                let sub = child.words_rec(pattern, pi + 1);
                let letter = child.contents.unwrap();
                let ghost r0 = r@;
                let mut sj: usize = 0;
                while sj < sub.len()
                    invariant
                        sj <= sub@.len(),
                        r@.len() == r0.len() + sj,
                        forall|t: int| 0 <= t < r0.len() ==> r@[t] == r0[t],
                        forall|t: int|
                            r0.len() <= t < r@.len() ==> (#[trigger] r@[t])@ =~= seq![letter]
                                + sub@[t - r0.len()]@,
                    decreases sub@.len() - sj,
                {
                    let mut word: Vec<char> = Vec::new();
                    word.push(letter);
                    append_chars(&mut word, &sub[sj]);
                    proof {
                        assert(word@ =~= seq![letter] + sub@[sj as int]@);
                    }
                    r.push(word);
                    sj = sj + 1;
                }
                proof {
                    let ci_ = ci as int;
                    assert(self.children@[ci_].contents == Some(letter));
                    // the earlier entries are unchanged
                    assert forall|t: int|
                        0 <= t < r0.len() implies node_has_word(*self, (#[trigger] r@[t])@)
                        && pattern_matches(r@[t]@, p) && r@[t]@.len() > 0 && (exists|i: int|
                        0 <= i < ci_ + 1 && (#[trigger] self.children@[i]).contents == Some(
                            r@[t]@[0],
                        )) by {
                        assert(r@[t] == r0[t]);
                        assert(node_has_word(*self, r0[t]@) && pattern_matches(r0[t]@, p));
                        assert(r0[t]@.len() > 0);
                        let i = choose|i: int|
                            0 <= i < ci_ && (#[trigger] self.children@[i]).contents == Some(
                                r0[t]@[0],
                            );
                        assert(0 <= i < ci_ + 1 && self.children@[i].contents == Some(r@[t]@[0]));
                    }
                    // soundness and provenance of the new entries
                    assert forall|t: int|
                        r0.len() <= t < r@.len() implies node_has_word(*self, (#[trigger] r@[t])@)
                        && pattern_matches(r@[t]@, p) && r@[t]@.len() > 0 && (exists|i: int|
                        0 <= i < ci_ + 1 && (#[trigger] self.children@[i]).contents == Some(
                            r@[t]@[0],
                        )) by {
                        let s = sub@[t - r0.len()]@;
                        assert(r@[t]@ == seq![letter] + s);
                        assert(r@[t]@[0] == letter);
                        assert(r@[t]@.drop_first() =~= s);
                        assert(node_has_word(self.children@[ci_], s));
                        assert(node_has_word(*self, r@[t]@));
                        assert(pattern_matches(s, p.drop_first()));
                        assert forall|q: int| 0 <= q < p.len() implies p[q] == ' ' || r@[t]@[q]
                            == p[q] by {
                            if q > 0 {
                                assert(r@[t]@[q] == s[q - 1]);
                                assert(p[q] == p.drop_first()[q - 1]);
                            }
                        }
                        assert(self.children@[ci_].contents == Some(r@[t]@[0]));
                    }
                    // completeness for children up to and including ci
                    assert forall|w: Seq<char>|
                        pattern_matches(w, p) && w.len() > 0 && (exists|i: int|
                            0 <= i < ci_ + 1 && (#[trigger] self.children@[i]).contents == Some(
                                w[0],
                            ) && node_has_word(self.children@[i], w.drop_first()))
                            implies contains_chars(r@, w) by {
                        let i = choose|i: int|
                            0 <= i < ci_ + 1 && (#[trigger] self.children@[i]).contents == Some(
                                w[0],
                            ) && node_has_word(self.children@[i], w.drop_first());
                        if i < ci_ {
                            assert(contains_chars(r0, w));
                            let j = choose|j: int| 0 <= j < r0.len() && (#[trigger] r0[j])@ == w;
                            assert(r@[j]@ == w);
                        } else {
                            assert(w[0] == letter);
                            assert(pattern_matches(w.drop_first(), p.drop_first())) by {
                                assert(w.drop_first().len() == p.drop_first().len());
                                assert forall|q: int|
                                    0 <= q < p.drop_first().len() implies p.drop_first()[q] == ' '
                                    || w.drop_first()[q] == p.drop_first()[q] by {
                                    assert(w.drop_first()[q] == w[q + 1]);
                                    assert(p.drop_first()[q] == p[q + 1]);
                                }
                            }
                            assert(contains_chars(sub@, w.drop_first()));
                            let j = choose|j: int|
                                0 <= j < sub@.len() && (#[trigger] sub@[j])@ == w.drop_first();
                            assert(r@[r0.len() + j]@ == seq![letter] + w.drop_first());
                            assert(seq![letter] + w.drop_first() =~= w);
                        }
                    }
                    // distinctness
                    assert forall|j: int, k: int|
                        0 <= j < k < r@.len() implies r@[j]@ != r@[k]@ by {
                        if k < r0.len() {
                            assert(r@[j]@ == r0[j]@);
                            assert(r@[k]@ == r0[k]@);
                            assert(r0[j]@ != r0[k]@);
                        } else if j < r0.len() {
                            assert(r0[j]@.len() > 0);
                            let i = choose|i: int|
                                0 <= i < ci_ && (#[trigger] self.children@[i]).contents == Some(
                                    r0[j]@[0],
                                );
                            assert(r@[k]@[0] == letter);
                            if r@[j]@ == r@[k]@ {
                                assert(self.children@[i].contents->Some_0 == letter);
                                assert((self.children@[i].contents->Some_0 as u32) < (
                                self.children@[ci_].contents->Some_0 as u32));
                                assert(false);
                            }
                        } else {
                            let a = sub@[j - r0.len()]@;
                            let b = sub@[k - r0.len()]@;
                            assert(a != b);
                            if r@[j]@ == r@[k]@ {
                                assert((seq![letter] + a).drop_first() =~= a);
                                assert((seq![letter] + b).drop_first() =~= b);
                                assert(false);
                            }
                        }
                    }
                }
                ci = ci + 1;
            }
            proof {
                assert forall|w: Seq<char>|
                    node_has_word(*self, w) && pattern_matches(w, p) implies contains_chars(
                    r@,
                    w,
                ) by {
                    assert(w.len() == p.len());
                }
            }
            r
        } else {
            let mut i: usize = 0;
            let mut found: usize = n;
            while i < n && found == n
                invariant
                    self.wf(),
                    n == self.children@.len(),
                    i <= n,
                    found <= n,
                    found == n ==> forall|j: int|
                        0 <= j < i ==> (#[trigger] self.children@[j]).contents != Some(c),
                    found < n ==> self.children@[found as int].contents == Some(c),
                decreases n - i,
            {
                let is_c = match &self.children[i].contents {
                    Some(l) => *l == c,
                    None => false,
                };
                if is_c {
                    found = i;
                }
                i = i + 1;
            }
            if found < n {
                let child = &self.children[found];
                proof {
                    use_type_invariant(child);
                }
                let sub = child.words_rec(pattern, pi + 1);
                let mut sj: usize = 0;
                while sj < sub.len()
                    invariant
                        sj <= sub@.len(),
                        r@.len() == sj,
                        forall|t: int|
                            0 <= t < r@.len() ==> (#[trigger] r@[t])@ =~= seq![c] + sub@[t]@,
                    decreases sub@.len() - sj,
                {
                    let mut word: Vec<char> = Vec::new();
                    word.push(c);
                    append_chars(&mut word, &sub[sj]);
                    proof {
                        assert(word@ =~= seq![c] + sub@[sj as int]@);
                    }
                    r.push(word);
                    sj = sj + 1;
                }
                proof {
                    let fi = found as int;
                    assert(self.children@[fi].contents == Some(c));
                    assert forall|j: int|
                        0 <= j < n && j != fi implies (#[trigger] self.children@[j]).contents
                        != Some(c) by {
                        if j < fi {
                            assert((self.children@[j].contents->Some_0 as u32) < (
                            self.children@[fi].contents->Some_0 as u32));
                        } else {
                            assert((self.children@[fi].contents->Some_0 as u32) < (
                            self.children@[j].contents->Some_0 as u32));
                        }
                        if self.children@[j].contents == Some(c) {
                            assert(false);
                        }
                    }
                    assert forall|t: int|
                        0 <= t < r@.len() implies node_has_word(*self, (#[trigger] r@[t])@)
                        && pattern_matches(r@[t]@, p) by {
                        let s = sub@[t]@;
                        assert(r@[t]@ == seq![c] + s);
                        assert(r@[t]@[0] == c);
                        assert(r@[t]@.drop_first() =~= s);
                        assert(node_has_word(self.children@[fi], s));
                        assert(node_has_word(*self, r@[t]@));
                        assert(pattern_matches(s, p.drop_first()));
                        assert forall|q: int| 0 <= q < p.len() implies p[q] == ' ' || r@[t]@[q]
                            == p[q] by {
                            if q > 0 {
                                assert(r@[t]@[q] == s[q - 1]);
                                assert(p[q] == p.drop_first()[q - 1]);
                            }
                        }
                    }
                    assert forall|w: Seq<char>|
                        node_has_word(*self, w) && pattern_matches(w, p) implies contains_chars(
                        r@,
                        w,
                    ) by {
                        assert(w.len() == p.len());
                        assert(w[0] == c);
                        let i2 = choose|i2: int|
                            0 <= i2 < self.children@.len() && (#[trigger] self.children@[i2]).contents
                                == Some(w[0]) && node_has_word(self.children@[i2], w.drop_first());
                        assert(i2 == fi);
                        assert(pattern_matches(w.drop_first(), p.drop_first())) by {
                            assert(w.drop_first().len() == p.drop_first().len());
                            assert forall|q: int|
                                0 <= q < p.drop_first().len() implies p.drop_first()[q] == ' '
                                || w.drop_first()[q] == p.drop_first()[q] by {
                                assert(w.drop_first()[q] == w[q + 1]);
                                assert(p.drop_first()[q] == p[q + 1]);
                            }
                        }
                        assert(contains_chars(sub@, w.drop_first()));
                        let j = choose|j: int|
                            0 <= j < sub@.len() && (#[trigger] sub@[j])@ == w.drop_first();
                        assert(r@[j]@ == seq![c] + w.drop_first());
                        assert(seq![c] + w.drop_first() =~= w);
                    }
                    assert forall|j: int, k: int|
                        0 <= j < k < r@.len() implies r@[j]@ != r@[k]@ by {
                        let a = sub@[j]@;
                        let b = sub@[k]@;
                        assert(a != b);
                        if r@[j]@ == r@[k]@ {
                            assert((seq![c] + a).drop_first() =~= a);
                            assert((seq![c] + b).drop_first() =~= b);
                        }
                    }
                }
                r
            } else {
                proof {
                    assert forall|w: Seq<char>|
                        node_has_word(*self, w) && pattern_matches(w, p) implies contains_chars(
                        r@,
                        w,
                    ) by {
                        assert(w.len() == p.len());
                        assert(w[0] == c);
                        let i2 = choose|i2: int|
                            0 <= i2 < self.children@.len() && (#[trigger] self.children@[i2]).contents
                                == Some(w[0]) && node_has_word(self.children@[i2], w.drop_first());
                        assert(false);
                    }
                }
                r
            }
        }
    }

    /// Whether at least one word below this node matches the pattern suffix
    /// that begins at `ci`; a blank in the pattern matches any letter.
    fn viable_rec(&self, chars: &Vec<char>, ci: usize) -> (r: bool)
        requires
            ci <= chars@.len(),
        ensures
            r <==> exists|w: Seq<char>|
                node_has_word(*self, w) && pattern_matches(w, chars@.skip(ci as int)),
        decreases chars@.len() - ci,
    {
        proof {
            use_type_invariant(self);
        }
        let ghost p = chars@.skip(ci as int);
        if ci == chars.len() {
            proof {
                assert(p =~= Seq::<char>::empty());
                if self.is_terminal {
                    assert(node_has_word(*self, Seq::<char>::empty()));
                    assert(pattern_matches(Seq::<char>::empty(), p));
                }
                if exists|w: Seq<char>| node_has_word(*self, w) && pattern_matches(w, p) {
                    let w = choose|w: Seq<char>| node_has_word(*self, w) && pattern_matches(w, p);
                    assert(w =~= Seq::<char>::empty());
                }
            }
            return self.is_terminal;
        }
        let c = chars[ci];
        proof {
            assert(p.len() > 0);
            assert(p[0] == chars@[ci as int]);
            assert(p.drop_first() =~= chars@.skip(ci + 1));
        }
        let n = self.children.len();
        if c == ' ' {
            let mut i: usize = 0;
            while i < n
                invariant
                    self.wf(),
                    ci < chars.len(),
                    chars@[ci as int] == ' ',
                    p == chars@.skip(ci as int),
                    p.len() > 0,
                    p[0] == ' ',
                    p.drop_first() == chars@.skip(ci + 1),
                    n == self.children@.len(),
                    i <= n,
                    forall|w: Seq<char>|
                        pattern_matches(w, p) && w.len() > 0 ==> !(exists|j: int|
                            0 <= j < i && (#[trigger] self.children@[j]).contents == Some(w[0])
                                && node_has_word(self.children@[j], w.drop_first())),
                decreases n - i,
            {
                let child = &self.children[i];
                proof {
                    use_type_invariant(child);
                }
                if child.viable_rec(chars, ci + 1) {
                    proof {
                        let s = choose|s: Seq<char>|
                            node_has_word(self.children@[i as int], s) && pattern_matches(
                                s,
                                chars@.skip(ci + 1),
                            );
                        let letter = self.children@[i as int].contents->Some_0;
                        let w = seq![letter] + s;
                        assert(w[0] == letter);
                        assert(w.drop_first() =~= s);
                        assert(self.children@[i as int].contents == Some(w[0]));
                        assert(node_has_word(*self, w));
                        assert(pattern_matches(w, p)) by {
                            assert(w.len() == p.len());
                            assert forall|q: int| 0 <= q < p.len() implies p[q] == ' ' || w[q]
                                == p[q] by {
                                if q > 0 {
                                    assert(w[q] == s[q - 1]);
                                    assert(p[q] == p.drop_first()[q - 1]);
                                }
                            }
                        }
                    }
                    return true;
                }
                i = i + 1;
            }
            proof {
                assert forall|w: Seq<char>|
                    !(node_has_word(*self, w) && pattern_matches(w, p)) by {
                    if node_has_word(*self, w) && pattern_matches(w, p) {
                        assert(w.len() == p.len());
                    }
                }
            }
            false
        } else {
            let mut i: usize = 0;
            let mut found: usize = n;
            while i < n && found == n
                invariant
                    self.wf(),
                    n == self.children@.len(),
                    i <= n,
                    found <= n,
                    found == n ==> forall|j: int|
                        0 <= j < i ==> (#[trigger] self.children@[j]).contents != Some(c),
                    found < n ==> self.children@[found as int].contents == Some(c),
                decreases n - i,
            {
                let is_c = match &self.children[i].contents {
                    Some(l) => *l == c,
                    None => false,
                };
                if is_c {
                    found = i;
                }
                i = i + 1;
            }
            if found < n {
                let child = &self.children[found];
                proof {
                    use_type_invariant(child);
                }
                let sub = child.viable_rec(chars, ci + 1);
                proof {
                    let fi = found as int;
                    if sub {
                        let s = choose|s: Seq<char>|
                            node_has_word(self.children@[fi], s) && pattern_matches(
                                s,
                                chars@.skip(ci + 1),
                            );
                        let w = seq![c] + s;
                        assert(w[0] == c);
                        assert(w.drop_first() =~= s);
                        assert(node_has_word(*self, w));
                        assert(pattern_matches(w, p)) by {
                            assert(w.len() == p.len());
                            assert forall|q: int| 0 <= q < p.len() implies p[q] == ' ' || w[q]
                                == p[q] by {
                                if q > 0 {
                                    assert(w[q] == s[q - 1]);
                                    assert(p[q] == p.drop_first()[q - 1]);
                                }
                            }
                        }
                    } else {
                        assert forall|w: Seq<char>|
                            !(node_has_word(*self, w) && pattern_matches(w, p)) by {
                            if node_has_word(*self, w) && pattern_matches(w, p) {
                                assert(w.len() == p.len());
                                assert(w[0] == c);
                                let i2 = choose|i2: int|
                                    0 <= i2 < self.children@.len() && (
                                    #[trigger] self.children@[i2]).contents == Some(w[0])
                                        && node_has_word(self.children@[i2], w.drop_first());
                                assert(i2 == fi) by {
                                    if i2 < fi {
                                        assert((self.children@[i2].contents->Some_0 as u32) < (
                                        self.children@[fi].contents->Some_0 as u32));
                                    } else if i2 > fi {
                                        assert((self.children@[fi].contents->Some_0 as u32) < (
                                        self.children@[i2].contents->Some_0 as u32));
                                    }
                                }
                                assert(pattern_matches(w.drop_first(), p.drop_first())) by {
                                    assert(w.drop_first().len() == p.drop_first().len());
                                    assert forall|q: int|
                                        0 <= q < p.drop_first().len() implies p.drop_first()[q]
                                        == ' ' || w.drop_first()[q] == p.drop_first()[q] by {
                                        assert(w.drop_first()[q] == w[q + 1]);
                                        assert(p.drop_first()[q] == p[q + 1]);
                                    }
                                }
                            }
                        }
                    }
                }
                sub
            } else {
                proof {
                    assert forall|w: Seq<char>|
                        !(node_has_word(*self, w) && pattern_matches(w, p)) by {
                        if node_has_word(*self, w) && pattern_matches(w, p) {
                            assert(w.len() == p.len());
                            assert(w[0] == c);
                            let i2 = choose|i2: int|
                                0 <= i2 < self.children@.len() && (
                                #[trigger] self.children@[i2]).contents == Some(w[0])
                                    && node_has_word(self.children@[i2], w.drop_first());
                            assert(false);
                        }
                    }
                }
                false
            }
        }
    }

    /// Whether at least one word below this node matches the pattern, with a
    /// blank matching any letter.
    pub fn is_viable(&self, chars: &Vec<char>) -> (r: bool)
        ensures
            r <==> exists|w: Seq<char>| node_has_word(*self, w) && pattern_matches(w, chars@),
    {
        let r = self.viable_rec(chars, 0);
        proof {
            assert(chars@.skip(0) =~= chars@);
        }
        r
    }
}


/// A prefix tree over the word list. The root node carries no letter; the
/// tree is read-only after construction and may be shared across workers.
pub struct Trie {
    pub(crate) root: TrieNode,
}

impl Trie {
    /// The root of the tree never carries a letter.
    #[verifier::type_invariant]
    pub open(crate) spec fn wf(self) -> bool {
        self.root.spec_contents() is None
    }

    /// The words stored in the tree.
    pub open(crate) spec fn has_word(self, w: Seq<char>) -> bool {
        node_has_word(self.root, w)
    }

    /// Build a trie over the given word list: the tree stores exactly the
    /// words of the list.
    pub fn build(words: Vec<String>) -> (r: Trie)
        ensures
            forall|w: Seq<char>|
                #[trigger] r.has_word(w) <==> (exists|i: int|
                    0 <= i < words@.len() && (#[trigger] words@[i])@ == w),
    {
        let mut root = TrieNode::new(None);
        let mut i: usize = 0;
        while i < words.len()
            invariant
                i <= words@.len(),
                root.spec_contents() is None,
                forall|w: Seq<char>|
                    #[trigger] node_has_word(root, w) <==> (exists|j: int|
                        0 <= j < i && (#[trigger] words@[j])@ == w),
            decreases words@.len() - i,
        {
            let ghost prev = root;
            root = root.add_sequence(words[i].as_str());
            proof {
                assert forall|w: Seq<char>|
                    #[trigger] node_has_word(root, w) <==> (exists|j: int|
                        0 <= j < i + 1 && (#[trigger] words@[j])@ == w) by {
                    if node_has_word(root, w) {
                        if node_has_word(prev, w) {
                            let j = choose|j: int| 0 <= j < i && (#[trigger] words@[j])@ == w;
                            assert(0 <= j < i + 1 && words@[j]@ == w);
                        } else {
                            assert(words@[i as int]@ == w);
                        }
                    }
                    if exists|j: int| 0 <= j < i + 1 && (#[trigger] words@[j])@ == w {
                        let j = choose|j: int| 0 <= j < i + 1 && (#[trigger] words@[j])@ == w;
                        if j < i {
                            assert(node_has_word(prev, w));
                        } else {
                            assert(w == words@[i as int]@);
                        }
                    }
                }
            }
            i = i + 1;
        }
        Trie { root }
    }

    /// Every word of the list that has the pattern's length and matches it
    /// position-wise, a blank matching any character. The result holds no
    /// duplicates.
    pub fn words(&self, pattern: &Vec<char>) -> (r: Vec<String>)
        ensures
            forall|j: int|
                0 <= j < r@.len() ==> self.has_word((#[trigger] r@[j])@) && pattern_matches(
                    r@[j]@,
                    pattern@,
                ),
            forall|w: Seq<char>|
                self.has_word(w) && pattern_matches(w, pattern@) ==> (exists|j: int|
                    0 <= j < r@.len() && (#[trigger] r@[j])@ == w),
            forall|j: int, k: int| 0 <= j < k < r@.len() ==> r@[j]@ != r@[k]@,
    {
        proof {
            use_type_invariant(self);
            assert(pattern@.skip(0) =~= pattern@);
        }
        let sub = self.root.words_rec(pattern, 0);
        let mut r: Vec<String> = Vec::new();
        let mut j: usize = 0;
        while j < sub.len()
            invariant
                j <= sub@.len(),
                r@.len() == j,
                forall|t: int| 0 <= t < j ==> (#[trigger] r@[t])@ == sub@[t]@,
            decreases sub@.len() - j,
        {
            r.push(chars_to_string(&sub[j]));
            j = j + 1;
        }
        proof {
            assert forall|w: Seq<char>|
                self.has_word(w) && pattern_matches(w, pattern@) implies (exists|t: int|
                0 <= t < r@.len() && (#[trigger] r@[t])@ == w) by {
                assert(contains_chars(sub@, w));
                let t = choose|t: int| 0 <= t < sub@.len() && (#[trigger] sub@[t])@ == w;
                assert(r@[t]@ == w);
            }
        }
        r
    }

    /// Whether at least one word of the list matches the pattern, a blank
    /// matching any character.
    pub fn is_viable(&self, chars: &Vec<char>) -> (r: bool)
        ensures
            r <==> (exists|w: Seq<char>| self.has_word(w) && pattern_matches(w, chars@)),
    {
        proof {
            use_type_invariant(self);
        }
        let r = self.root.is_viable(chars);
        proof {
            if r {
                let w = choose|w: Seq<char>|
                    node_has_word(self.root, w) && pattern_matches(w, chars@);
                assert(self.has_word(w) && pattern_matches(w, chars@));
            }
            if exists|w: Seq<char>| self.has_word(w) && pattern_matches(w, chars@) {
                let w = choose|w: Seq<char>| self.has_word(w) && pattern_matches(w, chars@);
                assert(node_has_word(self.root, w) && pattern_matches(w, chars@));
            }
        }
        r
    }
}

/// A pattern still admits a completion exactly when the list of matching
/// words is non-empty: whatever `is_viable` answers for a pattern agrees
/// with whether `words` returns anything for it.
pub proof fn lemma_viable_iff_words_nonempty(t: Trie, p: Seq<char>, ws: Seq<Seq<char>>)
    requires
        forall|j: int|
            0 <= j < ws.len() ==> t.has_word(#[trigger] ws[j]) && pattern_matches(ws[j], p),
        forall|w: Seq<char>| t.has_word(w) && pattern_matches(w, p) ==> ws.contains(w),
    ensures
        (exists|w: Seq<char>| t.has_word(w) && pattern_matches(w, p)) <==> ws.len() > 0,
{
    if ws.len() > 0 {
        assert(t.has_word(ws[0]) && pattern_matches(ws[0], p));
    }
    if exists|w: Seq<char>| t.has_word(w) && pattern_matches(w, p) {
        let w = choose|w: Seq<char>| t.has_word(w) && pattern_matches(w, p);
        assert(ws.contains(w));
    }
}


/// 256 raised to the given power: the number of values of an `n`-byte field.
pub open spec fn pow256(n: nat) -> nat
    decreases n,
{
    if n == 0 {
        1
    } else {
        256 * pow256((n - 1) as nat)
    }
}

/// A number laid out as `n` bytes, least significant first.
pub open spec fn le_bytes(v: nat, n: nat) -> Seq<u8>
    decreases n,
{
    if n == 0 {
        Seq::empty()
    } else {
        seq![(v % 256) as u8] + le_bytes(v / 256, (n - 1) as nat)
    }
}

/// A number laid out over `n` bytes occupies exactly `n` bytes.
pub proof fn lemma_le_bytes_len(v: nat, n: nat)
    ensures
        le_bytes(v, n).len() == n,
    decreases n,
{
    if n > 0 {
        lemma_le_bytes_len(v / 256, (n - 1) as nat);
    }
}

/// The number encoded by the `n` bytes of `b` that start at `pos`, least
/// significant first.
pub open spec fn le_val(b: Seq<u8>, pos: int, n: nat) -> nat
    decreases n,
{
    if n == 0 {
        0
    } else {
        (b[pos] + 256 * le_val(b, pos + 1, (n - 1) as nat)) as nat
    }
}

/// Reading back `n` bytes that hold `v` yields `v` again.
pub proof fn lemma_le_round_trip(b: Seq<u8>, pos: int, v: nat, n: nat)
    requires
        v < pow256(n),
        0 <= pos,
        pos + n <= b.len(),
        b.subrange(pos, pos + n) == le_bytes(v, n),
    ensures
        le_val(b, pos, n) == v,
    decreases n,
{
    if n == 0 {
    } else {
        lemma_le_bytes_len(v, n);
        lemma_le_bytes_len(v / 256, (n - 1) as nat);
        let sub = b.subrange(pos, pos + n);
        assert(sub[0] == b[pos]);
        assert(b[pos] == (v % 256) as u8);
        assert(v % 256 < 256);
        assert(b.subrange(pos + 1, pos + n) =~= le_bytes(v / 256, (n - 1) as nat)) by {
            assert forall|k: int| 0 <= k < n - 1 implies #[trigger] b.subrange(pos + 1, pos + n)[k]
                == le_bytes(v / 256, (n - 1) as nat)[k] by {
                assert(b.subrange(pos + 1, pos + n)[k] == b[pos + 1 + k]);
                assert(b[pos + 1 + k] == sub[k + 1]);
                assert(sub[k + 1] == (seq![(v % 256) as u8] + le_bytes(v / 256, (n - 1) as nat))[
                    k + 1
                ]);
            }
        }
        assert(v / 256 < pow256((n - 1) as nat)) by {
            assert(v < 256 * pow256((n - 1) as nat));
            assert(v / 256 < pow256((n - 1) as nat)) by (nonlinear_arith)
                requires
                    v < 256 * pow256((n - 1) as nat),
            ;
        }
        lemma_le_round_trip(b, pos + 1, v / 256, (n - 1) as nat);
        assert(le_val(b, pos, n) == b[pos] + 256 * (v / 256));
        assert(v % 256 + 256 * (v / 256) == v) by (nonlinear_arith);
    }
}

/// The value held by any `n` bytes is below `pow256(n)`.
pub proof fn lemma_le_val_bound(b: Seq<u8>, pos: int, n: nat)
    ensures
        le_val(b, pos, n) < pow256(n),
    decreases n,
{
    if n == 0 {
    } else {
        lemma_le_val_bound(b, pos + 1, (n - 1) as nat);
        assert(b[pos] < 256);
        assert(b[pos] + 256 * le_val(b, pos + 1, (n - 1) as nat) < 256 * pow256((n - 1) as nat))
            by (nonlinear_arith)
            requires
                b[pos] < 256,
                le_val(b, pos + 1, (n - 1) as nat) < pow256((n - 1) as nat),
        ;
    }
}

/// `pow256` of the two field widths in use.
pub proof fn lemma_pow256_values()
    ensures
        pow256(4) == 0x1_0000_0000,
        pow256(8) == 0x1_0000_0000_0000_0000,
{
    reveal_with_fuel(pow256, 9);
}

/// Append `v` to `out` as `n` little-endian bytes.
fn push_le(out: &mut Vec<u8>, v: u64, n: usize)
    requires
        (v as nat) < pow256(n as nat),
    ensures
        final(out)@ == old(out)@ + le_bytes(v as nat, n as nat),
{
    proof {
        lemma_le_bytes_len(v as nat, n as nat);
    }
    let mut cur: u64 = v;
    let mut i: usize = 0;
    while i < n
        invariant
            i <= n,
            le_bytes(v as nat, n as nat) =~= out@.skip(old(out)@.len() as int) + le_bytes(
                cur as nat,
                (n - i) as nat,
            ),
            out@.len() == old(out)@.len() + i,
            out@.subrange(0, old(out)@.len() as int) == old(out)@,
        decreases n - i,
    {
        let ghost pre = out@;
        out.push((cur % 256) as u8);
        proof {
            assert(le_bytes(cur as nat, (n - i) as nat) == seq![((cur as nat) % 256) as u8]
                + le_bytes((cur as nat) / 256, (n - i - 1) as nat));
            assert(((cur as nat) % 256) as u8 == (cur % 256) as u8);
            assert((cur / 256) as nat == (cur as nat) / 256);
            assert(out@.skip(old(out)@.len() as int) =~= pre.skip(old(out)@.len() as int)
                + seq![(cur % 256) as u8]);
            assert(le_bytes(v as nat, n as nat) =~= out@.skip(old(out)@.len() as int) + le_bytes(
                (cur / 256) as nat,
                (n - i - 1) as nat,
            ));
            assert(out@.subrange(0, old(out)@.len() as int) =~= old(out)@);
        }
        cur = cur / 256;
        i = i + 1;
    }
    proof {
        assert(le_bytes(cur as nat, 0) =~= Seq::<u8>::empty());
        assert(le_bytes(v as nat, n as nat) =~= out@.skip(old(out)@.len() as int));
        assert(out@ =~= old(out)@ + le_bytes(v as nat, n as nat));
    }
}

/// Read `n` little-endian bytes starting at `pos`, for `n` at most 8.
fn read_le(bytes: &Vec<u8>, pos: usize, n: usize) -> (r: u64)
    requires
        n <= 8,
        pos + n <= bytes@.len(),
    ensures
        r as nat == le_val(bytes@, pos as int, n as nat),
{
    proof {
        lemma_pow256_values();
        assert(bytes.len() == bytes@.len());
    }
    let mut acc: u64 = 0;
    let mut k: usize = n;
    while k > 0
        invariant
            k <= n,
            n <= 8,
            pos + n <= bytes@.len(),
            bytes@.len() <= usize::MAX,
            acc as nat == le_val(bytes@, pos + k, (n - k) as nat),
            (acc as nat) < pow256((n - k) as nat),
            pow256(8) == 0x1_0000_0000_0000_0000,
        decreases k,
    {
        proof {
            assert(pow256((n - k + 1) as nat) == 256 * pow256((n - k) as nat));
            assert(pow256((n - k + 1) as nat) <= pow256(8)) by {
                lemma_pow256_le(((n - k + 1) as nat), 8);
            }
            assert(acc as nat * 256 + 256 <= pow256((n - k + 1) as nat)) by (nonlinear_arith)
                requires
                    (acc as nat) < pow256((n - k) as nat),
                    pow256((n - k + 1) as nat) == 256 * pow256((n - k) as nat),
            ;
        }
        let b = bytes[pos + k - 1];
        acc = acc * 256 + (b as u64);
        k = k - 1;
        proof {
            assert(le_val(bytes@, pos + k, (n - k) as nat) == bytes@[pos + k] + 256 * le_val(
                bytes@,
                pos + k + 1,
                (n - k - 1) as nat,
            ));
        }
    }
    proof {
        assert((n - k) as nat == n as nat);
    }
    acc
}

/// `pow256` grows with its argument.
pub proof fn lemma_pow256_le(a: nat, b: nat)
    requires
        a <= b,
    ensures
        pow256(a) <= pow256(b),
    decreases b,
{
    if a < b {
        lemma_pow256_le(a, (b - 1) as nat);
        assert(pow256(b) == 256 * pow256((b - 1) as nat));
        assert(pow256((b - 1) as nat) <= 256 * pow256((b - 1) as nat)) by (nonlinear_arith)
            requires
                pow256((b - 1) as nat) >= 0,
        ;
    }
}


impl TrieNode {
    /// Every word stored below this node, each exactly once.
    fn all_words(&self) -> (r: Vec<Vec<char>>)
        ensures
            forall|j: int| 0 <= j < r@.len() ==> node_has_word(*self, (#[trigger] r@[j])@),
            forall|w: Seq<char>| node_has_word(*self, w) ==> contains_chars(r@, w),
            forall|j: int, k: int| 0 <= j < k < r@.len() ==> r@[j]@ != r@[k]@,
        decreases *self,
    {
        proof {
            use_type_invariant(self);
        }
        let mut r: Vec<Vec<char>> = Vec::new();
        if self.is_terminal {
            r.push(Vec::new());
            proof {
                assert(r@[0]@ =~= Seq::<char>::empty());
                assert(node_has_word(*self, Seq::<char>::empty()));
            }
        }
        let ghost base = r@;
        let n = self.children.len();
        let mut ci: usize = 0;
        while ci < n
            invariant
                self.wf(),
                n == self.children@.len(),
                ci <= n,
                base == r@.take(base.len() as int),
                base.len() <= r@.len(),
                base.len() == (if self.is_terminal { 1int } else { 0int }),
                self.is_terminal ==> base[0]@ == Seq::<char>::empty(),
                forall|j: int| 0 <= j < r@.len() ==> node_has_word(*self, (#[trigger] r@[j])@),
                forall|j: int|
                    base.len() <= j < r@.len() ==> (#[trigger] r@[j])@.len() > 0 && (exists|i: int|
                        0 <= i < ci && (#[trigger] self.children@[i]).contents == Some(r@[j]@[0])),
                forall|w: Seq<char>|
                    w.len() > 0 && (exists|i: int|
                        0 <= i < ci && (#[trigger] self.children@[i]).contents == Some(w[0])
                            && node_has_word(self.children@[i], w.drop_first()))
                        ==> contains_chars(r@, w),
                forall|j: int, k: int| 0 <= j < k < r@.len() ==> r@[j]@ != r@[k]@,
            decreases n - ci,
        {
            let child = &self.children[ci];
            proof {
                use_type_invariant(child);
            }
            let sub = child.all_words();
            let letter = child.contents.unwrap();
            let ghost r0 = r@;
            let mut sj: usize = 0;
            while sj < sub.len()
                invariant
                    sj <= sub@.len(),
                    r@.len() == r0.len() + sj,
                    forall|t: int| 0 <= t < r0.len() ==> r@[t] == r0[t],
                    forall|t: int|
                        r0.len() <= t < r@.len() ==> (#[trigger] r@[t])@ =~= seq![letter]
                            + sub@[t - r0.len()]@,
                decreases sub@.len() - sj,
            {
                let mut word: Vec<char> = Vec::new();
                word.push(letter);
                append_chars(&mut word, &sub[sj]);
                proof {
                    assert(word@ =~= seq![letter] + sub@[sj as int]@);
                }
                r.push(word);
                sj = sj + 1;
            }
            proof {
                let ci_ = ci as int;
                assert(self.children@[ci_].contents == Some(letter));
                assert(base =~= r@.take(base.len() as int));
                // earlier entries are unchanged
                assert forall|t: int|
                    0 <= t < r0.len() implies node_has_word(*self, (#[trigger] r@[t])@) by {
                    assert(r@[t] == r0[t]);
                }
                assert forall|t: int|
                    base.len() <= t < r0.len() implies (#[trigger] r@[t])@.len() > 0 && (exists|
                        i: int,
                    |
                        0 <= i < ci_ + 1 && (#[trigger] self.children@[i]).contents == Some(
                            r@[t]@[0],
                        )) by {
                    assert(r@[t] == r0[t]);
                    assert(r0[t]@.len() > 0);
                    let i = choose|i: int|
                        0 <= i < ci_ && (#[trigger] self.children@[i]).contents == Some(r0[t]@[0]);
                    assert(0 <= i < ci_ + 1 && self.children@[i].contents == Some(r@[t]@[0]));
                }
                // the new entries
                assert forall|t: int|
                    r0.len() <= t < r@.len() implies node_has_word(*self, (#[trigger] r@[t])@)
                    && r@[t]@.len() > 0 && (exists|i: int|
                    0 <= i < ci_ + 1 && (#[trigger] self.children@[i]).contents == Some(
                        r@[t]@[0],
                    )) by {
                    let s = sub@[t - r0.len()]@;
                    assert(r@[t]@ == seq![letter] + s);
                    assert(r@[t]@[0] == letter);
                    assert(r@[t]@.drop_first() =~= s);
                    assert(node_has_word(self.children@[ci_], s));
                    assert(node_has_word(*self, r@[t]@));
                    assert(self.children@[ci_].contents == Some(r@[t]@[0]));
                }
                // completeness for children up to and including ci
                assert forall|w: Seq<char>|
                    w.len() > 0 && (exists|i: int|
                        0 <= i < ci_ + 1 && (#[trigger] self.children@[i]).contents == Some(w[0])
                            && node_has_word(self.children@[i], w.drop_first()))
                        implies contains_chars(r@, w) by {
                    let i = choose|i: int|
                        0 <= i < ci_ + 1 && (#[trigger] self.children@[i]).contents == Some(w[0])
                            && node_has_word(self.children@[i], w.drop_first());
                    if i < ci_ {
                        assert(contains_chars(r0, w));
                        let j = choose|j: int| 0 <= j < r0.len() && (#[trigger] r0[j])@ == w;
                        assert(r@[j]@ == w);
                    } else {
                        assert(w[0] == letter);
                        assert(contains_chars(sub@, w.drop_first()));
                        let j = choose|j: int|
                            0 <= j < sub@.len() && (#[trigger] sub@[j])@ == w.drop_first();
                        assert(r@[r0.len() + j]@ == seq![letter] + w.drop_first());
                        assert(seq![letter] + w.drop_first() =~= w);
                    }
                }
                // distinctness
                assert forall|j: int, k: int| 0 <= j < k < r@.len() implies r@[j]@ != r@[k]@ by {
                    if k < r0.len() {
                        assert(r@[j]@ == r0[j]@);
                        assert(r@[k]@ == r0[k]@);
                        assert(r0[j]@ != r0[k]@);
                    } else if j < r0.len() {
                        assert(r@[k]@ == seq![letter] + sub@[k - r0.len()]@);
                        assert(r@[k]@[0] == letter);
                        assert(r@[k]@.len() > 0);
                        if j < base.len() {
                            assert(r@[j] == r0[j]);
                            assert(r0[j] == base[j]);
                            assert(r@[j]@.len() == 0);
                        } else {
                            assert(r@[j] == r0[j]);
                            assert(r0[j]@.len() > 0);
                            let i = choose|i: int|
                                0 <= i < ci_ && (#[trigger] self.children@[i]).contents == Some(
                                    r0[j]@[0],
                                );
                            if r@[j]@ == r@[k]@ {
                                assert(self.children@[i].contents->Some_0 == letter);
                                assert((self.children@[i].contents->Some_0 as u32) < (
                                self.children@[ci_].contents->Some_0 as u32));
                                assert(false);
                            }
                        }
                    } else {
                        let a = sub@[j - r0.len()]@;
                        let b = sub@[k - r0.len()]@;
                        assert(a != b);
                        if r@[j]@ == r@[k]@ {
                            assert((seq![letter] + a).drop_first() =~= a);
                            assert((seq![letter] + b).drop_first() =~= b);
                            assert(false);
                        }
                    }
                }
            }
            ci = ci + 1;
        }
        proof {
            assert forall|w: Seq<char>|
                node_has_word(*self, w) implies contains_chars(r@, w) by {
                if w.len() == 0 {
                    assert(w =~= Seq::<char>::empty());
                    assert(r@[0]@ == w);
                }
            }
        }
        r
    }
}


/// The characters of one word, each as four little-endian bytes.
pub open spec fn spec_chars_bytes(w: Seq<char>) -> Seq<u8>
    decreases w.len(),
{
    if w.len() == 0 {
        Seq::empty()
    } else {
        le_bytes(w[0] as u32 as nat, 4) + spec_chars_bytes(w.drop_first())
    }
}

/// One serialized word: its length over eight bytes, then its characters.
pub open spec fn spec_word_bytes(w: Seq<char>) -> Seq<u8> {
    le_bytes(w.len(), 8) + spec_chars_bytes(w)
}

/// A serialized word list, without the leading count.
pub open spec fn spec_words_body(l: Seq<Seq<char>>) -> Seq<u8>
    decreases l.len(),
{
    if l.len() == 0 {
        Seq::empty()
    } else {
        spec_word_bytes(l[0]) + spec_words_body(l.drop_first())
    }
}

/// The whole serialized form: the word count over eight bytes, then each word.
pub open spec fn spec_trie_bytes(l: Seq<Seq<char>>) -> Seq<u8> {
    le_bytes(l.len(), 8) + spec_words_body(l)
}

pub proof fn lemma_chars_bytes_len(w: Seq<char>)
    ensures
        spec_chars_bytes(w).len() == 4 * w.len(),
    decreases w.len(),
{
    if w.len() > 0 {
        lemma_le_bytes_len(w[0] as u32 as nat, 4);
        lemma_chars_bytes_len(w.drop_first());
    }
}

pub proof fn lemma_chars_bytes_push(w: Seq<char>, c: char)
    ensures
        spec_chars_bytes(w.push(c)) == spec_chars_bytes(w) + le_bytes(c as u32 as nat, 4),
    decreases w.len(),
{
    let t = w.push(c);
    if w.len() == 0 {
        assert(t.len() == 1);
        assert(t[0] == c);
        assert(t.drop_first() =~= Seq::<char>::empty());
        assert(spec_chars_bytes(t.drop_first()) == Seq::<u8>::empty());
        assert(spec_chars_bytes(w) == Seq::<u8>::empty());
        assert(spec_chars_bytes(t) == le_bytes(t[0] as u32 as nat, 4) + spec_chars_bytes(
            t.drop_first(),
        ));
        assert(spec_chars_bytes(t) =~= spec_chars_bytes(w) + le_bytes(c as u32 as nat, 4));
    } else {
        assert(t[0] == w[0]);
        assert(t.drop_first() =~= w.drop_first().push(c));
        lemma_chars_bytes_push(w.drop_first(), c);
        assert(le_bytes(w[0] as u32 as nat, 4) + (spec_chars_bytes(w.drop_first()) + le_bytes(
            c as u32 as nat,
            4,
        )) =~= (le_bytes(w[0] as u32 as nat, 4) + spec_chars_bytes(w.drop_first())) + le_bytes(
            c as u32 as nat,
            4,
        ));
        assert(spec_chars_bytes(t) =~= spec_chars_bytes(w) + le_bytes(c as u32 as nat, 4));
    }
}

pub proof fn lemma_words_body_push(l: Seq<Seq<char>>, w: Seq<char>)
    ensures
        spec_words_body(l.push(w)) == spec_words_body(l) + spec_word_bytes(w),
    decreases l.len(),
{
    let t = l.push(w);
    if l.len() == 0 {
        assert(t.len() == 1);
        assert(t[0] == w);
        assert(t.drop_first() =~= Seq::<Seq<char>>::empty());
        assert(spec_words_body(t.drop_first()) == Seq::<u8>::empty());
        assert(spec_words_body(l) == Seq::<u8>::empty());
        assert(spec_words_body(t) == spec_word_bytes(t[0]) + spec_words_body(t.drop_first()));
        assert(spec_words_body(t) =~= spec_words_body(l) + spec_word_bytes(w));
    } else {
        assert(t[0] == l[0]);
        assert(t.drop_first() =~= l.drop_first().push(w));
        lemma_words_body_push(l.drop_first(), w);
        assert(spec_word_bytes(l[0]) + (spec_words_body(l.drop_first()) + spec_word_bytes(w)) =~= (
        spec_word_bytes(l[0]) + spec_words_body(l.drop_first())) + spec_word_bytes(w));
        assert(spec_words_body(t) =~= spec_words_body(l) + spec_word_bytes(w));
    }
}

/// Parse `len` characters starting at `pos`, each four little-endian bytes
/// holding a Unicode scalar value, appended to `acc`.
pub open spec fn spec_parse_chars(b: Seq<u8>, pos: int, len: nat, acc: Seq<char>) -> Option<
    (Seq<char>, int),
>
    decreases b.len() - pos,
{
    if len == 0 {
        Some((acc, pos))
    } else if pos < 0 || pos + 4 > b.len() {
        None
    } else {
        let u = le_val(b, pos, 4);
        if u < 0x1_0000_0000 && vstd::utf8::is_scalar(u as u32) {
            spec_parse_chars(b, pos + 4, (len - 1) as nat, acc.push((u as u32) as char))
        } else {
            None
        }
    }
}

/// Parse `count` words starting at `pos`, each a length field and that many
/// characters, appended to `acc`.
pub open spec fn spec_parse_words(b: Seq<u8>, pos: int, count: nat, acc: Seq<Seq<char>>) -> Option<
    (Seq<Seq<char>>, int),
>
    decreases b.len() - pos, count,
{
    if count == 0 {
        Some((acc, pos))
    } else if pos < 0 || pos + 8 > b.len() {
        None
    } else {
        let len = le_val(b, pos, 8);
        match spec_parse_chars(b, pos + 8, len, Seq::empty()) {
            None => None,
            Some((w, p2)) => if p2 <= pos || p2 > b.len() {
                None
            } else {
                spec_parse_words(b, p2, (count - 1) as nat, acc.push(w))
            },
        }
    }
}

/// Parse a whole serialized word list: the count, then the words, consuming
/// every byte.
pub open spec fn spec_parse_trie(b: Seq<u8>) -> Option<Seq<Seq<char>>> {
    if b.len() < 8 {
        None
    } else {
        match spec_parse_words(b, 8, le_val(b, 0, 8), Seq::empty()) {
            None => None,
            Some((l, e)) => if e == b.len() {
                Some(l)
            } else {
                None
            },
        }
    }
}

/// A byte range that holds the concatenation of two encodings splits into
/// one range for each.
proof fn lemma_subrange_split(b: Seq<u8>, pos: int, x: Seq<u8>, y: Seq<u8>)
    requires
        0 <= pos,
        pos + x.len() + y.len() <= b.len(),
        b.subrange(pos, pos + x.len() + y.len()) == x + y,
    ensures
        b.subrange(pos, pos + x.len()) == x,
        b.subrange(pos + x.len(), pos + x.len() + y.len()) == y,
{
    let whole = b.subrange(pos, pos + x.len() + y.len());
    assert forall|k: int| 0 <= k < x.len() implies #[trigger] b.subrange(pos, pos + x.len())[k]
        == x[k] by {
        assert(b.subrange(pos, pos + x.len())[k] == b[pos + k]);
        assert(whole[k] == b[pos + k]);
        assert(whole[k] == (x + y)[k]);
    }
    assert(b.subrange(pos, pos + x.len()) =~= x);
    assert forall|k: int|
        0 <= k < y.len() implies #[trigger] b.subrange(
            pos + x.len(),
            pos + x.len() + y.len(),
        )[k] == y[k] by {
        assert(b.subrange(pos + x.len(), pos + x.len() + y.len())[k] == b[pos + x.len() + k]);
        assert(whole[x.len() + k] == b[pos + x.len() + k]);
        assert(whole[x.len() + k] == (x + y)[x.len() + k]);
    }
    assert(b.subrange(pos + x.len(), pos + x.len() + y.len()) =~= y);
}

/// Parsing the serialized characters of `w` recovers `w`.
proof fn lemma_parse_chars_round(b: Seq<u8>, pos: int, w: Seq<char>, acc: Seq<char>)
    requires
        0 <= pos,
        pos + 4 * w.len() <= b.len(),
        b.subrange(pos, pos + 4 * w.len()) == spec_chars_bytes(w),
    ensures
        spec_parse_chars(b, pos, w.len(), acc) == Some((acc + w, pos + 4 * w.len())),
    decreases w.len(),
{
    lemma_pow256_values();
    if w.len() == 0 {
        assert(acc + w =~= acc);
    } else {
        let first = le_bytes(w[0] as u32 as nat, 4);
        let rest = spec_chars_bytes(w.drop_first());
        lemma_le_bytes_len(w[0] as u32 as nat, 4);
        lemma_chars_bytes_len(w.drop_first());
        lemma_subrange_split(b, pos, first, rest);
        lemma_le_round_trip(b, pos, w[0] as u32 as nat, 4);
        let u = le_val(b, pos, 4);
        assert(u == w[0] as u32 as nat);
        assert(u as u32 == w[0] as u32);
        vstd::utf8::char_is_scalar(w[0]);
        vstd::utf8::char_u32_cast(w[0], w[0] as u32);
        assert((u as u32) as char == w[0]);
        lemma_parse_chars_round(b, pos + 4, w.drop_first(), acc.push(w[0]));
        assert(acc.push(w[0]) + w.drop_first() =~= acc + w);
        assert(pos + 4 + 4 * w.drop_first().len() == pos + 4 * w.len());
    }
}

/// Parsing the serialized form of the word list `l` recovers `l`.
proof fn lemma_parse_words_round(b: Seq<u8>, pos: int, l: Seq<Seq<char>>, acc: Seq<Seq<char>>)
    requires
        0 <= pos,
        pos + spec_words_body(l).len() <= b.len(),
        b.subrange(pos, pos + spec_words_body(l).len()) == spec_words_body(l),
        forall|i: int| 0 <= i < l.len() ==> (#[trigger] l[i]).len() < pow256(8),
    ensures
        spec_parse_words(b, pos, l.len(), acc) == Some((acc + l, pos + spec_words_body(l).len())),
    decreases l.len(),
{
    lemma_pow256_values();
    if l.len() == 0 {
        assert(acc + l =~= acc);
    } else {
        let w = l[0];
        let word = spec_word_bytes(w);
        let rest = spec_words_body(l.drop_first());
        assert(spec_words_body(l) == word + rest);
        lemma_le_bytes_len(w.len(), 8);
        lemma_chars_bytes_len(w);
        lemma_subrange_split(b, pos, word, rest);
        let lenfield = le_bytes(w.len(), 8);
        let chars = spec_chars_bytes(w);
        assert(word == lenfield + chars);
        lemma_subrange_split(b, pos, lenfield, chars);
        assert(w.len() < pow256(8));
        lemma_le_round_trip(b, pos, w.len(), 8);
        assert(le_val(b, pos, 8) == w.len());
        lemma_parse_chars_round(b, pos + 8, w, Seq::empty());
        assert(Seq::<char>::empty() + w =~= w);
        let p2 = pos + 8 + 4 * w.len();
        assert(spec_parse_chars(b, pos + 8, w.len(), Seq::empty()) == Some((w, p2)));
        assert(p2 > pos);
        assert forall|i: int|
            0 <= i < l.drop_first().len() implies (#[trigger] l.drop_first()[i]).len() < pow256(
            8,
        ) by {
            assert(l.drop_first()[i] == l[i + 1]);
        }
        lemma_parse_words_round(b, p2, l.drop_first(), acc.push(w));
        assert(acc.push(w) + l.drop_first() =~= acc + l);
        assert(p2 + spec_words_body(l.drop_first()).len() == pos + spec_words_body(l).len());
    }
}

/// Parsing the full serialized form of `l` recovers `l` exactly.
pub proof fn lemma_parse_trie_round(l: Seq<Seq<char>>)
    requires
        l.len() < pow256(8),
        forall|i: int| 0 <= i < l.len() ==> (#[trigger] l[i]).len() < pow256(8),
    ensures
        spec_parse_trie(spec_trie_bytes(l)) == Some(l),
{
    lemma_pow256_values();
    let b = spec_trie_bytes(l);
    let countf = le_bytes(l.len(), 8);
    let body = spec_words_body(l);
    lemma_le_bytes_len(l.len(), 8);
    assert(b == countf + body);
    assert(b.subrange(0, b.len() as int) =~= b);
    lemma_subrange_split(b, 0, countf, body);
    lemma_le_round_trip(b, 0, l.len(), 8);
    assert(le_val(b, 0, 8) == l.len());
    lemma_parse_words_round(b, 8, l, Seq::empty());
    assert(Seq::<Seq<char>>::empty() + l =~= l);
    assert(spec_parse_words(b, 8, l.len(), Seq::empty()) == Some((l, b.len() as int)));
}

/// Relies on `char::from_u32`: the result is the character with the given
/// scalar value, and `None` exactly when the value is a surrogate or lies
/// beyond the Unicode range.
#[verifier::external_body]
fn char_from_u32(u: u32) -> (r: Option<char>)
    ensures
        r is Some <==> vstd::utf8::is_scalar(u),
        r is Some ==> r->Some_0 as u32 == u,
{
    char::from_u32(u)
}

impl Trie {
    /// The compact binary form of the trie: its word list, each character as
    /// four bytes. Parsing the result yields exactly the words this trie
    /// stores.
    pub fn to_bytes(&self) -> (out: Vec<u8>)
        ensures
            spec_parse_trie(out@) is Some,
            forall|w: Seq<char>|
                #[trigger] self.has_word(w) <==> spec_parse_trie(out@)->Some_0.contains(w),
    {
        proof {
            use_type_invariant(self);
            lemma_pow256_values();
        }
        let ws = self.root.all_words();
        let ghost l = ws@.map_values(|v: Vec<char>| v@);
        let mut out: Vec<u8> = Vec::new();
        proof {
            assert(ws.len() == ws@.len());
            assert(l.len() < pow256(8));
        }
        push_le(&mut out, ws.len() as u64, 8);
        let mut i: usize = 0;
        while i < ws.len()
            invariant
                i <= ws@.len(),
                ws@.len() < pow256(8),
                pow256(8) == 0x1_0000_0000_0000_0000,
                pow256(4) == 0x1_0000_0000,
                l == ws@.map_values(|v: Vec<char>| v@),
                out@ == le_bytes(l.len(), 8) + spec_words_body(l.take(i as int)),
            decreases ws@.len() - i,
        {
            let ghost out0 = out@;
            let w = &ws[i];
            proof {
                assert(w.len() == w@.len());
                assert((w.len() as u64) < pow256(8));
            }
            push_le(&mut out, w.len() as u64, 8);
            let mut k: usize = 0;
            while k < w.len()
                invariant
                    k <= w@.len(),
                    w@.len() < pow256(8),
                    pow256(8) == 0x1_0000_0000_0000_0000,
                    pow256(4) == 0x1_0000_0000,
                    out@ == out0 + le_bytes(w@.len(), 8) + spec_chars_bytes(w@.take(k as int)),
                decreases w@.len() - k,
            {
                let c = w[k];
                proof {
                    assert(((c as u32) as u64) < pow256(4)) by {
                        lemma_pow256_values();
                    }
                }
                push_le(&mut out, (c as u32) as u64, 4);
                proof {
                    lemma_chars_bytes_push(w@.take(k as int), c);
                    assert(w@.take(k as int).push(w@[k as int]) =~= w@.take(k + 1));
                    assert(out@ =~= out0 + le_bytes(w@.len(), 8) + spec_chars_bytes(
                        w@.take(k + 1),
                    ));
                }
                k = k + 1;
            }
            proof {
                assert(w@.take(w@.len() as int) =~= w@);
                assert(l[i as int] == w@);
                lemma_words_body_push(l.take(i as int), w@);
                assert(l.take(i as int).push(l[i as int]) =~= l.take(i + 1));
                assert(out0 + le_bytes(w@.len(), 8) + spec_chars_bytes(w@) =~= out0
                    + spec_word_bytes(w@));
                assert(out@ =~= le_bytes(l.len(), 8) + spec_words_body(l.take(i + 1)));
            }
            i = i + 1;
        }
        proof {
            assert(l.take(l.len() as int) =~= l);
            assert(out@ == spec_trie_bytes(l));
            assert forall|t: int| 0 <= t < l.len() implies (#[trigger] l[t]).len() < pow256(
                8,
            ) by {
                assert(l[t] == ws@[t]@);
                assert(ws@[t].len() == ws@[t]@.len());
                lemma_pow256_values();
            }
            lemma_parse_trie_round(l);
            assert forall|w: Seq<char>|
                #[trigger] self.has_word(w) <==> spec_parse_trie(out@)->Some_0.contains(w) by {
                if self.has_word(w) {
                    assert(contains_chars(ws@, w));
                    let j = choose|j: int| 0 <= j < ws@.len() && (#[trigger] ws@[j])@ == w;
                    assert(l[j] == w);
                    assert(l.contains(w));
                }
                if l.contains(w) {
                    let j = choose|j: int| 0 <= j < l.len() && l[j] == w;
                    assert(ws@[j]@ == w);
                    assert(node_has_word(self.root, w));
                }
            }
        }
        out
    }

    /// Rebuild a trie from its compact binary form. Fails with a load error
    /// when the bytes are not a well-formed word list.
    pub fn from_bytes(bytes: &Vec<u8>) -> (r: Result<Trie, String>)
        ensures
            match r {
                Ok(t) => spec_parse_trie(bytes@) is Some && (forall|w: Seq<char>|
                    #[trigger] t.has_word(w) <==> spec_parse_trie(bytes@)->Some_0.contains(w)),
                Err(e) => spec_parse_trie(bytes@) is None && e@ == "Failed to load trie."@,
            },
    {
        proof {
            lemma_pow256_values();
            assert(bytes.len() == bytes@.len());
        }
        if bytes.len() < 8 {
            return Err(string_from_strlit("Failed to load trie."));
        }
        let count = read_le(bytes, 0, 8);
        let mut ws: Vec<Vec<char>> = Vec::new();
        proof {
            assert(ws@.map_values(|v: Vec<char>| v@) =~= Seq::<Seq<char>>::empty());
        }
        let mut pos: usize = 8;
        let mut i: u64 = 0;
        while i < count
            invariant
                8 <= pos,
                pos <= bytes@.len(),
                bytes@.len() >= 8,
                i <= count,
                ws@.len() == i,
                count as nat == le_val(bytes@, 0, 8),
                pow256(8) == 0x1_0000_0000_0000_0000,
                pow256(4) == 0x1_0000_0000,
                spec_parse_words(bytes@, 8, count as nat, Seq::empty()) == spec_parse_words(
                    bytes@,
                    pos as int,
                    (count - i) as nat,
                    ws@.map_values(|v: Vec<char>| v@),
                ),
            decreases count - i,
        {
            let ghost acc0 = ws@.map_values(|v: Vec<char>| v@);
            if bytes.len() - pos < 8 {
                proof {
                    assert((count - i) as nat > 0);
                    assert(pos + 8 > bytes@.len());
                    assert(spec_parse_words(
                        bytes@,
                        pos as int,
                        (count - i) as nat,
                        acc0,
                    ) is None);
                }
                return Err(string_from_strlit("Failed to load trie."));
            }
            let wl = read_le(bytes, pos, 8);
            let mut word: Vec<char> = Vec::new();
            let mut wpos: usize = pos + 8;
            let mut k: u64 = 0;
            while k < wl
                invariant
                    8 <= pos,
                    pos + 8 <= wpos,
                    wpos <= bytes@.len(),
                    k <= wl,
                    i < count,
                    word@.len() == k,
                    wl as nat == le_val(bytes@, pos as int, 8),
                    count as nat == le_val(bytes@, 0, 8),
                    acc0 == ws@.map_values(|v: Vec<char>| v@),
                    spec_parse_words(bytes@, 8, count as nat, Seq::empty()) == spec_parse_words(
                        bytes@,
                        pos as int,
                        (count - i) as nat,
                        acc0,
                    ),
                    pow256(8) == 0x1_0000_0000_0000_0000,
                    pow256(4) == 0x1_0000_0000,
                    spec_parse_chars(bytes@, pos + 8, wl as nat, Seq::empty())
                        == spec_parse_chars(bytes@, wpos as int, (wl - k) as nat, word@),
                decreases wl - k,
            {
                if bytes.len() - wpos < 4 {
                    proof {
                        assert(spec_parse_chars(
                            bytes@,
                            wpos as int,
                            (wl - k) as nat,
                            word@,
                        ) is None);
                        assert(spec_parse_words(
                            bytes@,
                            pos as int,
                            (count - i) as nat,
                            acc0,
                        ) is None);
                    }
                    return Err(string_from_strlit("Failed to load trie."));
                }
                let u = read_le(bytes, wpos, 4);
                proof {
                    lemma_le_val_bound(bytes@, wpos as int, 4);
                }
                let u32v = u as u32;
                match char_from_u32(u32v) {
                    Some(c) => {
                        proof {
                            vstd::utf8::char_u32_cast(c, u32v);
                            assert((le_val(bytes@, wpos as int, 4) as u32) as char == c);
                        }
                        word.push(c);
                    },
                    None => {
                        proof {
                            assert(spec_parse_chars(
                                bytes@,
                                wpos as int,
                                (wl - k) as nat,
                                word@,
                            ) is None);
                            assert(spec_parse_words(
                                bytes@,
                                pos as int,
                                (count - i) as nat,
                                acc0,
                            ) is None);
                        }
                        return Err(string_from_strlit("Failed to load trie."));
                    },
                }
                wpos = wpos + 4;
                k = k + 1;
            }
            proof {
                assert(spec_parse_chars(bytes@, pos + 8, wl as nat, Seq::empty()) == Some(
                    (word@, wpos as int),
                ));
                assert(wpos > pos);
                let mapped = ws@.push(word).map_values(|v: Vec<char>| v@);
                assert(acc0.push(word@) =~= mapped) by {
                    assert forall|t: int|
                        0 <= t < acc0.push(word@).len() implies acc0.push(word@)[t] == #[trigger] mapped[t] by {
                        if t < ws@.len() {
                            assert(acc0[t] == ws@[t]@);
                            assert(mapped[t] == ws@.push(word)[t]@);
                        }
                    }
                }
            }
            ws.push(word);
            pos = wpos;
            i = i + 1;
        }
        proof {
            let acc = ws@.map_values(|v: Vec<char>| v@);
            assert(spec_parse_words(bytes@, pos as int, 0, acc) == Some((acc, pos as int)));
            assert(spec_parse_words(bytes@, 8, count as nat, Seq::empty()) == Some(
                (acc, pos as int),
            ));
        }
        if pos != bytes.len() {
            return Err(string_from_strlit("Failed to load trie."));
        }
        let ghost l = ws@.map_values(|v: Vec<char>| v@);
        proof {
            assert(spec_parse_trie(bytes@) == Some(l));
        }
        let mut root = TrieNode::new(None);
        let mut j: usize = 0;
        while j < ws.len()
            invariant
                j <= ws@.len(),
                l == ws@.map_values(|v: Vec<char>| v@),
                root.spec_contents() is None,
                forall|w: Seq<char>|
                    #[trigger] node_has_word(root, w) <==> (exists|t: int|
                        0 <= t < j && l[t] == w),
            decreases ws@.len() - j,
        {
            let ghost prev = root;
            root = root.add_chars(&ws[j], 0);
            proof {
                assert(ws@[j as int]@.skip(0) =~= ws@[j as int]@);
                assert(l[j as int] == ws@[j as int]@);
                assert forall|w: Seq<char>|
                    #[trigger] node_has_word(root, w) <==> (exists|t: int|
                        0 <= t < j + 1 && l[t] == w) by {
                    if node_has_word(root, w) {
                        if node_has_word(prev, w) {
                            let t = choose|t: int| 0 <= t < j && l[t] == w;
                            assert(0 <= t < j + 1 && l[t] == w);
                        } else {
                            assert(l[j as int] == w);
                        }
                    }
                    if exists|t: int| 0 <= t < j + 1 && l[t] == w {
                        let t = choose|t: int| 0 <= t < j + 1 && l[t] == w;
                        if t < j {
                            assert(node_has_word(prev, w));
                        }
                    }
                }
            }
            j = j + 1;
        }
        let t = Trie { root };
        proof {
            assert forall|w: Seq<char>|
                #[trigger] t.has_word(w) <==> spec_parse_trie(bytes@)->Some_0.contains(w) by {
                if t.has_word(w) {
                    let q = choose|q: int| 0 <= q < l.len() && l[q] == w;
                    assert(l.contains(w));
                }
                if l.contains(w) {
                    let q = choose|q: int| 0 <= q < l.len() && l[q] == w;
                    assert(node_has_word(root, w));
                }
            }
        }
        Ok(t)
    }
}

/// Saving a trie and loading the result yields a trie that stores exactly
/// the same words, so `words` and `is_viable` answer identically on every
/// pattern.
pub proof fn lemma_save_load_round_trip(t: Trie, bytes: Seq<u8>, t2: Trie)
    requires
        spec_parse_trie(bytes) is Some,
        forall|w: Seq<char>|
            #[trigger] t.has_word(w) <==> spec_parse_trie(bytes)->Some_0.contains(w),
        forall|w: Seq<char>|
            #[trigger] t2.has_word(w) <==> spec_parse_trie(bytes)->Some_0.contains(w),
    ensures
        forall|w: Seq<char>| #[trigger] t2.has_word(w) <==> t.has_word(w),
{
}


impl TrieNode {
    /// A human-readable rendering of the subtree: one letter per node, `*`
    /// for a node without a letter, a quote after terminal nodes, children
    /// indented one tab deeper.
    pub fn display(&self) -> (r: String)
        decreases *self,
    {
        proof {
            use_type_invariant(self);
        }
        self.display_rec(1, true)
    }

    fn display_rec(&self, depth: usize, first_child: bool) -> (r: String)
        decreases *self,
    {
        proof {
            use_type_invariant(self);
        }
        let mut out = String::new();
        if !first_child {
            let mut d: usize = 0;
            while d < depth
                decreases depth - d,
            {
                push_char(&mut out, '\t');
                d = d + 1;
            }
        } else {
            push_char(&mut out, '\t');
        }
        match &self.contents {
            Some(c) => push_char(&mut out, *c),
            None => push_char(&mut out, '*'),
        }
        if self.is_terminal {
            push_char(&mut out, '\'');
        }
        if self.children.len() == 0 {
            push_char(&mut out, '\n');
            return out;
        }
        let deeper = if depth < usize::MAX {
            depth + 1
        } else {
            depth
        };
        let mut i: usize = 0;
        while i < self.children.len()
            invariant
                self.wf(),
            decreases self.children@.len() - i,
        {
            let piece = self.children[i].display_rec(deeper, i == 0);
            out.append(piece.as_str());
            i = i + 1;
        }
        out
    }
}

impl Trie {
    /// A human-readable rendering of the whole tree.
    pub fn display(&self) -> (r: String) {
        proof {
            use_type_invariant(self);
        }
        self.root.display()
    }
}

} // verus!
