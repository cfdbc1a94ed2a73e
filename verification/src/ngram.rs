//! A bigram frequency table over a word list.

use crate::trie::lemma_char_code_injective;
use std::collections::HashMap;
use vstd::prelude::*;

verus! {

/// How often the adjacent pair `(a, b)` occurs in one word.
pub open spec fn word_pair_count(w: Seq<char>, a: char, b: char) -> nat
    decreases w.len(),
{
    if w.len() < 2 {
        0
    } else {
        (if w[0] == a && w[1] == b {
            1nat
        } else {
            0nat
        }) + word_pair_count(w.drop_first(), a, b)
    }
}

/// How often the adjacent pair `(a, b)` occurs across a word list.
pub open spec fn words_pair_count(ws: Seq<Seq<char>>, a: char, b: char) -> nat
    decreases ws.len(),
{
    if ws.len() == 0 {
        0
    } else {
        word_pair_count(ws[0], a, b) + words_pair_count(ws.drop_first(), a, b)
    }
}

/// The number of adjacent pairs one word contributes.
pub open spec fn word_pair_cap(w: Seq<char>) -> nat {
    if w.len() >= 1 {
        (w.len() - 1) as nat
    } else {
        0
    }
}

/// The number of adjacent pairs a word list contributes in total.
pub open spec fn total_pair_count(ws: Seq<Seq<char>>) -> nat
    decreases ws.len(),
{
    if ws.len() == 0 {
        0
    } else {
        word_pair_cap(ws[0]) + total_pair_count(ws.drop_first())
    }
}

/// Appending one character adds at most the one new trailing pair.
proof fn lemma_word_pair_count_push(w: Seq<char>, c: char, a: char, b: char)
    ensures
        word_pair_count(w.push(c), a, b) == word_pair_count(w, a, b) + (if w.len() >= 1 && w[w.len()
            - 1] == a && c == b {
            1nat
        } else {
            0nat
        }),
    decreases w.len(),
{
    let t = w.push(c);
    if w.len() == 0 {
        assert(t.len() == 1);
    } else if w.len() == 1 {
        assert(t.len() == 2);
        assert(t[0] == w[0]);
        assert(t[1] == c);
        assert(t.drop_first() =~= Seq::<char>::empty().push(c));
        lemma_word_pair_count_push(w.drop_first(), c, a, b);
        assert(w.drop_first() =~= Seq::<char>::empty());
    } else {
        assert(t[0] == w[0]);
        assert(t[1] == w[1]);
        assert(t.drop_first() =~= w.drop_first().push(c));
        lemma_word_pair_count_push(w.drop_first(), c, a, b);
        assert(w.drop_first().len() == w.len() - 1);
        assert(w.drop_first()[w.len() - 2] == w[w.len() - 1]);
    }
}

/// No pair occurs more often in a word than the word holds pairs.
proof fn lemma_word_pair_count_le(w: Seq<char>, a: char, b: char)
    ensures
        word_pair_count(w, a, b) <= word_pair_cap(w),
    decreases w.len(),
{
    if w.len() >= 2 {
        lemma_word_pair_count_le(w.drop_first(), a, b);
    }
}

/// No pair occurs more often in a word list than the list holds pairs.
proof fn lemma_words_pair_count_le(ws: Seq<Seq<char>>, a: char, b: char)
    ensures
        words_pair_count(ws, a, b) <= total_pair_count(ws),
    decreases ws.len(),
{
    if ws.len() > 0 {
        lemma_word_pair_count_le(ws[0], a, b);
        lemma_words_pair_count_le(ws.drop_first(), a, b);
    }
}

/// One more word adds its own pairs and nothing else.
proof fn lemma_words_pair_count_take(ws: Seq<Seq<char>>, i: int, a: char, b: char)
    requires
        0 <= i < ws.len(),
    ensures
        words_pair_count(ws.take(i + 1), a, b) == words_pair_count(ws.take(i), a, b)
            + word_pair_count(ws[i], a, b),
    decreases ws.len(),
{
    if ws.len() > 0 {
        if i == 0 {
            assert(ws.take(0) =~= Seq::<Seq<char>>::empty());
            assert(ws.take(1).drop_first() =~= Seq::<Seq<char>>::empty());
            assert(ws.take(1)[0] == ws[0]);
        } else {
            lemma_words_pair_count_take(ws.drop_first(), i - 1, a, b);
            assert(ws.take(i + 1)[0] == ws[0]);
            assert(ws.take(i)[0] == ws[0]);
            assert(ws.take(i + 1).drop_first() =~= ws.drop_first().take(i));
            assert(ws.take(i).drop_first() =~= ws.drop_first().take(i - 1));
            assert(ws.drop_first()[i - 1] == ws[i]);
        }
    }
}

/// The same decomposition for the total pair budget.
proof fn lemma_total_pair_count_take(ws: Seq<Seq<char>>, i: int)
    requires
        0 <= i < ws.len(),
    ensures
        total_pair_count(ws.take(i + 1)) == total_pair_count(ws.take(i)) + word_pair_cap(ws[i]),
    decreases ws.len(),
{
    if ws.len() > 0 {
        if i == 0 {
            assert(ws.take(0) =~= Seq::<Seq<char>>::empty());
            assert(ws.take(1).drop_first() =~= Seq::<Seq<char>>::empty());
            assert(ws.take(1)[0] == ws[0]);
        } else {
            lemma_total_pair_count_take(ws.drop_first(), i - 1);
            assert(ws.take(i + 1)[0] == ws[0]);
            assert(ws.take(i)[0] == ws[0]);
            assert(ws.take(i + 1).drop_first() =~= ws.drop_first().take(i));
            assert(ws.take(i).drop_first() =~= ws.drop_first().take(i - 1));
            assert(ws.drop_first()[i - 1] == ws[i]);
        }
    }
}

/// A prefix never holds more pairs than the whole list.
proof fn lemma_total_pair_count_prefix(ws: Seq<Seq<char>>, i: int)
    requires
        0 <= i <= ws.len(),
    ensures
        total_pair_count(ws.take(i)) <= total_pair_count(ws),
    decreases ws.len() - i,
{
    if i < ws.len() {
        lemma_total_pair_count_take(ws, i);
        lemma_total_pair_count_prefix(ws, i + 1);
    } else {
        assert(ws.take(i) =~= ws);
    }
}

/// The map key under which the pair `(a, b)` is stored.
pub open spec fn spec_pair_key(a: char, b: char) -> u64 {
    ((a as u32 as u64) * 0x110000 + (b as u32 as u64)) as u64
}

/// Distinct pairs are stored under distinct keys.
proof fn lemma_pair_key_injective(a: char, b: char, c: char, d: char)
    requires
        spec_pair_key(a, b) == spec_pair_key(c, d),
    ensures
        a == c && b == d,
{
    assert(a as u32 <= 0x10FFFF && b as u32 <= 0x10FFFF && c as u32 <= 0x10FFFF && d as u32
        <= 0x10FFFF);
    assert((a as u32 as u64) == (c as u32 as u64) && (b as u32 as u64) == (d as u32 as u64))
        by (nonlinear_arith)
        requires
            (a as u32 as u64) * 0x110000 + (b as u32 as u64) == (c as u32 as u64) * 0x110000 + (
            d as u32 as u64),
            (a as u32 as u64) <= 0x10FFFF,
            (b as u32 as u64) <= 0x10FFFF,
            (c as u32 as u64) <= 0x10FFFF,
            (d as u32 as u64) <= 0x10FFFF,
    ;
    lemma_char_code_injective(a, c);
    lemma_char_code_injective(b, d);
}

fn pair_key(a: char, b: char) -> (r: u64)
    ensures
        r == spec_pair_key(a, b),
{
    proof {
        assert(a as u32 <= 0x10FFFF && b as u32 <= 0x10FFFF);
    }
    (a as u64) * 0x110000 + (b as u64)
}

/// A mapping from letter pairs to occurrence counts summed across a word
/// list. Read-only after construction.
pub struct BigramTable {
    pub(crate) counts: HashMap<u64, u64>,
}

impl BigramTable {
    /// The stored count for a pair; pairs never seen count zero.
    pub closed spec fn count_of(&self, a: char, b: char) -> nat {
        if self.counts@.contains_key(spec_pair_key(a, b)) {
            self.counts@[spec_pair_key(a, b)] as nat
        } else {
            0
        }
    }

    /// How often the letters `a` and `b` occur adjacently, in that order,
    /// in the word list this table was built from.
    pub fn get(&self, a: char, b: char) -> (r: u64)
        ensures
            r as nat == self.count_of(a, b),
    {
        let k = pair_key(a, b);
        match self.counts.get(&k) {
            Some(v) => *v,
            None => 0,
        }
    }
}

/// Count, for every ordered pair of characters, how often the two occur
/// adjacently across the given words.
pub fn bigrams(words: &Vec<String>) -> (r: BigramTable)
    requires
        total_pair_count(words@.map_values(|s: String| s@)) < u64::MAX,
    ensures
        forall|a: char, b: char|
            #[trigger] r.count_of(a, b) == words_pair_count(
                words@.map_values(|s: String| s@),
                a,
                b,
            ),
{
    let ghost l = words@.map_values(|s: String| s@);
    let mut counts: HashMap<u64, u64> = HashMap::new();
    proof {
        assert forall|a: char, b: char|
            #[trigger] table_count(counts@, a, b) == words_pair_count(l.take(0), a, b) by {
            assert(l.take(0) =~= Seq::<Seq<char>>::empty());
        }
    }
    let mut wi: usize = 0;
    while wi < words.len()
        invariant
            wi <= words@.len(),
            l == words@.map_values(|s: String| s@),
            total_pair_count(l) < u64::MAX,
            forall|a: char, b: char|
                #[trigger] table_count(counts@, a, b) == words_pair_count(l.take(wi as int), a, b),
        decreases words@.len() - wi,
    {
        let s = words[wi].as_str();
        let len = s.unicode_len();
        let ghost w = l[wi as int];
        proof {
            assert(w == words@[wi as int]@);
            assert(words_pair_count(l.take(wi as int), w[0], w[0]) >= 0);
        }
        let mut p: usize = 1;
        if len >= 1 {
            let mut prev = s.get_char(0);
            proof {
                assert(w.take(1).len() == 1);
                assert forall|a: char, b: char|
                    #[trigger] table_count(counts@, a, b) == words_pair_count(l.take(wi as int), a, b)
                        + word_pair_count(w.take(1), a, b) by {
                    assert(word_pair_count(w.take(1), a, b) == 0);
                }
            }
            while p < len
                invariant
                    1 <= p <= len,
                    len == s@.len(),
                    wi < words@.len(),
                    l == words@.map_values(|s2: String| s2@),
                    w == l[wi as int],
                    s@ == w,
                    total_pair_count(l) < u64::MAX,
                    prev == w[p - 1],
                    forall|a: char, b: char|
                        #[trigger] table_count(counts@, a, b) == words_pair_count(
                            l.take(wi as int),
                            a,
                            b,
                        ) + word_pair_count(w.take(p as int), a, b),
                decreases len - p,
            {
                let cur = s.get_char(p);
                let k = pair_key(prev, cur);
                let ghost old_counts = counts@;
                let cnt = match counts.get(&k) {
                    Some(v) => *v,
                    None => 0,
                };
                proof {
                    assert(cnt as nat == table_count(old_counts, prev, cur));
                    lemma_words_pair_count_le(l.take(wi as int), prev, cur);
                    lemma_word_pair_count_le(w.take(p as int), prev, cur);
                    lemma_total_pair_count_prefix(l, wi + 1);
                    lemma_total_pair_count_take(l, wi as int);
                    assert(word_pair_cap(w.take(p as int)) <= word_pair_cap(w));
                    assert(cnt < u64::MAX);
                }
                counts.insert(k, cnt + 1);
                proof {
                    assert(w.take(p as int).push(w[p as int]) =~= w.take(p + 1));
                    assert forall|a: char, b: char|
                        #[trigger] table_count(counts@, a, b) == words_pair_count(
                            l.take(wi as int),
                            a,
                            b,
                        ) + word_pair_count(w.take(p + 1), a, b) by {
                        lemma_word_pair_count_push(w.take(p as int), w[p as int], a, b);
                        if a == prev && b == cur {
                            assert(spec_pair_key(a, b) == k);
                            assert(table_count(counts@, a, b) == cnt + 1);
                            assert(w.take(p as int)[p - 1] == w[p - 1]);
                        } else {
                            if spec_pair_key(a, b) == k {
                                lemma_pair_key_injective(a, b, prev, cur);
                                assert(false);
                            }
                            assert(table_count(counts@, a, b) == table_count(old_counts, a, b));
                            assert(!(w.take(p as int).len() >= 1 && w.take(p as int)[w.take(
                                p as int,
                            ).len() - 1] == a && w[p as int] == b));
                        }
                    }
                }
                prev = cur;
                p = p + 1;
            }
        }
        proof {
            if len >= 1 {
                assert(w.take(len as int) =~= w);
            } else {
                assert(w.len() == 0);
            }
            assert forall|a: char, b: char|
                #[trigger] table_count(counts@, a, b) == words_pair_count(l.take(wi + 1), a, b) by {
                lemma_words_pair_count_take(l, wi as int, a, b);
                if len >= 1 {
                } else {
                    assert(word_pair_count(w, a, b) == 0);
                }
            }
        }
        wi = wi + 1;
    }
    let r = BigramTable { counts };
    proof {
        assert(l.take(words@.len() as int) =~= l);
        assert forall|a: char, b: char|
            #[trigger] r.count_of(a, b) == words_pair_count(l, a, b) by {
            assert(r.count_of(a, b) == table_count(counts@, a, b));
        }
    }
    r
}

/// The count a raw map stores for a pair; absent pairs count zero.
pub open spec fn table_count(m: Map<u64, u64>, a: char, b: char) -> nat {
    if m.contains_key(spec_pair_key(a, b)) {
        m[spec_pair_key(a, b)] as nat
    } else {
        0
    }
}

} // verus!
