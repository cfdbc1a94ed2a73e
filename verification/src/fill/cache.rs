//! Per-search memoization of trie answers, keyed by a 64-bit hash of a
//! word view's characters. A hit is taken only after the stored characters
//! are compared with the queried ones, so a cached answer is always the
//! trie's answer for exactly the queried view.

use crate::crossword::WordIterator;
use crate::trie::Trie;
use crate::trie::pattern_matches;
use std::collections::HashMap;
use vstd::prelude::*;

verus! {

/// Relies on `rustc_hash::FxHasher`: hashes the characters of a view into
/// the 64-bit key under which its answers are cached.
#[verifier::external_body]
fn fx_hash_chars(v: &Vec<char>) -> u64 {
    let mut h = rustc_hash::FxHasher::default();
    let mut i: usize = 0;
    while i < v.len() {
        core::hash::Hash::hash(&v[i], &mut h);
        i += 1;
    }
    core::hash::Hasher::finish(&h)
}

/// Whether two character vectors hold the same characters.
pub fn chars_eq(a: &Vec<char>, b: &Vec<char>) -> (r: bool)
    ensures
        r == (a@ == b@),
{
    if a.len() != b.len() {
        return false;
    }
    let mut i: usize = 0;
    while i < a.len()
        invariant
            i <= a@.len(),
            a@.len() == b@.len(),
            forall|j: int| 0 <= j < i ==> a@[j] == b@[j],
        decreases a@.len() - i,
    {
        if a[i] != b[i] {
            return false;
        }
        i = i + 1;
    }
    proof {
        assert(a@ =~= b@);
    }
    true
}

/// The exact answer `words` gives for a pattern: every matching word of the
/// list, each exactly once.
pub open spec fn words_exact(t: Trie, pattern: Seq<char>, ws: Seq<String>) -> bool {
    &&& (forall|j: int|
        0 <= j < ws.len() ==> t.has_word((#[trigger] ws[j])@) && pattern_matches(ws[j]@, pattern))
    &&& (forall|w: Seq<char>|
        t.has_word(w) && pattern_matches(w, pattern) ==> (exists|j: int|
            0 <= j < ws.len() && (#[trigger] ws[j])@ == w))
    &&& (forall|j: int, k: int| 0 <= j < k < ws.len() ==> ws[j]@ != ws[k]@)
}

/// Copy a vector of strings.
fn clone_strings(v: &Vec<String>) -> (r: Vec<String>)
    ensures
        r@ == v@,
{
    let mut r: Vec<String> = Vec::new();
    let mut i: usize = 0;
    while i < v.len()
        invariant
            i <= v@.len(),
            r@.len() == i,
            forall|j: int| 0 <= j < i ==> r@[j] == v@[j],
        decreases v@.len() - i,
    {
        r.push(v[i].clone());
        i = i + 1;
    }
    proof {
        assert(r@ =~= v@);
    }
    r
}

/// A memoized form of `Trie::words`.
pub struct CachedWords {
    pub(crate) words_cache: HashMap<u64, (Vec<char>, Vec<String>)>,
    pub hits: usize,
    pub misses: usize,
}

impl CachedWords {
    /// Every stored entry is the trie's exact answer for the characters it
    /// was stored under.
    pub closed spec fn consistent(&self, t: Trie) -> bool {
        forall|k: u64|
            self.words_cache@.contains_key(k) ==> words_exact(
                t,
                (#[trigger] self.words_cache@[k]).0@,
                self.words_cache@[k].1@,
            )
    }

    /// An empty cache, consistent with any trie.
    pub fn default() -> (r: CachedWords)
        ensures
            forall|t: Trie| r.consistent(t),
    {
        CachedWords { words_cache: HashMap::new(), hits: 0, misses: 0 }
    }

    /// The words of the list that match the view's current characters,
    /// answered from the cache or from the trie on a miss.
    pub fn words(&mut self, iter: &WordIterator, trie: &Trie) -> (r: Vec<String>)
        requires
            old(self).consistent(*trie),
        ensures
            final(self).consistent(*trie),
            words_exact(*trie, iter@, r@),
    {
        let chars = iter.chars();
        let key = fx_hash_chars(&chars);
        let cached = match self.words_cache.get(&key) {
            Some(entry) => {
                if chars_eq(&entry.0, &chars) {
                    Some(clone_strings(&entry.1))
                } else {
                    None
                }
            },
            None => None,
        };
        match cached {
            Some(ws) => {
                if self.hits < usize::MAX {
                    self.hits = self.hits + 1;
                }
                ws
            },
            None => {
                if self.misses < usize::MAX {
                    self.misses = self.misses + 1;
                }
                let ws = trie.words(&chars);
                let stored = clone_strings(&ws);
                self.words_cache.insert(key, (chars, stored));
                ws
            },
        }
    }
}

/// A memoized form of `Trie::is_viable`.
pub struct CachedIsViable {
    pub(crate) is_viable_cache: HashMap<u64, (Vec<char>, bool)>,
}

impl CachedIsViable {
    /// Every stored flag is the trie's answer for the characters it was
    /// stored under.
    pub closed spec fn consistent(&self, t: Trie) -> bool {
        forall|k: u64|
            self.is_viable_cache@.contains_key(k) ==> ((#[trigger] self.is_viable_cache@[k]).1
                <==> (exists|w: Seq<char>|
                t.has_word(w) && pattern_matches(w, self.is_viable_cache@[k].0@)))
    }

    /// An empty cache, consistent with any trie.
    pub fn new() -> (r: CachedIsViable)
        ensures
            forall|t: Trie| r.consistent(t),
    {
        CachedIsViable { is_viable_cache: HashMap::new() }
    }

    /// Whether any word of the list matches the view's current characters,
    /// answered from the cache or from the trie on a miss.
    pub fn is_viable(&mut self, iter: &WordIterator, trie: &Trie) -> (r: bool)
        requires
            old(self).consistent(*trie),
        ensures
            final(self).consistent(*trie),
            r <==> (exists|w: Seq<char>| trie.has_word(w) && pattern_matches(w, iter@)),
    {
        let chars = iter.chars();
        let key = fx_hash_chars(&chars);
        let cached = match self.is_viable_cache.get(&key) {
            Some(entry) => {
                if chars_eq(&entry.0, &chars) {
                    Some(entry.1)
                } else {
                    None
                }
            },
            None => None,
        };
        match cached {
            Some(v) => v,
            None => {
                let v = trie.is_viable(&chars);
                self.is_viable_cache.insert(key, (chars, v));
                v
            },
        }
    }
}

} // verus!
