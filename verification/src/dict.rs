//! The dictionary index: the set of distinct normalized corpus words.
//! Membership is exact string equality on normalized words; the index is
//! built once and read-only afterwards.

use vstd::prelude::*;

verus! {

/// The set of word views held by a sequence of strings.
pub open spec fn word_set(ws: Seq<String>) -> Set<Seq<char>> {
    Set::new(|w: Seq<char>| exists|j: int| 0 <= j < ws.len() && ws[j]@ == w)
}

/// A lookup index over the distinct words of the corpus. Its view is the
/// set of those words; `contains` decides membership exactly.
pub struct Dictionary {
    words: Vec<String>,
}

impl View for Dictionary {
    type V = Set<Seq<char>>;

    closed spec fn view(&self) -> Set<Seq<char>> {
        word_set(self.words@)
    }
}

/// Whether a vector of strings holds a string with the given view.
fn holds_word(v: &Vec<String>, w: &String) -> (r: bool)
    ensures
        r == exists|j: int| 0 <= j < v@.len() && (#[trigger] v@[j])@ == w@,
{
    let mut j: usize = 0;
    while j < v.len()
        invariant
            j <= v@.len(),
            forall|a: int| 0 <= a < j ==> (#[trigger] v@[a])@ != w@,
        decreases v@.len() - j,
    {
        if v[j].eq(w) {
            return true;
        }
        j = j + 1;
    }
    false
}

impl Dictionary {
    /// Builds the index from the corpus word list. The view is the set of
    /// the words, so a word that occurs several times in the corpus is one
    /// member of the index.
    pub fn new(words: &Vec<String>) -> (d: Dictionary)
        ensures
            d@ == word_set(words@),
    {
        let mut v: Vec<String> = Vec::new();
        let mut i: usize = 0;
        while i < words.len()
            invariant
                i <= words@.len(),
                v@.len() == i,
                forall|a: int| 0 <= a < i ==> v@[a] == words@[a],
            decreases words@.len() - i,
        {
            v.push(words[i].clone());
            i = i + 1;
        }
        proof {
            assert(v@ =~= words@);
        }
        Dictionary { words: v }
    }

    /// Whether a word is in the dictionary.
    pub fn contains(&self, word: &String) -> (r: bool)
        ensures
            r == self@.contains(word@),
    {
        holds_word(&self.words, word)
    }
}

} // verus!
