//! Corpus preparation and the whole analysis pass: raw corpus lines are
//! trimmed and normalized into the word list, the dictionary and the
//! candidate keys derive from that list, and the ciphertext is normalized
//! and, unless it comes out empty, ranked against every candidate.

use vstd::prelude::*;

use crate::dict::{word_set, Dictionary};
use crate::normalize::{clean_text, normalize_seq};
use crate::rank::{rank, result_ok, sorted_desc, key_views, string_views, DecodingResult};
use crate::text::{chars_of, string_of};

verus! {

/// Whether a character is whitespace: the Unicode white-space set that
/// line trimming strips.
pub open spec fn is_wspace(c: char) -> bool {
    ||| c == ' '
    ||| c == '\t'
    ||| c == '\n'
    ||| c == '\u{0B}'
    ||| c == '\u{0C}'
    ||| c == '\r'
    ||| c == '\u{85}'
    ||| c == '\u{A0}'
    ||| c == '\u{1680}'
    ||| c == '\u{2000}'
    ||| c == '\u{2001}'
    ||| c == '\u{2002}'
    ||| c == '\u{2003}'
    ||| c == '\u{2004}'
    ||| c == '\u{2005}'
    ||| c == '\u{2006}'
    ||| c == '\u{2007}'
    ||| c == '\u{2008}'
    ||| c == '\u{2009}'
    ||| c == '\u{200A}'
    ||| c == '\u{2028}'
    ||| c == '\u{2029}'
    ||| c == '\u{202F}'
    ||| c == '\u{205F}'
    ||| c == '\u{3000}'
}

/// Whether a character is whitespace.
fn is_space_char(c: char) -> (r: bool)
    ensures
        r == is_wspace(c),
{
    match c {
        ' ' | '\t' | '\n' | '\u{0B}' | '\u{0C}' | '\r' | '\u{85}' | '\u{A0}' | '\u{1680}'
            | '\u{2000}' | '\u{2001}' | '\u{2002}' | '\u{2003}' | '\u{2004}' | '\u{2005}'
            | '\u{2006}' | '\u{2007}' | '\u{2008}' | '\u{2009}' | '\u{200A}' | '\u{2028}'
            | '\u{2029}' | '\u{202F}' | '\u{205F}' | '\u{3000}' => true,
        _ => false,
    }
}

/// A sequence without its leading whitespace.
pub open spec fn trim_front(s: Seq<char>) -> Seq<char>
    decreases s.len(),
{
    if s.len() == 0 {
        s
    } else if is_wspace(s.first()) {
        trim_front(s.drop_first())
    } else {
        s
    }
}

/// A sequence without its trailing whitespace.
pub open spec fn trim_back(s: Seq<char>) -> Seq<char>
    decreases s.len(),
{
    if s.len() == 0 {
        s
    } else if is_wspace(s.last()) {
        trim_back(s.drop_last())
    } else {
        s
    }
}

/// A sequence without its leading and trailing whitespace.
pub open spec fn trim_seq(s: Seq<char>) -> Seq<char> {
    trim_back(trim_front(s))
}

/// Strips leading and trailing whitespace from a line.
pub fn trim_line(s: &str) -> (r: String)
    ensures
        r@ == trim_seq(s@),
{
    let v = chars_of(s);
    let n = v.len();
    let mut start: usize = 0;
    proof {
        assert(s@.skip(0) =~= s@);
    }
    while start < n && is_space_char(v[start])
        invariant
            n == v@.len(),
            v@ == s@,
            start <= n,
            trim_front(s@) == trim_front(s@.skip(start as int)),
        decreases n - start,
    {
        proof {
            assert(s@.skip(start as int).first() == s@[start as int]);
            assert(s@.skip(start as int).drop_first() =~= s@.skip(start as int + 1));
        }
        start = start + 1;
    }
    if start == n {
        proof {
            assert(s@.skip(n as int) =~= Seq::<char>::empty());
            assert(trim_seq(s@) =~= Seq::<char>::empty());
        }
        return String::new();
    }
    proof {
        assert(trim_front(s@) == s@.skip(start as int));
        assert(s@.subrange(start as int, n as int) =~= s@.skip(start as int));
    }
    let mut end: usize = n;
    while end > start && is_space_char(v[end - 1])
        invariant
            n == v@.len(),
            v@ == s@,
            start <= end <= n,
            trim_back(s@.skip(start as int)) == trim_back(s@.subrange(start as int, end as int)),
        decreases end,
    {
        proof {
            let t = s@.subrange(start as int, end as int);
            assert(t.last() == s@[end as int - 1]);
            assert(t.drop_last() =~= s@.subrange(start as int, end as int - 1));
        }
        end = end - 1;
    }
    proof {
        if end > start {
            assert(!is_wspace(s@.subrange(start as int, end as int).last()));
            assert(trim_back(s@.subrange(start as int, end as int)) == s@.subrange(
                start as int,
                end as int,
            ));
        } else {
            assert(s@.subrange(start as int, end as int) =~= Seq::<char>::empty());
        }
        assert(trim_seq(s@) == s@.subrange(start as int, end as int));
    }
    let mut out: Vec<char> = Vec::new();
    let mut k: usize = start;
    proof {
        assert(s@.subrange(start as int, start as int) =~= Seq::<char>::empty());
    }
    while k < end
        invariant
            n == v@.len(),
            v@ == s@,
            start <= k <= end <= n,
            out@ == s@.subrange(start as int, k as int),
        decreases end - k,
    {
        out.push(v[k]);
        proof {
            assert(s@.subrange(start as int, k as int + 1) =~= s@.subrange(
                start as int,
                k as int,
            ).push(s@[k as int]));
        }
        k = k + 1;
    }
    string_of(&out)
}

/// The corpus word list: each raw line trimmed and normalized, with empty
/// results dropped.
pub open spec fn corpus_seq(lines: Seq<Seq<char>>) -> Seq<Seq<char>>
    decreases lines.len(),
{
    if lines.len() == 0 {
        Seq::empty()
    } else {
        let prev = corpus_seq(lines.drop_last());
        let w = normalize_seq(trim_seq(lines.last()));
        if w.len() > 0 {
            prev.push(w)
        } else {
            prev
        }
    }
}

/// The candidate keys: the corpus words of more than five characters, in
/// corpus order, duplicates kept.
pub open spec fn candidates_seq(ws: Seq<Seq<char>>) -> Seq<Seq<char>>
    decreases ws.len(),
{
    if ws.len() == 0 {
        Seq::empty()
    } else {
        let prev = candidates_seq(ws.drop_last());
        if ws.last().len() > 5 {
            prev.push(ws.last())
        } else {
            prev
        }
    }
}

/// The set of words in a word list.
pub open spec fn word_view_set(ws: Seq<Seq<char>>) -> Set<Seq<char>> {
    Set::new(|w: Seq<char>| exists|j: int| 0 <= j < ws.len() && ws[j] == w)
}

/// Builds the corpus word list from the raw lines: each line is trimmed
/// and normalized, and lines with nothing left are dropped.
pub fn corpus_words(lines: &Vec<String>) -> (ws: Vec<String>)
    ensures
        string_views(ws@) == corpus_seq(string_views(lines@)),
{
    let mut ws: Vec<String> = Vec::new();
    let mut i: usize = 0;
    proof {
        assert(string_views(lines@.take(0)) =~= Seq::<Seq<char>>::empty());
        assert(string_views(ws@) =~= corpus_seq(string_views(lines@.take(0))));
    }
    while i < lines.len()
        invariant
            i <= lines@.len(),
            string_views(ws@) == corpus_seq(string_views(lines@.take(i as int))),
        decreases lines@.len() - i,
    {
        let t = trim_line(lines[i].as_str());
        let w = clean_text(t.as_str());
        let ghost wspre = ws@;
        if !w.as_str().is_empty() {
            ws.push(w);
        }
        i = i + 1;
        proof {
            let lv = string_views(lines@.take(i as int));
            assert(lv.drop_last() =~= string_views(lines@.take(i as int - 1)));
            assert(lv.last() == lines@[i as int - 1]@);
            if normalize_seq(trim_seq(lines@[i as int - 1]@)).len() > 0 {
                assert(string_views(ws@) =~= string_views(wspre).push(
                    normalize_seq(trim_seq(lines@[i as int - 1]@)),
                ));
            }
        }
    }
    proof {
        assert(string_views(lines@.take(lines@.len() as int)) =~= string_views(lines@));
    }
    ws
}

/// Selects the candidate keys from the word list: every word of more than
/// five characters, in order, duplicates kept.
pub fn candidate_keys(words: &Vec<String>) -> (cs: Vec<String>)
    ensures
        string_views(cs@) == candidates_seq(string_views(words@)),
{
    let mut cs: Vec<String> = Vec::new();
    let mut i: usize = 0;
    proof {
        assert(string_views(words@.take(0)) =~= Seq::<Seq<char>>::empty());
        assert(string_views(cs@) =~= candidates_seq(string_views(words@.take(0))));
    }
    while i < words.len()
        invariant
            i <= words@.len(),
            string_views(cs@) == candidates_seq(string_views(words@.take(i as int))),
        decreases words@.len() - i,
    {
        let ghost cspre = cs@;
        if words[i].as_str().unicode_len() > 5 {
            cs.push(words[i].clone());
        }
        i = i + 1;
        proof {
            let wv = string_views(words@.take(i as int));
            assert(wv.drop_last() =~= string_views(words@.take(i as int - 1)));
            assert(wv.last() == words@[i as int - 1]@);
            if words@[i as int - 1]@.len() > 5 {
                assert(string_views(cs@) =~= string_views(cspre).push(words@[i as int - 1]@));
            }
        }
    }
    proof {
        assert(string_views(words@.take(words@.len() as int)) =~= string_views(words@));
    }
    cs
}

/// One whole analysis pass. The ciphertext line is trimmed and
/// normalized; when nothing is left, no ranking is performed and `None`
/// reports the degenerate input. Otherwise the corpus lines give the word
/// list, the dictionary and the candidate keys, and the result is the
/// full ranking of every candidate against the normalized ciphertext.
pub fn analyze(cipher_line: &str, lines: &Vec<String>) -> (out: Option<Vec<DecodingResult>>)
    ensures
        ({
            let source = normalize_seq(trim_seq(cipher_line@));
            let words = corpus_seq(string_views(lines@));
            let cands = candidates_seq(words);
            &&& (out is None <==> source.len() == 0)
            &&& (out matches Some(rs) ==> {
                &&& rs@.len() == cands.len()
                &&& sorted_desc(rs@)
                &&& (forall|i: int|
                    0 <= i < rs@.len() ==> result_ok(
                        #[trigger] rs@[i],
                        source,
                        word_view_set(words),
                    ))
                &&& key_views(rs@).to_multiset() == cands.to_multiset()
            })
        }),
{
    let trimmed = trim_line(cipher_line);
    let source = clean_text(trimmed.as_str());
    if source.as_str().is_empty() {
        return None;
    }
    let words = corpus_words(lines);
    let dict = Dictionary::new(&words);
    let cands = candidate_keys(&words);
    let rs = rank(source.as_str(), &cands, &dict);
    proof {
        let wviews = string_views(words@);
        assert forall|w: Seq<char>|
            word_set(words@).contains(w) implies word_view_set(wviews).contains(w) by {
            let j = choose|j: int| 0 <= j < words@.len() && words@[j]@ == w;
            assert(wviews[j] == w);
        }
        assert forall|w: Seq<char>|
            word_view_set(wviews).contains(w) implies word_set(words@).contains(w) by {
            let j = choose|j: int| 0 <= j < wviews.len() && wviews[j] == w;
            assert(words@[j]@ == w);
        }
        assert(word_set(words@) =~= word_view_set(wviews));
    }
    Some(rs)
}

} // verus!
