//! The scorer: splits a decoded text on space runs into tokens and counts
//! how many tokens are dictionary words. Repeated tokens count once per
//! occurrence; empty tokens from repeated separators are discarded.

use vstd::prelude::*;

use crate::dict::Dictionary;
use crate::text::push_char;

verus! {

/// The splitting state after reading a prefix of the text: the tokens
/// already finished, and the pending token that the next separator (or the
/// end of the text) would finish.
pub open spec fn split_state(s: Seq<char>) -> (Seq<Seq<char>>, Seq<char>)
    decreases s.len(),
{
    if s.len() == 0 {
        (Seq::empty(), Seq::empty())
    } else {
        let (toks, cur) = split_state(s.drop_last());
        let c = s.last();
        if c == ' ' {
            if cur.len() > 0 {
                (toks.push(cur), Seq::empty())
            } else {
                (toks, Seq::empty())
            }
        } else {
            (toks, cur.push(c))
        }
    }
}

/// The tokens of a text: the maximal runs of non-space characters, in
/// order.
pub open spec fn tokens_of(s: Seq<char>) -> Seq<Seq<char>> {
    let (toks, cur) = split_state(s);
    if cur.len() > 0 {
        toks.push(cur)
    } else {
        toks
    }
}

/// How many of the tokens are dictionary words, counting each occurrence
/// independently.
pub open spec fn count_matches(toks: Seq<Seq<char>>, dict: Set<Seq<char>>) -> nat
    decreases toks.len(),
{
    if toks.len() == 0 {
        0
    } else {
        count_matches(toks.drop_last(), dict) + (if dict.contains(toks.last()) {
            1nat
        } else {
            0nat
        })
    }
}

/// The score of a decoded text against a dictionary: the number of its
/// tokens that are dictionary words.
pub open spec fn score_of(s: Seq<char>, dict: Set<Seq<char>>) -> nat {
    count_matches(tokens_of(s), dict)
}

/// At most every token can match.
proof fn lemma_count_le_len(toks: Seq<Seq<char>>, dict: Set<Seq<char>>)
    ensures
        count_matches(toks, dict) <= toks.len(),
    decreases toks.len(),
{
    if toks.len() > 0 {
        lemma_count_le_len(toks.drop_last(), dict);
    }
}

/// Score boundedness: the score lies between zero and the number of
/// tokens of the text.
pub proof fn lemma_score_bounded(s: Seq<char>, dict: Set<Seq<char>>)
    ensures
        0 <= score_of(s, dict) <= tokens_of(s).len(),
{
    lemma_count_le_len(tokens_of(s), dict);
}

/// Counts the tokens of a decoded text that are dictionary words.
pub fn score(decoded: &str, dict: &Dictionary) -> (n: usize)
    ensures
        n as nat == score_of(decoded@, dict@),
{
    let len: usize = decoded.unicode_len();
    let mut count: usize = 0;
    let mut cur = String::new();
    let mut i: usize = 0;
    while i < len
        invariant
            len == decoded@.len(),
            i <= len,
            cur@ == split_state(decoded@.take(i as int)).1,
            count as nat == count_matches(split_state(decoded@.take(i as int)).0, dict@),
            count as int + (if cur@.len() > 0 {
                1int
            } else {
                0int
            }) <= i,
        decreases len - i,
    {
        let ghost prefix = decoded@.take(i as int);
        proof {
            assert(decoded@.take(i as int + 1).drop_last() =~= prefix);
            assert(decoded@.take(i as int + 1).last() == decoded@[i as int]);
        }
        let c = decoded.get_char(i);
        if c == ' ' {
            if !cur.as_str().is_empty() {
                proof {
                    let toks = split_state(prefix).0;
                    assert(toks.push(cur@).drop_last() =~= toks);
                    assert(toks.push(cur@).last() == cur@);
                }
                if dict.contains(&cur) {
                    count = count + 1;
                }
                cur = String::new();
            }
        } else {
            push_char(&mut cur, c);
        }
        i = i + 1;
    }
    proof {
        assert(decoded@.take(len as int) =~= decoded@);
    }
    if !cur.as_str().is_empty() {
        proof {
            let toks = split_state(decoded@).0;
            assert(toks.push(cur@).drop_last() =~= toks);
            assert(toks.push(cur@).last() == cur@);
        }
        if dict.contains(&cur) {
            count = count + 1;
        }
    }
    count
}

} // verus!
