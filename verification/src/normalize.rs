//! The text normalizer: folds a raw string to lower case and keeps only
//! letters of the working alphabet and the space separator, dropping
//! punctuation, digits and foreign letters. Normalization is total,
//! deterministic and idempotent.

use vstd::prelude::*;

use crate::alphabet::{char_index, is_alpha, lemma_lower_of_alpha, lower_char, to_lower};
use crate::text::push_char;

verus! {

/// Whether a character survives normalization: an alphabet letter or the
/// space separator.
pub open spec fn keep_char(c: char) -> bool {
    is_alpha(c) || c == ' '
}

/// The normalized form of a character sequence: each character folded to
/// lower case, and only alphabet letters and spaces kept, in order.
pub open spec fn normalize_seq(s: Seq<char>) -> Seq<char>
    decreases s.len(),
{
    if s.len() == 0 {
        Seq::empty()
    } else {
        let prev = normalize_seq(s.drop_last());
        let c = lower_char(s.last());
        if keep_char(c) {
            prev.push(c)
        } else {
            prev
        }
    }
}

/// Every character of a normalized sequence is kept material: a small
/// alphabet letter or a space.
pub proof fn lemma_normalize_chars_kept(s: Seq<char>)
    ensures
        forall|i: int|
            0 <= i < normalize_seq(s).len() ==> #[trigger] keep_char(normalize_seq(s)[i]),
    decreases s.len(),
{
    if s.len() > 0 {
        lemma_normalize_chars_kept(s.drop_last());
        let prev = normalize_seq(s.drop_last());
        let c = lower_char(s.last());
        if keep_char(c) {
            assert forall|i: int|
                0 <= i < normalize_seq(s).len() implies #[trigger] keep_char(
                normalize_seq(s)[i],
            ) by {
                if i < prev.len() {
                    assert(normalize_seq(s)[i] == prev[i]);
                    assert(keep_char(prev[i]));
                } else {
                    assert(normalize_seq(s)[i] == c);
                }
            }
        }
    }
}

/// Normalizing is idempotent: a normalized sequence normalizes to itself.
pub proof fn lemma_normalize_idempotent(s: Seq<char>)
    ensures
        normalize_seq(normalize_seq(s)) == normalize_seq(s),
    decreases s.len(),
{
    lemma_normalize_chars_kept(s);
    lemma_normalize_fixes_normalized(normalize_seq(s));
}

/// A sequence whose characters are all kept material is a fixed point of
/// normalization.
proof fn lemma_normalize_fixes_normalized(t: Seq<char>)
    requires
        forall|i: int| 0 <= i < t.len() ==> #[trigger] keep_char(t[i]),
    ensures
        normalize_seq(t) == t,
    decreases t.len(),
{
    if t.len() == 0 {
        assert(normalize_seq(t) =~= t);
    } else {
        assert(forall|i: int|
            0 <= i < t.drop_last().len() ==> #[trigger] keep_char(t.drop_last()[i]));
        lemma_normalize_fixes_normalized(t.drop_last());
        assert(keep_char(t[t.len() - 1]));
        lemma_lower_of_alpha(t.last());
        assert(normalize_seq(t) =~= t);
    }
}

/// Normalizes a raw text: folds it to lower case and keeps only alphabet
/// letters and spaces.
pub fn clean_text(text: &str) -> (r: String)
    ensures
        r@ == normalize_seq(text@),
{
    let n: usize = text.unicode_len();
    let mut r = String::new();
    let mut i: usize = 0;
    while i < n
        invariant
            n == text@.len(),
            i <= n,
            r@ == normalize_seq(text@.take(i as int)),
        decreases n - i,
    {
        let c = to_lower(text.get_char(i));
        if char_index(c).is_some() || c == ' ' {
            push_char(&mut r, c);
        }
        i = i + 1;
        proof {
            assert(text@.take(i as int).drop_last() =~= text@.take(i as int - 1));
            assert(text@.take(i as int).last() == text@[i as int - 1]);
        }
    }
    proof {
        assert(text@.take(n as int) =~= text@);
    }
    r
}

} // verus!
