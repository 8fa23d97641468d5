//! The cipher engine: additive Vigenere-style decoding and encoding over
//! the working alphabet. A key is used cyclically; alphabet letters are
//! shifted by modular arithmetic on their alphabet indices, and every other
//! character (in normalized text: the space separator) passes through
//! unchanged without advancing the key cursor.

use vstd::arithmetic::div_mod::{
    lemma_add_mod_noop, lemma_mod_multiples_vanish, lemma_mod_self_0, lemma_small_mod,
};
use vstd::prelude::*;

use crate::alphabet::{
    char_index, char_to_idx, idx_to_char, index_char, is_alpha, lemma_char_to_idx_bounds,
    lemma_char_to_idx_of_char, lemma_idx_to_char_of_idx, lower_char, to_lower,
};
use crate::text::push_char;

verus! {

/// The normalized form of a key: folded to lower case, with only alphabet
/// letters kept (a key is a single word, so spaces are dropped too).
pub open spec fn normalize_key(s: Seq<char>) -> Seq<char>
    decreases s.len(),
{
    if s.len() == 0 {
        Seq::empty()
    } else {
        let prev = normalize_key(s.drop_last());
        let c = lower_char(s.last());
        if is_alpha(c) {
            prev.push(c)
        } else {
            prev
        }
    }
}

/// Every character of a normalized key is an alphabet letter.
pub proof fn lemma_key_chars_alpha(s: Seq<char>)
    ensures
        forall|j: int| 0 <= j < normalize_key(s).len() ==> is_alpha(#[trigger] normalize_key(s)[j]),
    decreases s.len(),
{
    if s.len() > 0 {
        lemma_key_chars_alpha(s.drop_last());
        let prev = normalize_key(s.drop_last());
        let c = lower_char(s.last());
        if is_alpha(c) {
            assert forall|j: int|
                0 <= j < normalize_key(s).len() implies is_alpha(
                #[trigger] normalize_key(s)[j],
            ) by {
                if j < prev.len() {
                    assert(normalize_key(s)[j] == prev[j]);
                } else {
                    assert(normalize_key(s)[j] == c);
                }
            }
        }
    }
}

/// Number of alphabet letters in a sequence: the amount by which the key
/// cursor advances while the cipher walks it.
pub open spec fn alpha_count(s: Seq<char>) -> nat
    decreases s.len(),
{
    if s.len() == 0 {
        0
    } else {
        alpha_count(s.drop_last()) + (if is_alpha(s.last()) {
            1nat
        } else {
            0nat
        })
    }
}

/// Decoding one letter: wraparound subtraction of the key letter's index
/// from the ciphertext letter's index, modulo the alphabet length.
pub open spec fn decode_char(c: char, k: char) -> char {
    idx_to_char((char_to_idx(c) - char_to_idx(k) + 33) % 33)
}

/// Encoding one letter: addition of the key letter's index to the plaintext
/// letter's index, modulo the alphabet length.
pub open spec fn encode_char(c: char, k: char) -> char {
    idx_to_char((char_to_idx(c) + char_to_idx(k)) % 33)
}

/// The character at position `i` of the text decoded under a non-empty
/// normalized key: an alphabet letter is shifted back by the key letter at
/// the cyclic key position (the count of alphabet letters before `i`,
/// modulo the key length); any other character passes through.
pub open spec fn decode_at(text: Seq<char>, key: Seq<char>, i: int) -> char
    recommends
        0 <= i < text.len(),
        key.len() > 0,
{
    if is_alpha(text[i]) {
        decode_char(text[i], key[(alpha_count(text.take(i)) % key.len()) as int])
    } else {
        text[i]
    }
}

/// The character at position `i` of the text encoded under a non-empty
/// normalized key.
pub open spec fn encode_at(text: Seq<char>, key: Seq<char>, i: int) -> char
    recommends
        0 <= i < text.len(),
        key.len() > 0,
{
    if is_alpha(text[i]) {
        encode_char(text[i], key[(alpha_count(text.take(i)) % key.len()) as int])
    } else {
        text[i]
    }
}

/// The text decoded under a non-empty normalized key.
pub open spec fn decode_with(text: Seq<char>, key: Seq<char>) -> Seq<char>
    recommends
        key.len() > 0,
{
    Seq::new(text.len(), |i: int| decode_at(text, key, i))
}

/// The text encoded under a non-empty normalized key.
pub open spec fn encode_with(text: Seq<char>, key: Seq<char>) -> Seq<char>
    recommends
        key.len() > 0,
{
    Seq::new(text.len(), |i: int| encode_at(text, key, i))
}

/// What decoding returns for a raw key: the key is normalized first, and a
/// key with no alphabet letters leaves the text unchanged.
pub open spec fn decode_full(text: Seq<char>, raw_key: Seq<char>) -> Seq<char> {
    let key = normalize_key(raw_key);
    if key.len() == 0 {
        text
    } else {
        decode_with(text, key)
    }
}

/// What encoding returns for a raw key, with the same degenerate-key
/// policy as decoding.
pub open spec fn encode_full(text: Seq<char>, raw_key: Seq<char>) -> Seq<char> {
    let key = normalize_key(raw_key);
    if key.len() == 0 {
        text
    } else {
        encode_with(text, key)
    }
}

/// Decoding one letter of the alphabet under an alphabet letter of the key
/// yields a letter of the alphabet.
proof fn lemma_decode_char_alpha(c: char, k: char)
    requires
        is_alpha(c),
        is_alpha(k),
    ensures
        is_alpha(decode_char(c, k)),
{
    lemma_char_to_idx_bounds(c);
    lemma_char_to_idx_bounds(k);
    let s = (char_to_idx(c) - char_to_idx(k) + 33) % 33;
    lemma_mod_multiples_vanish(1, char_to_idx(c) - char_to_idx(k), 33);
    if char_to_idx(c) >= char_to_idx(k) {
        lemma_small_mod((char_to_idx(c) - char_to_idx(k)) as nat, 33);
    } else {
        lemma_small_mod((char_to_idx(c) - char_to_idx(k) + 33) as nat, 33);
    }
    lemma_char_to_idx_of_char(s);
}

/// Encoding one letter of the alphabet under an alphabet letter of the key
/// yields a letter of the alphabet.
proof fn lemma_encode_char_alpha(c: char, k: char)
    requires
        is_alpha(c),
        is_alpha(k),
    ensures
        is_alpha(encode_char(c, k)),
{
    lemma_char_to_idx_bounds(c);
    lemma_char_to_idx_bounds(k);
    let s = (char_to_idx(c) + char_to_idx(k)) % 33;
    if char_to_idx(c) + char_to_idx(k) < 33 {
        lemma_small_mod((char_to_idx(c) + char_to_idx(k)) as nat, 33);
    } else {
        lemma_mod_multiples_vanish(-1, char_to_idx(c) + char_to_idx(k), 33);
        lemma_small_mod((char_to_idx(c) + char_to_idx(k) - 33) as nat, 33);
    }
    lemma_char_to_idx_of_char(s);
}

/// Decoding undoes encoding letter by letter: subtracting the key index
/// modulo the alphabet length inverts adding it.
proof fn lemma_char_round_trip(c: char, k: char)
    requires
        is_alpha(c),
        is_alpha(k),
    ensures
        decode_char(encode_char(c, k), k) == c,
{
    lemma_char_to_idx_bounds(c);
    lemma_char_to_idx_bounds(k);
    let ci = char_to_idx(c);
    let ki = char_to_idx(k);
    if ci + ki < 33 {
        lemma_small_mod((ci + ki) as nat, 33);
    } else {
        lemma_mod_multiples_vanish(-1, ci + ki, 33);
        lemma_small_mod((ci + ki - 33) as nat, 33);
    }
    let e = (ci + ki) % 33;
    lemma_char_to_idx_of_char(e);
    lemma_mod_multiples_vanish(1, e - ki, 33);
    if e >= ki {
        lemma_small_mod((e - ki) as nat, 33);
    } else {
        lemma_small_mod((e - ki + 33) as nat, 33);
    }
    assert((e - ki + 33) % 33 == ci);
    lemma_idx_to_char_of_idx(c);
}

/// Decoding preserves the shape of the text: the length is unchanged,
/// characters outside the alphabet pass through at their positions, and
/// alphabet letters stay alphabet letters.
pub proof fn lemma_decode_shape(text: Seq<char>, raw_key: Seq<char>)
    ensures
        decode_full(text, raw_key).len() == text.len(),
        forall|i: int|
            0 <= i < text.len() && !is_alpha(text[i]) ==> decode_full(text, raw_key)[i] == text[i],
        forall|i: int|
            0 <= i < text.len() && is_alpha(text[i]) ==> is_alpha(decode_full(text, raw_key)[i]),
{
    let key = normalize_key(raw_key);
    if key.len() > 0 {
        lemma_key_chars_alpha(raw_key);
        assert forall|i: int|
            0 <= i < text.len() && is_alpha(text[i]) implies is_alpha(
            decode_full(text, raw_key)[i],
        ) by {
            let p = (alpha_count(text.take(i)) % key.len()) as int;
            lemma_decode_char_alpha(text[i], key[p]);
        }
    }
}

/// Encoding preserves the shape of the text in the same way as decoding.
pub proof fn lemma_encode_shape(text: Seq<char>, raw_key: Seq<char>)
    ensures
        encode_full(text, raw_key).len() == text.len(),
        forall|i: int|
            0 <= i < text.len() && !is_alpha(text[i]) ==> encode_full(text, raw_key)[i] == text[i],
        forall|i: int|
            0 <= i < text.len() && is_alpha(text[i]) ==> is_alpha(encode_full(text, raw_key)[i]),
{
    let key = normalize_key(raw_key);
    if key.len() > 0 {
        lemma_key_chars_alpha(raw_key);
        assert forall|i: int|
            0 <= i < text.len() && is_alpha(text[i]) implies is_alpha(
            encode_full(text, raw_key)[i],
        ) by {
            let p = (alpha_count(text.take(i)) % key.len()) as int;
            lemma_encode_char_alpha(text[i], key[p]);
        }
    }
}

/// Two sequences whose characters are alphabet letters at the same
/// positions hold the same number of alphabet letters.
proof fn lemma_alpha_count_congruent(s: Seq<char>, t: Seq<char>)
    requires
        s.len() == t.len(),
        forall|i: int| 0 <= i < s.len() ==> (is_alpha(#[trigger] s[i]) <==> is_alpha(t[i])),
    ensures
        alpha_count(s) == alpha_count(t),
    decreases s.len(),
{
    if s.len() > 0 {
        assert(is_alpha(s[s.len() - 1]) <==> is_alpha(t[t.len() - 1]));
        lemma_alpha_count_congruent(s.drop_last(), t.drop_last());
    }
}

/// Round trip: decoding is the inverse of encoding under the same key, for
/// every text and every raw key (a key without alphabet letters leaves the
/// text unchanged both ways).
pub proof fn lemma_round_trip(text: Seq<char>, raw_key: Seq<char>)
    ensures
        decode_full(encode_full(text, raw_key), raw_key) == text,
{
    let key = normalize_key(raw_key);
    if key.len() == 0 {
        assert(decode_full(encode_full(text, raw_key), raw_key) == text);
    } else {
        let enc = encode_full(text, raw_key);
        lemma_encode_shape(text, raw_key);
        lemma_key_chars_alpha(raw_key);
        assert forall|i: int|
            0 <= i < text.len() implies decode_with(enc, key)[i] == text[i] by {
            assert(forall|j: int|
                0 <= j < i ==> (is_alpha(#[trigger] enc.take(i)[j]) <==> is_alpha(
                    text.take(i)[j],
                )));
            lemma_alpha_count_congruent(enc.take(i), text.take(i));
            if is_alpha(text[i]) {
                let p = (alpha_count(text.take(i)) % key.len()) as int;
                lemma_char_round_trip(text[i], key[p]);
            }
        }
        assert(decode_full(enc, raw_key) =~= text);
    }
}

/// The normalized key as a character vector.
fn normalized_key_chars(key: &str) -> (v: Vec<char>)
    ensures
        v@ == normalize_key(key@),
        forall|j: int| 0 <= j < v@.len() ==> is_alpha(#[trigger] v@[j]),
{
    let n: usize = key.unicode_len();
    let mut v: Vec<char> = Vec::new();
    let mut i: usize = 0;
    while i < n
        invariant
            n == key@.len(),
            i <= n,
            v@ == normalize_key(key@.take(i as int)),
            forall|j: int| 0 <= j < v@.len() ==> is_alpha(#[trigger] v@[j]),
        decreases n - i,
    {
        let c = to_lower(key.get_char(i));
        if char_index(c).is_some() {
            v.push(c);
        }
        i = i + 1;
        proof {
            assert(key@.take(i as int).drop_last() =~= key@.take(i as int - 1));
            assert(key@.take(i as int).last() == key@[i as int - 1]);
        }
    }
    proof {
        assert(key@.take(n as int) =~= key@);
    }
    v
}

/// Walks the text once, shifting each alphabet letter by the key letter at
/// the cyclic key position and passing every other character through. The
/// key cursor advances only on alphabet letters.
fn shift_text(text: &str, key: &Vec<char>, dec: bool) -> (r: String)
    requires
        key@.len() > 0,
        forall|j: int| 0 <= j < key@.len() ==> is_alpha(#[trigger] key@[j]),
    ensures
        dec ==> r@ == decode_with(text@, key@),
        !dec ==> r@ == encode_with(text@, key@),
{
    let n: usize = text.unicode_len();
    let klen: usize = key.len();
    let mut out = String::new();
    let mut key_pos: usize = 0;
    let mut i: usize = 0;
    proof {
        assert(text@.take(0).len() == 0);
        lemma_small_mod(0, klen as nat);
    }
    while i < n
        invariant
            n == text@.len(),
            i <= n,
            klen == key@.len(),
            klen > 0,
            forall|j: int| 0 <= j < key@.len() ==> is_alpha(#[trigger] key@[j]),
            key_pos < klen,
            key_pos as nat == alpha_count(text@.take(i as int)) % (klen as nat),
            out@.len() == i,
            forall|j: int|
                0 <= j < i ==> out@[j] == (if dec {
                    decode_at(text@, key@, j)
                } else {
                    encode_at(text@, key@, j)
                }),
        decreases n - i,
    {
        let ghost prefix = text@.take(i as int);
        proof {
            assert(text@.take(i as int + 1).drop_last() =~= prefix);
            assert(text@.take(i as int + 1).last() == text@[i as int]);
        }
        let c = text.get_char(i);
        match char_index(c) {
            None => {
                push_char(&mut out, c);
                proof {
                    assert(alpha_count(text@.take(i as int + 1)) == alpha_count(prefix));
                }
            },
            Some(ci) => {
                let kc = key[key_pos];
                let ki = char_index(kc).unwrap();
                let ni: usize = if dec {
                    if ci >= ki {
                        ci - ki
                    } else {
                        33 + ci - ki
                    }
                } else {
                    if ci + ki < 33 {
                        ci + ki
                    } else {
                        ci + ki - 33
                    }
                };
                proof {
                    let cii = char_to_idx(text@[i as int]);
                    let kii = char_to_idx(key@[key_pos as int]);
                    if dec {
                        lemma_mod_multiples_vanish(1, cii - kii, 33);
                        if cii >= kii {
                            lemma_small_mod((cii - kii) as nat, 33);
                        } else {
                            lemma_small_mod((cii - kii + 33) as nat, 33);
                        }
                        assert(ni as int == (cii - kii + 33) % 33);
                    } else {
                        if cii + kii < 33 {
                            lemma_small_mod((cii + kii) as nat, 33);
                        } else {
                            lemma_mod_multiples_vanish(-1, cii + kii, 33);
                            lemma_small_mod((cii + kii - 33) as nat, 33);
                        }
                        assert(ni as int == (cii + kii) % 33);
                    }
                }
                push_char(&mut out, index_char(ni));
                proof {
                    assert(alpha_count(text@.take(i as int + 1)) == alpha_count(prefix) + 1);
                    let a = alpha_count(prefix) as int;
                    let k = klen as int;
                    lemma_add_mod_noop(a, 1, k);
                    lemma_mod_self_0(k);
                    if klen == 1 {
                        lemma_small_mod(0, 1);
                    } else {
                        lemma_small_mod(1, klen as nat);
                        if key_pos + 1 < klen {
                            lemma_small_mod((key_pos + 1) as nat, klen as nat);
                        }
                    }
                }
                key_pos = if key_pos + 1 == klen {
                    0
                } else {
                    key_pos + 1
                };
            },
        }
        i = i + 1;
    }
    proof {
        assert(text@.take(n as int) =~= text@);
        if dec {
            assert(out@ =~= decode_with(text@, key@));
        } else {
            assert(out@ =~= encode_with(text@, key@));
        }
    }
    out
}

/// Decodes a ciphertext under a candidate key. The key is normalized to
/// alphabet letters first; a key with no alphabet letters leaves the text
/// unchanged. Alphabet letters of the text are shifted back by the cyclic
/// key letter; every other character passes through unchanged and does not
/// advance the key cursor. The output has the same length as the input.
pub fn decode_vizhener(text: &str, key: &str) -> (r: String)
    ensures
        r@ == decode_full(text@, key@),
        r@.len() == text@.len(),
        normalize_key(key@).len() == 0 ==> r@ == text@,
{
    let k = normalized_key_chars(key);
    if k.len() == 0 {
        return text.to_owned();
    }
    shift_text(text, &k, true)
}

/// Encodes a plaintext under a candidate key: the inverse walk of
/// `decode_vizhener`, shifting alphabet letters forward instead of back.
pub fn encode_vizhener(text: &str, key: &str) -> (r: String)
    ensures
        r@ == encode_full(text@, key@),
        r@.len() == text@.len(),
        normalize_key(key@).len() == 0 ==> r@ == text@,
{
    let k = normalized_key_chars(key);
    if k.len() == 0 {
        return text.to_owned();
    }
    shift_text(text, &k, false)
}

} // verus!
