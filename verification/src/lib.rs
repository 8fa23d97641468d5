//! Brute-force cryptanalysis of a Vigenere-style polyalphabetic
//! substitution cipher over the Cyrillic alphabet. Given a ciphertext and a
//! corpus of candidate key words, the library decodes the text under every
//! candidate, scores each decoding by how many of its tokens are corpus
//! words, and ranks the candidates by that score.

pub mod alphabet;
pub mod cipher;
pub mod corpus;
pub mod dict;
pub mod normalize;
pub mod rank;
pub mod score;
mod text;

use vstd::prelude::*;

verus! {

} // verus!
