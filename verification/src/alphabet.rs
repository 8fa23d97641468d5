//! The working alphabet of the cipher: a fixed ordered sequence of 33
//! Cyrillic letters. It defines a bijection between letters and indices in
//! [0, 33), which the modular shift arithmetic of the cipher engine uses,
//! and the case folding that normalization applies.

use vstd::prelude::*;

verus! {

/// Index of a letter in the alphabet, or -1 for any character that is not
/// an alphabet letter.
pub open spec fn char_to_idx(c: char) -> int {

    if c == 'а' {
        0
    } else if c == 'б' {
        1
    } else if c == 'в' {
        2
    } else if c == 'г' {
        3
    } else if c == 'д' {
        4
    } else if c == 'е' {
        5
    } else if c == 'ё' {
        6
    } else if c == 'ж' {
        7
    } else if c == 'з' {
        8
    } else if c == 'и' {
        9
    } else if c == 'й' {
        10
    } else if c == 'к' {
        11
    } else if c == 'л' {
        12
    } else if c == 'м' {
        13
    } else if c == 'н' {
        14
    } else if c == 'о' {
        15
    } else if c == 'п' {
        16
    } else if c == 'р' {
        17
    } else if c == 'с' {
        18
    } else if c == 'т' {
        19
    } else if c == 'у' {
        20
    } else if c == 'ф' {
        21
    } else if c == 'х' {
        22
    } else if c == 'ц' {
        23
    } else if c == 'ч' {
        24
    } else if c == 'ш' {
        25
    } else if c == 'щ' {
        26
    } else if c == 'ъ' {
        27
    } else if c == 'ы' {
        28
    } else if c == 'ь' {
        29
    } else if c == 'э' {
        30
    } else if c == 'ю' {
        31
    } else if c == 'я' {
        32
    } else {
        -1
    }
}

/// The letter standing at an index of the alphabet; indices outside
/// [0, 33) are mapped to the last letter.
pub open spec fn idx_to_char(i: int) -> char {

    if i == 0 {
        'а'
    } else if i == 1 {
        'б'
    } else if i == 2 {
        'в'
    } else if i == 3 {
        'г'
    } else if i == 4 {
        'д'
    } else if i == 5 {
        'е'
    } else if i == 6 {
        'ё'
    } else if i == 7 {
        'ж'
    } else if i == 8 {
        'з'
    } else if i == 9 {
        'и'
    } else if i == 10 {
        'й'
    } else if i == 11 {
        'к'
    } else if i == 12 {
        'л'
    } else if i == 13 {
        'м'
    } else if i == 14 {
        'н'
    } else if i == 15 {
        'о'
    } else if i == 16 {
        'п'
    } else if i == 17 {
        'р'
    } else if i == 18 {
        'с'
    } else if i == 19 {
        'т'
    } else if i == 20 {
        'у'
    } else if i == 21 {
        'ф'
    } else if i == 22 {
        'х'
    } else if i == 23 {
        'ц'
    } else if i == 24 {
        'ч'
    } else if i == 25 {
        'ш'
    } else if i == 26 {
        'щ'
    } else if i == 27 {
        'ъ'
    } else if i == 28 {
        'ы'
    } else if i == 29 {
        'ь'
    } else if i == 30 {
        'э'
    } else if i == 31 {
        'ю'
    } else {
        'я'
    }
}

/// Whether a character is a letter of the working alphabet.
pub open spec fn is_alpha(c: char) -> bool {
    char_to_idx(c) >= 0
}

/// Cyrillic case folding: maps each capital letter of the working alphabet
/// to its small form and leaves every other character unchanged.
pub open spec fn lower_char(c: char) -> char {

    if c == 'А' {
        'а'
    } else if c == 'Б' {
        'б'
    } else if c == 'В' {
        'в'
    } else if c == 'Г' {
        'г'
    } else if c == 'Д' {
        'д'
    } else if c == 'Е' {
        'е'
    } else if c == 'Ё' {
        'ё'
    } else if c == 'Ж' {
        'ж'
    } else if c == 'З' {
        'з'
    } else if c == 'И' {
        'и'
    } else if c == 'Й' {
        'й'
    } else if c == 'К' {
        'к'
    } else if c == 'Л' {
        'л'
    } else if c == 'М' {
        'м'
    } else if c == 'Н' {
        'н'
    } else if c == 'О' {
        'о'
    } else if c == 'П' {
        'п'
    } else if c == 'Р' {
        'р'
    } else if c == 'С' {
        'с'
    } else if c == 'Т' {
        'т'
    } else if c == 'У' {
        'у'
    } else if c == 'Ф' {
        'ф'
    } else if c == 'Х' {
        'х'
    } else if c == 'Ц' {
        'ц'
    } else if c == 'Ч' {
        'ч'
    } else if c == 'Ш' {
        'ш'
    } else if c == 'Щ' {
        'щ'
    } else if c == 'Ъ' {
        'ъ'
    } else if c == 'Ы' {
        'ы'
    } else if c == 'Ь' {
        'ь'
    } else if c == 'Э' {
        'э'
    } else if c == 'Ю' {
        'ю'
    } else if c == 'Я' {
        'я'
    } else {
        c
    }
}

pub proof fn lemma_char_to_idx_bounds(c: char)
    ensures
        -1 <= char_to_idx(c) < 33,
{
}

pub proof fn lemma_idx_to_char_of_idx(c: char)
    requires
        is_alpha(c),
    ensures
        idx_to_char(char_to_idx(c)) == c,
{
}

pub proof fn lemma_char_to_idx_of_char(i: int)
    requires
        0 <= i < 33,
    ensures
        is_alpha(idx_to_char(i)),
        char_to_idx(idx_to_char(i)) == i,
{
}

/// A small letter of the alphabet, and the space separator, are unchanged
/// by case folding.
pub proof fn lemma_lower_of_alpha(c: char)
    requires
        is_alpha(c) || c == ' ',
    ensures
        lower_char(c) == c,
{
}

/// Looks a character up in the alphabet: its index when it is an alphabet
/// letter, nothing otherwise.
pub fn char_index(c: char) -> (r: Option<usize>)
    ensures
        r is Some <==> is_alpha(c),
        r matches Some(i) ==> i as int == char_to_idx(c) && i < 33,
{
    match c {

        'а' => Some(0),
        'б' => Some(1),
        'в' => Some(2),
        'г' => Some(3),
        'д' => Some(4),
        'е' => Some(5),
        'ё' => Some(6),
        'ж' => Some(7),
        'з' => Some(8),
        'и' => Some(9),
        'й' => Some(10),
        'к' => Some(11),
        'л' => Some(12),
        'м' => Some(13),
        'н' => Some(14),
        'о' => Some(15),
        'п' => Some(16),
        'р' => Some(17),
        'с' => Some(18),
        'т' => Some(19),
        'у' => Some(20),
        'ф' => Some(21),
        'х' => Some(22),
        'ц' => Some(23),
        'ч' => Some(24),
        'ш' => Some(25),
        'щ' => Some(26),
        'ъ' => Some(27),
        'ы' => Some(28),
        'ь' => Some(29),
        'э' => Some(30),
        'ю' => Some(31),
        'я' => Some(32),
        _ => None,
    }
}

/// The letter standing at an index of the alphabet.
pub fn index_char(i: usize) -> (c: char)
    requires
        i < 33,
    ensures
        c == idx_to_char(i as int),
{
    match i {

        0 => 'а',
        1 => 'б',
        2 => 'в',
        3 => 'г',
        4 => 'д',
        5 => 'е',
        6 => 'ё',
        7 => 'ж',
        8 => 'з',
        9 => 'и',
        10 => 'й',
        11 => 'к',
        12 => 'л',
        13 => 'м',
        14 => 'н',
        15 => 'о',
        16 => 'п',
        17 => 'р',
        18 => 'с',
        19 => 'т',
        20 => 'у',
        21 => 'ф',
        22 => 'х',
        23 => 'ц',
        24 => 'ч',
        25 => 'ш',
        26 => 'щ',
        27 => 'ъ',
        28 => 'ы',
        29 => 'ь',
        30 => 'э',
        31 => 'ю',
        _ => 'я',
    }
}

/// Folds one character to its small form.
pub fn to_lower(c: char) -> (r: char)
    ensures
        r == lower_char(c),
{
    match c {

        'А' => 'а',
        'Б' => 'б',
        'В' => 'в',
        'Г' => 'г',
        'Д' => 'д',
        'Е' => 'е',
        'Ё' => 'ё',
        'Ж' => 'ж',
        'З' => 'з',
        'И' => 'и',
        'Й' => 'й',
        'К' => 'к',
        'Л' => 'л',
        'М' => 'м',
        'Н' => 'н',
        'О' => 'о',
        'П' => 'п',
        'Р' => 'р',
        'С' => 'с',
        'Т' => 'т',
        'У' => 'у',
        'Ф' => 'ф',
        'Х' => 'х',
        'Ц' => 'ц',
        'Ч' => 'ч',
        'Ш' => 'ш',
        'Щ' => 'щ',
        'Ъ' => 'ъ',
        'Ы' => 'ы',
        'Ь' => 'ь',
        'Э' => 'э',
        'Ю' => 'ю',
        'Я' => 'я',
        _ => c,
    }
}

} // verus!
