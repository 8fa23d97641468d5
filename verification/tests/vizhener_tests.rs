use vizhener::cipher::{decode_vizhener, encode_vizhener};
use vizhener::corpus::{analyze, candidate_keys, corpus_words, trim_line};
use vizhener::dict::Dictionary;
use vizhener::normalize::clean_text;
use vizhener::rank::{rank, top_results};
use vizhener::score::score;

fn strings(words: &[&str]) -> Vec<String> {
    words.iter().map(|w| w.to_string()).collect()
}

#[test]
fn normalize_lowercases_and_filters() {
    assert_eq!(clean_text("Привет, Мир!"), "привет мир");
    assert_eq!(clean_text("abc123?;"), "");
    assert_eq!(clean_text("Ёжик"), "ёжик");
}

#[test]
fn normalize_is_idempotent() {
    let raw = "Ключ, и Ещё раз! 42";
    let once = clean_text(raw);
    let twice = clean_text(&once);
    assert_eq!(twice, once);
}

#[test]
fn decode_with_first_letter_key_is_identity() {
    // The first alphabet letter has index 0, so the shift is a no-op.
    assert_eq!(decode_vizhener("б", "а"), "б");
}

#[test]
fn decode_wraps_around_the_alphabet() {
    // Index 0 shifted back by index 1 wraps to the last letter, index 32.
    assert_eq!(decode_vizhener("а", "б"), "я");
}

#[test]
fn decode_exact_shift() {
    assert_eq!(decode_vizhener("в", "б"), "б");
    assert_eq!(decode_vizhener("б", "б"), "а");
}

#[test]
fn encode_exact_shift() {
    assert_eq!(encode_vizhener("а", "б"), "б");
    assert_eq!(encode_vizhener("я", "б"), "а");
}

#[test]
fn decode_with_empty_key_is_noop() {
    assert_eq!(decode_vizhener("привет мир", ""), "привет мир");
    assert_eq!(decode_vizhener("привет мир", "123!?"), "привет мир");
}

#[test]
fn decode_preserves_length_and_separators() {
    let cipher = "привет мир";
    let decoded = decode_vizhener(cipher, "ключ");
    assert_eq!(decoded.chars().count(), cipher.chars().count());
    assert_eq!(decoded.chars().nth(6), Some(' '));
    assert!(decoded.chars().filter(|c| *c == ' ').count() == 1);
}

#[test]
fn encode_then_decode_round_trips() {
    let text = "привет мир и ещё что нибудь";
    let key = "ключ";
    let encoded = encode_vizhener(text, key);
    assert_ne!(encoded, text);
    assert_eq!(decode_vizhener(&encoded, key), text);
}

#[test]
fn score_counts_matching_tokens() {
    let dict = Dictionary::new(&strings(&["привет", "мир"]));
    let n = score("привет друг мир", &dict);
    assert_eq!(n, 2);
}

#[test]
fn score_counts_repeats_independently() {
    let dict = Dictionary::new(&strings(&["привет"]));
    assert_eq!(score("привет привет досвидания", &dict), 2);
}

#[test]
fn score_skips_empty_tokens() {
    let dict = Dictionary::new(&strings(&["привет"]));
    assert_eq!(score("  привет  ", &dict), 1);
    assert_eq!(score("   ", &dict), 0);
    assert_eq!(score("", &dict), 0);
}

#[test]
fn dictionary_membership_is_exact() {
    let dict = Dictionary::new(&strings(&["привет", "мир", "мир"]));
    assert!(dict.contains(&"привет".to_string()));
    assert!(dict.contains(&"мир".to_string()));
    assert!(!dict.contains(&"при".to_string()));
    assert!(!dict.contains(&"".to_string()));
}

#[test]
fn rank_is_sorted_and_complete() {
    let words = strings(&["привет", "мир", "секрет"]);
    let dict = Dictionary::new(&words);
    let cipher = encode_vizhener("привет мир", "секрет");
    // A duplicate candidate stays a separate candidate.
    let cands = strings(&["абвгде", "секрет", "абвгде"]);
    let rs = rank(&cipher, &cands, &dict);
    assert_eq!(rs.len(), 3);
    for i in 0..rs.len() - 1 {
        assert!(rs[i].score >= rs[i + 1].score);
    }
    assert_eq!(rs[0].key, "секрет");
    assert_eq!(rs[0].decoded, "привет мир");
    assert_eq!(rs[0].score, 2);
}

#[test]
fn top_results_takes_a_prefix() {
    let words = strings(&["привет", "мир"]);
    let dict = Dictionary::new(&words);
    let cipher = encode_vizhener("привет мир", "абвгде");
    let cands = strings(&["абвгде", "бвгдеж", "вгдежз"]);
    let rs = rank(&cipher, &cands, &dict);
    let top = top_results(&rs, 2);
    assert_eq!(top.len(), 2);
    assert_eq!(top[0].key, rs[0].key);
    assert_eq!(top[1].key, rs[1].key);
    let all = top_results(&rs, 10);
    assert_eq!(all.len(), 3);
}

#[test]
fn candidate_keys_filters_short_words() {
    let words = strings(&["привет", "мир", "длинноеслово", "ключик"]);
    let cands = candidate_keys(&words);
    assert_eq!(cands, strings(&["привет", "длинноеслово", "ключик"]));
}

#[test]
fn corpus_words_trims_and_drops_empty_lines() {
    let lines = strings(&[" Привет! ", "", "  ", "Мир", "abc"]);
    let words = corpus_words(&lines);
    assert_eq!(words, strings(&["привет", "мир"]));
}

#[test]
fn trim_line_strips_whitespace() {
    assert_eq!(trim_line("  абв\t"), "абв");
    assert_eq!(trim_line("абв"), "абв");
    assert_eq!(trim_line(" \t\n"), "");
    assert_eq!(trim_line(""), "");
}

#[test]
fn analyze_reports_empty_ciphertext() {
    let lines = strings(&["привет", "секрет"]);
    // Nothing of the line survives normalization, so no ranking happens.
    assert!(analyze("123!?abc", &lines).is_none());
    assert!(analyze("", &lines).is_none());
}

#[test]
fn analyze_ranks_every_candidate() {
    let lines = strings(&["привет", "мир", "секрет"]);
    let cipher = encode_vizhener("привет мир", "секрет");
    let rs = analyze(&cipher, &lines).expect("ciphertext is not empty");
    // Candidates: the corpus words longer than five letters.
    assert_eq!(rs.len(), 2);
    assert_eq!(rs[0].key, "секрет");
    assert_eq!(rs[0].decoded, "привет мир");
    assert_eq!(rs[0].score, 2);
    assert!(rs[0].score >= rs[1].score);
}
