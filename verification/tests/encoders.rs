use duplicate_encoder::chunked::{
    duplicate_encode_chunks, duplicate_encode_in_place, duplicate_encode_parallel,
};
use duplicate_encoder::counting::{
    duplicate_encode, duplicate_encode_bytes, duplicate_encode_capacity, duplicate_encode_counter,
    duplicate_encode_default, duplicate_encode_itertools, duplicate_encode_lower,
    duplicate_encode_map,
};
use duplicate_encoder::streaming::duplicate_encode_track_seen;

fn all_variants(text: &str) -> Vec<(&'static str, String)> {
    vec![
        ("duplicate_encode", duplicate_encode(text)),
        ("duplicate_encode_default", duplicate_encode_default(text)),
        ("duplicate_encode_capacity", duplicate_encode_capacity(text)),
        ("duplicate_encode_lower", duplicate_encode_lower(text)),
        ("duplicate_encode_counter", duplicate_encode_counter(text)),
        ("duplicate_encode_itertools", duplicate_encode_itertools(text)),
        ("duplicate_encode_map", duplicate_encode_map(text)),
        ("duplicate_encode_bytes", duplicate_encode_bytes(text)),
        ("duplicate_encode_in_place", duplicate_encode_in_place(text)),
        ("duplicate_encode_chunks", duplicate_encode_chunks(text, 3)),
        ("duplicate_encode_parallel", duplicate_encode_parallel(text, 3)),
        ("duplicate_encode_track_seen", duplicate_encode_track_seen(text)),
    ]
}

fn assert_all_encode_to(text: &str, expected: &str) {
    for (name, actual) in all_variants(text) {
        assert_eq!(actual, expected, "wrong output for {}", name);
    }
}

#[test]
fn encodes_din() {
    assert_all_encode_to("din", "(((");
}

#[test]
fn encodes_recede() {
    assert_all_encode_to("recede", "()()()");
}

#[test]
fn encodes_success_case_folded() {
    assert_all_encode_to("Success", ")())())");
}

#[test]
fn encodes_parens_and_symbols() {
    assert_all_encode_to("(( @", "))((");
}

#[test]
fn encodes_empty_string() {
    assert_all_encode_to("", "");
}

#[test]
fn encodes_single_characters() {
    assert_all_encode_to("a", "(");
    assert_all_encode_to("Z", "(");
    assert_all_encode_to("@", "(");
    assert_all_encode_to(" ", "(");
}

#[test]
fn upper_and_lower_count_together() {
    assert_all_encode_to("aA", "))");
    assert_all_encode_to("Zz", "))");
    assert_all_encode_to("aZAz", "))))");
}

#[test]
fn non_letter_bytes_compare_by_raw_value() {
    assert_all_encode_to("1122", "))))");
    assert_all_encode_to("12", "((");
}

#[test]
fn multibyte_characters_are_counted_bytewise() {
    // One two-byte character: each of its bytes occurs once.
    assert_all_encode_to("\u{e9}", "((");
    // The same character twice: all four bytes are duplicates.
    assert_all_encode_to("\u{e9}\u{e9}", "))))");
}

#[test]
fn length_is_preserved() {
    for text in ["", "a", "din", "recede", "Success", "(( @", "abcabcabc"] {
        for (name, actual) in all_variants(text) {
            assert_eq!(actual.len(), text.len(), "wrong length for {}", name);
        }
    }
}

#[test]
fn output_holds_only_parens() {
    for text in ["", "a", "din", "recede", "Success", "(( @", "abcabcabc"] {
        for (name, actual) in all_variants(text) {
            for c in actual.chars() {
                assert!(c == '(' || c == ')', "bad output unit for {}", name);
            }
        }
    }
}

#[test]
fn all_variants_agree() {
    for text in ["", "x", "din", "recede", "Success", "(( @", "Mississippi River", "aAbBcC zz 11"] {
        let outputs = all_variants(text);
        let (_, reference) = &outputs[0];
        for (name, actual) in &outputs {
            assert_eq!(actual, reference, "variant {} disagrees", name);
        }
    }
}

#[test]
fn encoding_is_deterministic() {
    for text in ["", "din", "Success", "(( @"] {
        assert_eq!(duplicate_encode(text), duplicate_encode(text));
        assert_eq!(
            duplicate_encode_track_seen(text),
            duplicate_encode_track_seen(text)
        );
    }
}

#[test]
fn re_encoding_the_output_is_not_idempotent() {
    let once = duplicate_encode("recede");
    assert_eq!(once, "()()()");
    let twice = duplicate_encode(&once);
    assert_eq!(twice, "))))))");
    assert_ne!(once, twice);
}

#[test]
fn chunk_size_does_not_change_the_output() {
    let text = "Mississippi River flows south";
    let reference = duplicate_encode(text);
    for chunk_size in [1, 2, 3, 5, 7, 16, 1000] {
        assert_eq!(duplicate_encode_chunks(text, chunk_size), reference);
        assert_eq!(duplicate_encode_parallel(text, chunk_size), reference);
    }
}

#[test]
fn chunk_size_larger_than_input_is_one_chunk() {
    assert_eq!(duplicate_encode_chunks("recede", 100), "()()()");
    assert_eq!(duplicate_encode_parallel("recede", 100), "()()()");
}

#[test]
fn streaming_fixes_up_first_occurrence_only_once() {
    // Three sightings of one key: the first is rewritten when the second
    // arrives, and the third needs no further fix-up.
    assert_eq!(duplicate_encode_track_seen("aba"), ")()");
    assert_eq!(duplicate_encode_track_seen("aaa"), ")))");
    assert_eq!(duplicate_encode_track_seen("abcabc"), "))))))");
}

#[test]
fn long_mixed_input_matches_two_pass_reference() {
    // A longer input exercising fold, duplicates and chunk remainders.
    let mut text = String::new();
    for i in 0..257u32 {
        let c = char::from_u32('0' as u32 + (i % 75)).unwrap();
        text.push(c);
    }
    let reference = duplicate_encode(&text);
    for (name, actual) in all_variants(&text) {
        assert_eq!(actual, reference, "variant {} disagrees", name);
    }
}
