use wordle::evaluate::{evaluate, Correctness};

#[test]
fn exact_guess_is_all_correct() {
    let marks = evaluate("crane", "crane");
    assert_eq!(
        marks,
        vec![
            Correctness::Correct,
            Correctness::Correct,
            Correctness::Correct,
            Correctness::Correct,
            Correctness::Correct,
        ]
    );
}

#[test]
fn disjoint_guess_is_all_absent() {
    let marks = evaluate("crane", "pivot");
    assert_eq!(
        marks,
        vec![
            Correctness::Absent,
            Correctness::Absent,
            Correctness::Absent,
            Correctness::Absent,
            Correctness::Absent,
        ]
    );
}

#[test]
fn repeated_letters_consume_target_occurrences() {
    // Target "lilac", guess "llama". The target holds 'l' at positions 0
    // and 2 and a single 'a' at position 3. The exact match at position 0
    // consumes one 'l', leaving one for the 'l' guessed at position 1; the
    // 'a' at position 2 takes the target's only 'a', so the 'a' at
    // position 4 finds nothing left, and 'm' does not occur at all.
    let marks = evaluate("llama", "lilac");
    assert_eq!(marks[0], Correctness::Correct);
    assert_eq!(marks[1], Correctness::PresentElsewhere);
    assert_eq!(marks[2], Correctness::PresentElsewhere);
    assert_eq!(marks[3], Correctness::Absent);
    assert_eq!(marks[4], Correctness::Absent);
}

#[test]
fn second_occurrence_beyond_target_count_is_absent() {
    // Target "abcde" holds one 'a'; the guess's first 'a' matches exactly,
    // so its second 'a' finds nothing left.
    let marks = evaluate("aazzz", "abcde");
    assert_eq!(marks[0], Correctness::Correct);
    assert_eq!(marks[1], Correctness::Absent);
}

#[test]
fn present_elsewhere_is_capped_by_target_count() {
    // Target "abcbd" holds two 'b's, at positions 1 and 3. The guessed 'b'
    // at position 1 matches exactly and consumes one; the 'b' at position 0
    // takes the other; the 'b' at position 2 finds none left.
    let marks = evaluate("bbbzz", "abcbd");
    assert_eq!(marks[0], Correctness::PresentElsewhere);
    assert_eq!(marks[1], Correctness::Correct);
    assert_eq!(marks[2], Correctness::Absent);
    assert_eq!(marks[3], Correctness::Absent);
    assert_eq!(marks[4], Correctness::Absent);
}

#[test]
fn exact_matches_consume_before_present_elsewhere() {
    // Target "aabbb": the guess "azaza" puts 'a' at position 0 (exact) and
    // guesses 'a' twice more; only one further 'a' remains in the target.
    let marks = evaluate("azaza", "aabbb");
    assert_eq!(marks[0], Correctness::Correct);
    assert_eq!(marks[2], Correctness::PresentElsewhere);
    assert_eq!(marks[4], Correctness::Absent);
}

#[test]
fn empty_strings_yield_no_marks() {
    let marks = evaluate("", "");
    assert_eq!(marks.len(), 0);
}
