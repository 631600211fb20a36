use word_lobby::guess::evaluate;
use word_lobby::guess::CharColor;

#[test]
fn evaluate_length_and_green_positions() {
    let r = evaluate("slate", "sxxxe");
    assert_eq!(r.len(), 5);
    assert_eq!(
        r,
        vec![
            CharColor::Green,
            CharColor::Gray,
            CharColor::Gray,
            CharColor::Gray,
            CharColor::Green,
        ]
    );
}

#[test]
fn evaluate_deterministic() {
    let r1 = evaluate("crane", "trace");
    let r2 = evaluate("crane", "trace");
    assert_eq!(r1, r2);
}

#[test]
fn evaluate_duplicate_letters_robot_oomph() {
    // Set-based duplicate handling: a letter guessed more often than the
    // secret holds it is Yellow at every non-exact occurrence.
    let r = evaluate("robot", "oomph");
    assert_eq!(
        r,
        vec![
            CharColor::Yellow,
            CharColor::Green,
            CharColor::Gray,
            CharColor::Gray,
            CharColor::Gray,
        ]
    );
}

#[test]
fn evaluate_duplicate_letters_every_occurrence_yellow() {
    // "crane" holds a single 'e'; guessing 'e' five times yields Yellow at
    // every position but the exact match.
    let r = evaluate("crane", "eeeee");
    assert_eq!(
        r,
        vec![
            CharColor::Yellow,
            CharColor::Yellow,
            CharColor::Yellow,
            CharColor::Yellow,
            CharColor::Green,
        ]
    );
}

#[test]
fn evaluate_empty_words() {
    let r = evaluate("", "");
    assert!(r.is_empty());
}

#[test]
fn evaluate_all_green_on_exact_guess() {
    let r = evaluate("crane", "crane");
    assert_eq!(r, vec![CharColor::Green; 5]);
}
