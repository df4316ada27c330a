use std::collections::HashSet;

use puzzles::scratchcards::{
    parse_card, parse_cards, sum_of_scratchcard_points, total_scratchcards, Card,
};

const SAMPLE: &str = "Card 1: 41 48 83 86 17 | 83 86  6 31 17  9 48 53
Card 2: 13 32 20 16 61 | 61 30 68 82 17 32 24 19
Card 3:  1 21 53 59 44 | 69 82 63 72 16 21 14  1
Card 4: 41 92 73 84 69 | 59 84 76 51 58  5 54 83
Card 5: 87 83 26 28 32 | 88 30 70 12 93 22 82 36
Card 6: 31 18 13 56 72 | 74 77 10 23 35 67 36 11
";

#[test]
fn validate_sample_for_sum_of_scratchcard_points() {
    let sum = sum_of_scratchcard_points(SAMPLE);
    assert_eq!(sum, Some(13));
}

#[test]
fn validate_sample_for_total_scratchcards() {
    let total = total_scratchcards(SAMPLE);
    assert_eq!(total, Some(30));
}

#[test]
fn validate_parsing_cards() {
    let input = "Card 3:  1 21 53 59 44 | 69 82 63 72 16 21 14  1";
    let expected = Card {
        winning_numbers: HashSet::from([1, 21, 53, 59, 44]),
        actual_numbers: vec![69, 82, 63, 72, 16, 21, 14, 1],
    };

    let actual = parse_card(input).unwrap();

    assert_eq!(actual, expected);
}

#[test]
fn validate_points() {
    let examples = [
        ("Card 1: 41 48 83 86 17 | 83 86  6 31 17  9 48 53", 8),
        ("Card 2: 13 32 20 16 61 | 61 30 68 82 17 32 24 19", 2),
        ("Card 3:  1 21 53 59 44 | 69 82 63 72 16 21 14  1", 2),
        ("Card 4: 41 92 73 84 69 | 59 84 76 51 58  5 54 83", 1),
        ("Card 5: 87 83 26 28 32 | 88 30 70 12 93 22 82 36", 0),
        ("Card 6: 31 18 13 56 72 | 74 77 10 23 35 67 36 11", 0),
    ];

    for (input, expected) in examples.into_iter() {
        let actual = parse_card(input).unwrap().points();
        assert_eq!(actual, expected);
    }
}

#[test]
fn repeated_numbers_each_count() {
    let card = parse_card("Card 1: 5 | 5 5 5 7").unwrap();
    assert_eq!(card.winning_number_count(), 3);
    assert_eq!(card.points(), 4);
}

#[test]
fn malformed_cards_are_rejected() {
    assert!(parse_card("Card 1 5 | 5").is_none());
    assert!(parse_card("Card 1: 5 5").is_none());
    assert!(parse_card("Card 1: 5 x | 5").is_none());
    assert!(parse_cards("Card 1: 1 | 1\nbad\n").is_none());
    assert_eq!(total_scratchcards("bad"), None);
    assert_eq!(sum_of_scratchcard_points("bad"), None);
}

#[test]
fn cards_never_win_past_the_last() {
    assert_eq!(total_scratchcards("Card 1: 1 2 3 | 1 2 3\nCard 2: 9 | 8\n"), Some(3));
    assert_eq!(total_scratchcards(""), Some(0));
}

#[test]
fn too_many_matches_cannot_be_scored() {
    let numbers: Vec<String> = (1..=33).map(|n| n.to_string()).collect();
    let line = format!("Card 1: {} | {}", numbers.join(" "), numbers.join(" "));
    assert_eq!(sum_of_scratchcard_points(&line), None);
    let numbers: Vec<String> = (1..=32).map(|n| n.to_string()).collect();
    let line = format!("Card 1: {} | {}", numbers.join(" "), numbers.join(" "));
    assert_eq!(sum_of_scratchcard_points(&line), Some(1 << 31));
}
