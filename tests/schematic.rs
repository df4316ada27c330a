use puzzles::schematic::{
    gear, number_locations, parse_line, parse_tokens, part_number, sum_of_gear_ratios,
    sum_of_part_numbers, symbol_locations, Gear, Location, SchematicError, Token, TokenValue,
};

const SAMPLE: &str = "467..114..\n...*......\n..35..633.\n......#...\n617*......\n.....+.58.\n..592.....\n......755.\n...$.*....\n.664.598..\n";

fn number(row: u32, col_start: u32, col_end: u32, n: u32) -> Token {
    Token { row, col_start, col_end, value: TokenValue::Number(n) }
}

fn symbol(row: u32, col: u32, c: char) -> Token {
    Token { row, col_start: col, col_end: col, value: TokenValue::Symbol(c) }
}

#[test]
fn validate_sample_for_sum_of_part_numbers() {
    assert_eq!(sum_of_part_numbers(SAMPLE), Ok(4361));
}

#[test]
fn validate_sample_for_sum_of_gear_ratios() {
    assert_eq!(sum_of_gear_ratios(SAMPLE), Ok(467835));
}

#[test]
fn parse_tokens_from_input() {
    let input = "467..114..\n...*......\n..35..633.\n";

    let expected = vec![
        Token { row: 0, col_start: 0, col_end: 2, value: TokenValue::Number(467) },
        Token { row: 0, col_start: 5, col_end: 7, value: TokenValue::Number(114) },
        Token { row: 1, col_start: 3, col_end: 3, value: TokenValue::Symbol('*') },
        Token { row: 2, col_start: 2, col_end: 3, value: TokenValue::Number(35) },
        Token { row: 2, col_start: 6, col_end: 8, value: TokenValue::Number(633) },
    ];

    let actual = parse_tokens(input).unwrap();
    assert_eq!(actual, expected);
}

#[test]
fn tokens_reproduce_their_text() {
    let lines: Vec<&str> = SAMPLE.lines().collect();
    for t in parse_tokens(SAMPLE).unwrap() {
        let line: Vec<char> = lines[t.row as usize].chars().collect();
        let text: String = line[t.col_start as usize..=t.col_end as usize].iter().collect();
        match t.value {
            TokenValue::Number(n) => {
                assert_eq!(text, n.to_string());
                assert_eq!((t.col_end - t.col_start + 1) as usize, n.to_string().len());
            }
            TokenValue::Symbol(c) => assert_eq!(text, c.to_string()),
        }
    }
}

#[test]
fn leading_zeros_are_read_as_digits() {
    let tokens = parse_tokens("007*\n").unwrap();
    assert_eq!(tokens, vec![number(0, 0, 2, 7), symbol(0, 3, '*')]);
}

#[test]
fn crlf_line_endings_are_accepted() {
    assert_eq!(parse_tokens("1.\r\n.#\r\n").unwrap(), vec![number(0, 0, 0, 1), symbol(1, 1, '#')]);
}

#[test]
fn unknown_character_is_an_error() {
    assert_eq!(parse_tokens("12.\n.a.\n"), Err(SchematicError::UnknownCharacter('a')));
    assert_eq!(sum_of_part_numbers("1!"), Err(SchematicError::UnknownCharacter('!')));
    assert_eq!(sum_of_gear_ratios("*?"), Err(SchematicError::UnknownCharacter('?')));
}

#[test]
fn number_too_large_is_an_error() {
    assert_eq!(parse_tokens("4294967296"), Err(SchematicError::MalformedNumber));
    assert_eq!(parse_tokens("4294967295").unwrap(), vec![number(0, 0, 9, 4294967295)]);
}

#[test]
fn first_error_of_a_line_wins() {
    assert_eq!(parse_line(3, "99999999999x"), Err(SchematicError::MalformedNumber));
    assert_eq!(parse_line(3, "x99999999999"), Err(SchematicError::UnknownCharacter('x')));
    assert_eq!(parse_line(3, ".5.#"), Ok(vec![number(3, 1, 1, 5), symbol(3, 3, '#')]));
}

#[test]
fn isolated_symbol_adds_nothing() {
    let input = "1.....\n......\n...*..\n......\n";
    assert_eq!(sum_of_part_numbers(input), Ok(0));
    assert_eq!(sum_of_gear_ratios(input), Ok(0));
}

#[test]
fn star_with_two_numbers_adds_their_product() {
    assert_eq!(sum_of_gear_ratios("12.\n.*.\n..5\n"), Ok(60));
}

#[test]
fn star_with_one_or_three_numbers_adds_nothing() {
    assert_eq!(sum_of_gear_ratios("12.\n.*.\n...\n"), Ok(0));
    assert_eq!(sum_of_gear_ratios("1.2\n.*.\n3..\n"), Ok(0));
    assert_eq!(sum_of_part_numbers("1.2\n.*.\n3..\n"), Ok(6));
}

#[test]
fn equal_numbers_are_distinct_tokens() {
    assert_eq!(sum_of_gear_ratios("7.7\n.*.\n"), Ok(49));
}

#[test]
fn number_touching_a_star_twice_counts_once() {
    assert_eq!(sum_of_gear_ratios("123\n.*.\n"), Ok(0));
    assert_eq!(sum_of_gear_ratios("123\n.*.\n.4.\n"), Ok(492));
}

#[test]
fn no_symbols_gives_zero_sums() {
    let input = "467..114..\n..35..633.\n";
    assert_eq!(sum_of_part_numbers(input), Ok(0));
    assert_eq!(sum_of_gear_ratios(input), Ok(0));
}

#[test]
fn star_in_the_corner() {
    let input = "*2\n3.\n";
    assert_eq!(sum_of_gear_ratios(input), Ok(6));
    assert_eq!(sum_of_part_numbers(input), Ok(5));
}

#[test]
fn empty_input_has_no_tokens() {
    assert_eq!(parse_tokens("").unwrap(), vec![]);
    assert_eq!(sum_of_part_numbers(""), Ok(0));
}

#[test]
fn token_accessors() {
    let n = number(2, 4, 6, 35);
    let s = symbol(1, 0, '$');
    assert!(n.is_number() && !n.is_symbol());
    assert!(s.is_symbol() && !s.is_number());
    assert_eq!(n.number(), Some(35));
    assert_eq!(n.symbol(), None);
    assert_eq!(s.symbol(), Some('$'));
    assert_eq!(s.number(), None);
    assert_eq!(
        n.locations(),
        vec![Location { row: 2, column: 4 }, Location { row: 2, column: 5 }, Location { row: 2, column: 6 }]
    );
}

#[test]
fn surrounding_locations_saturate_at_the_edges() {
    let corner = symbol(0, 0, '*');
    assert_eq!(
        corner.surrounding_locations(),
        vec![
            Location { row: 0, column: 0 },
            Location { row: 0, column: 1 },
            Location { row: 1, column: 0 },
            Location { row: 1, column: 1 },
        ]
    );
    let around = number(5, 3, 4, 10).surrounding_locations();
    assert_eq!(around.len(), 12);
    assert_eq!(around[0], Location { row: 4, column: 2 });
    assert_eq!(around[11], Location { row: 6, column: 5 });
    for pair in around.windows(2) {
        assert!((pair[0].row, pair[0].column) < (pair[1].row, pair[1].column));
    }
}

#[test]
fn erasing_an_isolated_symbol_keeps_both_sums() {
    let with_symbol = "467..114..\n...*......\n..35..633.\n..........\n.#.......*\n";
    let without = "467..114..\n...*......\n..35..633.\n..........\n.........*\n";
    assert_eq!(sum_of_part_numbers(with_symbol), sum_of_part_numbers(without));
    assert_eq!(sum_of_gear_ratios(with_symbol), sum_of_gear_ratios(without));
    assert_eq!(sum_of_part_numbers(without), Ok(502));
    assert_eq!(sum_of_gear_ratios(without), Ok(16345));
}

#[test]
fn part_number_and_gear_on_indexes() {
    let tokens = parse_tokens("467..\n...*.\n..35.\n").unwrap();
    let symbols = symbol_locations(&tokens);
    assert_eq!(symbols, vec![Location { row: 1, column: 3 }]);
    assert_eq!(part_number(&tokens[0], &symbols), Some(467));
    assert_eq!(part_number(&tokens[1], &symbols), None);
    let numbers = number_locations(&tokens);
    assert_eq!(numbers.len(), 5);
    let g = gear(&tokens[1], &numbers).unwrap();
    let mut pair = g.adjacent_part_numbers;
    pair.sort();
    assert_eq!(pair, [35, 467]);
    assert_eq!(g.ratio(), 16345);
    assert_eq!(Gear { adjacent_part_numbers: [u32::MAX, u32::MAX] }.ratio(), 18446744065119617025);
}
