use sudoku_solver::shell::{parse_command, read_number, split_words, strip_line_ending, Command};

fn word(text: &str) -> Vec<char> {
    text.chars().collect()
}

#[test]
fn strip_line_ending_drops_a_line_feed() {
    assert_eq!(strip_line_ending("solve\n"), "solve");
    assert_eq!(strip_line_ending("add 1 2 3\n"), "add 1 2 3");
    assert_eq!(strip_line_ending("\n"), "");
}

#[test]
fn strip_line_ending_drops_carriage_return_and_line_feed() {
    assert_eq!(strip_line_ending("solve\r\n"), "solve");
    assert_eq!(strip_line_ending("\r\n"), "");
}

#[test]
fn strip_line_ending_drops_a_lone_carriage_return() {
    assert_eq!(strip_line_ending("solve\r"), "solve");
}

#[test]
fn strip_line_ending_drops_one_ending_only() {
    assert_eq!(strip_line_ending("solve\n\n"), "solve\n");
    assert_eq!(strip_line_ending("solve\n\r"), "solve\n");
    assert_eq!(strip_line_ending("solve\r\r\n"), "solve\r");
}

#[test]
fn strip_line_ending_leaves_other_text_alone() {
    assert_eq!(strip_line_ending(""), "");
    assert_eq!(strip_line_ending("solve"), "solve");
    assert_eq!(strip_line_ending("solve "), "solve ");
    assert_eq!(strip_line_ending("\nsolve"), "\nsolve");
    assert_eq!(strip_line_ending("zählen\n"), "zählen");
}

#[test]
fn split_words_cuts_at_every_blank() {
    assert_eq!(split_words("add 1 2 3"), vec![word("add"), word("1"), word("2"), word("3")]);
    assert_eq!(split_words("solve"), vec![word("solve")]);
    assert_eq!(split_words(""), vec![word("")]);
    assert_eq!(split_words(" "), vec![word(""), word("")]);
    assert_eq!(split_words("a  b "), vec![word("a"), word(""), word("b"), word("")]);
    assert_eq!(split_words("a\tb"), vec![word("a\tb")]);
}

#[test]
fn split_words_agrees_with_the_standard_split() {
    for line in ["add 1 2 3", "", " ", "  x", "x  ", "new game now", "é ü"] {
        let expected: Vec<Vec<char>> = line.split(' ').map(word).collect();
        assert_eq!(split_words(line), expected);
    }
}

#[test]
fn read_number_reads_decimal_digits() {
    assert_eq!(read_number(&word("0"), 255), Some(0));
    assert_eq!(read_number(&word("7"), 255), Some(7));
    assert_eq!(read_number(&word("42"), 255), Some(42));
    assert_eq!(read_number(&word("255"), 255), Some(255));
    assert_eq!(read_number(&word("007"), 255), Some(7));
    assert_eq!(read_number(&word("+9"), 255), Some(9));
}

#[test]
fn read_number_refuses_what_is_too_large() {
    assert_eq!(read_number(&word("256"), 255), None);
    assert_eq!(read_number(&word("1000"), 255), None);
    assert_eq!(read_number(&word("99999999999999999999999999"), usize::MAX), None);
    assert_eq!(read_number(&word("6"), 5), None);
    assert_eq!(read_number(&word("5"), 5), Some(5));
    assert_eq!(read_number(&word("10"), 9), None);
    assert_eq!(
        read_number(&word(&usize::MAX.to_string()), usize::MAX),
        Some(usize::MAX)
    );
}

#[test]
fn read_number_refuses_what_is_no_number() {
    for text in ["", "+", "-1", "1a", "a", " 1", "1 ", "++1", "1+", "0x10", "١"] {
        assert_eq!(read_number(&word(text), usize::MAX), None);
    }
}

#[test]
fn read_number_agrees_with_the_standard_parse() {
    for text in ["0", "9", "10", "+3", "255", "256", "", "+", "-0", "12x", "0012", "300"] {
        assert_eq!(read_number(&word(text), 255), text.parse::<u8>().ok().map(usize::from));
        assert_eq!(read_number(&word(text), usize::MAX), text.parse::<usize>().ok());
    }
}

#[test]
fn parse_command_knows_the_plain_commands() {
    assert_eq!(parse_command("new"), Command::New);
    assert_eq!(parse_command("solve"), Command::Solve);
    assert_eq!(parse_command("print"), Command::Print);
    assert_eq!(parse_command("exit"), Command::Exit);
    assert_eq!(parse_command("help"), Command::Help);
}

#[test]
fn parse_command_ignores_what_follows_a_plain_command() {
    assert_eq!(parse_command("new game"), Command::New);
    assert_eq!(parse_command("exit "), Command::Exit);
    assert_eq!(parse_command("solve 1 2 3"), Command::Solve);
}

#[test]
fn parse_command_reads_add_with_three_numbers() {
    assert_eq!(
        parse_command("add 1 2 3"),
        Command::Add { row: 1, column: 2, number: 3 }
    );
    assert_eq!(
        parse_command("add 9 9 9 and more"),
        Command::Add { row: 9, column: 9, number: 9 }
    );
    assert_eq!(
        parse_command("add 0 100 255"),
        Command::Add { row: 0, column: 100, number: 255 }
    );
    assert_eq!(
        parse_command("add +4 05 6"),
        Command::Add { row: 4, column: 5, number: 6 }
    );
}

#[test]
fn parse_command_asks_for_the_usage_of_add() {
    for line in [
        "add", "add 1", "add 1 2", "add 1 2 ", "add a 2 3", "add 1 b 3", "add 1 2 c",
        "add 1 2 256", "add  1 2 3", "add -1 2 3", "add 1 2 3.0",
    ] {
        assert_eq!(parse_command(line), Command::AddUsage);
    }
}

#[test]
fn parse_command_refuses_everything_else() {
    for line in ["", " ", "quit", "New", "news", "ne", " new", "add1", "solve\n", "helpme"] {
        assert_eq!(parse_command(line), Command::Invalid);
    }
}
