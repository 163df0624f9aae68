//! The command language of an interactive solver session.
//!
//! A line of input is cut into words at every blank. The first word names the
//! command; `add` takes three numbers after it: row, column and digit.
//! Nothing here reads or prints: a caller hands over the line it has read and
//! acts on the [`Command`] it gets back.
use vstd::prelude::*;
use vstd::string::StrSliceExecFns;
use crate::parse::{digit_of, digit_value, is_digit};

verus! {

/// What a line of input asks for.
#[derive(Debug, Clone, Copy, PartialEq, Eq)]
pub enum Command {
    /// Start over with an empty board.
    New,
    /// Write `number` into the cell in row `row` and column `column`, both
    /// counted from 1 as the user typed them.
    Add { row: usize, column: usize, number: u8 },
    /// An `add` without three numbers behind it: show how `add` is used.
    AddUsage,
    /// Solve the puzzle on the board.
    Solve,
    /// Show the board.
    Print,
    /// End the session.
    Exit,
    /// List the commands.
    Help,
    /// Anything else.
    Invalid,
}

/// `line` without its line ending: a final line feed is dropped, and then a
/// final carriage return.
pub open spec fn without_line_ending(line: Seq<char>) -> Seq<char> {
    let cut = if line.len() > 0 && line.last() == '\n' {
        line.drop_last()
    } else {
        line
    };
    if cut.len() > 0 && cut.last() == '\r' {
        cut.drop_last()
    } else {
        cut
    }
}

/// The words of `line`: the stretches between its blanks, empty ones
/// included. A line without a blank is one word.
pub open spec fn words_of(line: Seq<char>) -> Seq<Seq<char>>
    decreases line.len(),
{
    if line.len() == 0 {
        seq![Seq::empty()]
    } else {
        let before = words_of(line.drop_last());
        if line.last() == ' ' {
            before.push(Seq::empty())
        } else {
            before.update(before.len() - 1, before.last().push(line.last()))
        }
    }
}

/// The words that a vector of character vectors holds.
pub open spec fn texts_of(words: Seq<Vec<char>>) -> Seq<Seq<char>> {
    Seq::new(words.len(), |i: int| words[i]@)
}

/// The number that a string of decimal digits spells.
pub open spec fn digits_value(digits: Seq<char>) -> nat
    decreases digits.len(),
{
    if digits.len() == 0 {
        0
    } else {
        digits_value(digits.drop_last()) * 10 + digit_value(digits.last()) as nat
    }
}

/// The digits of `word`, behind the plus sign that may lead it.
pub open spec fn unsigned_part(word: Seq<char>) -> Seq<char> {
    if word.len() > 0 && word[0] == '+' {
        word.skip(1)
    } else {
        word
    }
}

/// The number that `word` spells, if it spells one that is at most `max`: an
/// optional plus sign, then one or more decimal digits and nothing else.
pub open spec fn number_of(word: Seq<char>, max: nat) -> Option<nat> {
    let digits = unsigned_part(word);
    if digits.len() > 0 && (forall|i: int| 0 <= i < digits.len() ==> is_digit(#[trigger] digits[i]))
        && digits_value(digits) <= max {
        Some(digits_value(digits))
    } else {
        None
    }
}

/// The command that `line` spells.
pub open spec fn command_of(line: Seq<char>) -> Command {
    let words = words_of(line);
    let name = words[0];
    if name == "new"@ {
        Command::New
    } else if name == "add"@ {
        if words.len() < 4 {
            Command::AddUsage
        } else {
            match (
                number_of(words[1], usize::MAX as nat),
                number_of(words[2], usize::MAX as nat),
                number_of(words[3], u8::MAX as nat),
            ) {
                (Some(row), Some(column), Some(number)) => Command::Add {
                    row: row as usize,
                    column: column as usize,
                    number: number as u8,
                },
                _ => Command::AddUsage,
            }
        }
    } else if name == "solve"@ {
        Command::Solve
    } else if name == "print"@ {
        Command::Print
    } else if name == "exit"@ {
        Command::Exit
    } else if name == "help"@ {
        Command::Help
    } else {
        Command::Invalid
    }
}

/// Every line has a first word.
pub proof fn lemma_words_nonempty(line: Seq<char>)
    ensures
        words_of(line).len() >= 1,
    decreases line.len(),
{
    if line.len() > 0 {
        lemma_words_nonempty(line.drop_last());
    }
}

/// A string of digits spells no less than any of its beginnings.
proof fn lemma_digits_value_grows(digits: Seq<char>, k: int)
    requires
        0 <= k <= digits.len(),
    ensures
        digits_value(digits.take(k)) <= digits_value(digits),
    decreases digits.len(),
{
    if k == digits.len() {
        assert(digits.take(k) =~= digits);
    } else {
        lemma_digits_value_grows(digits.drop_last(), k);
        assert(digits.drop_last().take(k) =~= digits.take(k));
    }
}

/// Cuts the line ending off a line that was read.
pub fn strip_line_ending(line: &str) -> (res: &str)
    ensures
        res@ == without_line_ending(line@),
{
    let mut end = line.unicode_len();
    if end > 0 && line.get_char(end - 1) == '\n' {
        end -= 1;
    }
    if end > 0 && line.get_char(end - 1) == '\r' {
        end -= 1;
    }
    let res = line.substring_char(0, end);
    assert(res@ =~= without_line_ending(line@));
    res
}

/// Cuts a line into its words.
pub fn split_words(line: &str) -> (words: Vec<Vec<char>>)
    ensures
        texts_of(words@) == words_of(line@),
        words@.len() >= 1,
{
    let ghost text = line@;
    let mut words: Vec<Vec<char>> = Vec::new();
    words.push(Vec::new());
    assert(texts_of(words@) =~= words_of(text.take(0)));
    for ch in it: line.chars()
        invariant
            it.seq() == text,
            text == line@,
            words@.len() >= 1,
            texts_of(words@) == words_of(text.take(it.index() as int)),
    {
        let ghost n = it.index() as int;
        let ghost before = texts_of(words@);
        assert(text.take(n + 1).drop_last() =~= text.take(n));
        assert(text.take(n + 1).last() == ch);
        if ch == ' ' {
            words.push(Vec::new());
            assert(texts_of(words@) =~= before.push(Seq::empty()));
        } else {
            let last = words.len() - 1;
            words[last].push(ch);
            assert(texts_of(words@) =~= before.update(before.len() - 1, before.last().push(ch)));
        }
    }
    assert(text.take(text.len() as int) =~= text);
    words
}

/// Whether `word` is the text `keyword`.
fn word_is(word: &Vec<char>, keyword: &str) -> (res: bool)
    ensures
        res == (word@ == keyword@),
{
    let mut i: usize = 0;
    for ch in it: keyword.chars()
        invariant
            it.seq() == keyword@,
            i == it.index(),
            i <= word@.len(),
            word@.take(i as int) == keyword@.take(i as int),
    {
        if i >= word.len() || word[i] != ch {
            return false;
        }
        assert(word@.take(i + 1) =~= word@.take(i as int).push(ch));
        assert(keyword@.take(i + 1) =~= keyword@.take(i as int).push(ch));
        i += 1;
    }
    assert(keyword@.take(i as int) =~= keyword@);
    if i == word.len() {
        assert(word@.take(i as int) =~= word@);
        true
    } else {
        false
    }
}

/// Reads `word` as a number that is at most `max`.
pub fn read_number(word: &Vec<char>, max: usize) -> (res: Option<usize>)
    ensures
        res matches Some(value) ==> number_of(word@, max as nat) == Some(value as nat),
        res is None ==> number_of(word@, max as nat) is None,
{
    let start: usize = if word.len() > 0 && word[0] == '+' {
        1
    } else {
        0
    };
    let ghost digits = unsigned_part(word@);
    assert(digits =~= word@.skip(start as int));
    if start == word.len() {
        return None;
    }
    let mut value: usize = 0;
    let mut i: usize = start;
    while i < word.len()
        invariant
            start <= i <= word@.len(),
            start <= 1,
            digits == word@.skip(start as int),
            digits == unsigned_part(word@),
            forall|j: int| 0 <= j < i - start ==> is_digit(#[trigger] digits[j]),
            value == digits_value(digits.take(i - start)),
            value <= max,
        decreases word@.len() - i,
    {
        let ghost k = i - start;
        assert(digits[k] == word@[i as int]);
        assert(digits.take(k + 1).drop_last() =~= digits.take(k));
        assert(digits.take(k + 1).last() == digits[k]);
        match digit_of(word[i]) {
            None => {
                assert(!is_digit(digits[k]));
                return None;
            },
            Some(digit) => {
                assert(digits_value(digits.take(k + 1)) == value * 10 + digit);
                if digit as usize > max || value > (max - digit as usize) / 10 {
                    proof {
                        lemma_digits_value_grows(digits, k + 1);
                    }
                    return None;
                }
                value = value * 10 + digit as usize;
            },
        }
        i += 1;
    }
    assert(digits.take(i - start) =~= digits);
    Some(value)
}

/// Reads a line of input, without its line ending, as a command.
pub fn parse_command(line: &str) -> (command: Command)
    ensures
        command == command_of(line@),
{
    let words = split_words(line);
    assert(texts_of(words@)[0] == words@[0]@);
    let name = &words[0];
    if word_is(name, "new") {
        Command::New
    } else if word_is(name, "add") {
        if words.len() < 4 {
            return Command::AddUsage;
        }
        assert(texts_of(words@)[1] == words@[1]@);
        assert(texts_of(words@)[2] == words@[2]@);
        assert(texts_of(words@)[3] == words@[3]@);
        let row = read_number(&words[1], usize::MAX);
        let column = read_number(&words[2], usize::MAX);
        let number = read_number(&words[3], 255);
        match (row, column, number) {
            (Some(row), Some(column), Some(number)) => Command::Add {
                row,
                column,
                number: number as u8,
            },
            _ => Command::AddUsage,
        }
    } else if word_is(name, "solve") {
        Command::Solve
    } else if word_is(name, "print") {
        Command::Print
    } else if word_is(name, "exit") {
        Command::Exit
    } else if word_is(name, "help") {
        Command::Help
    } else {
        Command::Invalid
    }
}

} // verus!
