//! Flashcards: two-sided cards, the commands of a review, and the screen
//! that a review shows.

use vstd::prelude::*;
use vstd::string::StringExecFns;

verus! {

/// A flashcard: a text on the front and a text on the back.
#[derive(Debug)]
pub struct Card {
    front: String,
    back: String,
}

impl Card {
    /// The text on the front, as a specification value.
    pub closed spec fn front_view(&self) -> Seq<char> {
        self.front@
    }

    /// The text on the back, as a specification value.
    pub closed spec fn back_view(&self) -> Seq<char> {
        self.back@
    }

    /// The card with the given texts.
    pub fn new(front: String, back: String) -> (card: Card)
        ensures
            card.front_view() == front@,
            card.back_view() == back@,
    {
        Card { front, back }
    }

    /// The text on the front.
    pub fn front(&self) -> (text: &str)
        ensures
            text@ == self.front_view(),
    {
        self.front.as_str()
    }

    /// The text on the back.
    pub fn back(&self) -> (text: &str)
        ensures
            text@ == self.back_view(),
    {
        self.back.as_str()
    }
}

/// What can be asked of a deck that is being gone through.
#[derive(Clone, Copy, Debug, PartialEq, Eq, Structural)]
pub enum Command {
    Previous,
    Next,
    Flip,
    Quit,
    Shuffle,
    Unknown,
}

/// The command that a word in lower case stands for: each command by its
/// name or its first letter, anything else is `Unknown`.
pub open spec fn command_of(word: Seq<char>) -> Command {
    if word == "n"@ || word == "next"@ {
        Command::Next
    } else if word == "p"@ || word == "previous"@ {
        Command::Previous
    } else if word == "f"@ || word == "flip"@ {
        Command::Flip
    } else if word == "q"@ || word == "quit"@ {
        Command::Quit
    } else if word == "s"@ || word == "shuffle"@ {
        Command::Shuffle
    } else {
        Command::Unknown
    }
}

fn is_word(text: &String, word: &str) -> (r: bool)
    ensures
        r == (text@ == word@),
{
    let other = String::from_str(word);
    *text == other
}

/// The command that `word` stands for, read as it is written: a word with a
/// capital letter in it is `Unknown`.
pub fn command_for(word: &str) -> (command: Command)
    ensures
        command == command_of(word@),
{
    let text = String::from_str(word);
    if is_word(&text, "n") || is_word(&text, "next") {
        Command::Next
    } else if is_word(&text, "p") || is_word(&text, "previous") {
        Command::Previous
    } else if is_word(&text, "f") || is_word(&text, "flip") {
        Command::Flip
    } else if is_word(&text, "q") || is_word(&text, "quit") {
        Command::Quit
    } else if is_word(&text, "s") || is_word(&text, "shuffle") {
        Command::Shuffle
    } else {
        Command::Unknown
    }
}

/// What `str::to_lowercase` makes of a text.
pub uninterp spec fn lowercase_of(text: Seq<char>) -> Seq<char>;

/// Calls `str::to_lowercase`. The contract claims only that the result is a
/// function of the text.
#[verifier::external_body]
fn to_lowercase(text: &str) -> (lowered: String)
    ensures
        lowered@ == lowercase_of(text@),
{
    text.to_lowercase()
}

/// The command that `input` stands for, whatever the case of its letters.
pub fn parse_command(input: &str) -> (command: Command)
    ensures
        command == command_of(lowercase_of(input@)),
{
    let lowered = to_lowercase(input);
    command_for(lowered.as_str())
}

/// The character for a digit.
pub open spec fn digit_char(digit: int) -> char
    recommends
        0 <= digit < 10,
{
    if digit == 0 {
        '0'
    } else if digit == 1 {
        '1'
    } else if digit == 2 {
        '2'
    } else if digit == 3 {
        '3'
    } else if digit == 4 {
        '4'
    } else if digit == 5 {
        '5'
    } else if digit == 6 {
        '6'
    } else if digit == 7 {
        '7'
    } else if digit == 8 {
        '8'
    } else {
        '9'
    }
}

/// A number written in decimal, without leading zeros.
pub open spec fn decimal(n: nat) -> Seq<char>
    decreases n,
{
    if n < 10 {
        seq![digit_char(n as int)]
    } else {
        decimal(n / 10).push(digit_char((n % 10) as int))
    }
}

fn digit_text(digit: usize) -> (text: &'static str)
    requires
        digit < 10,
    ensures
        text@ == seq![digit_char(digit as int)],
{
    proof {
        reveal_strlit("0");
        reveal_strlit("1");
        reveal_strlit("2");
        reveal_strlit("3");
        reveal_strlit("4");
        reveal_strlit("5");
        reveal_strlit("6");
        reveal_strlit("7");
        reveal_strlit("8");
        reveal_strlit("9");
    }
    let text = match digit {
        0 => "0",
        1 => "1",
        2 => "2",
        3 => "3",
        4 => "4",
        5 => "5",
        6 => "6",
        7 => "7",
        8 => "8",
        _ => "9",
    };
    assert(text@ =~= seq![digit_char(digit as int)]);
    text
}

/// `n` written in decimal.
pub fn decimal_text(n: usize) -> (text: String)
    ensures
        text@ == decimal(n as nat),
    decreases n,
{
    if n < 10 {
        String::from_str(digit_text(n))
    } else {
        let mut text = decimal_text(n / 10);
        text.append(digit_text(n % 10));
        assert(text@ =~= decimal((n / 10) as nat).push(digit_char((n % 10) as int)));
        text
    }
}

/// The line of keys that every screen ends with.
pub open spec fn keys_line() -> Seq<char> {
    "\n\n(p)revious (n)ext (f)lip (s)huffle (q)uit\n\n"@
}

/// The screen for one side of a card: the name of the side and its text,
/// the place of the card in the deck, and the keys.
pub open spec fn screen_of(state: Seq<char>, text: Seq<char>, count: nat, total: nat) -> Seq<
    char,
> {
    state + ": "@ + text + "\n\n"@ + decimal(count) + "/"@ + decimal(total) + keys_line()
}

/// The screen that shows `text`, the side named `state` of card number
/// `count` of `total`.
pub fn ui(state: &str, text: &str, count: usize, total: usize) -> (screen: String)
    ensures
        screen@ == screen_of(state@, text@, count as nat, total as nat),
{
    let mut screen = String::from_str(state);
    screen.append(": ");
    screen.append(text);
    screen.append("\n\n");
    let count_text = decimal_text(count);
    screen.append(count_text.as_str());
    screen.append("/");
    let total_text = decimal_text(total);
    screen.append(total_text.as_str());
    screen.append("\n\n(p)revious (n)ext (f)lip (s)huffle (q)uit\n\n");
    screen
}

} // verus!
