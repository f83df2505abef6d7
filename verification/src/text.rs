use vstd::prelude::*;
use vstd::std_specs::iter::IteratorSpec;
use vstd::string::StringExecFns;

verus! {

/// `String::push` of the standard library: the string afterwards is the
/// string before with the one character added at its end.
pub assume_specification[ String::push ](text: &mut String, ch: char)
    ensures
        final(text)@ == old(text)@.push(ch),
;

/// The character for a decimal digit.
pub open spec fn digit(d: int) -> char {
    if d == 0 {
        '0'
    } else if d == 1 {
        '1'
    } else if d == 2 {
        '2'
    } else if d == 3 {
        '3'
    } else if d == 4 {
        '4'
    } else if d == 5 {
        '5'
    } else if d == 6 {
        '6'
    } else if d == 7 {
        '7'
    } else if d == 8 {
        '8'
    } else {
        '9'
    }
}

/// A number written in decimal, without leading zeros.
pub open spec fn decimal(n: nat) -> Seq<char>
    decreases n,
{
    if n < 10 {
        seq![digit(n as int)]
    } else {
        decimal(n / 10).push(digit((n % 10) as int))
    }
}

/// The text of one decimal digit.
fn digit_text(d: usize) -> (text: &'static str)
    requires
        d < 10,
    ensures
        text@ == seq![digit(d as int)],
{
    proof {
        reveal_strlit("0");
        reveal_strlit("1");
        reveal_strlit("2");
        reveal_strlit("3");
        reveal_strlit("4");
        reveal_strlit("5");
        reveal_strlit("6");
        reveal_strlit("7");
        reveal_strlit("8");
        reveal_strlit("9");
    }
    let text = if d == 0 {
        "0"
    } else if d == 1 {
        "1"
    } else if d == 2 {
        "2"
    } else if d == 3 {
        "3"
    } else if d == 4 {
        "4"
    } else if d == 5 {
        "5"
    } else if d == 6 {
        "6"
    } else if d == 7 {
        "7"
    } else if d == 8 {
        "8"
    } else {
        "9"
    };
    assert(text@ =~= seq![digit(d as int)]);
    text
}

/// Writes a number in decimal.
pub fn decimal_string(n: usize) -> (text: String)
    ensures
        text@ == decimal(n as nat),
    decreases n,
{
    if n < 10 {
        String::from_str(digit_text(n))
    } else {
        let front = decimal_string(n / 10);
        let text = front.concat(digit_text(n % 10));
        assert(text@ =~= decimal(n as nat));
        text
    }
}

/// The text of one character.
pub fn char_string(letter: char) -> (text: String)
    ensures
        text@ == seq![letter],
{
    let mut text = String::new();
    text.push(letter);
    assert(text@ =~= seq![letter]);
    text
}

/// The characters of a text, one by one.
pub fn letters_of(text: &str) -> (letters: Vec<char>)
    ensures
        letters@ == text@,
{
    broadcast use vstd::string::group_string_axioms;

    let mut rest = text.chars();
    let mut letters: Vec<char> = Vec::new();
    loop
        invariant
            rest.obeys_prophetic_iter_laws(),
            letters@ + rest.remaining() == text@,
        ensures
            letters@ == text@,
        decreases text@.len() - letters@.len(),
    {
        match rest.next() {
            None => {
                assert(letters@ + rest.remaining() =~= letters@);
                break;
            },
            Some(letter) => {
                letters.push(letter);
            },
        }
    }
    letters
}

} // verus!
