//! Text of output records: numbers in decimal and the four lines of a
//! record.

use vstd::prelude::*;

verus! {

/// The character of a decimal digit.
pub open spec fn digit_char(d: int) -> char {
    ((d + 48) as u8) as char
}

/// The decimal text of a number, without leading zeros.
pub open spec fn decimal(n: nat) -> Seq<char>
    decreases n,
{
    if n < 10 {
        seq![digit_char(n as int)]
    } else {
        decimal(n / 10).push(digit_char((n % 10) as int))
    }
}

/// The character that stands for a raw quality score: the score plus 33.
pub open spec fn quality_char(score: u8) -> char {
    ((score + 33) as u8) as char
}

/// The text of one record: a header line with the sample id, the bases, a
/// line with a plus sign, and the qualities.
pub open spec fn record_text(sample: nat, bases: Seq<char>, qualities: Seq<char>) -> Seq<char> {
    seq!['@'] + decimal(sample) + seq!['\n'] + bases + seq!['\n', '+', '\n'] + qualities + seq![
        '\n',
    ]
}

/// Appends one character with `String::push`, which grows the text by
/// that character at its end and changes nothing before it.
#[verifier::external_body]
pub(crate) fn push_char(text: &mut String, c: char)
    ensures
        final(text)@ == old(text)@.push(c),
{
    text.push(c)
}

/// Appends the characters of `chars` to `text` in order.
pub fn push_chars(text: &mut String, chars: &Vec<char>)
    ensures
        final(text)@ == old(text)@ + chars@,
{
    let mut i: usize = 0;
    while i < chars.len()
        invariant
            i <= chars.len(),
            text@ == old(text)@ + chars@.take(i as int),
        decreases chars.len() - i,
    {
        push_char(text, chars[i]);
        assert(chars@.take(i + 1) =~= chars@.take(i as int).push(chars@[i as int]));
        assert(text@ =~= old(text)@ + chars@.take(i + 1));
        i = i + 1;
    }
    assert(chars@.take(i as int) =~= chars@);
}

/// Appends the decimal text of `n` to `text`.
pub fn push_decimal(text: &mut String, n: usize)
    ensures
        final(text)@ == old(text)@ + decimal(n as nat),
    decreases n,
{
    if n >= 10 {
        push_decimal(text, n / 10);
    }
    let d: u8 = (n % 10) as u8;
    push_char(text, (d + 48) as char);
    assert(text@ =~= old(text)@ + decimal(n as nat));
}

/// The text of one record.
pub fn format_record(sample: usize, bases: &Vec<char>, qualities: &Vec<char>) -> (text: String)
    ensures
        text@ == record_text(sample as nat, bases@, qualities@),
{
    let mut text = String::new();
    push_char(&mut text, '@');
    push_decimal(&mut text, sample);
    push_char(&mut text, '\n');
    push_chars(&mut text, bases);
    push_char(&mut text, '\n');
    push_char(&mut text, '+');
    push_char(&mut text, '\n');
    push_chars(&mut text, qualities);
    push_char(&mut text, '\n');
    assert(text@ =~= record_text(sample as nat, bases@, qualities@));
    text
}

} // verus!
