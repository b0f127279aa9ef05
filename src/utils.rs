//! The string escaping routine shared by every quoted string in the
//! rendered text, and small string helpers.
use unicode_categories::UnicodeCategories;
use vstd::prelude::*;

verus! {

/// Whether the character belongs to one of Unicode's "Other" categories.
pub uninterp spec fn is_other_char(c: char) -> bool;

/// Whether the character belongs to one of Unicode's "Separator" categories.
pub uninterp spec fn is_separator_char(c: char) -> bool;

/// Relies on `UnicodeCategories::is_other` of unicode_categories.
#[verifier::external_body]
fn is_other(c: char) -> (r: bool)
    ensures
        r == is_other_char(c),
{
    c.is_other()
}

/// Relies on `UnicodeCategories::is_separator` of unicode_categories.
#[verifier::external_body]
fn is_separator(c: char) -> (r: bool)
    ensures
        r == is_separator_char(c),
{
    c.is_separator()
}

/// Relies on `String::push`: appends one character.
#[verifier::external_body]
pub(crate) fn push_char(s: &mut String, c: char)
    ensures
        final(s)@ == old(s)@.push(c),
{
    s.push(c);
}

/// Relies on `str::chars`, collected: the characters of the string.
#[verifier::external_body]
pub(crate) fn chars_of(s: &str) -> (r: Vec<char>)
    ensures
        r@ == s@,
{
    s.chars().collect()
}

/// Relies on `String::from_iter`: the string of the characters
/// `s[lo..hi]`.
#[verifier::external_body]
pub(crate) fn string_of(s: &Vec<char>, lo: usize, hi: usize) -> (r: String)
    requires
        lo <= hi <= s@.len(),
    ensures
        r@ == s@.subrange(lo as int, hi as int),
{
    s[lo..hi].iter().collect()
}

/// The lower-case hexadecimal digit of `n < 16`.
pub open spec fn hex_char(n: nat) -> char {
    if n < 10 {
        (n + 48) as char
    } else {
        (n + 87) as char
    }
}

/// The lower-case hexadecimal digits of `n`, without leading zeros.
pub open spec fn hex_digits(n: nat) -> Seq<char>
    decreases n,
{
    if n < 16 {
        seq![hex_char(n)]
    } else {
        hex_digits(n / 16) + seq![hex_char(n % 16)]
    }
}

/// The long form of a character's escape: `\u{` and the lower-case
/// hexadecimal digits of its code point, then `}`.
pub open spec fn unicode_escape_text(c: char) -> Seq<char> {
    seq!['\\', 'u', '{'] + hex_digits(c as nat) + seq!['}']
}

/// The escape of a control, format or separator character: a short
/// mnemonic for bell, backspace, vertical tab, form feed and escape, and
/// the long form otherwise.
pub open spec fn special_escape(c: char) -> Seq<char> {
    if c == '\x07' {
        seq!['\\', 'a']
    } else if c == '\x08' {
        seq!['\\', 'b']
    } else if c == '\x0b' {
        seq!['\\', 'v']
    } else if c == '\x0c' {
        seq!['\\', 'f']
    } else if c == '\x1b' {
        seq!['\\', 'e']
    } else {
        unicode_escape_text(c)
    }
}

/// How one character of a string is written between quotes.
pub open spec fn escape_one(c: char) -> Seq<char> {
    if c == '"' || c == '\\' || c == '$' || c == '`' {
        seq!['\\', c]
    } else if c == ' ' {
        seq![c]
    } else if is_other_char(c) || is_separator_char(c) {
        special_escape(c)
    } else {
        seq![c]
    }
}

/// The escaped characters of a string, without the quotes.
pub open spec fn escape_body(s: Seq<char>) -> Seq<char>
    decreases s.len(),
{
    if s.len() == 0 {
        Seq::empty()
    } else {
        escape_one(s[0]) + escape_body(s.drop_first())
    }
}

/// A string as it is written in ledger text: escaped, between quotes.
pub open spec fn quoted(s: Seq<char>) -> Seq<char> {
    seq!['"'] + escape_body(s) + seq!['"']
}

/// Escaping a concatenation escapes each part.
pub proof fn lemma_escape_body_concat(a: Seq<char>, b: Seq<char>)
    ensures
        escape_body(a + b) == escape_body(a) + escape_body(b),
    decreases a.len(),
{
    if a.len() == 0 {
        assert(a + b =~= b);
    } else {
        assert((a + b).drop_first() =~= a.drop_first() + b);
        lemma_escape_body_concat(a.drop_first(), b);
    }
}

/// Escaping one more character appends its escape.
proof fn lemma_escape_body_push(a: Seq<char>, c: char)
    ensures
        escape_body(a.push(c)) == escape_body(a) + escape_one(c),
{
    lemma_escape_body_concat(a, seq![c]);
    assert(a.push(c) =~= a + seq![c]);
    assert(seq![c].drop_first() =~= Seq::<char>::empty());
    assert(escape_body(Seq::<char>::empty()) =~= Seq::<char>::empty());
    assert(seq![c][0] == c);
    assert(escape_body(seq![c]) =~= escape_one(c));
}

/// Appends the hexadecimal digits of `n`.
fn push_hex(out: &mut String, n: u32)
    ensures
        final(out)@ == old(out)@ + hex_digits(n as nat),
    decreases n,
{
    if n >= 16 {
        push_hex(out, n / 16);
    }
    let d: u32 = n % 16;
    let c: char = if d < 10 {
        ((d + 48) as u8) as char
    } else {
        ((d + 87) as u8) as char
    };
    push_char(out, c);
    assert(out@ =~= old(out)@ + hex_digits(n as nat));
}

/// The escape of a control, format or separator character: a short
/// mnemonic for bell, backspace, vertical tab, form feed and escape, else
/// `\u{...}` with the lower-case hexadecimal code point.
pub fn escape_character(c: char) -> (r: String)
    ensures
        r@ == special_escape(c),
{
    let mut out = String::new();
    push_char(&mut out, '\\');
    if c == '\x07' {
        push_char(&mut out, 'a');
    } else if c == '\x08' {
        push_char(&mut out, 'b');
    } else if c == '\x0b' {
        push_char(&mut out, 'v');
    } else if c == '\x0c' {
        push_char(&mut out, 'f');
    } else if c == '\x1b' {
        push_char(&mut out, 'e');
    } else {
        push_char(&mut out, 'u');
        push_char(&mut out, '{');
        push_hex(&mut out, c as u32);
        push_char(&mut out, '}');
    }
    assert(out@ =~= special_escape(c));
    out
}

/// Appends the escaped characters of `chars`.
pub(crate) fn push_escaped(out: &mut String, chars: &Vec<char>)
    ensures
        final(out)@ == old(out)@ + escape_body(chars@),
{
    let mut i: usize = 0;
    while i < chars.len()
        invariant
            i <= chars@.len(),
            out@ == old(out)@ + escape_body(chars@.take(i as int)),
        decreases chars@.len() - i,
    {
        let c = chars[i];
        let ghost before = out@;
        if c == '"' || c == '\\' || c == '$' || c == '`' {
            push_char(out, '\\');
            push_char(out, c);
        } else if c == ' ' {
            push_char(out, c);
        } else if is_other(c) || is_separator(c) {
            let e = escape_character(c);
            out.append(e.as_str());
        } else {
            push_char(out, c);
        }
        assert(out@ =~= before + escape_one(c));
        proof {
            lemma_escape_body_push(chars@.take(i as int), c);
            assert(chars@.take(i as int).push(c) =~= chars@.take(i + 1));
        }
        i = i + 1;
    }
    assert(chars@.take(i as int) =~= chars@);
}

/// Writes a string between double quotes, escaping `"`, `\`, `$` and the
/// backtick with a backslash, and control, format and separator
/// characters (the space excepted) by `escape_character`; every other
/// character is written as it is.
pub fn escape_with_quote(s: &str) -> (r: String)
    ensures
        r@ == quoted(s@),
{
    let chars = chars_of(s);
    let mut out = String::new();
    push_char(&mut out, '"');
    push_escaped(&mut out, &chars);
    push_char(&mut out, '"');
    assert(out@ =~= quoted(s@));
    out
}

} // verus!
