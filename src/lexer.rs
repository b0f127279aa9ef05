//! The lexical layer: ledger text as a sequence of tokens.
use crate::models::{is_blank, is_space, is_word_char, AccountType};
use crate::utils::chars_of;
use vstd::prelude::*;

verus! {

/// A token of ledger text, as the grammar sees it.
pub enum TokenView {
    /// A maximal run of word characters; a word that opens with an account
    /// type name and a colon runs on to the next whitespace.
    Word(Seq<char>),
    /// A quoted string, its escapes decoded.
    Str(Seq<char>),
    LBrace,
    RBrace,
    Comma,
    At,
    AtAt,
    /// A line break; `true` when the next line starts with whitespace.
    Newline(bool),
    /// A comment line, from its `;` to the end of the line.
    Comment(Seq<char>),
}

/// A token of ledger text.
pub enum Token {
    Word(Vec<char>),
    Str(Vec<char>),
    LBrace,
    RBrace,
    Comma,
    At,
    AtAt,
    Newline(bool),
    Comment(Vec<char>),
}

impl View for Token {
    type V = TokenView;

    open spec fn view(&self) -> TokenView {
        match self {
            Token::Word(w) => TokenView::Word(w@),
            Token::Str(s) => TokenView::Str(s@),
            Token::LBrace => TokenView::LBrace,
            Token::RBrace => TokenView::RBrace,
            Token::Comma => TokenView::Comma,
            Token::At => TokenView::At,
            Token::AtAt => TokenView::AtAt,
            Token::Newline(b) => TokenView::Newline(*b),
            Token::Comment(c) => TokenView::Comment(c@),
        }
    }
}

/// The views of a sequence of tokens.
pub open spec fn tokens_view(v: Seq<Token>) -> Seq<TokenView> {
    v.map_values(|t: Token| t@)
}

/// The end of the run of word characters that starts at `pos`.
pub open spec fn word_end(s: Seq<char>, pos: int) -> int
    decreases s.len() - pos,
{
    if 0 <= pos < s.len() && is_word_char(s[pos]) {
        word_end(s, pos + 1)
    } else {
        pos
    }
}

/// Whether the text at `pos` is the name of account type `t` followed by a
/// colon.
pub open spec fn type_colon_at(s: Seq<char>, pos: int, t: AccountType) -> bool {
    let n = t.name().len() as int;
    0 <= pos && pos + n < s.len() && s.subrange(pos, pos + n) == t.name() && s[pos + n] == ':'
}

/// Whether an account, a type name and a colon, starts at `pos`.
pub open spec fn account_start(s: Seq<char>, pos: int) -> bool {
    type_colon_at(s, pos, AccountType::Assets) || type_colon_at(s, pos, AccountType::Liabilities)
        || type_colon_at(s, pos, AccountType::Equity) || type_colon_at(s, pos, AccountType::Income)
        || type_colon_at(s, pos, AccountType::Expenses)
}

/// The end of the run of non-whitespace characters that starts at `pos`.
pub open spec fn blank_end(s: Seq<char>, pos: int) -> int
    decreases s.len() - pos,
{
    if 0 <= pos < s.len() && !is_blank(s[pos]) {
        blank_end(s, pos + 1)
    } else {
        pos
    }
}

/// The end of the line on which `pos` stands.
pub open spec fn line_end(s: Seq<char>, pos: int) -> int
    decreases s.len() - pos,
{
    if 0 <= pos < s.len() && s[pos] != '\n' {
        line_end(s, pos + 1)
    } else {
        pos
    }
}

/// A hexadecimal digit, either case.
pub open spec fn is_hex_char(c: char) -> bool {
    ('0' <= c <= '9') || ('a' <= c <= 'f') || ('A' <= c <= 'F')
}

/// The value of a hexadecimal digit.
pub open spec fn hex_char_value(c: char) -> nat {
    if '0' <= c <= '9' {
        (c as int - 48) as nat
    } else if 'a' <= c <= 'f' {
        (c as int - 87) as nat
    } else {
        (c as int - 55) as nat
    }
}

/// The value of a sequence of hexadecimal digits.
pub open spec fn hex_value(s: Seq<char>) -> nat
    decreases s.len(),
{
    if s.len() == 0 {
        0
    } else {
        hex_value(s.drop_last()) * 16 + hex_char_value(s.last())
    }
}

/// The end of the run of hexadecimal digits that starts at `pos`.
pub open spec fn hex_end(s: Seq<char>, pos: int) -> int
    decreases s.len() - pos,
{
    if 0 <= pos < s.len() && is_hex_char(s[pos]) {
        hex_end(s, pos + 1)
    } else {
        pos
    }
}

/// A Unicode scalar value.
pub open spec fn is_scalar(v: nat) -> bool {
    v <= 0xD7FF || (0xE000 <= v <= 0x10FFFF)
}

/// The character that a backslash and `x` stand for, when `x` is a
/// one-letter escape.
pub open spec fn short_escape(x: char) -> Option<char> {
    if x == '"' || x == '\\' || x == '$' || x == '`' || x == '\'' {
        Some(x)
    } else if x == 'a' {
        Some('\x07')
    } else if x == 'b' {
        Some('\x08')
    } else if x == 'v' {
        Some('\x0b')
    } else if x == 'f' {
        Some('\x0c')
    } else if x == 'e' {
        Some('\x1b')
    } else if x == 't' {
        Some('\t')
    } else if x == 'r' {
        Some('\r')
    } else if x == 'n' {
        Some('\n')
    } else {
        None
    }
}

/// The character that the escape `\u{...}` starting at `pos` stands for,
/// and the position after it: one to six hexadecimal digits naming a
/// Unicode scalar value.
pub open spec fn unicode_escape(s: Seq<char>, pos: int) -> Option<(char, int)> {
    if 0 <= pos && pos + 2 < s.len() && s[pos] == '\\' && s[pos + 1] == 'u' && s[pos + 2] == '{' {
        let e = hex_end(s, pos + 3);
        if pos + 3 < e <= pos + 9 && e < s.len() && s[e] == '}' && is_scalar(
            hex_value(s.subrange(pos + 3, e)),
        ) {
            Some((hex_value(s.subrange(pos + 3, e)) as char, e + 1))
        } else {
            None
        }
    } else {
        None
    }
}

/// One character of a quoted string at `pos`, and the position after it.
pub open spec fn decode_one(s: Seq<char>, pos: int) -> Option<(char, int)> {
    if pos < 0 || pos >= s.len() {
        None
    } else if s[pos] != '\\' {
        Some((s[pos], pos + 1))
    } else if pos + 1 < s.len() && s[pos + 1] == 'u' {
        unicode_escape(s, pos)
    } else if pos + 1 < s.len() {
        match short_escape(s[pos + 1]) {
            Some(c) => Some((c, pos + 2)),
            None => None,
        }
    } else {
        None
    }
}

/// The rest of a quoted string whose body starts at `pos`: its decoded
/// characters and the position after the closing quote.
pub open spec fn quoted_rest(s: Seq<char>, pos: int) -> Option<(Seq<char>, int)>
    decreases s.len() - pos,
{
    if pos < 0 || pos >= s.len() {
        None
    } else if s[pos] == '"' {
        Some((Seq::empty(), pos + 1))
    } else {
        match decode_one(s, pos) {
            Some((c, j)) => if pos < j {
                match quoted_rest(s, j) {
                    Some((t, e)) => Some((seq![c] + t, e)),
                    None => None,
                }
            } else {
                None
            },
            None => None,
        }
    }
}

/// Puts `t` in front of a token sequence, if there is one.
pub open spec fn prepend(t: TokenView, r: Option<Seq<TokenView>>) -> Option<Seq<TokenView>> {
    match r {
        Some(x) => Some(seq![t] + x),
        None => None,
    }
}

/// Puts `xs` in front of a token sequence, if there is one.
pub open spec fn prepend_all(xs: Seq<TokenView>, r: Option<Seq<TokenView>>) -> Option<
    Seq<TokenView>,
> {
    match r {
        Some(x) => Some(xs + x),
        None => None,
    }
}

/// The tokens of `s` from `pos` on; `line_start` tells whether only
/// whitespace stands between the last line break and `pos`. `None` when a
/// quoted string is unterminated or holds a malformed escape.
pub open spec fn scan(s: Seq<char>, pos: int, line_start: bool) -> Option<Seq<TokenView>>
    decreases s.len() - pos,
{
    if pos < 0 || pos >= s.len() {
        Some(Seq::empty())
    } else {
        let c = s[pos];
        if c == '\n' {
            prepend(
                TokenView::Newline(pos + 1 < s.len() && is_space(s[pos + 1])),
                scan(s, pos + 1, true),
            )
        } else if is_space(c) {
            scan(s, pos + 1, line_start)
        } else if line_start && c == ';' {
            let e = line_end(s, pos);
            if pos < e <= s.len() {
                prepend(TokenView::Comment(s.subrange(pos, e)), scan(s, e, false))
            } else {
                None
            }
        } else if c == '"' {
            match quoted_rest(s, pos + 1) {
                Some((t, e)) => if pos < e <= s.len() {
                    prepend(TokenView::Str(t), scan(s, e, false))
                } else {
                    None
                },
                None => None,
            }
        } else if c == '{' {
            prepend(TokenView::LBrace, scan(s, pos + 1, false))
        } else if c == '}' {
            prepend(TokenView::RBrace, scan(s, pos + 1, false))
        } else if c == ',' {
            prepend(TokenView::Comma, scan(s, pos + 1, false))
        } else if c == '@' {
            if pos + 1 < s.len() && s[pos + 1] == '@' {
                prepend(TokenView::AtAt, scan(s, pos + 2, false))
            } else {
                prepend(TokenView::At, scan(s, pos + 1, false))
            }
        } else {
            let e = if account_start(s, pos) {
                blank_end(s, pos)
            } else {
                word_end(s, pos)
            };
            if pos < e <= s.len() {
                prepend(TokenView::Word(s.subrange(pos, e)), scan(s, e, false))
            } else {
                None
            }
        }
    }
}

/// The tokens of a whole text.
pub open spec fn tokens_of(s: Seq<char>) -> Option<Seq<TokenView>> {
    scan(s, 0, true)
}

/// Whether `c` is inline whitespace.
fn space(c: char) -> (r: bool)
    ensures
        r == is_space(c),
{
    c == ' ' || c == '\t' || c == '\r'
}

/// Whether `c` is a word character.
fn word_char(c: char) -> (r: bool)
    ensures
        r == is_word_char(c),
{
    !(space(c) || c == '\n' || c == '{' || c == '}' || c == ',' || c == '@' || c == '"')
}

/// The end of the run of word characters from `pos`.
fn scan_word(s: &Vec<char>, pos: usize) -> (r: usize)
    requires
        pos <= s@.len(),
    ensures
        r == word_end(s@, pos as int),
        pos <= r <= s@.len(),
        pos < s@.len() && is_word_char(s@[pos as int]) ==> pos < r,
{
    let mut i = pos;
    while i < s.len() && word_char(s[i])
        invariant
            pos <= i <= s@.len(),
            word_end(s@, pos as int) == word_end(s@, i as int),
        decreases s@.len() - i,
    {
        i = i + 1;
    }
    i
}

/// The end of the run of non-whitespace characters from `pos`.
fn scan_nonblank(s: &Vec<char>, pos: usize) -> (r: usize)
    requires
        pos <= s@.len(),
    ensures
        r == blank_end(s@, pos as int),
        pos <= r <= s@.len(),
        pos < s@.len() && !is_blank(s@[pos as int]) ==> pos < r,
{
    let mut i = pos;
    while i < s.len() && !(space(s[i]) || s[i] == '\n')
        invariant
            pos <= i <= s@.len(),
            blank_end(s@, pos as int) == blank_end(s@, i as int),
        decreases s@.len() - i,
    {
        i = i + 1;
    }
    i
}

/// Whether the name of account type `t` and a colon stand at `pos`.
fn type_colon(s: &Vec<char>, pos: usize, t: AccountType) -> (r: bool)
    requires
        pos <= s@.len(),
    ensures
        r == type_colon_at(s@, pos as int, t),
{
    let l = chars_of(t.name_str());
    let slen = s.len();
    if l.len() >= slen - pos {
        return false;
    }
    let mut i: usize = 0;
    while i < l.len()
        invariant
            i <= l@.len(),
            slen == s@.len(),
            pos + l@.len() < slen,
            l@ == t.name(),
            forall|k: int| 0 <= k < i ==> s@[pos + k] == l@[k],
        decreases l@.len() - i,
    {
        if s[pos + i] != l[i] {
            assert(s@.subrange(pos as int, pos + l@.len())[i as int] == s@[pos + i]);
            return false;
        }
        i = i + 1;
    }
    assert(s@.subrange(pos as int, pos + l@.len()) =~= l@);
    s[pos + l.len()] == ':'
}

/// Whether an account starts at `pos`.
fn account_at_pos(s: &Vec<char>, pos: usize) -> (r: bool)
    requires
        pos <= s@.len(),
    ensures
        r == account_start(s@, pos as int),
{
    type_colon(s, pos, AccountType::Assets) || type_colon(s, pos, AccountType::Liabilities)
        || type_colon(s, pos, AccountType::Equity) || type_colon(s, pos, AccountType::Income)
        || type_colon(s, pos, AccountType::Expenses)
}

/// The end of the line from `pos`.
fn scan_line(s: &Vec<char>, pos: usize) -> (r: usize)
    requires
        pos <= s@.len(),
    ensures
        r == line_end(s@, pos as int),
        pos <= r <= s@.len(),
        pos < s@.len() && s@[pos as int] != '\n' ==> pos < r,
{
    let mut i = pos;
    while i < s.len() && s[i] != '\n'
        invariant
            pos <= i <= s@.len(),
            line_end(s@, pos as int) == line_end(s@, i as int),
        decreases s@.len() - i,
    {
        i = i + 1;
    }
    i
}

/// Relies on `char::from_u32`: the character of a Unicode scalar value.
#[verifier::external_body]
fn char_from_u32(v: u32) -> (r: Option<char>)
    ensures
        r == (if is_scalar(v as nat) {
            Some(v as char)
        } else {
            None
        }),
{
    char::from_u32(v)
}

/// The value of a hexadecimal digit.
fn hex_digit_value(c: char) -> (r: u32)
    requires
        is_hex_char(c),
    ensures
        r == hex_char_value(c),
        r < 16,
{
    if '0' <= c && c <= '9' {
        (c as u32) - 48
    } else if 'a' <= c && c <= 'f' {
        (c as u32) - 87
    } else {
        (c as u32) - 55
    }
}

/// Sixteen to the power `k`.
pub open spec fn pow16(k: nat) -> nat
    decreases k,
{
    if k == 0 {
        1
    } else {
        16 * pow16((k - 1) as nat)
    }
}

/// Whether `c` is a hexadecimal digit.
fn hex_char(c: char) -> (r: bool)
    ensures
        r == is_hex_char(c),
{
    ('0' <= c && c <= '9') || ('a' <= c && c <= 'f') || ('A' <= c && c <= 'F')
}

/// The escape `\u{...}` at `pos`.
fn lex_unicode_escape(s: &Vec<char>, pos: usize) -> (r: Option<(char, usize)>)
    requires
        pos < s@.len(),
    ensures
        r == (match unicode_escape(s@, pos as int) {
            Some((c, e)) => Some((c, e as usize)),
            None => None::<(char, usize)>,
        }),
{
    if !(s.len() - pos > 2 && s[pos] == '\\' && s[pos + 1] == 'u' && s[pos + 2] == '{') {
        return None;
    }
    let start = pos + 3;
    let mut i = start;
    let mut v: u32 = 0;
    assert(s@.subrange(start as int, start as int) =~= Seq::<char>::empty());
    while i < s.len() && i - start < 6 && hex_char(s[i])
        invariant
            start <= i <= s@.len(),
            i <= start + 6,
            hex_end(s@, start as int) == hex_end(s@, i as int),
            v == hex_value(s@.subrange(start as int, i as int)),
            v < pow16((i - start) as nat),
            pow16((i - start) as nat) <= 0x1000000,
        decreases s@.len() - i,
    {
        let d = hex_digit_value(s[i]);
        proof {
            let p = pow16((i - start) as nat);
            assert(v * 16 + d < 16 * p) by (nonlinear_arith)
                requires
                    v < p,
                    d < 16,
            ;
            assert(s@.subrange(start as int, i + 1).drop_last() =~= s@.subrange(
                start as int,
                i as int,
            ));
            if i - start < 6 {
                assert(pow16((i - start + 1) as nat) == 16 * p);
            }
            assert(pow16(6) == 0x1000000) by {
                reveal_with_fuel(pow16, 7);
            }
            if i + 1 - start <= 5 {
                assert(pow16((i + 1 - start) as nat) <= pow16(5)) by {
                    lemma_pow16_mono((i + 1 - start) as nat, 5);
                };
                assert(pow16(5) == 0x100000) by {
                    reveal_with_fuel(pow16, 6);
                }
            }
        }
        v = v * 16 + d;
        i = i + 1;
    }
    if i < s.len() && hex_char(s[i]) {
        proof {
            lemma_hex_end_ge(s@, i + 1);
        }
        return None;
    }
    if i == start || i >= s.len() || s[i] != '}' {
        return None;
    }
    match char_from_u32(v) {
        Some(c) => Some((c, i + 1)),
        None => None,
    }
}

/// A run of hexadecimal digits ends at or after its start.
proof fn lemma_hex_end_ge(s: Seq<char>, p: int)
    requires
        0 <= p,
    ensures
        hex_end(s, p) >= p,
    decreases s.len() - p,
{
    if 0 <= p < s.len() && is_hex_char(s[p]) {
        lemma_hex_end_ge(s, p + 1);
    }
}

/// Powers of sixteen grow with the exponent.
proof fn lemma_pow16_mono(a: nat, b: nat)
    requires
        a <= b,
    ensures
        pow16(a) <= pow16(b),
    decreases b,
{
    if a < b {
        lemma_pow16_mono(a, (b - 1) as nat);
    }
}

/// One character of a quoted string at `pos`.
fn lex_decode_one(s: &Vec<char>, pos: usize) -> (r: Option<(char, usize)>)
    requires
        pos < s@.len(),
    ensures
        r == (match decode_one(s@, pos as int) {
            Some((c, e)) => Some((c, e as usize)),
            None => None::<(char, usize)>,
        }),
{
    let n = s.len();
    let c = s[pos];
    if c != '\\' {
        return Some((c, pos + 1));
    }
    if pos + 1 < s.len() && s[pos + 1] == 'u' {
        return lex_unicode_escape(s, pos);
    }
    if pos + 1 >= s.len() {
        return None;
    }
    let x = s[pos + 1];
    let d = if x == '"' || x == '\\' || x == '$' || x == '`' || x == '\'' {
        x
    } else if x == 'a' {
        '\x07'
    } else if x == 'b' {
        '\x08'
    } else if x == 'v' {
        '\x0b'
    } else if x == 'f' {
        '\x0c'
    } else if x == 'e' {
        '\x1b'
    } else if x == 't' {
        '\t'
    } else if x == 'r' {
        '\r'
    } else if x == 'n' {
        '\n'
    } else {
        return None;
    };
    Some((d, pos + 2))
}

/// Puts `c` in front of the characters of a quoted rest, if there is one.
pub open spec fn prefix_rest(c: Seq<char>, r: Option<(Seq<char>, int)>) -> Option<(Seq<char>, int)> {
    match r {
        Some((t, e)) => Some((c + t, e)),
        None => None,
    }
}

/// A quoted string whose body starts at `pos`: its decoded characters and
/// the position after the closing quote.
fn lex_quoted_rest(s: &Vec<char>, pos: usize) -> (r: Option<(Vec<char>, usize)>)
    requires
        pos <= s@.len(),
    ensures
        match r {
            Some((t, e)) => quoted_rest(s@, pos as int) == Some((t@, e as int)) && pos < e <= s@.len(),
            None => quoted_rest(s@, pos as int) is None,
        },
{
    let mut out: Vec<char> = Vec::new();
    let mut i = pos;
    assert(prefix_rest(out@, quoted_rest(s@, i as int)) =~= quoted_rest(s@, pos as int)) by {
        match quoted_rest(s@, pos as int) {
            Some((t, e)) => {
                assert(out@ + t =~= t);
            },
            None => {},
        }
    };
    loop
        invariant
            pos <= i <= s@.len(),
            prefix_rest(out@, quoted_rest(s@, i as int)) == quoted_rest(s@, pos as int),
        decreases s@.len() - i,
    {
        if i >= s.len() {
            return None;
        }
        if s[i] == '"' {
            assert(out@ + Seq::<char>::empty() =~= out@);
            return Some((out, i + 1));
        }
        match lex_decode_one(s, i) {
            Some((c, j)) => {
                proof {
                    match quoted_rest(s@, j as int) {
                        Some((t, e)) => {
                            assert(out@.push(c) + t =~= out@ + (seq![c] + t));
                        },
                        None => {},
                    }
                }
                out.push(c);
                i = j;
            },
            None => {
                return None;
            },
        }
    }
}

/// The tokens of a text, each with the position where it starts; or the
/// position of a quoted string that is unterminated or holds a malformed
/// escape.
pub fn tokenize(s: &Vec<char>) -> (r: Result<(Vec<Token>, Vec<usize>), usize>)
    ensures
        match r {
            Ok((v, starts)) => tokens_of(s@) == Some(tokens_view(v@)) && starts@.len() == v@.len()
                && forall|k: int| 0 <= k < starts@.len() ==> #[trigger] starts@[k] < s@.len(),
            Err(p) => tokens_of(s@) is None && p < s@.len(),
        },
{
    let mut out: Vec<Token> = Vec::new();
    let mut starts: Vec<usize> = Vec::new();
    let mut i: usize = 0;
    let mut line_start = true;
    assert(prepend_all(tokens_view(out@), scan(s@, 0, true)) =~= scan(s@, 0, true)) by {
        match scan(s@, 0, true) {
            Some(x) => {
                assert(tokens_view(out@) + x =~= x);
            },
            None => {},
        }
    };
    while i < s.len()
        invariant
            i <= s@.len(),
            prepend_all(tokens_view(out@), scan(s@, i as int, line_start)) == tokens_of(s@),
            starts@.len() == out@.len(),
            forall|k: int| 0 <= k < starts@.len() ==> #[trigger] starts@[k] < s@.len(),
        decreases s@.len() - i,
    {
        let c = s[i];
        let ghost before = out@;
        if space(c) {
            i = i + 1;
            continue;
        }
        let (tok, j, ls): (Token, usize, bool) = if c == '\n' {
            (Token::Newline(i + 1 < s.len() && space(s[i + 1])), i + 1, true)
        } else if line_start && c == ';' {
            let e = scan_line(s, i);
            (Token::Comment(s_slice(s, i, e)), e, false)
        } else if c == '"' {
            match lex_quoted_rest(s, i + 1) {
                Some((t, e)) => (Token::Str(t), e, false),
                None => {
                    return Err(i);
                },
            }
        } else if c == '{' {
            (Token::LBrace, i + 1, false)
        } else if c == '}' {
            (Token::RBrace, i + 1, false)
        } else if c == ',' {
            (Token::Comma, i + 1, false)
        } else if c == '@' {
            if i + 1 < s.len() && s[i + 1] == '@' {
                (Token::AtAt, i + 2, false)
            } else {
                (Token::At, i + 1, false)
            }
        } else {
            let e = if account_at_pos(s, i) {
                scan_nonblank(s, i)
            } else {
                scan_word(s, i)
            };
            (Token::Word(s_slice(s, i, e)), e, false)
        };
        proof {
            assert(scan(s@, i as int, line_start) == prepend(tok@, scan(s@, j as int, ls)));
            match scan(s@, j as int, ls) {
                Some(x) => {
                    assert(tokens_view(before.push(tok)) =~= tokens_view(before).push(tok@));
                    assert(tokens_view(before).push(tok@) + x =~= tokens_view(before) + (seq![tok@]
                        + x));
                },
                None => {},
            }
        }
        out.push(tok);
        starts.push(i);
        i = j;
        line_start = ls;
    }
    assert(tokens_view(out@) + Seq::<TokenView>::empty() =~= tokens_view(out@));
    Ok((out, starts))
}

/// The characters `s[lo..hi]`.
fn s_slice(s: &Vec<char>, lo: usize, hi: usize) -> (r: Vec<char>)
    requires
        lo <= hi <= s@.len(),
    ensures
        r@ == s@.subrange(lo as int, hi as int),
{
    let mut out: Vec<char> = Vec::new();
    let mut i = lo;
    while i < hi
        invariant
            lo <= i <= hi <= s@.len(),
            out@ == s@.subrange(lo as int, i as int),
        decreases hi - i,
    {
        out.push(s[i]);
        assert(s@.subrange(lo as int, i + 1) =~= s@.subrange(lo as int, i as int).push(s@[i as int]));
        i = i + 1;
    }
    out
}

} // verus!
