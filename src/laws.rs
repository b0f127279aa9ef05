//! What holds between rendering and parsing: rendered text parses back to
//! the value it came from.
use crate::lexer::{
    account_start, blank_end, type_colon_at, decode_one, hex_char_value, hex_end, hex_value, is_hex_char, is_scalar, line_end, pow16,
    prepend, quoted_rest, scan, tokens_of, unicode_escape, word_end, TokenView,
};
use crate::meta::{insert_entry, meta_entries};
use crate::models::{
    all_digits, all_zero, amount_wf, is_comment_text, is_commodity, is_segment_char, is_space,
    is_word_char, is_blank, opt_view, strings_view, AccountType, Account, Amount, Date, Decimal, Directive, Flag,
    Transaction, TransactionLine,
};
use crate::parser::{
    account_at, amount_at, commodity_list, cont_lines, cost_at, directive_from_text, directive_of,
    line_tokens_end, marks_from, meta_line, metas_of, payee_narration, posting_flag, posting_of,
    postings_of, price_at, record_at, skip_newlines, str_at, values_from, word_at,
};
use crate::to_file::{
    account_text, amount_text, commodities_text, concat_all, cost_text, date_text, decimal_text,
    digit_char, digits_text, directive_text, flag_char, line_text, lines_text, marks_text,
    metas_text, payee_narration_text, segments_text, values_text,
};
use crate::utils::{
    escape_body, escape_one, hex_char, hex_digits, is_other_char, is_separator_char, quoted,
};
use crate::words::{
    account_of, colon_end, date_of, decimal_of, digit_end, digit_vals, digit_value, is_digit,
    segments_of, starts_with_type, strip_zeros,
};
use vstd::prelude::*;

verus! {

/// Every digit of a hexadecimal rendering is a hexadecimal digit, and
/// reads back as its value.
proof fn lemma_hex_char(n: nat)
    requires
        n < 16,
    ensures
        is_hex_char(hex_char(n)),
        hex_char_value(hex_char(n)) == n,
        hex_char(n) != '}',
{
}

/// The hexadecimal rendering of `n` is made of hexadecimal digits, reads
/// back as `n`, and has at most `k` digits when `n < 16^k`.
proof fn lemma_hex_digits(n: nat, k: nat)
    requires
        k >= 1,
        n < pow16(k),
    ensures
        forall|i: int| 0 <= i < hex_digits(n).len() ==> is_hex_char(#[trigger] hex_digits(n)[i]),
        hex_value(hex_digits(n)) == n,
        1 <= hex_digits(n).len() <= k,
    decreases n,
{
    lemma_hex_char(n % 16);
    if n < 16 {
        assert(hex_digits(n) =~= seq![hex_char(n)]);
        assert(seq![hex_char(n)].drop_last() =~= Seq::<char>::empty());
        assert(hex_value(Seq::<char>::empty()) == 0);
        assert(seq![hex_char(n)].last() == hex_char(n));
    } else {
        let m = n / 16;
        assert(k >= 2) by {
            if k == 1 {
                assert(pow16(1) == 16 * pow16(0));
            }
        };
        assert(m < pow16((k - 1) as nat)) by {
            assert(pow16(k) == 16 * pow16((k - 1) as nat));
        };
        lemma_hex_digits(m, (k - 1) as nat);
        let h = hex_digits(m) + seq![hex_char(n % 16)];
        assert(hex_digits(n) == h);
        assert(h.drop_last() =~= hex_digits(m));
        assert(h.last() == hex_char(n % 16));
        assert(hex_value(h) == hex_value(hex_digits(m)) * 16 + hex_char_value(hex_char(n % 16)));
        assert(m * 16 + n % 16 == n);
        assert forall|i: int| 0 <= i < h.len() implies is_hex_char(#[trigger] h[i]) by {
            if i < hex_digits(m).len() {
                assert(h[i] == hex_digits(m)[i]);
            }
        };
    }
}

/// A run of hexadecimal digits closed by `}` ends at the `}`.
proof fn lemma_hex_end(s: Seq<char>, p: int, len: int)
    requires
        0 <= p,
        0 <= len,
        p + len < s.len(),
        forall|i: int| p <= i < p + len ==> is_hex_char(#[trigger] s[i]),
        s[p + len] == '}',
    ensures
        hex_end(s, p) == p + len,
    decreases len,
{
    if len > 0 {
        lemma_hex_end(s, p + 1, len - 1);
    }
}

/// Whether `s` holds `e` at position `p`.
pub open spec fn holds_at(s: Seq<char>, p: int, e: Seq<char>) -> bool {
    0 <= p && p + e.len() <= s.len() && s.subrange(p, p + e.len()) == e
}

/// The escape of a character decodes back to it.
proof fn lemma_decode_escape(s: Seq<char>, p: int, c: char)
    requires
        holds_at(s, p, escape_one(c)),
    ensures
        decode_one(s, p) == Some((c, p + escape_one(c).len())),
        s[p] != '"',
{
    let e = escape_one(c);
    assert(s[p] == e[0]);
    if e.len() > 1 {
        assert(s[p + 1] == e[1]);
    }
    if c == '"' || c == '\\' || c == '$' || c == '`' {
    } else if c == ' ' {
    } else if is_other_char(c) || is_separator_char(c) {
        if c == '\x07' || c == '\x08' || c == '\x0b' || c == '\x0c' || c == '\x1b' {
        } else {
            let n = c as nat;
            let h = hex_digits(n);
            assert(n < pow16(6)) by {
                reveal_with_fuel(pow16, 7);
            };
            lemma_hex_digits(n, 6);
            assert(e == seq!['\\', 'u', '{'] + h + seq!['}']);
            assert(s[p + 2] == e[2]);
            assert forall|i: int| p + 3 <= i < p + 3 + h.len() implies is_hex_char(#[trigger] s[i]) by {
                assert(s[i] == e[i - p]);
                assert(e[i - p] == h[i - p - 3]);
            };
            assert(s[p + 3 + h.len()] == e[3 + h.len() as int]);
            lemma_hex_end(s, p + 3, h.len() as int);
            assert forall|i: int| 0 <= i < h.len() implies #[trigger] s.subrange(
                p + 3,
                p + 3 + h.len(),
            )[i] == h[i] by {
                assert(s[p + 3 + i] == e[3 + i]);
            };
            assert(s.subrange(p + 3, p + 3 + h.len()) =~= h);
            assert(is_scalar(n));
            assert((n as char) == c);
            assert(unicode_escape(s, p) == Some((c, p + 3 + h.len() + 1)));
        }
    } else {
    }
}

/// Text held at a position holds each of its two parts.
proof fn lemma_holds_split(s: Seq<char>, p: int, a: Seq<char>, b: Seq<char>)
    requires
        holds_at(s, p, a + b),
    ensures
        holds_at(s, p, a),
        holds_at(s, p + a.len(), b),
{
    assert(s.subrange(p, p + a.len()) =~= (a + b).subrange(0, a.len() as int));
    assert((a + b).subrange(0, a.len() as int) =~= a);
    assert(s.subrange(p + a.len(), p + a.len() + b.len()) =~= (a + b).subrange(
        a.len() as int,
        (a.len() + b.len()) as int,
    ));
    assert((a + b).subrange(a.len() as int, (a.len() + b.len()) as int) =~= b);
}

/// The escaped characters of a string, closed by a quote, decode back to
/// the string.
proof fn lemma_quoted_rest(s: Seq<char>, p: int, t: Seq<char>)
    requires
        holds_at(s, p, escape_body(t) + seq!['"']),
    ensures
        quoted_rest(s, p) == Some((t, p + escape_body(t).len() + 1)),
    decreases t.len(),
{
    if t.len() == 0 {
        assert(escape_body(t) =~= Seq::<char>::empty());
        assert(s[p] == (escape_body(t) + seq!['"'])[0]);
        assert(t =~= Seq::<char>::empty());
    } else {
        let c = t[0];
        let e = escape_one(c);
        let rest = t.drop_first();
        assert(escape_body(t) == e + escape_body(rest));
        assert(escape_body(t) + seq!['"'] =~= e + (escape_body(rest) + seq!['"']));
        lemma_holds_split(s, p, e, escape_body(rest) + seq!['"']);
        lemma_decode_escape(s, p, c);
        lemma_quoted_rest(s, p + e.len(), rest);
        assert(seq![c] + rest =~= t);
    }
}

/// A quoted string at `pos` is scanned as one string token.
proof fn lemma_scan_str(s: Seq<char>, pos: int, t: Seq<char>, ls: bool)
    requires
        holds_at(s, pos, quoted(t)),
    ensures
        scan(s, pos, ls) == crate::lexer::prepend(
            TokenView::Str(t),
            scan(s, pos + quoted(t).len(), false),
        ),
{
    let q = quoted(t);
    assert(q == seq!['"'] + (escape_body(t) + seq!['"']));
    lemma_holds_split(s, pos, seq!['"'], escape_body(t) + seq!['"']);
    assert(s[pos] == q[0]);
    lemma_quoted_rest(s, pos + 1, t);
}

/// Escaping: a string written between quotes by the shared escaping
/// routine reads back as exactly that string, whatever characters it holds.
pub proof fn lemma_quoted_round_trip(t: Seq<char>)
    ensures
        tokens_of(quoted(t)) == Some(seq![TokenView::Str(t)]),
{
    let q = quoted(t);
    assert(holds_at(q, 0, q)) by {
        assert(q.subrange(0, q.len() as int) =~= q);
    };
    lemma_scan_str(q, 0, t, true);
    assert(seq![TokenView::Str(t)] + Seq::<TokenView>::empty() =~= seq![TokenView::Str(t)]);
}

/// A unit of rendered text: a space, a line break with the two spaces of
/// indentation, or a token.
pub enum Piece {
    Space,
    Break,
    Tok(TokenView),
}

/// The text of a piece.
pub open spec fn piece_text(p: Piece) -> Seq<char> {
    match p {
        Piece::Space => seq![' '],
        Piece::Break => seq!['\n', ' ', ' '],
        Piece::Tok(t) => match t {
            TokenView::Word(w) => w,
            TokenView::Str(x) => quoted(x),
            TokenView::LBrace => seq!['{'],
            TokenView::RBrace => seq!['}'],
            TokenView::Comma => seq![','],
            TokenView::At => seq!['@'],
            TokenView::AtAt => seq!['@', '@'],
            TokenView::Newline(_) => seq!['\n'],
            TokenView::Comment(c) => c,
        },
    }
}

/// The text of a sequence of pieces.
pub open spec fn pieces_text(ps: Seq<Piece>) -> Seq<char>
    decreases ps.len(),
{
    if ps.len() == 0 {
        Seq::empty()
    } else {
        piece_text(ps[0]) + pieces_text(ps.drop_first())
    }
}

/// The tokens of a sequence of pieces.
pub open spec fn pieces_tokens(ps: Seq<Piece>) -> Seq<TokenView>
    decreases ps.len(),
{
    if ps.len() == 0 {
        Seq::empty()
    } else {
        match ps[0] {
            Piece::Space => pieces_tokens(ps.drop_first()),
            Piece::Break => seq![TokenView::Newline(true)] + pieces_tokens(ps.drop_first()),
            Piece::Tok(t) => seq![t] + pieces_tokens(ps.drop_first()),
        }
    }
}

/// A word that scans as itself: no whitespace in it, and word characters
/// only unless it opens like an account.
pub open spec fn is_plain_word(w: Seq<char>) -> bool {
    &&& w.len() > 0
    &&& w[0] != ';'
    &&& forall|i: int| 0 <= i < w.len() ==> !is_blank(#[trigger] w[i])
    &&& account_start(w, 0) || forall|i: int| 0 <= i < w.len() ==> is_word_char(#[trigger] w[i])
}

/// A piece that scans as itself.
pub open spec fn piece_ok(p: Piece) -> bool {
    match p {
        Piece::Tok(TokenView::Word(w)) => is_plain_word(w),
        Piece::Tok(TokenView::Comment(c)) => is_comment_text(c),
        Piece::Tok(TokenView::Newline(_)) => false,
        _ => true,
    }
}

/// Two pieces that may stand next to each other: a word or a comment ends
/// where the next piece begins, `@` is followed by a space or a line break,
/// a word that opens like an account is followed by one too, and a
/// comment only opens the text.
pub open spec fn pair_ok(p: Piece, q: Piece) -> bool {
    &&& !(q matches Piece::Tok(TokenView::Comment(_)))
    &&& (p matches Piece::Tok(TokenView::Word(_))) ==> !(q matches Piece::Tok(TokenView::Word(_)))
    &&& (p matches Piece::Tok(TokenView::At)) ==> (q == Piece::Space || q == Piece::Break)
    &&& (p matches Piece::Tok(TokenView::Comment(_))) ==> q == Piece::Break
    &&& match p {
        Piece::Tok(TokenView::Word(w)) => account_start(w, 0) ==> (q == Piece::Space || q
            == Piece::Break),
        _ => true,
    }
}

/// A sequence of pieces whose text scans back to its tokens.
pub open spec fn pieces_ok(ps: Seq<Piece>) -> bool {
    &&& forall|i: int| 0 <= i < ps.len() ==> piece_ok(#[trigger] ps[i])
    &&& forall|i: int| 0 <= i < ps.len() - 1 ==> pair_ok(#[trigger] ps[i], ps[i + 1])
}

/// The first character of the text of well-formed pieces.
proof fn lemma_pieces_first(ps: Seq<Piece>)
    requires
        ps.len() > 0,
        piece_ok(ps[0]),
    ensures
        pieces_text(ps).len() > 0,
        pieces_text(ps)[0] == piece_text(ps[0])[0],
        piece_text(ps[0]).len() > 0,
{
    match ps[0] {
        Piece::Tok(TokenView::Str(x)) => {
            assert(quoted(x)[0] == '"');
        },
        Piece::Tok(TokenView::Comment(c)) => {},
        _ => {},
    }
}

/// A run of word characters followed by a non-word character or the end.
proof fn lemma_word_end(s: Seq<char>, pos: int, len: int)
    requires
        0 <= pos,
        0 <= len,
        pos + len <= s.len(),
        forall|i: int| pos <= i < pos + len ==> is_word_char(#[trigger] s[i]),
        pos + len == s.len() || !is_word_char(s[pos + len]),
    ensures
        word_end(s, pos) == pos + len,
    decreases len,
{
    if len > 0 {
        lemma_word_end(s, pos + 1, len - 1);
    }
}

/// A plain word at `pos`, ended by a delimiter, scans as one word token.
#[verifier::rlimit(100)]
#[verifier::spinoff_prover]
proof fn lemma_scan_word(s: Seq<char>, pos: int, w: Seq<char>, ls: bool)
    requires
        0 <= pos,
        pos + w.len() <= s.len(),
        s.subrange(pos, pos + w.len()) == w,
        is_plain_word(w),
        pos + w.len() == s.len() || ({
            let c = s[pos + w.len()];
            (c == ' ' || c == '\n' || c == '"' || c == '{' || c == '}' || c == ',' || c == '@') && (
            account_start(w, 0) ==> is_blank(c))
        }),
    ensures
        scan(s, pos, ls) == prepend(TokenView::Word(w), scan(s, pos + w.len(), false)),
{
    let n = w.len() as int;
    assert forall|i: int| 0 <= i < n implies #[trigger] s[pos + i] == w[i] by {
        assert(s.subrange(pos, pos + n)[i] == w[i]);
    };
    assert(s[pos + 0] == w[0]);
    lemma_account_start_same(s, pos, w);
    if account_start(w, 0) {
        lemma_account_start_letter(w);
        assert forall|i: int| pos <= i < pos + n implies !is_blank(#[trigger] s[i]) by {
            assert(s[pos + (i - pos)] == w[i - pos]);
        };
        lemma_blank_end(s, pos, n);
    } else {
        assert forall|i: int| pos <= i < pos + n implies is_word_char(#[trigger] s[i]) by {
            assert(s[pos + (i - pos)] == w[i - pos]);
        };
        lemma_word_end(s, pos, n);
    }
}

/// A run of non-whitespace characters followed by whitespace or the end.
proof fn lemma_blank_end(s: Seq<char>, pos: int, len: int)
    requires
        0 <= pos,
        0 <= len,
        pos + len <= s.len(),
        forall|i: int| pos <= i < pos + len ==> !is_blank(#[trigger] s[i]),
        pos + len == s.len() || is_blank(s[pos + len]),
    ensures
        blank_end(s, pos) == pos + len,
    decreases len,
{
    if len > 0 {
        lemma_blank_end(s, pos + 1, len - 1);
    }
}

/// The names of the account types are made of letters.
proof fn lemma_type_names(t: AccountType)
    ensures
        t.name().len() > 1,
        forall|i: int| 0 <= i < t.name().len() ==> ('A' <= #[trigger] t.name()[i] <= 'Z') || ('a'
            <= t.name()[i] <= 'z'),
{
    reveal_strlit("Assets");
    reveal_strlit("Liabilities");
    reveal_strlit("Equity");
    reveal_strlit("Income");
    reveal_strlit("Expenses");
}

/// A word followed by neither a letter nor a colon opens like an account
/// in the text exactly when it does on its own.
proof fn lemma_type_colon_same(s: Seq<char>, pos: int, w: Seq<char>, t: AccountType)
    requires
        0 <= pos,
        pos + w.len() <= s.len(),
        s.subrange(pos, pos + w.len()) == w,
        pos + w.len() == s.len() || (s[pos + w.len()] != ':' && !('A' <= s[pos + w.len()] <= 'Z')
            && !('a' <= s[pos + w.len()] <= 'z')),
    ensures
        type_colon_at(s, pos, t) == type_colon_at(w, 0, t),
{
    lemma_type_names(t);
    let n = t.name().len() as int;
    let k = w.len() as int;
    if n < k {
        assert(s[pos + n] == w[n]) by {
            assert(s.subrange(pos, pos + k)[n] == w[n]);
        };
        assert(s.subrange(pos, pos + n) =~= w.subrange(0, n)) by {
            assert forall|i: int| 0 <= i < n implies #[trigger] s.subrange(pos, pos + n)[i] == w.subrange(0, n)[i] by {
                assert(s.subrange(pos, pos + k)[i] == w[i]);
            };
        };
    } else if n > k && pos + n < s.len() {
        if s.subrange(pos, pos + n) == t.name() {
            assert(s.subrange(pos, pos + n)[k] == s[pos + k]);
            assert(false);
        }
    }
}

/// A word followed by neither a letter nor a colon opens like an account
/// in the text exactly when it does on its own.
proof fn lemma_account_start_same(s: Seq<char>, pos: int, w: Seq<char>)
    requires
        0 <= pos,
        pos + w.len() <= s.len(),
        s.subrange(pos, pos + w.len()) == w,
        pos + w.len() == s.len() || (s[pos + w.len()] != ':' && !('A' <= s[pos + w.len()] <= 'Z')
            && !('a' <= s[pos + w.len()] <= 'z')),
    ensures
        account_start(s, pos) == account_start(w, 0),
{
    lemma_type_colon_same(s, pos, w, AccountType::Assets);
    lemma_type_colon_same(s, pos, w, AccountType::Liabilities);
    lemma_type_colon_same(s, pos, w, AccountType::Equity);
    lemma_type_colon_same(s, pos, w, AccountType::Income);
    lemma_type_colon_same(s, pos, w, AccountType::Expenses);
}

/// A word that opens like an account opens with a capital letter.
proof fn lemma_account_start_letter(w: Seq<char>)
    requires
        account_start(w, 0),
    ensures
        'A' <= w[0] <= 'Z',
{
    reveal_strlit("Assets");
    reveal_strlit("Liabilities");
    reveal_strlit("Equity");
    reveal_strlit("Income");
    reveal_strlit("Expenses");
    let t = if type_colon_at(w, 0, AccountType::Assets) {
        AccountType::Assets
    } else if type_colon_at(w, 0, AccountType::Liabilities) {
        AccountType::Liabilities
    } else if type_colon_at(w, 0, AccountType::Equity) {
        AccountType::Equity
    } else if type_colon_at(w, 0, AccountType::Income) {
        AccountType::Income
    } else {
        AccountType::Expenses
    };
    assert(w.subrange(0, t.name().len() as int)[0] == w[0]);
}

/// A word without a colon does not open like an account.
proof fn lemma_no_colon_no_account(w: Seq<char>)
    requires
        forall|i: int| 0 <= i < w.len() ==> #[trigger] w[i] != ':',
    ensures
        !account_start(w, 0),
{
    lemma_type_names(AccountType::Assets);
    lemma_type_names(AccountType::Liabilities);
    lemma_type_names(AccountType::Equity);
    lemma_type_names(AccountType::Income);
    lemma_type_names(AccountType::Expenses);
}

/// A run of characters other than a line break, followed by one or the end.
proof fn lemma_line_end(s: Seq<char>, pos: int, len: int)
    requires
        0 <= pos,
        0 <= len,
        pos + len <= s.len(),
        forall|i: int| pos <= i < pos + len ==> #[trigger] s[i] != '\n',
        pos + len == s.len() || s[pos + len] == '\n',
    ensures
        line_end(s, pos) == pos + len,
    decreases len,
{
    if len > 0 {
        lemma_line_end(s, pos + 1, len - 1);
    }
}

/// The text of well-formed pieces scans back to their tokens.
#[verifier::rlimit(100)]
#[verifier::spinoff_prover]
proof fn lemma_scan_pieces(s: Seq<char>, pos: int, ps: Seq<Piece>, ls: bool)
    requires
        0 <= pos <= s.len(),
        s.subrange(pos, s.len() as int) == pieces_text(ps),
        pieces_ok(ps),
        ps.len() > 0 && (ps[0] matches Piece::Tok(TokenView::Comment(_))) ==> ls,
    ensures
        scan(s, pos, ls) == Some(pieces_tokens(ps)),
    decreases ps.len(),
{
    if ps.len() == 0 {
        assert(s.subrange(pos, s.len() as int).len() == 0);
        return;
    }
    let p = ps[0];
    let rest = ps.drop_first();
    let pt = piece_text(p);
    let n = pt.len() as int;
    assert(pieces_text(ps) == pt + pieces_text(rest));
    assert forall|i: int| 0 <= i < n implies #[trigger] s[pos + i] == pt[i] by {
        assert(s.subrange(pos, s.len() as int)[i] == pieces_text(ps)[i]);
    };
    assert(s.subrange(pos + n, s.len() as int) =~= pieces_text(rest)) by {
        assert forall|i: int| 0 <= i < pieces_text(rest).len() implies #[trigger] s.subrange(
            pos + n,
            s.len() as int,
        )[i] == pieces_text(rest)[i] by {
            assert(s.subrange(pos, s.len() as int)[n + i] == pieces_text(ps)[n + i]);
        };
    };
    assert(pieces_ok(rest)) by {
        assert forall|i: int| 0 <= i < rest.len() implies piece_ok(#[trigger] rest[i]) by {
            assert(rest[i] == ps[i + 1]);
        };
        assert forall|i: int| 0 <= i < rest.len() - 1 implies pair_ok(#[trigger] rest[i], rest[i + 1]) by {
            assert(rest[i] == ps[i + 1]);
        };
    };
    if rest.len() > 0 {
        assert(rest[0] == ps[1]);
        assert(pair_ok(ps[0], ps[1]));
        assert(piece_ok(ps[1]));
        lemma_pieces_first(rest);
        assert(s[pos + n] == pieces_text(rest)[0]) by {
            assert(s.subrange(pos + n, s.len() as int)[0] == pieces_text(rest)[0]);
        };
    }
    assert(piece_ok(p));
    if n > 0 {
        assert(s.subrange(pos, s.len() as int)[0] == pieces_text(ps)[0]);
        assert(s[pos] == pt[0]);
    }
    if n > 1 {
        assert(s.subrange(pos, s.len() as int)[1] == pieces_text(ps)[1]);
        assert(s[pos + 1] == pt[1]);
    }
    match p {
        Piece::Space => {
            assert(s.subrange(pos, s.len() as int)[0] == pieces_text(ps)[0]);
            assert(s[pos] == ' ');
            lemma_scan_pieces(s, pos + 1, rest, ls);
            assert(scan(s, pos, ls) == scan(s, pos + 1, ls));
            assert(pieces_tokens(ps) == pieces_tokens(rest));
            assert(scan(s, pos, ls) == Some(pieces_tokens(ps)));
        },
        Piece::Break => {
            assert(s.subrange(pos, s.len() as int)[0] == pieces_text(ps)[0]);
            assert(s.subrange(pos, s.len() as int)[1] == pieces_text(ps)[1]);
            assert(s.subrange(pos, s.len() as int)[2] == pieces_text(ps)[2]);
            assert(s[pos] == '\n');
            assert(s[pos + 1] == ' ');
            assert(s[pos + 2] == ' ');
            lemma_scan_pieces(s, pos + 3, rest, true);
            assert(scan(s, pos + 2, true) == scan(s, pos + 3, true));
            assert(scan(s, pos + 1, true) == scan(s, pos + 2, true));
            assert(is_space(s[pos + 1]));
            assert(scan(s, pos, ls) == Some(pieces_tokens(ps)));
        },
        Piece::Tok(t) => {
            lemma_scan_pieces(s, pos + n, rest, false);
            match t {
                TokenView::Word(w) => {
                    assert(s.subrange(pos, pos + n) =~= w) by {
                        assert forall|i: int| 0 <= i < n implies #[trigger] s.subrange(pos, pos + n)[i] == w[i] by {
                            assert(s[pos + i] == pt[i]);
                        };
                    };
                    if rest.len() > 0 {
                        assert(s[pos + n] == piece_text(rest[0])[0]);
                        match rest[0] {
                            Piece::Tok(TokenView::Str(x)) => {
                                assert(quoted(x)[0] == '"');
                            },
                            _ => {},
                        }
                    }
                    lemma_scan_word(s, pos, w, ls);
                    assert(scan(s, pos, ls) == Some(pieces_tokens(ps)));
                },
                TokenView::Str(x) => {
                    assert(s.subrange(pos, pos + n) =~= quoted(x));
                    lemma_scan_str(s, pos, x, ls);
                    assert(scan(s, pos, ls) == Some(pieces_tokens(ps)));
                },
                TokenView::Comment(c) => {
                    assert(s[pos] == ';');
                    assert forall|i: int| pos <= i < pos + n implies #[trigger] s[i] != '\n' by {
                        assert(s[pos + (i - pos)] == pt[i - pos]);
                    };
                    lemma_line_end(s, pos, n);
                    assert(s.subrange(pos, pos + n) =~= c);
                    assert(scan(s, pos, ls) == Some(pieces_tokens(ps)));
                },
                TokenView::At => {
                    assert(s[pos] == '@');
                    assert(scan(s, pos, ls) == Some(pieces_tokens(ps)));
                },
                TokenView::AtAt => {
                    assert(s[pos] == '@');
                    assert(s[pos + 1] == '@');
                    assert(scan(s, pos, ls) == Some(pieces_tokens(ps)));
                },
                _ => {
                    assert(s[pos] == pt[0]);
                    assert(scan(s, pos, ls) == Some(pieces_tokens(ps)));
                },
            }
        },
    }
}

/// A digit character reads back as its digit.
proof fn lemma_digit_char(k: int)
    requires
        0 <= k < 10,
    ensures
        is_digit(digit_char(k)),
        digit_value(digit_char(k)) == k,
        is_word_char(digit_char(k)),
        digit_char(k) != ';' && digit_char(k) != '-' && digit_char(k) != '.' && digit_char(k) != ':',
{
}

/// The digits of a number below ten thousand.
proof fn lemma_four_digits(y: int)
    requires
        0 <= y <= 9999,
    ensures
        (y / 1000 % 10) * 1000 + (y / 100 % 10) * 100 + (y / 10 % 10) * 10 + y % 10 == y,
{
    assert((y / 1000 % 10) * 1000 + (y / 100 % 10) * 100 + (y / 10 % 10) * 10 + y % 10 == y) by (nonlinear_arith)
        requires
            0 <= y <= 9999,
    ;
}

/// A date written as text reads back as the same date.
pub proof fn lemma_date_round_trip(d: Date)
    requires
        d.wf(),
    ensures
        date_of(date_text(d)) == Some(d),
        is_plain_word(date_text(d)),
{
    let y = d.year as int;
    let m = d.month as int;
    let day = d.day as int;
    lemma_digit_char(y / 1000 % 10);
    lemma_digit_char(y / 100 % 10);
    lemma_digit_char(y / 10 % 10);
    lemma_digit_char(y % 10);
    lemma_digit_char(m / 10 % 10);
    lemma_digit_char(m % 10);
    lemma_digit_char(day / 10 % 10);
    lemma_digit_char(day % 10);
    lemma_four_digits(y);
    assert((m / 10 % 10) * 10 + m % 10 == m);
    assert((day / 10 % 10) * 10 + day % 10 == day);
    let w = date_text(d);
    assert forall|i: int| 0 <= i < w.len() implies is_word_char(#[trigger] w[i]) by {};
}

/// The digit values of the characters of digits are the digits.
proof fn lemma_digits_text(x: Seq<u8>)
    requires
        all_digits(x),
    ensures
        digits_text(x).len() == x.len(),
        forall|i: int| 0 <= i < x.len() ==> is_digit(#[trigger] digits_text(x)[i]),
        forall|i: int| 0 <= i < x.len() ==> is_word_char(#[trigger] digits_text(x)[i]),
        digit_vals(digits_text(x)) == x,
{
    assert forall|i: int| 0 <= i < x.len() implies is_digit(#[trigger] digits_text(x)[i])
        && is_word_char(digits_text(x)[i]) && digit_vals(digits_text(x))[i] == x[i] by {
        lemma_digit_char((x[i] % 10) as int);
    };
    assert(digit_vals(digits_text(x)) =~= x);
}

/// The end of a run of digits followed by a non-digit or the end.
proof fn lemma_digit_end(s: Seq<char>, pos: int, len: int)
    requires
        0 <= pos,
        0 <= len,
        pos + len <= s.len(),
        forall|i: int| pos <= i < pos + len ==> is_digit(#[trigger] s[i]),
        pos + len == s.len() || !is_digit(s[pos + len]),
    ensures
        digit_end(s, pos) == pos + len,
    decreases len,
{
    if len > 0 {
        lemma_digit_end(s, pos + 1, len - 1);
    }
}

/// A decimal written as text reads back as the same decimal.
pub proof fn lemma_decimal_round_trip(x: Decimal)
    requires
        x.wf(),
    ensures
        decimal_of(decimal_text(x)) == Some(x@),
        is_plain_word(decimal_text(x)),
{
    let w = decimal_text(x);
    let sign: Seq<char> = if x.negative {
        seq!['-']
    } else {
        Seq::empty()
    };
    let it = digits_text(x.int_digits@);
    let ft = digits_text(x.frac_digits@);
    let tail: Seq<char> = if x.frac_digits@.len() > 0 {
        seq!['.'] + ft
    } else {
        Seq::empty()
    };
    assert(w == sign + it + tail);
    lemma_digits_text(x.int_digits@);
    lemma_digits_text(x.frac_digits@);
    let b = sign.len() as int;
    let p = b + it.len();
    assert forall|i: int| b <= i < p implies is_digit(#[trigger] w[i]) by {
        assert(w[i] == it[i - b]);
    };
    if x.frac_digits@.len() > 0 {
        assert(w[p] == '.');
        assert forall|i: int| p + 1 <= i < w.len() implies is_digit(#[trigger] w[i]) by {
            assert(w[i] == ft[i - p - 1]);
        };
        lemma_digit_end(w, p + 1, w.len() - p - 1);
        assert(w.subrange(p + 1, w.len() as int) =~= ft);
    }
    lemma_digit_end(w, b, it.len() as int);
    assert(w.subrange(b, p) =~= it);
    if x.negative {
        assert(w[0] == '-');
    } else {
        assert(w[0] == it[0]);
    }
    assert(strip_zeros(x.int_digits@) == x.int_digits@);
    assert forall|i: int| 0 <= i < w.len() implies is_word_char(#[trigger] w[i]) by {
        if i < b {
        } else if i < p {
            assert(w[i] == it[i - b]);
        } else {
            if i > p {
                assert(w[i] == ft[i - p - 1]);
            }
        }
    };
    assert(w[0] != ';');
    assert(x.frac_digits@.len() == 0 ==> all_zero(x.frac_digits@));
    assert(x.frac_digits@.len() == 0 ==> x.frac_digits@ =~= Seq::<u8>::empty());
}

/// The first part of a concatenation, and the rest.
proof fn lemma_concat_all_first(parts: Seq<Seq<char>>)
    requires
        parts.len() > 0,
    ensures
        concat_all(parts) == parts[0] + concat_all(parts.drop_first()),
{
}

/// The end of a run of characters other than `:`.
proof fn lemma_colon_end(s: Seq<char>, pos: int, len: int)
    requires
        0 <= pos,
        0 <= len,
        pos + len <= s.len(),
        forall|i: int| pos <= i < pos + len ==> #[trigger] s[i] != ':',
        pos + len == s.len() || s[pos + len] == ':',
    ensures
        colon_end(s, pos) == pos + len,
    decreases len,
{
    if len > 0 {
        lemma_colon_end(s, pos + 1, len - 1);
    }
}

/// Non-empty segments without colons, each written after a colon, read
/// back as themselves.
#[verifier::rlimit(100)]
#[verifier::spinoff_prover]
proof fn lemma_segments_round_trip(s: Seq<char>, pos: int, segs: Seq<Seq<char>>)
    requires
        0 <= pos <= s.len(),
        s.subrange(pos, s.len() as int) == segments_text(segs),
        forall|i: int| 0 <= i < segs.len() ==> {
            let g = #[trigger] segs[i];
            g.len() > 0 && forall|j: int| 0 <= j < g.len() ==> is_segment_char(g[j])
        },
    ensures
        segments_of(s, pos) == Some(segs),
        forall|i: int| pos <= i < s.len() ==> !is_blank(#[trigger] s[i]),
    decreases segs.len(),
{
    let m = segs.map_values(|g: Seq<char>| seq![':'] + g);
    if segs.len() == 0 {
        assert(m =~= Seq::<Seq<char>>::empty());
        assert(s.subrange(pos, s.len() as int).len() == 0);
        assert(segs =~= Seq::<Seq<char>>::empty());
        return;
    }
    let g = segs[0];
    let rest = segs.drop_first();
    lemma_concat_all_first(m);
    assert(m.drop_first() =~= rest.map_values(|g: Seq<char>| seq![':'] + g));
    let t = seq![':'] + g;
    assert(segments_text(segs) == t + segments_text(rest));
    let n = t.len() as int;
    assert forall|i: int| 0 <= i < n implies #[trigger] s[pos + i] == t[i] by {
        assert(s.subrange(pos, s.len() as int)[i] == segments_text(segs)[i]);
    };
    assert(s.subrange(pos + n, s.len() as int) =~= segments_text(rest)) by {
        assert forall|i: int| 0 <= i < segments_text(rest).len() implies #[trigger] s.subrange(
            pos + n,
            s.len() as int,
        )[i] == segments_text(rest)[i] by {
            assert(s.subrange(pos, s.len() as int)[n + i] == segments_text(segs)[n + i]);
        };
    };
    assert forall|i: int| 0 <= i < rest.len() implies {
        let h = #[trigger] rest[i];
        h.len() > 0 && forall|j: int| 0 <= j < h.len() ==> is_segment_char(h[j])
    } by {
        assert(rest[i] == segs[i + 1]);
    };
    lemma_segments_round_trip(s, pos + n, rest);
    assert(s[pos] == ':') by {
        assert(s[pos + 0] == t[0]);
    };
    assert forall|i: int| pos + 1 <= i < pos + n implies #[trigger] s[i] != ':' && !is_blank(s[i]) by {
        assert(s[pos + (i - pos)] == t[i - pos]);
        assert(t[i - pos] == g[i - pos - 1]);
    };
    if rest.len() > 0 {
        let m2 = rest.map_values(|g: Seq<char>| seq![':'] + g);
        lemma_concat_all_first(m2);
        assert(segments_text(rest)[0] == ':');
        assert(s.subrange(pos + n, s.len() as int)[0] == segments_text(rest)[0]);
    } else {
        assert(rest.map_values(|g: Seq<char>| seq![':'] + g) =~= Seq::<Seq<char>>::empty());
        assert(s.subrange(pos + n, s.len() as int).len() == 0);
    }
    lemma_colon_end(s, pos + 1, n - 1);
    assert forall|i: int| 0 <= i < g.len() implies #[trigger] s.subrange(pos + 1, pos + n)[i]
        == g[i] by {
        assert(s[pos + (i + 1)] == t[i + 1]);
    };
    assert(s.subrange(pos + 1, pos + n) =~= g);
    assert(seq![g] + rest =~= segs);
    assert forall|i: int| pos <= i < s.len() implies !is_blank(#[trigger] s[i]) by {
        if i >= pos + n {
        } else if i > pos {
        } else {
            assert(s[pos] == ':');
        }
    };
}

/// An account written as text reads back as the same account.
#[verifier::rlimit(100)]
#[verifier::spinoff_prover]
pub proof fn lemma_account_round_trip(a: Account)
    requires
        a.wf(),
    ensures
        account_of(account_text(a)) == Some(a@),
        is_plain_word(account_text(a)),
{
    let w = account_text(a);
    let name = a.account_type.name();
    let segs = strings_view(a.value);
    assert(w == name + segments_text(segs));
    reveal_strlit("Assets");
    reveal_strlit("Liabilities");
    reveal_strlit("Equity");
    reveal_strlit("Income");
    reveal_strlit("Expenses");
    let k = name.len() as int;
    assert(w.subrange(0, k) =~= name);
    assert(w.subrange(k, w.len() as int) =~= segments_text(segs));
    assert forall|i: int| 0 <= i < segs.len() implies {
        let g = #[trigger] segs[i];
        g.len() > 0 && forall|j: int| 0 <= j < g.len() ==> is_segment_char(g[j])
    } by {
        assert(segs[i] == a.value@[i]@);
    };
    lemma_segments_round_trip(w, k, segs);
    if segs.len() > 0 {
        let m = segs.map_values(|g: Seq<char>| seq![':'] + g);
        lemma_concat_all_first(m);
        assert(w[k] == segments_text(segs)[0]);
    } else {
        assert(segs.map_values(|g: Seq<char>| seq![':'] + g) =~= Seq::<Seq<char>>::empty());
        assert(w.len() == k);
    }
    assert(w[0] == name[0]);
    assert(w[1] == name[1]);
    assert(starts_with_type(w, a.account_type));
    assert forall|i: int| 0 <= i < k implies is_word_char(#[trigger] w[i]) by {
        assert(w[i] == name[i]);
    };
    assert forall|i: int| 0 <= i < w.len() implies !is_blank(#[trigger] w[i]) by {
        if i < k {
            assert(w[i] == name[i]);
        }
    };
    if segs.len() > 0 {
        assert(type_colon_at(w, 0, a.account_type));
    }
}

/// The text of concatenated pieces is the concatenation of their texts.
pub broadcast proof fn lemma_pieces_text_concat(a: Seq<Piece>, b: Seq<Piece>)
    ensures
        #[trigger] pieces_text(a + b) == pieces_text(a) + pieces_text(b),
    decreases a.len(),
{
    if a.len() == 0 {
        assert(a + b =~= b);
    } else {
        assert((a + b).drop_first() =~= a.drop_first() + b);
        lemma_pieces_text_concat(a.drop_first(), b);
        assert(pieces_text(a + b) =~= pieces_text(a) + pieces_text(b));
    }
}

/// The tokens of concatenated pieces are the concatenation of their
/// tokens.
pub broadcast proof fn lemma_pieces_tokens_concat(a: Seq<Piece>, b: Seq<Piece>)
    ensures
        #[trigger] pieces_tokens(a + b) == pieces_tokens(a) + pieces_tokens(b),
    decreases a.len(),
{
    if a.len() == 0 {
        assert(a + b =~= b);
    } else {
        assert((a + b).drop_first() =~= a.drop_first() + b);
        lemma_pieces_tokens_concat(a.drop_first(), b);
        assert(pieces_tokens(a + b) =~= pieces_tokens(a) + pieces_tokens(b));
    }
}

/// The text of a single piece.
pub broadcast proof fn lemma_pieces_one(p: Piece)
    ensures
        #[trigger] pieces_text(seq![p]) == piece_text(p),
{
    assert(seq![p].drop_first() =~= Seq::<Piece>::empty());
    assert(seq![p][0] == p);
    assert(pieces_text(Seq::<Piece>::empty()) =~= Seq::<char>::empty());
    assert(piece_text(p) + Seq::<char>::empty() =~= piece_text(p));
}

/// The tokens of a single piece.
pub broadcast proof fn lemma_pieces_one_tokens(p: Piece)
    ensures
        #[trigger] pieces_tokens(seq![p]) == match p {
            Piece::Space => Seq::<TokenView>::empty(),
            Piece::Break => seq![TokenView::Newline(true)],
            Piece::Tok(t) => seq![t],
        },
{
    assert(seq![p].drop_first() =~= Seq::<Piece>::empty());
    assert(seq![p][0] == p);
    assert(pieces_tokens(Seq::<Piece>::empty()) =~= Seq::<TokenView>::empty());
    match p {
        Piece::Space => {},
        Piece::Break => {
            assert(seq![TokenView::Newline(true)] + Seq::<TokenView>::empty() =~= seq![TokenView::Newline(true)]);
        },
        Piece::Tok(t) => {
            assert(seq![t] + Seq::<TokenView>::empty() =~= seq![t]);
        },
    }
}

/// Well-formed pieces stay well-formed when joined at a good seam.
proof fn lemma_pieces_ok_concat(a: Seq<Piece>, b: Seq<Piece>)
    requires
        pieces_ok(a),
        pieces_ok(b),
        a.len() > 0 && b.len() > 0 ==> pair_ok(a.last(), b[0]),
    ensures
        pieces_ok(a + b),
{
    let c = a + b;
    assert forall|i: int| 0 <= i < c.len() implies piece_ok(#[trigger] c[i]) by {
        if i < a.len() {
            assert(c[i] == a[i]);
        } else {
            assert(c[i] == b[i - a.len()]);
        }
    };
    assert forall|i: int| 0 <= i < c.len() - 1 implies pair_ok(#[trigger] c[i], c[i + 1]) by {
        if i < a.len() - 1 {
            assert(c[i] == a[i]);
            assert(c[i + 1] == a[i + 1]);
        } else if i == a.len() - 1 {
            assert(c[i] == a.last());
            assert(c[i + 1] == b[0]);
        } else {
            assert(c[i] == b[i - a.len()]);
            assert(c[i + 1] == b[i - a.len() + 1]);
        }
    };
}

/// A word piece.
pub open spec fn pw(w: Seq<char>) -> Piece {
    Piece::Tok(TokenView::Word(w))
}

/// A quoted string piece.
pub open spec fn ps(t: Seq<char>) -> Piece {
    Piece::Tok(TokenView::Str(t))
}

/// A token line without line breaks ends at the end of the tokens.
proof fn lemma_line_tokens_end(t: Seq<TokenView>, i: int, j: int)
    requires
        0 <= i <= j <= t.len(),
        forall|k: int| i <= k < j ==> !(#[trigger] t[k] is Newline),
        j == t.len() || t[j] is Newline,
    ensures
        line_tokens_end(t, i) == j,
    decreases j - i,
{
    if i < j {
        lemma_line_tokens_end(t, i + 1, j);
    }
}

/// Text made of well-formed pieces that give one line of tokens parses as
/// the directive of that line.
proof fn lemma_one_line(text: Seq<char>, p: Seq<Piece>, v: crate::models::DirectiveView)
    requires
        pieces_text(p) == text,
        pieces_ok(p),
        pieces_tokens(p).len() > 0,
        forall|k: int| 0 <= k < pieces_tokens(p).len() ==> !(#[trigger] pieces_tokens(p)[k] is Newline),
        directive_of(pieces_tokens(p), Seq::empty()) == Some(v),
    ensures
        directive_from_text(text) == Some(v),
{
    let t = pieces_tokens(p);
    assert(text.subrange(0, text.len() as int) =~= text);
    lemma_scan_pieces(text, 0, p, true);
    assert(tokens_of(text) == Some(t));
    assert(skip_newlines(t, 0) == 0);
    lemma_line_tokens_end(t, 0, t.len() as int);
    assert(cont_lines(t, t.len() as int) == (Seq::<Seq<TokenView>>::empty(), t.len() as int));
    assert(t.subrange(0, t.len() as int) =~= t);
    assert(record_at(t, 0) == Some((v, t.len() as int)));
    assert(skip_newlines(t, t.len() as int) == t.len());
}

/// Keywords of the grammar, character by character.
proof fn lemma_keywords()
    ensures
        "open"@ =~= seq!['o', 'p', 'e', 'n'],
        "close"@ =~= seq!['c', 'l', 'o', 's', 'e'],
        "commodity"@ =~= seq!['c', 'o', 'm', 'm', 'o', 'd', 'i', 't', 'y'],
        "balance"@ =~= seq!['b', 'a', 'l', 'a', 'n', 'c', 'e'],
        "pad"@ =~= seq!['p', 'a', 'd'],
        "note"@ =~= seq!['n', 'o', 't', 'e'],
        "document"@ =~= seq!['d', 'o', 'c', 'u', 'm', 'e', 'n', 't'],
        "price"@ =~= seq!['p', 'r', 'i', 'c', 'e'],
        "event"@ =~= seq!['e', 'v', 'e', 'n', 't'],
        "custom"@ =~= seq!['c', 'u', 's', 't', 'o', 'm'],
        "option"@ =~= seq!['o', 'p', 't', 'i', 'o', 'n'],
        "plugin"@ =~= seq!['p', 'l', 'u', 'g', 'i', 'n'],
        "include"@ =~= seq!['i', 'n', 'c', 'l', 'u', 'd', 'e'],
        " open "@ =~= seq![' ', 'o', 'p', 'e', 'n', ' '],
        " close "@ =~= seq![' ', 'c', 'l', 'o', 's', 'e', ' '],
        " commodity "@ =~= seq![' ', 'c', 'o', 'm', 'm', 'o', 'd', 'i', 't', 'y', ' '],
        " balance "@ =~= seq![' ', 'b', 'a', 'l', 'a', 'n', 'c', 'e', ' '],
        " pad "@ =~= seq![' ', 'p', 'a', 'd', ' '],
        " note "@ =~= seq![' ', 'n', 'o', 't', 'e', ' '],
        " document "@ =~= seq![' ', 'd', 'o', 'c', 'u', 'm', 'e', 'n', 't', ' '],
        " price "@ =~= seq![' ', 'p', 'r', 'i', 'c', 'e', ' '],
        " event "@ =~= seq![' ', 'e', 'v', 'e', 'n', 't', ' '],
        " custom "@ =~= seq![' ', 'c', 'u', 's', 't', 'o', 'm', ' '],
        "option "@ =~= seq!['o', 'p', 't', 'i', 'o', 'n', ' '],
        "plugin "@ =~= seq!['p', 'l', 'u', 'g', 'i', 'n', ' '],
        "include "@ =~= seq!['i', 'n', 'c', 'l', 'u', 'd', 'e', ' '],
{
    reveal_strlit("open");
    reveal_strlit("close");
    reveal_strlit("commodity");
    reveal_strlit("balance");
    reveal_strlit("pad");
    reveal_strlit("note");
    reveal_strlit("document");
    reveal_strlit("price");
    reveal_strlit("event");
    reveal_strlit("custom");
    reveal_strlit("option");
    reveal_strlit("plugin");
    reveal_strlit("include");
    reveal_strlit(" open ");
    reveal_strlit(" close ");
    reveal_strlit(" commodity ");
    reveal_strlit(" balance ");
    reveal_strlit(" pad ");
    reveal_strlit(" note ");
    reveal_strlit(" document ");
    reveal_strlit(" price ");
    reveal_strlit(" event ");
    reveal_strlit(" custom ");
    reveal_strlit("option ");
    reveal_strlit("plugin ");
    reveal_strlit("include ");
}

/// The pieces of an amount: the number, a space, the commodity.
pub open spec fn amount_pieces(a: Amount) -> Seq<Piece> {
    seq![pw(decimal_text(a.0))] + seq![Piece::Space] + seq![pw(a.1@)]
}

/// A commodity symbol is a plain word.
proof fn lemma_commodity_plain(c: Seq<char>)
    requires
        is_commodity(c),
    ensures
        is_plain_word(c),
{
    assert(crate::models::is_commodity_char(c[0]));
    assert forall|i: int| 0 <= i < c.len() implies is_word_char(#[trigger] c[i]) by {
        assert(crate::models::is_commodity_char(c[i]));
    };
}

/// The pieces of an amount render it, and scan as its two words.
#[verifier::rlimit(100)]
#[verifier::spinoff_prover]
proof fn lemma_amount_pieces(a: Amount)
    requires
        amount_wf(a),
    ensures
        pieces_text(amount_pieces(a)) == amount_text(a),
        pieces_ok(amount_pieces(a)),
        pieces_tokens(amount_pieces(a)) == seq![TokenView::Word(decimal_text(a.0)), TokenView::Word(a.1@)],
        decimal_of(decimal_text(a.0)) == Some(a.0@),
{
    broadcast use lemma_pieces_text_concat, lemma_pieces_tokens_concat, lemma_pieces_one, lemma_pieces_one_tokens;
    lemma_decimal_round_trip(a.0);
    lemma_commodity_plain(a.1@);
    let p = amount_pieces(a);
    assert(p =~= seq![pw(decimal_text(a.0)), Piece::Space, pw(a.1@)]);
    assert(pieces_text(amount_pieces(a)) =~= amount_text(a));
    assert(pieces_tokens(amount_pieces(a)) =~= seq![TokenView::Word(decimal_text(a.0)), TokenView::Word(a.1@)]);
}

/// The pieces of a close directive.
pub open spec fn close_pieces(date: Date, account: Account) -> Seq<Piece> {
    seq![pw(date_text(date)), Piece::Space, pw("close"@), Piece::Space, pw(account_text(account))]
}

/// Round trip of a close directive.
#[verifier::rlimit(100)]
#[verifier::spinoff_prover]
proof fn lemma_rt_close(d: Directive, date: Date, account: Account)
    requires
        d.wf(),
        d == (Directive::Close { date, account }),
    ensures
        directive_from_text(directive_text(d)) == Some(d@),
{
    broadcast use lemma_pieces_text_concat, lemma_pieces_tokens_concat, lemma_pieces_one, lemma_pieces_one_tokens;
    lemma_keywords();
    lemma_date_round_trip(date);
    lemma_account_round_trip(account);
    let p = close_pieces(date, account);
    assert(p =~= seq![pw(date_text(date))] + seq![Piece::Space] + seq![pw("close"@)] + seq![Piece::Space] + seq![pw(account_text(account))]);
    assert(pieces_text(p) =~= directive_text(d));
    let t = pieces_tokens(p);
    assert(t =~= seq![TokenView::Word(date_text(date)), TokenView::Word("close"@), TokenView::Word(account_text(account))]);
    assert(pieces_ok(p));
    assert(date_text(date) != "option"@);
    assert(date_text(date) != "plugin"@);
    assert(date_text(date) != "include"@);
    lemma_one_line(directive_text(d), p, d@);
}

/// Round trip of a balance directive.
#[verifier::rlimit(100)]
#[verifier::spinoff_prover]
proof fn lemma_rt_balance(d: Directive, date: Date, account: Account, amount: Amount)
    requires
        d.wf(),
        d == (Directive::Balance { date, account, amount }),
    ensures
        directive_from_text(directive_text(d)) == Some(d@),
{
    broadcast use lemma_pieces_text_concat, lemma_pieces_tokens_concat, lemma_pieces_one, lemma_pieces_one_tokens;
    lemma_keywords();
    lemma_date_round_trip(date);
    lemma_account_round_trip(account);
    lemma_amount_pieces(amount);
    let p = seq![pw(date_text(date)), Piece::Space, pw("balance"@), Piece::Space, pw(account_text(account)), Piece::Space, pw(decimal_text(amount.0)), Piece::Space, pw(amount.1@)];
    assert(p =~= seq![pw(date_text(date))] + seq![Piece::Space] + seq![pw("balance"@)] + seq![Piece::Space] + seq![pw(account_text(account))] + seq![Piece::Space] + seq![pw(decimal_text(amount.0))] + seq![Piece::Space] + seq![pw(amount.1@)]);
    assert(pieces_text(p) =~= directive_text(d));
    let t = pieces_tokens(p);
    assert(t =~= seq![TokenView::Word(date_text(date)), TokenView::Word("balance"@), TokenView::Word(account_text(account)), TokenView::Word(decimal_text(amount.0)), TokenView::Word(amount.1@)]);
    assert(pieces_ok(p));
    lemma_one_line(directive_text(d), p, d@);
}

/// Round trip of a pad directive.
#[verifier::rlimit(100)]
#[verifier::spinoff_prover]
proof fn lemma_rt_pad(d: Directive, date: Date, from: Account, to: Account)
    requires
        d.wf(),
        d == (Directive::Pad { date, from, to }),
    ensures
        directive_from_text(directive_text(d)) == Some(d@),
{
    broadcast use lemma_pieces_text_concat, lemma_pieces_tokens_concat, lemma_pieces_one, lemma_pieces_one_tokens;
    lemma_keywords();
    lemma_date_round_trip(date);
    lemma_account_round_trip(from);
    lemma_account_round_trip(to);
    let p = seq![pw(date_text(date)), Piece::Space, pw("pad"@), Piece::Space, pw(account_text(from)), Piece::Space, pw(account_text(to))];
    assert(p =~= seq![pw(date_text(date))] + seq![Piece::Space] + seq![pw("pad"@)] + seq![Piece::Space] + seq![pw(account_text(from))] + seq![Piece::Space] + seq![pw(account_text(to))]);
    assert(pieces_text(p) =~= directive_text(d));
    let t = pieces_tokens(p);
    assert(t =~= seq![TokenView::Word(date_text(date)), TokenView::Word("pad"@), TokenView::Word(account_text(from)), TokenView::Word(account_text(to))]);
    assert(pieces_ok(p));
    lemma_one_line(directive_text(d), p, d@);
}

/// Round trip of a note directive.
#[verifier::rlimit(100)]
#[verifier::spinoff_prover]
proof fn lemma_rt_note(d: Directive, date: Date, account: Account, description: String)
    requires
        d.wf(),
        d == (Directive::Note { date, account, description }),
    ensures
        directive_from_text(directive_text(d)) == Some(d@),
{
    broadcast use lemma_pieces_text_concat, lemma_pieces_tokens_concat, lemma_pieces_one, lemma_pieces_one_tokens;
    lemma_keywords();
    lemma_date_round_trip(date);
    lemma_account_round_trip(account);
    let p = seq![pw(date_text(date)), Piece::Space, pw("note"@), Piece::Space, pw(account_text(account)), Piece::Space, ps(description@)];
    assert(p =~= seq![pw(date_text(date))] + seq![Piece::Space] + seq![pw("note"@)] + seq![Piece::Space] + seq![pw(account_text(account))] + seq![Piece::Space] + seq![ps(description@)]);
    assert(pieces_text(p) =~= directive_text(d));
    let t = pieces_tokens(p);
    assert(t =~= seq![TokenView::Word(date_text(date)), TokenView::Word("note"@), TokenView::Word(account_text(account)), TokenView::Str(description@)]);
    assert(pieces_ok(p));
    lemma_one_line(directive_text(d), p, d@);
}

/// Round trip of a document directive.
#[verifier::rlimit(100)]
#[verifier::spinoff_prover]
proof fn lemma_rt_document(d: Directive, date: Date, account: Account, path: String)
    requires
        d.wf(),
        d == (Directive::Document { date, account, path }),
    ensures
        directive_from_text(directive_text(d)) == Some(d@),
{
    broadcast use lemma_pieces_text_concat, lemma_pieces_tokens_concat, lemma_pieces_one, lemma_pieces_one_tokens;
    lemma_keywords();
    lemma_date_round_trip(date);
    lemma_account_round_trip(account);
    let p = seq![pw(date_text(date)), Piece::Space, pw("document"@), Piece::Space, pw(account_text(account)), Piece::Space, ps(path@)];
    assert(p =~= seq![pw(date_text(date))] + seq![Piece::Space] + seq![pw("document"@)] + seq![Piece::Space] + seq![pw(account_text(account))] + seq![Piece::Space] + seq![ps(path@)]);
    assert(pieces_text(p) =~= directive_text(d));
    let t = pieces_tokens(p);
    assert(t =~= seq![TokenView::Word(date_text(date)), TokenView::Word("document"@), TokenView::Word(account_text(account)), TokenView::Str(path@)]);
    assert(pieces_ok(p));
    lemma_one_line(directive_text(d), p, d@);
}

/// Round trip of a price directive.
#[verifier::rlimit(100)]
#[verifier::spinoff_prover]
proof fn lemma_rt_price(d: Directive, date: Date, commodity: String, amount: Amount)
    requires
        d.wf(),
        d == (Directive::Price { date, commodity, amount }),
    ensures
        directive_from_text(directive_text(d)) == Some(d@),
{
    broadcast use lemma_pieces_text_concat, lemma_pieces_tokens_concat, lemma_pieces_one, lemma_pieces_one_tokens;
    lemma_keywords();
    lemma_date_round_trip(date);
    lemma_commodity_plain(commodity@);
    lemma_amount_pieces(amount);
    let p = seq![pw(date_text(date)), Piece::Space, pw("price"@), Piece::Space, pw(commodity@), Piece::Space, pw(decimal_text(amount.0)), Piece::Space, pw(amount.1@)];
    assert(p =~= seq![pw(date_text(date))] + seq![Piece::Space] + seq![pw("price"@)] + seq![Piece::Space] + seq![pw(commodity@)] + seq![Piece::Space] + seq![pw(decimal_text(amount.0))] + seq![Piece::Space] + seq![pw(amount.1@)]);
    assert(pieces_text(p) =~= directive_text(d));
    let t = pieces_tokens(p);
    assert(t =~= seq![TokenView::Word(date_text(date)), TokenView::Word("price"@), TokenView::Word(commodity@), TokenView::Word(decimal_text(amount.0)), TokenView::Word(amount.1@)]);
    assert(pieces_ok(p));
    lemma_one_line(directive_text(d), p, d@);
}

/// Round trip of a event directive.
#[verifier::rlimit(100)]
#[verifier::spinoff_prover]
proof fn lemma_rt_event(d: Directive, date: Date, name: String, value: String)
    requires
        d.wf(),
        d == (Directive::Event { date, name, value }),
    ensures
        directive_from_text(directive_text(d)) == Some(d@),
{
    broadcast use lemma_pieces_text_concat, lemma_pieces_tokens_concat, lemma_pieces_one, lemma_pieces_one_tokens;
    lemma_keywords();
    lemma_date_round_trip(date);
    let p = seq![pw(date_text(date)), Piece::Space, pw("event"@), Piece::Space, ps(name@), Piece::Space, ps(value@)];
    assert(p =~= seq![pw(date_text(date))] + seq![Piece::Space] + seq![pw("event"@)] + seq![Piece::Space] + seq![ps(name@)] + seq![Piece::Space] + seq![ps(value@)]);
    assert(pieces_text(p) =~= directive_text(d));
    let t = pieces_tokens(p);
    assert(t =~= seq![TokenView::Word(date_text(date)), TokenView::Word("event"@), TokenView::Str(name@), TokenView::Str(value@)]);
    assert(pieces_ok(p));
    lemma_one_line(directive_text(d), p, d@);
}

/// Round trip of a option directive.
#[verifier::rlimit(100)]
#[verifier::spinoff_prover]
proof fn lemma_rt_option(d: Directive, key: String, value: String)
    requires
        d.wf(),
        d == (Directive::Option { key, value }),
    ensures
        directive_from_text(directive_text(d)) == Some(d@),
{
    broadcast use lemma_pieces_text_concat, lemma_pieces_tokens_concat, lemma_pieces_one, lemma_pieces_one_tokens;
    lemma_keywords();
    
    let p = seq![pw("option"@), Piece::Space, ps(key@), Piece::Space, ps(value@)];
    assert(p =~= seq![pw("option"@)] + seq![Piece::Space] + seq![ps(key@)] + seq![Piece::Space] + seq![ps(value@)]);
    assert(pieces_text(p) =~= directive_text(d));
    let t = pieces_tokens(p);
    assert(t =~= seq![TokenView::Word("option"@), TokenView::Str(key@), TokenView::Str(value@)]);
    assert(pieces_ok(p));
    lemma_one_line(directive_text(d), p, d@);
}

/// Round trip of a include directive.
#[verifier::rlimit(100)]
#[verifier::spinoff_prover]
proof fn lemma_rt_include(d: Directive, file: String)
    requires
        d.wf(),
        d == (Directive::Include { file }),
    ensures
        directive_from_text(directive_text(d)) == Some(d@),
{
    broadcast use lemma_pieces_text_concat, lemma_pieces_tokens_concat, lemma_pieces_one, lemma_pieces_one_tokens;
    lemma_keywords();
    
    let p = seq![pw("include"@), Piece::Space, ps(file@)];
    assert(p =~= seq![pw("include"@)] + seq![Piece::Space] + seq![ps(file@)]);
    assert(pieces_text(p) =~= directive_text(d));
    let t = pieces_tokens(p);
    assert(t =~= seq![TokenView::Word("include"@), TokenView::Str(file@)]);
    assert(pieces_ok(p));
    lemma_one_line(directive_text(d), p, d@);
}

/// Round trip of a plugin directive.
#[verifier::rlimit(100)]
#[verifier::spinoff_prover]
proof fn lemma_rt_plugin(d: Directive, module: String, value: Option<String>)
    requires
        d.wf(),
        d == (Directive::Plugin { module, value }),
    ensures
        directive_from_text(directive_text(d)) == Some(d@),
{
    broadcast use lemma_pieces_text_concat, lemma_pieces_tokens_concat, lemma_pieces_one, lemma_pieces_one_tokens;
    lemma_keywords();
    match value {
        Some(v) => {
            let p = seq![pw("plugin"@), Piece::Space, ps(module@), Piece::Space, ps(v@)];
            assert(p =~= seq![pw("plugin"@)] + seq![Piece::Space] + seq![ps(module@)] + seq![Piece::Space] + seq![ps(v@)]);
            assert(pieces_text(p) =~= directive_text(d));
            let t = pieces_tokens(p);
            assert(t =~= seq![TokenView::Word("plugin"@), TokenView::Str(module@), TokenView::Str(v@)]);
            assert(pieces_ok(p));
            lemma_one_line(directive_text(d), p, d@);
        },
        None => {
            let p = seq![pw("plugin"@), Piece::Space, ps(module@)];
            assert(p =~= seq![pw("plugin"@)] + seq![Piece::Space] + seq![ps(module@)]);
            assert(pieces_text(p) =~= directive_text(d));
            let t = pieces_tokens(p);
            assert(t =~= seq![TokenView::Word("plugin"@), TokenView::Str(module@)]);
            assert(pieces_ok(p));
            lemma_one_line(directive_text(d), p, d@);
        },
    }
}

/// Round trip of a comment.
#[verifier::rlimit(100)]
#[verifier::spinoff_prover]
proof fn lemma_rt_comment(d: Directive, content: String)
    requires
        d.wf(),
        d == (Directive::Comment { content }),
    ensures
        directive_from_text(directive_text(d)) == Some(d@),
{
    broadcast use lemma_pieces_text_concat, lemma_pieces_tokens_concat, lemma_pieces_one, lemma_pieces_one_tokens;
    let p = seq![Piece::Tok(TokenView::Comment(content@))];
    assert(pieces_text(p) =~= directive_text(d));
    assert(pieces_ok(p));
    lemma_one_line(directive_text(d), p, d@);
}

/// The pieces of a non-empty list of commodities separated by `, `.
pub open spec fn comm_pieces(cs: Seq<Seq<char>>) -> Seq<Piece>
    decreases cs.len(),
{
    if cs.len() <= 1 {
        seq![pw(cs[0])]
    } else {
        seq![pw(cs[0]), Piece::Tok(TokenView::Comma), Piece::Space] + comm_pieces(cs.drop_first())
    }
}

/// A list of commodities renders, scans and parses back as itself.
#[verifier::rlimit(100)]
#[verifier::spinoff_prover]
proof fn lemma_comm_pieces(cs: Seq<Seq<char>>, h: Seq<TokenView>, k: int)
    requires
        cs.len() > 0,
        forall|i: int| 0 <= i < cs.len() ==> is_commodity(#[trigger] cs[i]),
        0 <= k <= h.len(),
        h.subrange(k, h.len() as int) == pieces_tokens(comm_pieces(cs)),
    ensures
        pieces_text(comm_pieces(cs)) == commodities_text(cs),
        pieces_ok(comm_pieces(cs)),
        comm_pieces(cs)[0] == pw(cs[0]),
        forall|i: int| 0 <= i < pieces_tokens(comm_pieces(cs)).len() ==> !(
        #[trigger] pieces_tokens(comm_pieces(cs))[i] is Newline),
        commodity_list(h, k) == Some(cs),
    decreases cs.len(),
{
    broadcast use lemma_pieces_text_concat, lemma_pieces_tokens_concat, lemma_pieces_one, lemma_pieces_one_tokens;
    let f = |x: Seq<char>| seq![',', ' '] + x;
    lemma_commodity_plain(cs[0]);
    if cs.len() == 1 {
        assert(cs.drop_first().map_values(|x: Seq<char>| seq![',', ' '] + x) =~= Seq::<Seq<char>>::empty());
        assert(pieces_text(comm_pieces(cs)) =~= commodities_text(cs));
        assert(h.subrange(k, h.len() as int)[0] == h[k]);
        assert(h.len() == k + 1);
        assert(seq![cs[0]] =~= cs);
    } else {
        let rest = cs.drop_first();
        let q = comm_pieces(rest);
        let hp = seq![pw(cs[0]), Piece::Tok(TokenView::Comma), Piece::Space];
        assert(hp =~= seq![pw(cs[0])] + seq![Piece::Tok(TokenView::Comma)] + seq![Piece::Space]);
        assert(pieces_tokens(hp) =~= seq![TokenView::Word(cs[0]), TokenView::Comma]);
        assert(pieces_tokens(comm_pieces(cs)) == pieces_tokens(hp) + pieces_tokens(q));
        assert(pieces_tokens(hp).len() == 2);
        assert(h.subrange(k, h.len() as int).len() == h.len() - k);
        assert(pieces_tokens(comm_pieces(cs)).len() == 2 + pieces_tokens(q).len());
        assert(h.len() - k == 2 + pieces_tokens(q).len());
        assert(h.subrange(k + 2, h.len() as int) =~= pieces_tokens(q)) by {
            assert forall|i: int| 0 <= i < pieces_tokens(q).len() implies #[trigger] h.subrange(
                k + 2,
                h.len() as int,
            )[i] == pieces_tokens(q)[i] by {
                assert(h.subrange(k, h.len() as int)[i + 2] == pieces_tokens(comm_pieces(cs))[i + 2]);
                assert(pieces_tokens(comm_pieces(cs))[i + 2] == pieces_tokens(q)[i]);
            };
        };
        assert forall|i: int| 0 <= i < rest.len() implies is_commodity(#[trigger] rest[i]) by {
            assert(rest[i] == cs[i + 1]);
        };
        lemma_comm_pieces(rest, h, k + 2);
        assert(h.subrange(k, h.len() as int)[0] == h[k]);
        assert(h.subrange(k, h.len() as int)[1] == h[k + 1]);
        assert(pieces_ok(hp));
        lemma_pieces_ok_concat(hp, q);
        assert(rest.drop_first().map_values(|x: Seq<char>| seq![',', ' '] + x) =~= rest.map_values(
            |x: Seq<char>| seq![',', ' '] + x,
        ).drop_first());
        lemma_concat_all_first(rest.map_values(|x: Seq<char>| seq![',', ' '] + x));
        assert(pieces_text(comm_pieces(cs)) =~= commodities_text(cs));
        assert(seq![cs[0]] + rest =~= cs);
    }
}

/// The pieces of custom values, each a quoted string after a space.
pub open spec fn value_pieces(vs: Seq<Seq<char>>) -> Seq<Piece>
    decreases vs.len(),
{
    if vs.len() == 0 {
        Seq::empty()
    } else {
        seq![Piece::Space, ps(vs[0])] + value_pieces(vs.drop_first())
    }
}

/// Custom values render, scan and parse back as themselves.
#[verifier::rlimit(100)]
#[verifier::spinoff_prover]
proof fn lemma_value_pieces(vs: Seq<Seq<char>>, h: Seq<TokenView>, k: int)
    requires
        0 <= k <= h.len(),
        h.subrange(k, h.len() as int) == pieces_tokens(value_pieces(vs)),
    ensures
        pieces_text(value_pieces(vs)) == values_text(vs),
        pieces_ok(value_pieces(vs)),
        vs.len() > 0 ==> value_pieces(vs)[0] == Piece::Space,
        forall|i: int| 0 <= i < pieces_tokens(value_pieces(vs)).len() ==> !(
        #[trigger] pieces_tokens(value_pieces(vs))[i] is Newline),
        values_from(h, k) == Some(vs),
    decreases vs.len(),
{
    broadcast use lemma_pieces_text_concat, lemma_pieces_tokens_concat, lemma_pieces_one, lemma_pieces_one_tokens;
    if vs.len() == 0 {
        assert(vs.map_values(|x: Seq<char>| seq![' '] + quoted(x)) =~= Seq::<Seq<char>>::empty());
        assert(h.subrange(k, h.len() as int).len() == 0);
        assert(vs =~= Seq::<Seq<char>>::empty());
    } else {
        let rest = vs.drop_first();
        let q = value_pieces(rest);
        let hp = seq![Piece::Space, ps(vs[0])];
        assert(hp =~= seq![Piece::Space] + seq![ps(vs[0])]);
        assert(pieces_tokens(hp) =~= seq![TokenView::Str(vs[0])]);
        assert(pieces_tokens(value_pieces(vs)) == pieces_tokens(hp) + pieces_tokens(q));
        assert(pieces_tokens(hp).len() == 1);
        assert(h.subrange(k, h.len() as int).len() == h.len() - k);
        assert(pieces_tokens(value_pieces(vs)).len() == 1 + pieces_tokens(q).len());
        assert(h.len() - k == 1 + pieces_tokens(q).len());
        assert(h.subrange(k + 1, h.len() as int) =~= pieces_tokens(q)) by {
            assert forall|i: int| 0 <= i < pieces_tokens(q).len() implies #[trigger] h.subrange(
                k + 1,
                h.len() as int,
            )[i] == pieces_tokens(q)[i] by {
                assert(h.subrange(k, h.len() as int)[i + 1] == pieces_tokens(value_pieces(vs))[i + 1]);
                assert(pieces_tokens(value_pieces(vs))[i + 1] == pieces_tokens(q)[i]);
            };
        };
        lemma_value_pieces(rest, h, k + 1);
        assert(h.subrange(k, h.len() as int)[0] == h[k]);
        assert(pieces_ok(hp));
        lemma_pieces_ok_concat(hp, q);
        assert(rest.map_values(|x: Seq<char>| seq![' '] + quoted(x)) =~= vs.map_values(
            |x: Seq<char>| seq![' '] + quoted(x),
        ).drop_first());
        lemma_concat_all_first(vs.map_values(|x: Seq<char>| seq![' '] + quoted(x)));
        assert(pieces_text(value_pieces(vs)) =~= values_text(vs));
        assert(seq![vs[0]] + rest =~= vs);
    }
}

/// Round trip of an open directive.
#[verifier::rlimit(100)]
#[verifier::spinoff_prover]
proof fn lemma_rt_open(d: Directive, date: Date, account: Account, commodities: Option<Vec<String>>)
    requires
        d.wf(),
        d == (Directive::Open { date, account, commodities }),
    ensures
        directive_from_text(directive_text(d)) == Some(d@),
{
    broadcast use lemma_pieces_text_concat, lemma_pieces_tokens_concat, lemma_pieces_one, lemma_pieces_one_tokens;
    lemma_keywords();
    lemma_date_round_trip(date);
    lemma_account_round_trip(account);
    match commodities {
        None => {
            let p = seq![pw(date_text(date)), Piece::Space, pw("open"@), Piece::Space, pw(account_text(account))];
            assert(p =~= seq![pw(date_text(date))] + seq![Piece::Space] + seq![pw("open"@)] + seq![Piece::Space] + seq![pw(account_text(account))]);
            assert(pieces_text(p) =~= directive_text(d));
            assert(pieces_tokens(p) =~= seq![TokenView::Word(date_text(date)), TokenView::Word("open"@), TokenView::Word(account_text(account))]);
            assert(pieces_ok(p));
            lemma_one_line(directive_text(d), p, d@);
        },
        Some(c) => {
            let cs = strings_view(c);
            let hp = seq![pw(date_text(date)), Piece::Space, pw("open"@), Piece::Space, pw(account_text(account)), Piece::Space];
            assert(hp =~= seq![pw(date_text(date))] + seq![Piece::Space] + seq![pw("open"@)] + seq![Piece::Space] + seq![pw(account_text(account))] + seq![Piece::Space]);
            let q = comm_pieces(cs);
            let p = hp + q;
            let h = pieces_tokens(p);
            assert(pieces_tokens(hp) =~= seq![TokenView::Word(date_text(date)), TokenView::Word("open"@), TokenView::Word(account_text(account))]);
            assert(h.subrange(3, h.len() as int) =~= pieces_tokens(q));
            assert forall|i: int| 0 <= i < cs.len() implies is_commodity(#[trigger] cs[i]) by {
                assert(cs[i] == c@[i]@);
            };
            lemma_comm_pieces(cs, h, 3);
            assert(pieces_ok(hp));
            lemma_pieces_ok_concat(hp, q);
            assert(pieces_text(p) =~= directive_text(d));
            assert forall|i: int| 0 <= i < h.len() implies !(#[trigger] h[i] is Newline) by {
                if i >= 3 {
                    assert(h[i] == pieces_tokens(q)[i - 3]);
                }
            };
            lemma_one_line(directive_text(d), p, d@);
        },
    }
}

/// Round trip of a custom directive.
#[verifier::rlimit(100)]
#[verifier::spinoff_prover]
proof fn lemma_rt_custom(d: Directive, date: Date, custom_type: String, values: Vec<String>)
    requires
        d.wf(),
        d == (Directive::Custom { date, custom_type, values }),
    ensures
        directive_from_text(directive_text(d)) == Some(d@),
{
    broadcast use lemma_pieces_text_concat, lemma_pieces_tokens_concat, lemma_pieces_one, lemma_pieces_one_tokens;
    lemma_keywords();
    lemma_date_round_trip(date);
    let vs = strings_view(values);
    let hp = seq![pw(date_text(date)), Piece::Space, pw("custom"@), Piece::Space, ps(custom_type@)];
    assert(hp =~= seq![pw(date_text(date))] + seq![Piece::Space] + seq![pw("custom"@)] + seq![Piece::Space] + seq![ps(custom_type@)]);
    let q = value_pieces(vs);
    let p = hp + q;
    let h = pieces_tokens(p);
    assert(pieces_tokens(hp) =~= seq![TokenView::Word(date_text(date)), TokenView::Word("custom"@), TokenView::Str(custom_type@)]);
    assert(h.subrange(3, h.len() as int) =~= pieces_tokens(q));
    lemma_value_pieces(vs, h, 3);
    assert(pieces_ok(hp));
    lemma_pieces_ok_concat(hp, q);
    assert(pieces_text(p) =~= directive_text(d));
    assert forall|i: int| 0 <= i < h.len() implies !(#[trigger] h[i] is Newline) by {
        if i >= 3 {
            assert(h[i] == pieces_tokens(q)[i - 3]);
        }
    };
    assert(h.len() >= 4) by {
        assert(pieces_tokens(q) == pieces_tokens(seq![Piece::Space, ps(vs[0])] + value_pieces(vs.drop_first())));
        assert(seq![Piece::Space, ps(vs[0])] =~= seq![Piece::Space] + seq![ps(vs[0])]);
    };
    lemma_one_line(directive_text(d), p, d@);
}

/// Continuation lines as tokens: each after a line break into an
/// indented line.
pub open spec fn lines_tokens(ls: Seq<Seq<TokenView>>) -> Seq<TokenView>
    decreases ls.len(),
{
    if ls.len() == 0 {
        Seq::empty()
    } else {
        seq![TokenView::Newline(true)] + ls[0] + lines_tokens(ls.drop_first())
    }
}

/// A non-empty token line without line breaks.
pub open spec fn line_ok(l: Seq<TokenView>) -> bool {
    l.len() > 0 && forall|i: int| 0 <= i < l.len() ==> !(#[trigger] l[i] is Newline)
}

/// Continuation lines are found back as written.
proof fn lemma_cont_lines(t: Seq<TokenView>, j: int, ls: Seq<Seq<TokenView>>)
    requires
        0 <= j <= t.len(),
        t.subrange(j, t.len() as int) == lines_tokens(ls),
        forall|i: int| 0 <= i < ls.len() ==> line_ok(#[trigger] ls[i]),
    ensures
        cont_lines(t, j) == (ls, t.len() as int),
    decreases ls.len(),
{
    if ls.len() == 0 {
        assert(t.subrange(j, t.len() as int).len() == 0);
        assert(ls =~= Seq::<Seq<TokenView>>::empty());
        return;
    }
    let l = ls[0];
    let rest = ls.drop_first();
    assert(line_ok(l));
    let n = l.len() as int;
    let all = lines_tokens(ls);
    assert(all == seq![TokenView::Newline(true)] + l + lines_tokens(rest));
    assert(t.subrange(j, t.len() as int)[0] == t[j]);
    assert(t[j] == TokenView::Newline(true));
    assert forall|i: int| 0 <= i < n implies #[trigger] t[j + 1 + i] == l[i] by {
        assert(t.subrange(j, t.len() as int)[1 + i] == all[1 + i]);
    };
    assert(t.subrange(j + 1 + n, t.len() as int) =~= lines_tokens(rest)) by {
        assert forall|i: int| 0 <= i < lines_tokens(rest).len() implies #[trigger] t.subrange(
            j + 1 + n,
            t.len() as int,
        )[i] == lines_tokens(rest)[i] by {
            assert(t.subrange(j, t.len() as int)[1 + n + i] == all[1 + n + i]);
        };
    };
    assert forall|i: int| 0 <= i < rest.len() implies line_ok(#[trigger] rest[i]) by {
        assert(rest[i] == ls[i + 1]);
    };
    if rest.len() > 0 {
        assert(lines_tokens(rest)[0] == TokenView::Newline(true));
        assert(t.subrange(j + 1 + n, t.len() as int)[0] == t[j + 1 + n]);
    }
    assert forall|k: int| j + 1 <= k < j + 1 + n implies !(#[trigger] t[k] is Newline) by {
        assert(t[j + 1 + (k - j - 1)] == l[k - j - 1]);
    };
    lemma_line_tokens_end(t, j + 1, j + 1 + n);
    assert(t[j + 1 + 0] == l[0]);
    lemma_cont_lines(t, j + 1 + n, rest);
    assert forall|i: int| 0 <= i < n implies #[trigger] t.subrange(j + 1, j + 1 + n)[i] == l[i] by {
        assert(t[j + 1 + i] == l[i]);
    };
    assert(t.subrange(j + 1, j + 1 + n) =~= l);
    assert(seq![l] + rest =~= ls);
}

/// Text made of well-formed pieces that give a header line and
/// continuation lines parses as the directive of those lines.
proof fn lemma_multi_line(
    text: Seq<char>,
    p: Seq<Piece>,
    h: Seq<TokenView>,
    ls: Seq<Seq<TokenView>>,
    v: crate::models::DirectiveView,
)
    requires
        pieces_text(p) == text,
        pieces_ok(p),
        pieces_tokens(p) == h + lines_tokens(ls),
        line_ok(h),
        forall|i: int| 0 <= i < ls.len() ==> line_ok(#[trigger] ls[i]),
        directive_of(h, ls) == Some(v),
    ensures
        directive_from_text(text) == Some(v),
{
    let t = pieces_tokens(p);
    assert(text.subrange(0, text.len() as int) =~= text);
    lemma_scan_pieces(text, 0, p, true);
    assert(t[0] == h[0]);
    assert(skip_newlines(t, 0) == 0);
    if ls.len() > 0 {
        assert(lines_tokens(ls)[0] == TokenView::Newline(true));
        assert(t[h.len() as int] == lines_tokens(ls)[0]);
    }
    assert forall|k: int| 0 <= k < h.len() implies !(#[trigger] t[k] is Newline) by {
        assert(t[k] == h[k]);
    };
    lemma_line_tokens_end(t, 0, h.len() as int);
    assert(t.subrange(h.len() as int, t.len() as int) =~= lines_tokens(ls));
    lemma_cont_lines(t, h.len() as int, ls);
    assert(t.subrange(0, h.len() as int) =~= h);
    assert(record_at(t, 0) == Some((v, t.len() as int)));
    assert(skip_newlines(t, t.len() as int) == t.len());
}

/// Inserting a new key appends it.
proof fn lemma_insert_new(s: Seq<(Seq<char>, Seq<char>)>, k: Seq<char>, v: Seq<char>)
    requires
        forall|i: int| 0 <= i < s.len() ==> #[trigger] s[i].0 != k,
    ensures
        insert_entry(s, k, v) == s.push((k, v)),
    decreases s.len(),
{
    if s.len() > 0 {
        assert(s[0].0 != k);
        assert forall|i: int| 0 <= i < s.drop_first().len() implies #[trigger] s.drop_first()[i].0 != k by {
            assert(s.drop_first()[i] == s[i + 1]);
        };
        lemma_insert_new(s.drop_first(), k, v);
        assert(seq![s[0]] + s.drop_first().push((k, v)) =~= s.push((k, v)));
    } else {
        assert(seq![(k, v)] =~= s.push((k, v)));
    }
}

/// The pieces of metadata entries, each on its own line.
pub open spec fn meta_pieces(m: Seq<(Seq<char>, Seq<char>)>) -> Seq<Piece>
    decreases m.len(),
{
    if m.len() == 0 {
        Seq::empty()
    } else {
        seq![Piece::Break, pw(m[0].0 + seq![':']), Piece::Space, ps(m[0].1)] + meta_pieces(
            m.drop_first(),
        )
    }
}

/// The token line of a metadata entry.
pub open spec fn meta_line_tokens(e: (Seq<char>, Seq<char>)) -> Seq<TokenView> {
    seq![TokenView::Word(e.0 + seq![':']), TokenView::Str(e.1)]
}

/// Metadata entries render and scan as their lines.
#[verifier::rlimit(100)]
#[verifier::spinoff_prover]
proof fn lemma_meta_pieces(m: Seq<(Seq<char>, Seq<char>)>)
    requires
        forall|i: int| 0 <= i < m.len() ==> crate::models::is_key(#[trigger] m[i].0) && m[i].0[0] != ';',
    ensures
        pieces_text(meta_pieces(m)) == metas_text(m),
        pieces_ok(meta_pieces(m)),
        m.len() > 0 ==> meta_pieces(m)[0] == Piece::Break,
        pieces_tokens(meta_pieces(m)) == lines_tokens(m.map_values(|e: (Seq<char>, Seq<char>)| meta_line_tokens(e))),
    decreases m.len(),
{
    broadcast use lemma_pieces_text_concat, lemma_pieces_tokens_concat, lemma_pieces_one, lemma_pieces_one_tokens;
    let ml = m.map_values(|e: (Seq<char>, Seq<char>)| meta_line_tokens(e));
    let f = m.map_values(|e: (Seq<char>, Seq<char>)| seq!['\n', ' ', ' '] + e.0 + seq![':', ' '] + quoted(e.1));
    if m.len() == 0 {
        assert(ml =~= Seq::<Seq<TokenView>>::empty());
        assert(f =~= Seq::<Seq<char>>::empty());
        return;
    }
    let rest = m.drop_first();
    assert forall|i: int| 0 <= i < rest.len() implies crate::models::is_key(#[trigger] rest[i].0) && rest[i].0[0] != ';' by {
        assert(rest[i] == m[i + 1]);
    };
    lemma_meta_pieces(rest);
    let (k, v) = m[0];
    let w = k + seq![':'];
    let hp = seq![Piece::Break, pw(w), Piece::Space, ps(v)];
    assert(hp =~= seq![Piece::Break] + seq![pw(w)] + seq![Piece::Space] + seq![ps(v)]);
    assert(is_plain_word(w)) by {
        assert(crate::models::is_key_char(k[0]));
        assert forall|i: int| 0 <= i < w.len() implies is_word_char(#[trigger] w[i]) by {
            if i < k.len() {
                assert(crate::models::is_key_char(k[i]));
            }
        };
    };
    assert(pieces_ok(hp));
    lemma_pieces_ok_concat(hp, meta_pieces(rest));
    assert(ml.drop_first() =~= rest.map_values(|e: (Seq<char>, Seq<char>)| meta_line_tokens(e)));
    assert(pieces_tokens(hp) =~= seq![TokenView::Newline(true)] + meta_line_tokens(m[0]));
    assert(pieces_tokens(meta_pieces(m)) =~= lines_tokens(ml));
    assert(f.drop_first() =~= rest.map_values(|e: (Seq<char>, Seq<char>)| seq!['\n', ' ', ' '] + e.0 + seq![':', ' '] + quoted(e.1)));
    lemma_concat_all_first(f);
    assert(pieces_text(meta_pieces(m)) =~= metas_text(m));
}

/// Metadata lines with distinct keys parse back as the entries.
proof fn lemma_metas_of(m: Seq<(Seq<char>, Seq<char>)>)
    requires
        crate::models::metas_wf(m),
    ensures
        metas_of(m.map_values(|e: (Seq<char>, Seq<char>)| meta_line_tokens(e))) == Some(m),
    decreases m.len(),
{
    let ml = m.map_values(|e: (Seq<char>, Seq<char>)| meta_line_tokens(e));
    if m.len() == 0 {
        assert(m =~= Seq::<(Seq<char>, Seq<char>)>::empty());
        return;
    }
    let init = m.drop_last();
    assert forall|i: int, j: int| 0 <= i < j < init.len() implies #[trigger] init[i].0 != #[trigger] init[j].0 by {
        assert(init[i] == m[i]);
        assert(init[j] == m[j]);
    };
    assert forall|i: int| 0 <= i < init.len() implies crate::models::is_key(#[trigger] init[i].0) && init[i].0[0] != ';' by {
        assert(init[i] == m[i]);
    };
    lemma_metas_of(init);
    assert(ml.drop_last() =~= init.map_values(|e: (Seq<char>, Seq<char>)| meta_line_tokens(e)));
    let (k, v) = m.last();
    let w = k + seq![':'];
    assert(ml.last() == meta_line_tokens(m.last()));
    assert(w.drop_last() =~= k);
    assert(crate::models::is_key(k));
    assert(meta_line(ml.last()) == Some((k, v)));
    assert forall|i: int| 0 <= i < init.len() implies #[trigger] init[i].0 != k by {
        assert(init[i] == m[i]);
        assert(m[i].0 != m[m.len() - 1].0);
    };
    lemma_insert_new(init, k, v);
    assert(init.push((k, v)) =~= m);
}

/// Round trip of a commodity directive.
#[verifier::rlimit(100)]
#[verifier::spinoff_prover]
proof fn lemma_rt_commodity(d: Directive, date: Date, name: String, metas: indexmap::IndexMap<String, String>)
    requires
        d.wf(),
        d == (Directive::Commodity { date, name, metas }),
    ensures
        directive_from_text(directive_text(d)) == Some(d@),
{
    broadcast use lemma_pieces_text_concat, lemma_pieces_tokens_concat, lemma_pieces_one, lemma_pieces_one_tokens;
    lemma_keywords();
    lemma_date_round_trip(date);
    lemma_commodity_plain(name@);
    let m = meta_entries(metas);
    let hp = seq![pw(date_text(date)), Piece::Space, pw("commodity"@), Piece::Space, pw(name@)];
    assert(hp =~= seq![pw(date_text(date))] + seq![Piece::Space] + seq![pw("commodity"@)] + seq![Piece::Space] + seq![pw(name@)]);
    lemma_meta_pieces(m);
    lemma_metas_of(m);
    let q = meta_pieces(m);
    let p = hp + q;
    let h = seq![TokenView::Word(date_text(date)), TokenView::Word("commodity"@), TokenView::Word(name@)];
    assert(pieces_tokens(hp) =~= h);
    assert(pieces_ok(hp));
    lemma_pieces_ok_concat(hp, q);
    assert(pieces_text(p) =~= directive_text(d));
    let ls = m.map_values(|e: (Seq<char>, Seq<char>)| meta_line_tokens(e));
    assert forall|i: int| 0 <= i < ls.len() implies line_ok(#[trigger] ls[i]) by {};
    lemma_multi_line(directive_text(d), p, h, ls, d@);
}

/// Joining well-formed pieces before a part that opens with a space.
proof fn lemma_ok_join(a: Seq<Piece>, b: Seq<Piece>)
    requires
        pieces_ok(a),
        pieces_ok(b),
        b.len() > 0 ==> b[0] == Piece::Space,
        a.len() > 0 ==> !(a[0] matches Piece::Tok(TokenView::Comment(_))),
    ensures
        pieces_ok(a + b),
        a.len() > 0 ==> (a + b)[0] == a[0],
{
    if a.len() >= 2 {
        assert(pair_ok(a[a.len() - 2], a[a.len() - 1]));
    }
    lemma_pieces_ok_concat(a, b);
}

/// An optional part of a posting: a space, a lead, then an amount.
pub open spec fn amount_part(lead: Seq<Piece>, a: Option<Amount>) -> Seq<Piece> {
    match a {
        Some(x) => seq![Piece::Space] + lead + amount_pieces(x),
        None => Seq::empty(),
    }
}

/// The cost part of a posting.
pub open spec fn cost_part(c: Option<(Amount, Option<String>)>) -> Seq<Piece> {
    match c {
        Some((a, n)) => seq![Piece::Space, Piece::Tok(TokenView::LBrace)] + amount_pieces(a) + match n {
            Some(x) => seq![Piece::Tok(TokenView::Comma), Piece::Space, ps(x@)],
            None => Seq::empty(),
        } + seq![Piece::Tok(TokenView::RBrace)],
        None => Seq::empty(),
    }
}

/// The flag and account of a posting.
pub open spec fn line_head(l: TransactionLine) -> Seq<Piece> {
    (if l.flag == Flag::Incomplete {
        seq![pw(seq!['!']), Piece::Space]
    } else {
        Seq::empty()
    }) + seq![pw(account_text(l.account))]
}

/// The pieces of a posting.
pub open spec fn line_pieces(l: TransactionLine) -> Seq<Piece> {
    line_head(l) + amount_part(lead_of(None), l.amount) + cost_part(l.cost) + amount_part(
        lead_of(Some(TokenView::At)),
        l.single_price,
    ) + amount_part(lead_of(Some(TokenView::AtAt)), l.total_price)
}

/// The tokens of an amount.
pub open spec fn amount_tokens(a: Amount) -> Seq<TokenView> {
    seq![TokenView::Word(decimal_text(a.0)), TokenView::Word(a.1@)]
}

/// The head of a posting renders, is well formed and scans as expected.
#[verifier::rlimit(100)]
#[verifier::spinoff_prover]
proof fn lemma_line_head(l: TransactionLine)
    requires
        l.account.wf(),
    ensures
        pieces_text(line_head(l)) == (if l.flag == Flag::Incomplete {
            seq!['!', ' ']
        } else {
            Seq::empty()
        }) + account_text(l.account),
        pieces_ok(line_head(l)),
        line_head(l).len() > 0,
        pieces_tokens(line_head(l)) == (if l.flag == Flag::Incomplete {
            seq![TokenView::Word(seq!['!'])]
        } else {
            Seq::empty()
        }) + seq![TokenView::Word(account_text(l.account))],
{
    broadcast use lemma_pieces_text_concat, lemma_pieces_tokens_concat, lemma_pieces_one, lemma_pieces_one_tokens;
    lemma_account_round_trip(l.account);
    if l.flag == Flag::Incomplete {
        let hd = seq![pw(seq!['!']), Piece::Space, pw(account_text(l.account))];
        assert(line_head(l) =~= hd);
        assert(hd =~= seq![pw(seq!['!'])] + seq![Piece::Space] + seq![pw(account_text(l.account))]);
        assert(pieces_ok(hd));
        assert(pieces_text(hd) =~= seq!['!', ' '] + account_text(l.account));
    } else {
        assert(line_head(l) =~= seq![pw(account_text(l.account))]);
        assert(Seq::<char>::empty() + account_text(l.account) =~= account_text(l.account));
        assert(Seq::<TokenView>::empty() + seq![TokenView::Word(account_text(l.account))] =~= seq![TokenView::Word(account_text(l.account))]);
    }
}

/// An amount part renders, is well formed and scans as expected.
#[verifier::rlimit(100)]
#[verifier::spinoff_prover]
proof fn lemma_amount_part(t: Option<TokenView>, a: Option<Amount>)
    requires
        t == Some(TokenView::At) || t == Some(TokenView::AtAt) || t is None,
        match a {
            Some(x) => amount_wf(x),
            None => true,
        },
    ensures
        pieces_text(amount_part(lead_of(t), a)) == match a {
            Some(x) => seq![' '] + lead_text(t) + amount_text(x),
            None => Seq::empty(),
        },
        pieces_ok(amount_part(lead_of(t), a)),
        a is Some ==> amount_part(lead_of(t), a)[0] == Piece::Space,
        pieces_tokens(amount_part(lead_of(t), a)) == match a {
            Some(x) => lead_tokens(t) + amount_tokens(x),
            None => Seq::empty(),
        },
{
    broadcast use lemma_pieces_text_concat, lemma_pieces_tokens_concat, lemma_pieces_one, lemma_pieces_one_tokens;
    assert(pieces_text(Seq::<Piece>::empty()) =~= Seq::<char>::empty());
    assert(pieces_tokens(Seq::<Piece>::empty()) =~= Seq::<TokenView>::empty());
    match a {
        Some(x) => {
            lemma_amount_pieces(x);
            let y = amount_part(lead_of(t), a);
            match t {
                Some(tk) => {
                    assert(y =~= seq![Piece::Space] + seq![Piece::Tok(tk)] + seq![Piece::Space] + seq![pw(decimal_text(x.0))] + seq![Piece::Space] + seq![pw(x.1@)]);
                    assert(y =~= seq![Piece::Space, Piece::Tok(tk), Piece::Space, pw(decimal_text(x.0)), Piece::Space, pw(x.1@)]);
                    assert(pieces_ok(y));
                    assert(pieces_text(y) =~= seq![' '] + lead_text(t) + amount_text(x));
                    assert(pieces_tokens(y) =~= lead_tokens(t) + amount_tokens(x));
                },
                None => {
                    assert(y =~= seq![Piece::Space] + seq![pw(decimal_text(x.0))] + seq![Piece::Space] + seq![pw(x.1@)]);
                    assert(y =~= seq![Piece::Space, pw(decimal_text(x.0)), Piece::Space, pw(x.1@)]);
                    assert(pieces_ok(y));
                    assert(pieces_text(y) =~= seq![' '] + lead_text(t) + amount_text(x));
                    assert(pieces_tokens(y) =~= lead_tokens(t) + amount_tokens(x));
                },
            }
        },
        None => {},
    }
}

/// The lead pieces of a price: its sigil and a space.
pub open spec fn lead_of(t: Option<TokenView>) -> Seq<Piece> {
    match t {
        Some(x) => seq![Piece::Tok(x), Piece::Space],
        None => Seq::empty(),
    }
}

/// The text of the lead of a price.
pub open spec fn lead_text(t: Option<TokenView>) -> Seq<char> {
    match t {
        Some(TokenView::At) => seq!['@', ' '],
        Some(TokenView::AtAt) => seq!['@', '@', ' '],
        _ => Seq::empty(),
    }
}

/// The tokens of the lead of a price.
pub open spec fn lead_tokens(t: Option<TokenView>) -> Seq<TokenView> {
    match t {
        Some(x) => seq![x],
        None => Seq::empty(),
    }
}

/// A cost part renders, is well formed and scans as expected.
#[verifier::rlimit(100)]
#[verifier::spinoff_prover]
proof fn lemma_cost_part(c: Option<(Amount, Option<String>)>)
    requires
        match c {
            Some((a, _)) => amount_wf(a),
            None => true,
        },
    ensures
        pieces_text(cost_part(c)) == match c {
            Some(x) => seq![' '] + cost_text(x),
            None => Seq::empty(),
        },
        pieces_ok(cost_part(c)),
        c is Some ==> cost_part(c)[0] == Piece::Space,
        pieces_tokens(cost_part(c)) == match c {
            Some((a, n)) => seq![TokenView::LBrace] + amount_tokens(a) + match n {
                Some(x) => seq![TokenView::Comma, TokenView::Str(x@)],
                None => Seq::empty(),
            } + seq![TokenView::RBrace],
            None => Seq::empty(),
        },
{
    broadcast use lemma_pieces_text_concat, lemma_pieces_tokens_concat, lemma_pieces_one, lemma_pieces_one_tokens;
    assert(pieces_text(Seq::<Piece>::empty()) =~= Seq::<char>::empty());
    assert(pieces_tokens(Seq::<Piece>::empty()) =~= Seq::<TokenView>::empty());
    match c {
        Some((a, n)) => {
            lemma_amount_pieces(a);
            let x = cost_part(c);
            match n {
                Some(y) => {
                    assert(x =~= seq![Piece::Space] + seq![Piece::Tok(TokenView::LBrace)] + seq![pw(decimal_text(a.0))] + seq![Piece::Space] + seq![pw(a.1@)] + seq![Piece::Tok(TokenView::Comma)] + seq![Piece::Space] + seq![ps(y@)] + seq![Piece::Tok(TokenView::RBrace)]);
                    assert(x =~= seq![Piece::Space, Piece::Tok(TokenView::LBrace), pw(decimal_text(a.0)), Piece::Space, pw(a.1@), Piece::Tok(TokenView::Comma), Piece::Space, ps(y@), Piece::Tok(TokenView::RBrace)]);
                    assert(pieces_ok(x));
                    assert(pieces_text(x) =~= seq![' '] + cost_text(c->Some_0));
                    assert(pieces_tokens(x) =~= seq![TokenView::LBrace] + amount_tokens(a) + seq![TokenView::Comma, TokenView::Str(y@)] + seq![TokenView::RBrace]);
                },
                None => {
                    assert(x =~= seq![Piece::Space] + seq![Piece::Tok(TokenView::LBrace)] + seq![pw(decimal_text(a.0))] + seq![Piece::Space] + seq![pw(a.1@)] + seq![Piece::Tok(TokenView::RBrace)]);
                    assert(x =~= seq![Piece::Space, Piece::Tok(TokenView::LBrace), pw(decimal_text(a.0)), Piece::Space, pw(a.1@), Piece::Tok(TokenView::RBrace)]);
                    assert(pieces_ok(x));
                    assert(pieces_text(x) =~= seq![' '] + cost_text(c->Some_0));
                    assert(pieces_tokens(x) =~= seq![TokenView::LBrace] + amount_tokens(a) + Seq::<TokenView>::empty() + seq![TokenView::RBrace]);
                },
            }
        },
        None => {},
    }
}


/// Round trip: every well-formed directive, rendered as text, parses back
/// to the same directive. With the contracts of `render` and
/// `parse_directive`, `parse_directive(&render(&d))` is `Ok` of a directive
/// equal to `d`.
pub proof fn lemma_round_trip(d: Directive)
    requires
        d.wf(),
    ensures
        directive_from_text(directive_text(d)) == Some(d@),
{
    match d {
        Directive::Open { date, account, commodities } => lemma_rt_open(d, date, account, commodities),
        Directive::Close { date, account } => lemma_rt_close(d, date, account),
        Directive::Commodity { date, name, metas } => lemma_rt_commodity(d, date, name, metas),
        Directive::Transaction(t) => lemma_rt_transaction(d, t),
        Directive::Balance { date, account, amount } => lemma_rt_balance(d, date, account, amount),
        Directive::Pad { date, from, to } => lemma_rt_pad(d, date, from, to),
        Directive::Note { date, account, description } => lemma_rt_note(d, date, account, description),
        Directive::Document { date, account, path } => lemma_rt_document(d, date, account, path),
        Directive::Price { date, commodity, amount } => lemma_rt_price(d, date, commodity, amount),
        Directive::Event { date, name, value } => lemma_rt_event(d, date, name, value),
        Directive::Custom { date, custom_type, values } => lemma_rt_custom(d, date, custom_type, values),
        Directive::Option { key, value } => lemma_rt_option(d, key, value),
        Directive::Plugin { module, value } => lemma_rt_plugin(d, module, value),
        Directive::Include { file } => lemma_rt_include(d, file),
        Directive::Comment { content } => lemma_rt_comment(d, content),
    }
}

/// The tokens of a posting, as its pieces scan.
pub open spec fn line_tokens(l: TransactionLine) -> Seq<TokenView> {
    pieces_tokens(line_pieces(l))
}

/// A posting renders as its text from well-formed pieces, and its tokens
/// are those of its parts.
#[verifier::rlimit(100)]
#[verifier::spinoff_prover]
proof fn lemma_line_pieces(l: TransactionLine)
    requires
        l.wf(),
    ensures
        pieces_text(line_pieces(l)) == line_text(l),
        pieces_ok(line_pieces(l)),
        line_pieces(l)[0] == line_head(l)[0],
        line_pieces(l)[0] == pw(if l.flag == Flag::Incomplete { seq!['!'] } else { account_text(l.account) }),
        line_tokens(l) == pieces_tokens(line_head(l)) + pieces_tokens(amount_part(lead_of(None), l.amount))
            + pieces_tokens(cost_part(l.cost)) + pieces_tokens(amount_part(lead_of(Some(TokenView::At)), l.single_price))
            + pieces_tokens(amount_part(lead_of(Some(TokenView::AtAt)), l.total_price)),
{
    broadcast use lemma_pieces_text_concat, lemma_pieces_tokens_concat;
    lemma_line_head(l);
    lemma_amount_part(None, l.amount);
    lemma_cost_part(l.cost);
    lemma_amount_part(Some(TokenView::At), l.single_price);
    lemma_amount_part(Some(TokenView::AtAt), l.total_price);
    let h = line_head(l);
    let pa = amount_part(lead_of(None), l.amount);
    let pc = cost_part(l.cost);
    let single = amount_part(lead_of(Some(TokenView::At)), l.single_price);
    let total = amount_part(lead_of(Some(TokenView::AtAt)), l.total_price);
    assert(h[0] == pw(if l.flag == Flag::Incomplete { seq!['!'] } else { account_text(l.account) }));
    lemma_ok_join(h, pa);
    lemma_ok_join(h + pa, pc);
    lemma_ok_join(h + pa + pc, single);
    lemma_ok_join(h + pa + pc + single, total);
    assert(line_pieces(l) == h + pa + pc + single + total);
    assert(pieces_text(line_pieces(l)) =~= line_text(l));
}

/// One shape of posting parses back as itself.
#[verifier::rlimit(100)]
#[verifier::spinoff_prover]
proof fn lemma_posting_complete_bare(l: TransactionLine)
    requires
        l.wf(),
        l.flag == Flag::Complete,
        l.amount is None,
    ensures
        posting_of(line_tokens(l)) == Some(l@),
        line_ok(line_tokens(l)),
{
    broadcast use lemma_pieces_tokens_concat;
    lemma_line_pieces(l);
    lemma_line_head(l);
    lemma_amount_part(None, l.amount);
    lemma_cost_part(l.cost);
    lemma_amount_part(Some(TokenView::At), l.single_price);
    lemma_amount_part(Some(TokenView::AtAt), l.total_price);
    lemma_account_round_trip(l.account);
    reveal_strlit("Assets");
    reveal_strlit("Liabilities");
    reveal_strlit("Equity");
    reveal_strlit("Income");
    reveal_strlit("Expenses");
    assert(account_text(l.account).len() > 1);
    
    let t = line_tokens(l);
    assert(t =~= seq![TokenView::Word(account_text(l.account))]);
}

/// One shape of posting parses back as itself.
#[verifier::rlimit(100)]
#[verifier::spinoff_prover]
proof fn lemma_posting_complete_no_cost_no_price(l: TransactionLine)
    requires
        l.wf(),
        l.flag == Flag::Complete,
        l.amount is Some,
        l.cost is None,
        l.single_price is None,
        l.total_price is None,
    ensures
        posting_of(line_tokens(l)) == Some(l@),
        line_ok(line_tokens(l)),
{
    broadcast use lemma_pieces_tokens_concat;
    lemma_line_pieces(l);
    lemma_line_head(l);
    lemma_amount_part(None, l.amount);
    lemma_cost_part(l.cost);
    lemma_amount_part(Some(TokenView::At), l.single_price);
    lemma_amount_part(Some(TokenView::AtAt), l.total_price);
    lemma_account_round_trip(l.account);
    reveal_strlit("Assets");
    reveal_strlit("Liabilities");
    reveal_strlit("Equity");
    reveal_strlit("Income");
    reveal_strlit("Expenses");
    assert(account_text(l.account).len() > 1);
    let a = l.amount->Some_0;
    lemma_amount_pieces(a);
    let t = line_tokens(l);
    assert(t =~= seq![TokenView::Word(account_text(l.account)), TokenView::Word(decimal_text(a.0)), TokenView::Word(a.1@)]);
}

/// One shape of posting parses back as itself.
#[verifier::rlimit(100)]
#[verifier::spinoff_prover]
proof fn lemma_posting_complete_no_cost_unit_price(l: TransactionLine)
    requires
        l.wf(),
        l.flag == Flag::Complete,
        l.amount is Some,
        l.cost is None,
        l.single_price is Some,
        l.total_price is None,
    ensures
        posting_of(line_tokens(l)) == Some(l@),
        line_ok(line_tokens(l)),
{
    broadcast use lemma_pieces_tokens_concat;
    lemma_line_pieces(l);
    lemma_line_head(l);
    lemma_amount_part(None, l.amount);
    lemma_cost_part(l.cost);
    lemma_amount_part(Some(TokenView::At), l.single_price);
    lemma_amount_part(Some(TokenView::AtAt), l.total_price);
    lemma_account_round_trip(l.account);
    reveal_strlit("Assets");
    reveal_strlit("Liabilities");
    reveal_strlit("Equity");
    reveal_strlit("Income");
    reveal_strlit("Expenses");
    assert(account_text(l.account).len() > 1);
    let a = l.amount->Some_0;
    lemma_amount_pieces(a);
    let p = l.single_price->Some_0;
    lemma_amount_pieces(p);
    let t = line_tokens(l);
    assert(t =~= seq![TokenView::Word(account_text(l.account)), TokenView::Word(decimal_text(a.0)), TokenView::Word(a.1@), TokenView::At, TokenView::Word(decimal_text(p.0)), TokenView::Word(p.1@)]);
}

/// One shape of posting parses back as itself.
#[verifier::rlimit(100)]
#[verifier::spinoff_prover]
proof fn lemma_posting_complete_no_cost_total_price(l: TransactionLine)
    requires
        l.wf(),
        l.flag == Flag::Complete,
        l.amount is Some,
        l.cost is None,
        l.single_price is None,
        l.total_price is Some,
    ensures
        posting_of(line_tokens(l)) == Some(l@),
        line_ok(line_tokens(l)),
{
    broadcast use lemma_pieces_tokens_concat;
    lemma_line_pieces(l);
    lemma_line_head(l);
    lemma_amount_part(None, l.amount);
    lemma_cost_part(l.cost);
    lemma_amount_part(Some(TokenView::At), l.single_price);
    lemma_amount_part(Some(TokenView::AtAt), l.total_price);
    lemma_account_round_trip(l.account);
    reveal_strlit("Assets");
    reveal_strlit("Liabilities");
    reveal_strlit("Equity");
    reveal_strlit("Income");
    reveal_strlit("Expenses");
    assert(account_text(l.account).len() > 1);
    let a = l.amount->Some_0;
    lemma_amount_pieces(a);
    let p = l.total_price->Some_0;
    lemma_amount_pieces(p);
    let t = line_tokens(l);
    assert(t =~= seq![TokenView::Word(account_text(l.account)), TokenView::Word(decimal_text(a.0)), TokenView::Word(a.1@), TokenView::AtAt, TokenView::Word(decimal_text(p.0)), TokenView::Word(p.1@)]);
}

/// One shape of posting parses back as itself.
#[verifier::rlimit(100)]
#[verifier::spinoff_prover]
proof fn lemma_posting_complete_cost_no_price(l: TransactionLine)
    requires
        l.wf(),
        l.flag == Flag::Complete,
        l.amount is Some,
        l.cost is Some,
        l.cost->Some_0.1 is None,
        l.single_price is None,
        l.total_price is None,
    ensures
        posting_of(line_tokens(l)) == Some(l@),
        line_ok(line_tokens(l)),
{
    broadcast use lemma_pieces_tokens_concat;
    lemma_line_pieces(l);
    lemma_line_head(l);
    lemma_amount_part(None, l.amount);
    lemma_cost_part(l.cost);
    lemma_amount_part(Some(TokenView::At), l.single_price);
    lemma_amount_part(Some(TokenView::AtAt), l.total_price);
    lemma_account_round_trip(l.account);
    reveal_strlit("Assets");
    reveal_strlit("Liabilities");
    reveal_strlit("Equity");
    reveal_strlit("Income");
    reveal_strlit("Expenses");
    assert(account_text(l.account).len() > 1);
    let a = l.amount->Some_0;
    lemma_amount_pieces(a);
    let c = l.cost->Some_0.0;
    lemma_amount_pieces(c);
    let t = line_tokens(l);
    assert(t =~= seq![TokenView::Word(account_text(l.account)), TokenView::Word(decimal_text(a.0)), TokenView::Word(a.1@), TokenView::LBrace, TokenView::Word(decimal_text(c.0)), TokenView::Word(c.1@), TokenView::RBrace]);
}

/// One shape of posting parses back as itself.
#[verifier::rlimit(100)]
#[verifier::spinoff_prover]
proof fn lemma_posting_complete_cost_unit_price(l: TransactionLine)
    requires
        l.wf(),
        l.flag == Flag::Complete,
        l.amount is Some,
        l.cost is Some,
        l.cost->Some_0.1 is None,
        l.single_price is Some,
        l.total_price is None,
    ensures
        posting_of(line_tokens(l)) == Some(l@),
        line_ok(line_tokens(l)),
{
    broadcast use lemma_pieces_tokens_concat;
    lemma_line_pieces(l);
    lemma_line_head(l);
    lemma_amount_part(None, l.amount);
    lemma_cost_part(l.cost);
    lemma_amount_part(Some(TokenView::At), l.single_price);
    lemma_amount_part(Some(TokenView::AtAt), l.total_price);
    lemma_account_round_trip(l.account);
    reveal_strlit("Assets");
    reveal_strlit("Liabilities");
    reveal_strlit("Equity");
    reveal_strlit("Income");
    reveal_strlit("Expenses");
    assert(account_text(l.account).len() > 1);
    let a = l.amount->Some_0;
    lemma_amount_pieces(a);
    let c = l.cost->Some_0.0;
    lemma_amount_pieces(c);
    let p = l.single_price->Some_0;
    lemma_amount_pieces(p);
    let t = line_tokens(l);
    assert(t =~= seq![TokenView::Word(account_text(l.account)), TokenView::Word(decimal_text(a.0)), TokenView::Word(a.1@), TokenView::LBrace, TokenView::Word(decimal_text(c.0)), TokenView::Word(c.1@), TokenView::RBrace, TokenView::At, TokenView::Word(decimal_text(p.0)), TokenView::Word(p.1@)]);
}

/// One shape of posting parses back as itself.
#[verifier::rlimit(100)]
#[verifier::spinoff_prover]
proof fn lemma_posting_complete_cost_total_price(l: TransactionLine)
    requires
        l.wf(),
        l.flag == Flag::Complete,
        l.amount is Some,
        l.cost is Some,
        l.cost->Some_0.1 is None,
        l.single_price is None,
        l.total_price is Some,
    ensures
        posting_of(line_tokens(l)) == Some(l@),
        line_ok(line_tokens(l)),
{
    broadcast use lemma_pieces_tokens_concat;
    lemma_line_pieces(l);
    lemma_line_head(l);
    lemma_amount_part(None, l.amount);
    lemma_cost_part(l.cost);
    lemma_amount_part(Some(TokenView::At), l.single_price);
    lemma_amount_part(Some(TokenView::AtAt), l.total_price);
    lemma_account_round_trip(l.account);
    reveal_strlit("Assets");
    reveal_strlit("Liabilities");
    reveal_strlit("Equity");
    reveal_strlit("Income");
    reveal_strlit("Expenses");
    assert(account_text(l.account).len() > 1);
    let a = l.amount->Some_0;
    lemma_amount_pieces(a);
    let c = l.cost->Some_0.0;
    lemma_amount_pieces(c);
    let p = l.total_price->Some_0;
    lemma_amount_pieces(p);
    let t = line_tokens(l);
    assert(t =~= seq![TokenView::Word(account_text(l.account)), TokenView::Word(decimal_text(a.0)), TokenView::Word(a.1@), TokenView::LBrace, TokenView::Word(decimal_text(c.0)), TokenView::Word(c.1@), TokenView::RBrace, TokenView::AtAt, TokenView::Word(decimal_text(p.0)), TokenView::Word(p.1@)]);
}

/// One shape of posting parses back as itself.
#[verifier::rlimit(100)]
#[verifier::spinoff_prover]
proof fn lemma_posting_complete_cost_note_no_price(l: TransactionLine)
    requires
        l.wf(),
        l.flag == Flag::Complete,
        l.amount is Some,
        l.cost is Some,
        l.cost->Some_0.1 is Some,
        l.single_price is None,
        l.total_price is None,
    ensures
        posting_of(line_tokens(l)) == Some(l@),
        line_ok(line_tokens(l)),
{
    broadcast use lemma_pieces_tokens_concat;
    lemma_line_pieces(l);
    lemma_line_head(l);
    lemma_amount_part(None, l.amount);
    lemma_cost_part(l.cost);
    lemma_amount_part(Some(TokenView::At), l.single_price);
    lemma_amount_part(Some(TokenView::AtAt), l.total_price);
    lemma_account_round_trip(l.account);
    reveal_strlit("Assets");
    reveal_strlit("Liabilities");
    reveal_strlit("Equity");
    reveal_strlit("Income");
    reveal_strlit("Expenses");
    assert(account_text(l.account).len() > 1);
    let a = l.amount->Some_0;
    lemma_amount_pieces(a);
    let c = l.cost->Some_0.0;
    lemma_amount_pieces(c);
    let n = l.cost->Some_0.1->Some_0;
    let t = line_tokens(l);
    assert(t =~= seq![TokenView::Word(account_text(l.account)), TokenView::Word(decimal_text(a.0)), TokenView::Word(a.1@), TokenView::LBrace, TokenView::Word(decimal_text(c.0)), TokenView::Word(c.1@), TokenView::Comma, TokenView::Str(n@), TokenView::RBrace]);
}

/// One shape of posting parses back as itself.
#[verifier::rlimit(100)]
#[verifier::spinoff_prover]
proof fn lemma_posting_complete_cost_note_unit_price(l: TransactionLine)
    requires
        l.wf(),
        l.flag == Flag::Complete,
        l.amount is Some,
        l.cost is Some,
        l.cost->Some_0.1 is Some,
        l.single_price is Some,
        l.total_price is None,
    ensures
        posting_of(line_tokens(l)) == Some(l@),
        line_ok(line_tokens(l)),
{
    broadcast use lemma_pieces_tokens_concat;
    lemma_line_pieces(l);
    lemma_line_head(l);
    lemma_amount_part(None, l.amount);
    lemma_cost_part(l.cost);
    lemma_amount_part(Some(TokenView::At), l.single_price);
    lemma_amount_part(Some(TokenView::AtAt), l.total_price);
    lemma_account_round_trip(l.account);
    reveal_strlit("Assets");
    reveal_strlit("Liabilities");
    reveal_strlit("Equity");
    reveal_strlit("Income");
    reveal_strlit("Expenses");
    assert(account_text(l.account).len() > 1);
    let a = l.amount->Some_0;
    lemma_amount_pieces(a);
    let c = l.cost->Some_0.0;
    lemma_amount_pieces(c);
    let n = l.cost->Some_0.1->Some_0;
    let p = l.single_price->Some_0;
    lemma_amount_pieces(p);
    let t = line_tokens(l);
    assert(t =~= seq![TokenView::Word(account_text(l.account)), TokenView::Word(decimal_text(a.0)), TokenView::Word(a.1@), TokenView::LBrace, TokenView::Word(decimal_text(c.0)), TokenView::Word(c.1@), TokenView::Comma, TokenView::Str(n@), TokenView::RBrace, TokenView::At, TokenView::Word(decimal_text(p.0)), TokenView::Word(p.1@)]);
}

/// One shape of posting parses back as itself.
#[verifier::rlimit(100)]
#[verifier::spinoff_prover]
proof fn lemma_posting_complete_cost_note_total_price(l: TransactionLine)
    requires
        l.wf(),
        l.flag == Flag::Complete,
        l.amount is Some,
        l.cost is Some,
        l.cost->Some_0.1 is Some,
        l.single_price is None,
        l.total_price is Some,
    ensures
        posting_of(line_tokens(l)) == Some(l@),
        line_ok(line_tokens(l)),
{
    broadcast use lemma_pieces_tokens_concat;
    lemma_line_pieces(l);
    lemma_line_head(l);
    lemma_amount_part(None, l.amount);
    lemma_cost_part(l.cost);
    lemma_amount_part(Some(TokenView::At), l.single_price);
    lemma_amount_part(Some(TokenView::AtAt), l.total_price);
    lemma_account_round_trip(l.account);
    reveal_strlit("Assets");
    reveal_strlit("Liabilities");
    reveal_strlit("Equity");
    reveal_strlit("Income");
    reveal_strlit("Expenses");
    assert(account_text(l.account).len() > 1);
    let a = l.amount->Some_0;
    lemma_amount_pieces(a);
    let c = l.cost->Some_0.0;
    lemma_amount_pieces(c);
    let n = l.cost->Some_0.1->Some_0;
    let p = l.total_price->Some_0;
    lemma_amount_pieces(p);
    let t = line_tokens(l);
    assert(t =~= seq![TokenView::Word(account_text(l.account)), TokenView::Word(decimal_text(a.0)), TokenView::Word(a.1@), TokenView::LBrace, TokenView::Word(decimal_text(c.0)), TokenView::Word(c.1@), TokenView::Comma, TokenView::Str(n@), TokenView::RBrace, TokenView::AtAt, TokenView::Word(decimal_text(p.0)), TokenView::Word(p.1@)]);
}

/// One shape of posting parses back as itself.
#[verifier::rlimit(100)]
#[verifier::spinoff_prover]
proof fn lemma_posting_incomplete_bare(l: TransactionLine)
    requires
        l.wf(),
        l.flag == Flag::Incomplete,
        l.amount is None,
    ensures
        posting_of(line_tokens(l)) == Some(l@),
        line_ok(line_tokens(l)),
{
    broadcast use lemma_pieces_tokens_concat;
    lemma_line_pieces(l);
    lemma_line_head(l);
    lemma_amount_part(None, l.amount);
    lemma_cost_part(l.cost);
    lemma_amount_part(Some(TokenView::At), l.single_price);
    lemma_amount_part(Some(TokenView::AtAt), l.total_price);
    lemma_account_round_trip(l.account);
    reveal_strlit("Assets");
    reveal_strlit("Liabilities");
    reveal_strlit("Equity");
    reveal_strlit("Income");
    reveal_strlit("Expenses");
    assert(account_text(l.account).len() > 1);
    
    let t = line_tokens(l);
    assert(t =~= seq![TokenView::Word(seq!['!']), TokenView::Word(account_text(l.account))]);
}

/// One shape of posting parses back as itself.
#[verifier::rlimit(100)]
#[verifier::spinoff_prover]
proof fn lemma_posting_incomplete_no_cost_no_price(l: TransactionLine)
    requires
        l.wf(),
        l.flag == Flag::Incomplete,
        l.amount is Some,
        l.cost is None,
        l.single_price is None,
        l.total_price is None,
    ensures
        posting_of(line_tokens(l)) == Some(l@),
        line_ok(line_tokens(l)),
{
    broadcast use lemma_pieces_tokens_concat;
    lemma_line_pieces(l);
    lemma_line_head(l);
    lemma_amount_part(None, l.amount);
    lemma_cost_part(l.cost);
    lemma_amount_part(Some(TokenView::At), l.single_price);
    lemma_amount_part(Some(TokenView::AtAt), l.total_price);
    lemma_account_round_trip(l.account);
    reveal_strlit("Assets");
    reveal_strlit("Liabilities");
    reveal_strlit("Equity");
    reveal_strlit("Income");
    reveal_strlit("Expenses");
    assert(account_text(l.account).len() > 1);
    let a = l.amount->Some_0;
    lemma_amount_pieces(a);
    let t = line_tokens(l);
    assert(t =~= seq![TokenView::Word(seq!['!']), TokenView::Word(account_text(l.account)), TokenView::Word(decimal_text(a.0)), TokenView::Word(a.1@)]);
}

/// One shape of posting parses back as itself.
#[verifier::rlimit(100)]
#[verifier::spinoff_prover]
proof fn lemma_posting_incomplete_no_cost_unit_price(l: TransactionLine)
    requires
        l.wf(),
        l.flag == Flag::Incomplete,
        l.amount is Some,
        l.cost is None,
        l.single_price is Some,
        l.total_price is None,
    ensures
        posting_of(line_tokens(l)) == Some(l@),
        line_ok(line_tokens(l)),
{
    broadcast use lemma_pieces_tokens_concat;
    lemma_line_pieces(l);
    lemma_line_head(l);
    lemma_amount_part(None, l.amount);
    lemma_cost_part(l.cost);
    lemma_amount_part(Some(TokenView::At), l.single_price);
    lemma_amount_part(Some(TokenView::AtAt), l.total_price);
    lemma_account_round_trip(l.account);
    reveal_strlit("Assets");
    reveal_strlit("Liabilities");
    reveal_strlit("Equity");
    reveal_strlit("Income");
    reveal_strlit("Expenses");
    assert(account_text(l.account).len() > 1);
    let a = l.amount->Some_0;
    lemma_amount_pieces(a);
    let p = l.single_price->Some_0;
    lemma_amount_pieces(p);
    let t = line_tokens(l);
    assert(t =~= seq![TokenView::Word(seq!['!']), TokenView::Word(account_text(l.account)), TokenView::Word(decimal_text(a.0)), TokenView::Word(a.1@), TokenView::At, TokenView::Word(decimal_text(p.0)), TokenView::Word(p.1@)]);
}

/// One shape of posting parses back as itself.
#[verifier::rlimit(100)]
#[verifier::spinoff_prover]
proof fn lemma_posting_incomplete_no_cost_total_price(l: TransactionLine)
    requires
        l.wf(),
        l.flag == Flag::Incomplete,
        l.amount is Some,
        l.cost is None,
        l.single_price is None,
        l.total_price is Some,
    ensures
        posting_of(line_tokens(l)) == Some(l@),
        line_ok(line_tokens(l)),
{
    broadcast use lemma_pieces_tokens_concat;
    lemma_line_pieces(l);
    lemma_line_head(l);
    lemma_amount_part(None, l.amount);
    lemma_cost_part(l.cost);
    lemma_amount_part(Some(TokenView::At), l.single_price);
    lemma_amount_part(Some(TokenView::AtAt), l.total_price);
    lemma_account_round_trip(l.account);
    reveal_strlit("Assets");
    reveal_strlit("Liabilities");
    reveal_strlit("Equity");
    reveal_strlit("Income");
    reveal_strlit("Expenses");
    assert(account_text(l.account).len() > 1);
    let a = l.amount->Some_0;
    lemma_amount_pieces(a);
    let p = l.total_price->Some_0;
    lemma_amount_pieces(p);
    let t = line_tokens(l);
    assert(t =~= seq![TokenView::Word(seq!['!']), TokenView::Word(account_text(l.account)), TokenView::Word(decimal_text(a.0)), TokenView::Word(a.1@), TokenView::AtAt, TokenView::Word(decimal_text(p.0)), TokenView::Word(p.1@)]);
}

/// One shape of posting parses back as itself.
#[verifier::rlimit(100)]
#[verifier::spinoff_prover]
proof fn lemma_posting_incomplete_cost_no_price(l: TransactionLine)
    requires
        l.wf(),
        l.flag == Flag::Incomplete,
        l.amount is Some,
        l.cost is Some,
        l.cost->Some_0.1 is None,
        l.single_price is None,
        l.total_price is None,
    ensures
        posting_of(line_tokens(l)) == Some(l@),
        line_ok(line_tokens(l)),
{
    broadcast use lemma_pieces_tokens_concat;
    lemma_line_pieces(l);
    lemma_line_head(l);
    lemma_amount_part(None, l.amount);
    lemma_cost_part(l.cost);
    lemma_amount_part(Some(TokenView::At), l.single_price);
    lemma_amount_part(Some(TokenView::AtAt), l.total_price);
    lemma_account_round_trip(l.account);
    reveal_strlit("Assets");
    reveal_strlit("Liabilities");
    reveal_strlit("Equity");
    reveal_strlit("Income");
    reveal_strlit("Expenses");
    assert(account_text(l.account).len() > 1);
    let a = l.amount->Some_0;
    lemma_amount_pieces(a);
    let c = l.cost->Some_0.0;
    lemma_amount_pieces(c);
    let t = line_tokens(l);
    assert(t =~= seq![TokenView::Word(seq!['!']), TokenView::Word(account_text(l.account)), TokenView::Word(decimal_text(a.0)), TokenView::Word(a.1@), TokenView::LBrace, TokenView::Word(decimal_text(c.0)), TokenView::Word(c.1@), TokenView::RBrace]);
}

/// One shape of posting parses back as itself.
#[verifier::rlimit(100)]
#[verifier::spinoff_prover]
proof fn lemma_posting_incomplete_cost_unit_price(l: TransactionLine)
    requires
        l.wf(),
        l.flag == Flag::Incomplete,
        l.amount is Some,
        l.cost is Some,
        l.cost->Some_0.1 is None,
        l.single_price is Some,
        l.total_price is None,
    ensures
        posting_of(line_tokens(l)) == Some(l@),
        line_ok(line_tokens(l)),
{
    broadcast use lemma_pieces_tokens_concat;
    lemma_line_pieces(l);
    lemma_line_head(l);
    lemma_amount_part(None, l.amount);
    lemma_cost_part(l.cost);
    lemma_amount_part(Some(TokenView::At), l.single_price);
    lemma_amount_part(Some(TokenView::AtAt), l.total_price);
    lemma_account_round_trip(l.account);
    reveal_strlit("Assets");
    reveal_strlit("Liabilities");
    reveal_strlit("Equity");
    reveal_strlit("Income");
    reveal_strlit("Expenses");
    assert(account_text(l.account).len() > 1);
    let a = l.amount->Some_0;
    lemma_amount_pieces(a);
    let c = l.cost->Some_0.0;
    lemma_amount_pieces(c);
    let p = l.single_price->Some_0;
    lemma_amount_pieces(p);
    let t = line_tokens(l);
    assert(t =~= seq![TokenView::Word(seq!['!']), TokenView::Word(account_text(l.account)), TokenView::Word(decimal_text(a.0)), TokenView::Word(a.1@), TokenView::LBrace, TokenView::Word(decimal_text(c.0)), TokenView::Word(c.1@), TokenView::RBrace, TokenView::At, TokenView::Word(decimal_text(p.0)), TokenView::Word(p.1@)]);
}

/// One shape of posting parses back as itself.
#[verifier::rlimit(100)]
#[verifier::spinoff_prover]
proof fn lemma_posting_incomplete_cost_total_price(l: TransactionLine)
    requires
        l.wf(),
        l.flag == Flag::Incomplete,
        l.amount is Some,
        l.cost is Some,
        l.cost->Some_0.1 is None,
        l.single_price is None,
        l.total_price is Some,
    ensures
        posting_of(line_tokens(l)) == Some(l@),
        line_ok(line_tokens(l)),
{
    broadcast use lemma_pieces_tokens_concat;
    lemma_line_pieces(l);
    lemma_line_head(l);
    lemma_amount_part(None, l.amount);
    lemma_cost_part(l.cost);
    lemma_amount_part(Some(TokenView::At), l.single_price);
    lemma_amount_part(Some(TokenView::AtAt), l.total_price);
    lemma_account_round_trip(l.account);
    reveal_strlit("Assets");
    reveal_strlit("Liabilities");
    reveal_strlit("Equity");
    reveal_strlit("Income");
    reveal_strlit("Expenses");
    assert(account_text(l.account).len() > 1);
    let a = l.amount->Some_0;
    lemma_amount_pieces(a);
    let c = l.cost->Some_0.0;
    lemma_amount_pieces(c);
    let p = l.total_price->Some_0;
    lemma_amount_pieces(p);
    let t = line_tokens(l);
    assert(t =~= seq![TokenView::Word(seq!['!']), TokenView::Word(account_text(l.account)), TokenView::Word(decimal_text(a.0)), TokenView::Word(a.1@), TokenView::LBrace, TokenView::Word(decimal_text(c.0)), TokenView::Word(c.1@), TokenView::RBrace, TokenView::AtAt, TokenView::Word(decimal_text(p.0)), TokenView::Word(p.1@)]);
}

/// One shape of posting parses back as itself.
#[verifier::rlimit(100)]
#[verifier::spinoff_prover]
proof fn lemma_posting_incomplete_cost_note_no_price(l: TransactionLine)
    requires
        l.wf(),
        l.flag == Flag::Incomplete,
        l.amount is Some,
        l.cost is Some,
        l.cost->Some_0.1 is Some,
        l.single_price is None,
        l.total_price is None,
    ensures
        posting_of(line_tokens(l)) == Some(l@),
        line_ok(line_tokens(l)),
{
    broadcast use lemma_pieces_tokens_concat;
    lemma_line_pieces(l);
    lemma_line_head(l);
    lemma_amount_part(None, l.amount);
    lemma_cost_part(l.cost);
    lemma_amount_part(Some(TokenView::At), l.single_price);
    lemma_amount_part(Some(TokenView::AtAt), l.total_price);
    lemma_account_round_trip(l.account);
    reveal_strlit("Assets");
    reveal_strlit("Liabilities");
    reveal_strlit("Equity");
    reveal_strlit("Income");
    reveal_strlit("Expenses");
    assert(account_text(l.account).len() > 1);
    let a = l.amount->Some_0;
    lemma_amount_pieces(a);
    let c = l.cost->Some_0.0;
    lemma_amount_pieces(c);
    let n = l.cost->Some_0.1->Some_0;
    let t = line_tokens(l);
    assert(t =~= seq![TokenView::Word(seq!['!']), TokenView::Word(account_text(l.account)), TokenView::Word(decimal_text(a.0)), TokenView::Word(a.1@), TokenView::LBrace, TokenView::Word(decimal_text(c.0)), TokenView::Word(c.1@), TokenView::Comma, TokenView::Str(n@), TokenView::RBrace]);
}

/// One shape of posting parses back as itself.
#[verifier::rlimit(100)]
#[verifier::spinoff_prover]
proof fn lemma_posting_incomplete_cost_note_unit_price(l: TransactionLine)
    requires
        l.wf(),
        l.flag == Flag::Incomplete,
        l.amount is Some,
        l.cost is Some,
        l.cost->Some_0.1 is Some,
        l.single_price is Some,
        l.total_price is None,
    ensures
        posting_of(line_tokens(l)) == Some(l@),
        line_ok(line_tokens(l)),
{
    broadcast use lemma_pieces_tokens_concat;
    lemma_line_pieces(l);
    lemma_line_head(l);
    lemma_amount_part(None, l.amount);
    lemma_cost_part(l.cost);
    lemma_amount_part(Some(TokenView::At), l.single_price);
    lemma_amount_part(Some(TokenView::AtAt), l.total_price);
    lemma_account_round_trip(l.account);
    reveal_strlit("Assets");
    reveal_strlit("Liabilities");
    reveal_strlit("Equity");
    reveal_strlit("Income");
    reveal_strlit("Expenses");
    assert(account_text(l.account).len() > 1);
    let a = l.amount->Some_0;
    lemma_amount_pieces(a);
    let c = l.cost->Some_0.0;
    lemma_amount_pieces(c);
    let n = l.cost->Some_0.1->Some_0;
    let p = l.single_price->Some_0;
    lemma_amount_pieces(p);
    let t = line_tokens(l);
    assert(t =~= seq![TokenView::Word(seq!['!']), TokenView::Word(account_text(l.account)), TokenView::Word(decimal_text(a.0)), TokenView::Word(a.1@), TokenView::LBrace, TokenView::Word(decimal_text(c.0)), TokenView::Word(c.1@), TokenView::Comma, TokenView::Str(n@), TokenView::RBrace, TokenView::At, TokenView::Word(decimal_text(p.0)), TokenView::Word(p.1@)]);
}

/// One shape of posting parses back as itself.
#[verifier::rlimit(100)]
#[verifier::spinoff_prover]
proof fn lemma_posting_incomplete_cost_note_total_price(l: TransactionLine)
    requires
        l.wf(),
        l.flag == Flag::Incomplete,
        l.amount is Some,
        l.cost is Some,
        l.cost->Some_0.1 is Some,
        l.single_price is None,
        l.total_price is Some,
    ensures
        posting_of(line_tokens(l)) == Some(l@),
        line_ok(line_tokens(l)),
{
    broadcast use lemma_pieces_tokens_concat;
    lemma_line_pieces(l);
    lemma_line_head(l);
    lemma_amount_part(None, l.amount);
    lemma_cost_part(l.cost);
    lemma_amount_part(Some(TokenView::At), l.single_price);
    lemma_amount_part(Some(TokenView::AtAt), l.total_price);
    lemma_account_round_trip(l.account);
    reveal_strlit("Assets");
    reveal_strlit("Liabilities");
    reveal_strlit("Equity");
    reveal_strlit("Income");
    reveal_strlit("Expenses");
    assert(account_text(l.account).len() > 1);
    let a = l.amount->Some_0;
    lemma_amount_pieces(a);
    let c = l.cost->Some_0.0;
    lemma_amount_pieces(c);
    let n = l.cost->Some_0.1->Some_0;
    let p = l.total_price->Some_0;
    lemma_amount_pieces(p);
    let t = line_tokens(l);
    assert(t =~= seq![TokenView::Word(seq!['!']), TokenView::Word(account_text(l.account)), TokenView::Word(decimal_text(a.0)), TokenView::Word(a.1@), TokenView::LBrace, TokenView::Word(decimal_text(c.0)), TokenView::Word(c.1@), TokenView::Comma, TokenView::Str(n@), TokenView::RBrace, TokenView::AtAt, TokenView::Word(decimal_text(p.0)), TokenView::Word(p.1@)]);
}

/// A posting renders, scans and parses back as itself.
#[verifier::rlimit(100)]
#[verifier::spinoff_prover]
proof fn lemma_posting_round_trip(l: TransactionLine)
    requires
        l.wf(),
    ensures
        pieces_text(line_pieces(l)) == line_text(l),
        pieces_ok(line_pieces(l)),
        line_pieces(l)[0] == pw(if l.flag == Flag::Incomplete { seq!['!'] } else { account_text(l.account) }),
        line_ok(line_tokens(l)),
        posting_of(line_tokens(l)) == Some(l@),
{
    lemma_line_pieces(l);
    if l.flag == Flag::Complete && l.amount is None {
        lemma_posting_complete_bare(l);
    }
    if l.flag == Flag::Complete && l.amount is Some && l.cost is None && l.single_price is None && l.total_price is None {
        lemma_posting_complete_no_cost_no_price(l);
    }
    if l.flag == Flag::Complete && l.amount is Some && l.cost is None && l.single_price is Some && l.total_price is None {
        lemma_posting_complete_no_cost_unit_price(l);
    }
    if l.flag == Flag::Complete && l.amount is Some && l.cost is None && l.single_price is None && l.total_price is Some {
        lemma_posting_complete_no_cost_total_price(l);
    }
    if l.flag == Flag::Complete && l.amount is Some && l.cost is Some && l.cost->Some_0.1 is None && l.single_price is None && l.total_price is None {
        lemma_posting_complete_cost_no_price(l);
    }
    if l.flag == Flag::Complete && l.amount is Some && l.cost is Some && l.cost->Some_0.1 is None && l.single_price is Some && l.total_price is None {
        lemma_posting_complete_cost_unit_price(l);
    }
    if l.flag == Flag::Complete && l.amount is Some && l.cost is Some && l.cost->Some_0.1 is None && l.single_price is None && l.total_price is Some {
        lemma_posting_complete_cost_total_price(l);
    }
    if l.flag == Flag::Complete && l.amount is Some && l.cost is Some && l.cost->Some_0.1 is Some && l.single_price is None && l.total_price is None {
        lemma_posting_complete_cost_note_no_price(l);
    }
    if l.flag == Flag::Complete && l.amount is Some && l.cost is Some && l.cost->Some_0.1 is Some && l.single_price is Some && l.total_price is None {
        lemma_posting_complete_cost_note_unit_price(l);
    }
    if l.flag == Flag::Complete && l.amount is Some && l.cost is Some && l.cost->Some_0.1 is Some && l.single_price is None && l.total_price is Some {
        lemma_posting_complete_cost_note_total_price(l);
    }
    if l.flag == Flag::Incomplete && l.amount is None {
        lemma_posting_incomplete_bare(l);
    }
    if l.flag == Flag::Incomplete && l.amount is Some && l.cost is None && l.single_price is None && l.total_price is None {
        lemma_posting_incomplete_no_cost_no_price(l);
    }
    if l.flag == Flag::Incomplete && l.amount is Some && l.cost is None && l.single_price is Some && l.total_price is None {
        lemma_posting_incomplete_no_cost_unit_price(l);
    }
    if l.flag == Flag::Incomplete && l.amount is Some && l.cost is None && l.single_price is None && l.total_price is Some {
        lemma_posting_incomplete_no_cost_total_price(l);
    }
    if l.flag == Flag::Incomplete && l.amount is Some && l.cost is Some && l.cost->Some_0.1 is None && l.single_price is None && l.total_price is None {
        lemma_posting_incomplete_cost_no_price(l);
    }
    if l.flag == Flag::Incomplete && l.amount is Some && l.cost is Some && l.cost->Some_0.1 is None && l.single_price is Some && l.total_price is None {
        lemma_posting_incomplete_cost_unit_price(l);
    }
    if l.flag == Flag::Incomplete && l.amount is Some && l.cost is Some && l.cost->Some_0.1 is None && l.single_price is None && l.total_price is Some {
        lemma_posting_incomplete_cost_total_price(l);
    }
    if l.flag == Flag::Incomplete && l.amount is Some && l.cost is Some && l.cost->Some_0.1 is Some && l.single_price is None && l.total_price is None {
        lemma_posting_incomplete_cost_note_no_price(l);
    }
    if l.flag == Flag::Incomplete && l.amount is Some && l.cost is Some && l.cost->Some_0.1 is Some && l.single_price is Some && l.total_price is None {
        lemma_posting_incomplete_cost_note_unit_price(l);
    }
    if l.flag == Flag::Incomplete && l.amount is Some && l.cost is Some && l.cost->Some_0.1 is Some && l.single_price is None && l.total_price is Some {
        lemma_posting_incomplete_cost_note_total_price(l);
    }
}

/// The pieces of the postings of a transaction, each on its own line.
pub open spec fn post_pieces(ls: Seq<TransactionLine>) -> Seq<Piece>
    decreases ls.len(),
{
    if ls.len() == 0 {
        Seq::empty()
    } else {
        seq![Piece::Break] + line_pieces(ls[0]) + post_pieces(ls.drop_first())
    }
}

/// Postings render, scan and parse back as themselves.
#[verifier::rlimit(100)]
#[verifier::spinoff_prover]
proof fn lemma_post_pieces(ls: Seq<TransactionLine>)
    requires
        forall|i: int| 0 <= i < ls.len() ==> (#[trigger] ls[i]).wf(),
    ensures
        pieces_text(post_pieces(ls)) == lines_text(ls),
        pieces_ok(post_pieces(ls)),
        ls.len() > 0 ==> post_pieces(ls)[0] == Piece::Break,
        pieces_tokens(post_pieces(ls)) == lines_tokens(ls.map_values(|l: TransactionLine| line_tokens(l))),
        forall|i: int| 0 <= i < ls.len() ==> line_ok(#[trigger] line_tokens(ls[i])),
    decreases ls.len(),
{
    broadcast use lemma_pieces_text_concat, lemma_pieces_tokens_concat, lemma_pieces_one, lemma_pieces_one_tokens;
    let lt = ls.map_values(|l: TransactionLine| line_tokens(l));
    let f = ls.map_values(|l: TransactionLine| seq!['\n', ' ', ' '] + line_text(l));
    if ls.len() == 0 {
        assert(lt =~= Seq::<Seq<TokenView>>::empty());
        assert(f =~= Seq::<Seq<char>>::empty());
        return;
    }
    let rest = ls.drop_first();
    assert forall|i: int| 0 <= i < rest.len() implies (#[trigger] rest[i]).wf() by {
        assert(rest[i] == ls[i + 1]);
    };
    lemma_post_pieces(rest);
    lemma_posting_round_trip(ls[0]);
    assert forall|i: int| 0 <= i < ls.len() implies line_ok(#[trigger] line_tokens(ls[i])) by {
        if i > 0 {
            assert(ls[i] == rest[i - 1]);
        }
    };
    let lp = line_pieces(ls[0]);
    lemma_pieces_ok_concat(seq![Piece::Break], lp);
    lemma_pieces_ok_concat(seq![Piece::Break] + lp, post_pieces(rest));
    assert(lt.drop_first() =~= rest.map_values(|l: TransactionLine| line_tokens(l)));
    assert(pieces_tokens(post_pieces(ls)) =~= lines_tokens(lt));
    assert(f.drop_first() =~= rest.map_values(|l: TransactionLine| seq!['\n', ' ', ' '] + line_text(l)));
    lemma_concat_all_first(f);
    assert(pieces_text(seq![Piece::Break]) =~= seq!['\n', ' ', ' ']);
    assert(pieces_text(post_pieces(ls)) =~= lines_text(ls));
}

/// Posting lines parse back as the postings.
#[verifier::rlimit(100)]
#[verifier::spinoff_prover]
proof fn lemma_postings_of(ls: Seq<TransactionLine>)
    requires
        forall|i: int| 0 <= i < ls.len() ==> (#[trigger] ls[i]).wf(),
    ensures
        postings_of(ls.map_values(|l: TransactionLine| line_tokens(l))) == Some(
            ls.map_values(|l: TransactionLine| l@),
        ),
    decreases ls.len(),
{
    let lt = ls.map_values(|l: TransactionLine| line_tokens(l));
    if ls.len() == 0 {
        assert(ls.map_values(|l: TransactionLine| l@) =~= Seq::<crate::models::LineView>::empty());
        return;
    }
    let init = ls.drop_last();
    assert forall|i: int| 0 <= i < init.len() implies (#[trigger] init[i]).wf() by {
        assert(init[i] == ls[i]);
    };
    lemma_postings_of(init);
    assert(lt.drop_last() =~= init.map_values(|l: TransactionLine| line_tokens(l)));
    lemma_posting_round_trip(ls.last());
    assert(lt.last() == line_tokens(ls.last()));
    assert(init.map_values(|l: TransactionLine| l@).push(ls.last()@) =~= ls.map_values(
        |l: TransactionLine| l@,
    ));
}

/// The pieces of tags or links, each after a space and its sigil.
pub open spec fn mark_pieces(ts: Seq<Seq<char>>, sigil: char) -> Seq<Piece>
    decreases ts.len(),
{
    if ts.len() == 0 {
        Seq::empty()
    } else {
        seq![Piece::Space, pw(seq![sigil] + ts[0])] + mark_pieces(ts.drop_first(), sigil)
    }
}

/// The tokens of tags or links.
pub open spec fn mark_tokens(ts: Seq<Seq<char>>, sigil: char) -> Seq<TokenView>
    decreases ts.len(),
{
    if ts.len() == 0 {
        Seq::empty()
    } else {
        seq![TokenView::Word(seq![sigil] + ts[0])] + mark_tokens(ts.drop_first(), sigil)
    }
}

/// Tags or links render and scan as expected.
#[verifier::rlimit(100)]
#[verifier::spinoff_prover]
proof fn lemma_mark_pieces(ts: Seq<Seq<char>>, sigil: char)
    requires
        sigil == '#' || sigil == '^',
        forall|i: int| 0 <= i < ts.len() ==> crate::models::is_tag(#[trigger] ts[i]),
    ensures
        pieces_text(mark_pieces(ts, sigil)) == marks_text(ts, sigil),
        pieces_ok(mark_pieces(ts, sigil)),
        ts.len() > 0 ==> mark_pieces(ts, sigil)[0] == Piece::Space,
        pieces_tokens(mark_pieces(ts, sigil)) == mark_tokens(ts, sigil),
        forall|i: int| 0 <= i < mark_tokens(ts, sigil).len() ==> !(#[trigger] mark_tokens(ts, sigil)[i] is Newline),
    decreases ts.len(),
{
    broadcast use lemma_pieces_text_concat, lemma_pieces_tokens_concat, lemma_pieces_one, lemma_pieces_one_tokens;
    let f = ts.map_values(|t: Seq<char>| seq![' ', sigil] + t);
    if ts.len() == 0 {
        assert(f =~= Seq::<Seq<char>>::empty());
        return;
    }
    let rest = ts.drop_first();
    assert forall|i: int| 0 <= i < rest.len() implies crate::models::is_tag(#[trigger] rest[i]) by {
        assert(rest[i] == ts[i + 1]);
    };
    lemma_mark_pieces(rest, sigil);
    let w = seq![sigil] + ts[0];
    assert(is_plain_word(w)) by {
        assert forall|i: int| 0 <= i < w.len() implies is_word_char(#[trigger] w[i]) by {
            if i > 0 {
                assert(crate::models::is_tag_char(ts[0][i - 1]));
            }
        };
    };
    let hp = seq![Piece::Space, pw(w)];
    assert(hp =~= seq![Piece::Space] + seq![pw(w)]);
    assert(pieces_ok(hp));
    lemma_pieces_ok_concat(hp, mark_pieces(rest, sigil));
    assert(f.drop_first() =~= rest.map_values(|t: Seq<char>| seq![' ', sigil] + t));
    lemma_concat_all_first(f);
    assert(pieces_text(mark_pieces(ts, sigil)) =~= marks_text(ts, sigil));
    assert(pieces_tokens(mark_pieces(ts, sigil)) =~= mark_tokens(ts, sigil));
}

/// Tags followed by links parse back as themselves.
proof fn lemma_marks_from(h: Seq<TokenView>, k: int, tags: Seq<Seq<char>>, links: Seq<Seq<char>>)
    requires
        0 <= k <= h.len(),
        h.subrange(k, h.len() as int) == mark_tokens(tags, '#') + mark_tokens(links, '^'),
        forall|i: int| 0 <= i < tags.len() ==> crate::models::is_tag(#[trigger] tags[i]),
        forall|i: int| 0 <= i < links.len() ==> crate::models::is_tag(#[trigger] links[i]),
    ensures
        marks_from(h, k) == Some((tags, links)),
    decreases tags.len() + links.len(),
{
    let all = mark_tokens(tags, '#') + mark_tokens(links, '^');
    if tags.len() > 0 {
        let w = seq!['#'] + tags[0];
        let rest = tags.drop_first();
        assert(all[0] == TokenView::Word(w));
        assert(h.subrange(k, h.len() as int)[0] == h[k]);
        assert(h.subrange(k + 1, h.len() as int) =~= mark_tokens(rest, '#') + mark_tokens(links, '^')) by {
            assert(all =~= seq![TokenView::Word(w)] + (mark_tokens(rest, '#') + mark_tokens(links, '^')));
            assert forall|i: int| 0 <= i < h.len() - k - 1 implies #[trigger] h.subrange(k + 1, h.len() as int)[i]
                == (mark_tokens(rest, '#') + mark_tokens(links, '^'))[i] by {
                assert(h.subrange(k, h.len() as int)[i + 1] == all[i + 1]);
            };
        };
        assert forall|i: int| 0 <= i < rest.len() implies crate::models::is_tag(#[trigger] rest[i]) by {
            assert(rest[i] == tags[i + 1]);
        };
        lemma_marks_from(h, k + 1, rest, links);
        assert(w.drop_first() =~= tags[0]);
        assert(seq![tags[0]] + rest =~= tags);
    } else if links.len() > 0 {
        let w = seq!['^'] + links[0];
        let rest = links.drop_first();
        assert(mark_tokens(tags, '#') =~= Seq::<TokenView>::empty());
        assert(all =~= mark_tokens(links, '^'));
        assert(all[0] == TokenView::Word(w));
        assert(h.subrange(k, h.len() as int)[0] == h[k]);
        assert(h.subrange(k + 1, h.len() as int) =~= mark_tokens(tags, '#') + mark_tokens(rest, '^')) by {
            assert(all =~= seq![TokenView::Word(w)] + (mark_tokens(tags, '#') + mark_tokens(rest, '^')));
            assert forall|i: int| 0 <= i < h.len() - k - 1 implies #[trigger] h.subrange(k + 1, h.len() as int)[i]
                == (mark_tokens(tags, '#') + mark_tokens(rest, '^'))[i] by {
                assert(h.subrange(k, h.len() as int)[i + 1] == all[i + 1]);
            };
        };
        assert forall|i: int| 0 <= i < rest.len() implies crate::models::is_tag(#[trigger] rest[i]) by {
            assert(rest[i] == links[i + 1]);
        };
        lemma_marks_from(h, k + 1, tags, rest);
        assert(w.drop_first() =~= links[0]);
        assert(seq![links[0]] + rest =~= links);
        assert(tags =~= Seq::<Seq<char>>::empty());
    } else {
        assert(mark_tokens(tags, '#') =~= Seq::<TokenView>::empty());
        assert(mark_tokens(links, '^') =~= Seq::<TokenView>::empty());
        assert(h.subrange(k, h.len() as int).len() == 0);
        assert(tags =~= Seq::<Seq<char>>::empty());
        assert(links =~= Seq::<Seq<char>>::empty());
    }
}

/// The pieces of the payee and narration of a transaction header.
pub open spec fn pn_pieces(payee: Option<String>, narration: Option<String>) -> Seq<Piece> {
    match (payee, narration) {
        (Some(p), Some(n)) => seq![Piece::Space, ps(p@), Piece::Space, ps(n@)],
        (None, Some(n)) => seq![Piece::Space, ps(n@)],
        _ => Seq::empty(),
    }
}

/// The tokens of the payee and narration of a transaction header.
pub open spec fn pn_tokens(payee: Option<String>, narration: Option<String>) -> Seq<TokenView> {
    match (payee, narration) {
        (Some(p), Some(n)) => seq![TokenView::Str(p@), TokenView::Str(n@)],
        (None, Some(n)) => seq![TokenView::Str(n@)],
        _ => Seq::empty(),
    }
}

/// Payee and narration render and scan as expected.
#[verifier::rlimit(100)]
#[verifier::spinoff_prover]
proof fn lemma_pn_pieces(payee: Option<String>, narration: Option<String>)
    requires
        payee is Some ==> narration is Some,
    ensures
        pieces_text(pn_pieces(payee, narration)) == payee_narration_text(payee, narration),
        pieces_ok(pn_pieces(payee, narration)),
        narration is Some ==> pn_pieces(payee, narration)[0] == Piece::Space,
        pieces_tokens(pn_pieces(payee, narration)) == pn_tokens(payee, narration),
{
    broadcast use lemma_pieces_text_concat, lemma_pieces_tokens_concat, lemma_pieces_one, lemma_pieces_one_tokens;
    assert(pieces_text(Seq::<Piece>::empty()) =~= Seq::<char>::empty());
    assert(pieces_tokens(Seq::<Piece>::empty()) =~= Seq::<TokenView>::empty());
    match (payee, narration) {
        (Some(p), Some(n)) => {
            let x = pn_pieces(payee, narration);
            assert(x =~= seq![Piece::Space] + seq![ps(p@)] + seq![Piece::Space] + seq![ps(n@)]);
            assert(pieces_ok(x));
            assert(pieces_text(x) =~= payee_narration_text(payee, narration));
            assert(pieces_tokens(x) =~= pn_tokens(payee, narration));
        },
        (None, Some(n)) => {
            let x = pn_pieces(payee, narration);
            assert(x =~= seq![Piece::Space] + seq![ps(n@)]);
            assert(pieces_ok(x));
            assert(pieces_text(x) =~= payee_narration_text(payee, narration));
            assert(pieces_tokens(x) =~= pn_tokens(payee, narration));
        },
        _ => {},
    }
}

/// A transaction header joined with its parts and postings stays well
/// formed.
#[verifier::rlimit(100)]
#[verifier::spinoff_prover]
proof fn lemma_header_ok(hp: Seq<Piece>, pn: Seq<Piece>, mt: Seq<Piece>, ml: Seq<Piece>, pp: Seq<Piece>)
    requires
        pieces_ok(hp),
        hp.len() > 0,
        !(hp[0] matches Piece::Tok(TokenView::Comment(_))),
        pieces_ok(pn),
        pn.len() > 0 ==> pn[0] == Piece::Space,
        pieces_ok(mt),
        mt.len() > 0 ==> mt[0] == Piece::Space,
        pieces_ok(ml),
        ml.len() > 0 ==> ml[0] == Piece::Space,
        pieces_ok(pp),
        pp.len() > 0 ==> pp[0] == Piece::Break,
    ensures
        pieces_ok(hp + pn + mt + ml + pp),
{
    lemma_ok_join(hp, pn);
    lemma_ok_join(hp + pn, mt);
    lemma_ok_join(hp + pn + mt, ml);
    let a = hp + pn + mt + ml;
    assert(a[0] == hp[0]);
    if a.len() >= 2 {
        assert(pair_ok(a[a.len() - 2], a[a.len() - 1]));
    }
    lemma_pieces_ok_concat(a, pp);
}

/// Round trip of a transaction.
#[verifier::rlimit(100)]
#[verifier::spinoff_prover]
proof fn lemma_rt_transaction(d: Directive, t: Transaction)
    requires
        d.wf(),
        d == Directive::Transaction(t),
    ensures
        directive_from_text(directive_text(d)) == Some(d@),
{
    broadcast use lemma_pieces_text_concat, lemma_pieces_tokens_concat, lemma_pieces_one, lemma_pieces_one_tokens;
    lemma_keywords();
    lemma_date_round_trip(t.date);
    let tags = strings_view(t.tags);
    let links = strings_view(t.links);
    let ls = t.lines@;
    assert forall|i: int| 0 <= i < tags.len() implies crate::models::is_tag(#[trigger] tags[i]) by {
        assert(tags[i] == t.tags@[i]@);
    };
    assert forall|i: int| 0 <= i < links.len() implies crate::models::is_tag(#[trigger] links[i]) by {
        assert(links[i] == t.links@[i]@);
    };
    assert forall|i: int| 0 <= i < ls.len() implies (#[trigger] ls[i]).wf() by {};
    let fc = seq![flag_char(t.flag)];
    let hp = seq![pw(date_text(t.date)), Piece::Space, pw(fc)];
    assert(hp =~= seq![pw(date_text(t.date))] + seq![Piece::Space] + seq![pw(fc)]);
    assert(is_plain_word(fc));
    assert(pieces_ok(hp));
    lemma_pn_pieces(t.payee, t.narration);
    lemma_mark_pieces(tags, '#');
    lemma_mark_pieces(links, '^');
    lemma_post_pieces(ls);
    lemma_postings_of(ls);
    let pn = pn_pieces(t.payee, t.narration);
    let mt = mark_pieces(tags, '#');
    let ml = mark_pieces(links, '^');
    let pp = post_pieces(ls);
    lemma_header_ok(hp, pn, mt, ml, pp);
    let p = hp + pn + mt + ml + pp;
    assert(pieces_text(p) =~= directive_text(d));
    let h = seq![TokenView::Word(date_text(t.date)), TokenView::Word(fc)] + pn_tokens(t.payee, t.narration)
        + mark_tokens(tags, '#') + mark_tokens(links, '^');
    let lt = ls.map_values(|l: TransactionLine| line_tokens(l));
    assert(pieces_tokens(hp) =~= seq![TokenView::Word(date_text(t.date)), TokenView::Word(fc)]);
    assert(pieces_tokens(p) =~= h + lines_tokens(lt));
    let k = 2 + pn_tokens(t.payee, t.narration).len();
    assert(h.subrange(k as int, h.len() as int) =~= mark_tokens(tags, '#') + mark_tokens(links, '^'));
    lemma_marks_from(h, k as int, tags, links);
    assert(line_ok(h)) by {
        assert forall|i: int| 0 <= i < h.len() implies !(#[trigger] h[i] is Newline) by {
            if i >= k + mark_tokens(tags, '#').len() {
                assert(h[i] == mark_tokens(links, '^')[i - k - mark_tokens(tags, '#').len()]);
            } else if i >= k {
                assert(h[i] == mark_tokens(tags, '#')[i - k]);
            }
        };
    };
    assert forall|i: int| 0 <= i < lt.len() implies line_ok(#[trigger] lt[i]) by {
        assert(lt[i] == line_tokens(ls[i]));
    };
    assert(date_text(t.date) != "option"@);
    assert(date_text(t.date) != "plugin"@);
    assert(date_text(t.date) != "include"@);
    assert(payee_narration(h) == (opt_view(t.payee), opt_view(t.narration), k as int));
    assert(lt.len() > 0);
    lemma_multi_line(directive_text(d), p, h, lt, d@);
}

/// Mutual exclusion of prices: no posting line that holds both a `@` and
/// a `@@` parses.
pub proof fn lemma_prices_exclusive(l: Seq<TokenView>, i: int, j: int)
    requires
        0 <= i < l.len(),
        0 <= j < l.len(),
        l[i] == TokenView::At,
        l[j] == TokenView::AtAt,
    ensures
        posting_of(l) is None,
{
    let (flag, k) = posting_flag(l);
    if posting_of(l) is Some {
        assert(account_at(l, k) is Some);
        assert(word_at(l, k) is Some);
        assert(k == 0 || word_at(l, 0) is Some);
        if k + 1 == l.len() {
            assert(l[i] is Word);
        } else {
            assert(amount_at(l, k + 1) is Some);
            assert(word_at(l, k + 1) is Some && word_at(l, k + 2) is Some);
            let (cost, e) = cost_at(l, k + 3)->Some_0;
            assert(price_at(l, e) is Some);
            assert forall|x: int| 0 <= x < e implies !(#[trigger] l[x] is At) && !(l[x] is AtAt) by {
                if x <= k + 2 {
                    if x == k + 1 || x == k + 2 || x == k {
                    } else {
                        assert(x == 0);
                    }
                } else {
                    assert(l[k + 3] == TokenView::LBrace);
                    assert(amount_at(l, k + 4) is Some);
                    assert(word_at(l, k + 4) is Some && word_at(l, k + 5) is Some);
                    if x == k + 6 && e == k + 7 {
                        assert(l[k + 6] == TokenView::RBrace);
                    } else if e == k + 9 {
                        assert(l[k + 6] == TokenView::Comma);
                        assert(str_at(l, k + 7) is Some);
                        assert(l[k + 8] == TokenView::RBrace);
                    }
                }
            };
            if e < l.len() {
                assert(e + 3 == l.len());
                assert(amount_at(l, e + 1) is Some);
                assert(word_at(l, e + 1) is Some && word_at(l, e + 2) is Some);
                assert(i == e);
                assert(j == e);
            }
        }
    }
}

} // verus!
