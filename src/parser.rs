//! The directive grammar over tokens, and the public parsing functions.
use crate::lexer::{tokenize, tokens_of, tokens_view, Token, TokenView};
use crate::meta::{insert_entry, meta_entries, meta_insert, meta_new};
use indexmap::IndexMap;
use crate::models::{
    strings_view, amount_view, is_commodity, is_key, Account, Amount, Date, Decimal, Directive, DirectiveView,
    Flag, LineView, Transaction, TransactionLine, TransactionView,
};
use crate::words::{
    prefix_segments, account_from_word, account_of, commodity_word, date_from_word, date_of, decimal_from_word,
    decimal_of, tag_tail, word_is,
};
use crate::utils::string_of;
use vstd::prelude::*;

verus! {

/// The value of an amount.
pub type AmountView = ((bool, Seq<u8>, Seq<u8>), Seq<char>);

/// The word at position `k` of a token line.
pub open spec fn word_at(h: Seq<TokenView>, k: int) -> Option<Seq<char>> {
    if 0 <= k < h.len() {
        match h[k] {
            TokenView::Word(w) => Some(w),
            _ => None,
        }
    } else {
        None
    }
}

/// The quoted string at position `k` of a token line.
pub open spec fn str_at(h: Seq<TokenView>, k: int) -> Option<Seq<char>> {
    if 0 <= k < h.len() {
        match h[k] {
            TokenView::Str(s) => Some(s),
            _ => None,
        }
    } else {
        None
    }
}

/// The account at position `k` of a token line.
pub open spec fn account_at(h: Seq<TokenView>, k: int) -> Option<(crate::models::AccountType, Seq<Seq<char>>)> {
    match word_at(h, k) {
        Some(w) => account_of(w),
        None => None,
    }
}

/// The amount written by the words at positions `k` and `k + 1`.
pub open spec fn amount_at(h: Seq<TokenView>, k: int) -> Option<AmountView> {
    match (word_at(h, k), word_at(h, k + 1)) {
        (Some(n), Some(c)) => match decimal_of(n) {
            Some(x) => if is_commodity(c) {
                Some((x, c))
            } else {
                None
            },
            None => None,
        },
        _ => None,
    }
}

/// A list of commodities from position `k` to the end, separated by commas.
pub open spec fn commodity_list(h: Seq<TokenView>, k: int) -> Option<Seq<Seq<char>>>
    decreases h.len() - k,
{
    match word_at(h, k) {
        Some(c) => if !is_commodity(c) {
            None
        } else if k + 1 == h.len() {
            Some(seq![c])
        } else if k + 2 < h.len() && h[k + 1] == TokenView::Comma {
            match commodity_list(h, k + 2) {
                Some(r) => Some(seq![c] + r),
                None => None,
            }
        } else {
            None
        },
        None => None,
    }
}

/// Quoted or bare values from position `k` to the end.
pub open spec fn values_from(h: Seq<TokenView>, k: int) -> Option<Seq<Seq<char>>>
    decreases h.len() - k,
{
    if k < 0 || k >= h.len() {
        Some(Seq::empty())
    } else {
        let v = match h[k] {
            TokenView::Str(v) => Some(v),
            TokenView::Word(v) => Some(v),
            _ => None,
        };
        match v {
            Some(v) => match values_from(h, k + 1) {
                Some(r) => Some(seq![v] + r),
                None => None,
            },
            None => None,
        }
    }
}

/// A metadata line: `key: "value"`, the colon attached to the key or
/// standing alone.
pub open spec fn meta_line(l: Seq<TokenView>) -> Option<(Seq<char>, Seq<char>)> {
    if l.len() == 2 {
        match (word_at(l, 0), str_at(l, 1)) {
            (Some(w), Some(v)) => if w.len() > 0 && w.last() == ':' && is_key(w.drop_last()) {
                Some((w.drop_last(), v))
            } else {
                None
            },
            _ => None,
        }
    } else if l.len() == 3 {
        match (word_at(l, 0), word_at(l, 1), str_at(l, 2)) {
            (Some(k), Some(c), Some(v)) => if is_key(k) && c == seq![':'] {
                Some((k, v))
            } else {
                None
            },
            _ => None,
        }
    } else {
        None
    }
}

/// The metadata of a sequence of lines, inserted in order.
pub open spec fn metas_of(lines: Seq<Seq<TokenView>>) -> Option<Seq<(Seq<char>, Seq<char>)>>
    decreases lines.len(),
{
    if lines.len() == 0 {
        Some(Seq::empty())
    } else {
        match (metas_of(lines.drop_last()), meta_line(lines.last())) {
            (Some(m), Some((k, v))) => Some(insert_entry(m, k, v)),
            _ => None,
        }
    }
}

/// Tags and links from position `k` to the end.
pub open spec fn marks_from(h: Seq<TokenView>, k: int) -> Option<(Seq<Seq<char>>, Seq<Seq<char>>)>
    decreases h.len() - k,
{
    if k < 0 || k >= h.len() {
        Some((Seq::empty(), Seq::empty()))
    } else {
        match word_at(h, k) {
            Some(w) => if w.len() > 0 && is_tag_name(w.drop_first()) && (w[0] == '#' || w[0] == '^') {
                match marks_from(h, k + 1) {
                    Some((tags, links)) => if w[0] == '#' {
                        Some((seq![w.drop_first()] + tags, links))
                    } else {
                        Some((tags, seq![w.drop_first()] + links))
                    },
                    None => None,
                }
            } else {
                None
            },
            None => None,
        }
    }
}

/// A tag or link name.
pub open spec fn is_tag_name(s: Seq<char>) -> bool {
    crate::models::is_tag(s)
}

/// A cost block at position `j`, if one starts there, and the position
/// after it.
pub open spec fn cost_at(l: Seq<TokenView>, j: int) -> Option<
    (Option<(AmountView, Option<Seq<char>>)>, int),
> {
    if 0 <= j < l.len() && l[j] == TokenView::LBrace {
        match amount_at(l, j + 1) {
            Some(c) => if j + 3 < l.len() && l[j + 3] == TokenView::RBrace {
                Some((Some((c, None)), j + 4))
            } else if j + 5 < l.len() && l[j + 3] == TokenView::Comma && str_at(l, j + 4).is_some()
                && l[j + 5] == TokenView::RBrace {
                Some((Some((c, str_at(l, j + 4))), j + 6))
            } else {
                None
            },
            None => None,
        }
    } else {
        Some((None, j))
    }
}

/// The price that ends a posting at position `j`: nothing, `@ amount` or
/// `@@ amount`.
pub open spec fn price_at(l: Seq<TokenView>, j: int) -> Option<(Option<AmountView>, Option<AmountView>)> {
    if j == l.len() {
        Some((None, None))
    } else if 0 <= j && j + 3 == l.len() && l[j] == TokenView::At {
        match amount_at(l, j + 1) {
            Some(p) => Some((Some(p), None)),
            None => None,
        }
    } else if 0 <= j && j + 3 == l.len() && l[j] == TokenView::AtAt {
        match amount_at(l, j + 1) {
            Some(p) => Some((None, Some(p))),
            None => None,
        }
    } else {
        None
    }
}

/// The flag that opens a posting, and where its account stands.
pub open spec fn posting_flag(l: Seq<TokenView>) -> (Flag, int) {
    match word_at(l, 0) {
        Some(w) => if w == seq!['*'] {
            (Flag::Complete, 1)
        } else if w == seq!['!'] {
            (Flag::Incomplete, 1)
        } else {
            (Flag::Complete, 0)
        },
        None => (Flag::Complete, 0),
    }
}

/// A posting line: `[flag] account [amount [cost] [@ price | @@ price]]`.
pub open spec fn posting_of(l: Seq<TokenView>) -> Option<LineView> {
    let (flag, k) = posting_flag(l);
    match account_at(l, k) {
        Some(a) => if k + 1 == l.len() {
            Some(
                LineView {
                    flag,
                    account: a,
                    amount: None,
                    cost: None,
                    single_price: None,
                    total_price: None,
                },
            )
        } else {
            match amount_at(l, k + 1) {
                Some(am) => match cost_at(l, k + 3) {
                    Some((cost, j)) => match price_at(l, j) {
                        Some((single, total)) => Some(
                            LineView {
                                flag,
                                account: a,
                                amount: Some(am),
                                cost,
                                single_price: single,
                                total_price: total,
                            },
                        ),
                        None => None,
                    },
                    None => None,
                },
                None => None,
            }
        },
        None => None,
    }
}

/// The postings of a sequence of lines.
pub open spec fn postings_of(lines: Seq<Seq<TokenView>>) -> Option<Seq<LineView>>
    decreases lines.len(),
{
    if lines.len() == 0 {
        Some(Seq::empty())
    } else {
        match (postings_of(lines.drop_last()), posting_of(lines.last())) {
            (Some(ps), Some(p)) => Some(ps.push(p)),
            _ => None,
        }
    }
}

/// Payee and narration after the flag, and where the tags start: one
/// string is the narration, two are payee and narration.
pub open spec fn payee_narration(h: Seq<TokenView>) -> (Option<Seq<char>>, Option<Seq<char>>, int) {
    match str_at(h, 2) {
        Some(a) => match str_at(h, 3) {
            Some(b) => (Some(a), Some(b), 4),
            None => (None, Some(a), 3),
        },
        None => (None, None, 2),
    }
}

/// A transaction with header `h` and posting lines `lines`.
pub open spec fn transaction_of(
    date: Date,
    flag: Flag,
    h: Seq<TokenView>,
    lines: Seq<Seq<TokenView>>,
) -> Option<DirectiveView> {
    let (payee, narration, k) = payee_narration(h);
    match marks_from(h, k) {
        Some((tags, links)) => if lines.len() > 0 {
            match postings_of(lines) {
                Some(ps) => Some(
                    DirectiveView::Transaction(
                        TransactionView { date, flag, payee, narration, tags, links, lines: ps },
                    ),
                ),
                None => None,
            }
        } else {
            None
        },
        None => None,
    }
}

/// A dated directive other than a transaction or a commodity, without
/// continuation lines.
pub open spec fn simple_dated_of(date: Date, kw: Seq<char>, h: Seq<TokenView>) -> Option<DirectiveView> {
    if kw == "open"@ {
        match account_at(h, 2) {
            Some(a) => if h.len() == 3 {
                Some(DirectiveView::Open { date, account: a, commodities: None })
            } else {
                match commodity_list(h, 3) {
                    Some(c) => Some(DirectiveView::Open { date, account: a, commodities: Some(c) }),
                    None => None,
                }
            },
            None => None,
        }
    } else if kw == "close"@ {
        match account_at(h, 2) {
            Some(a) => if h.len() == 3 {
                Some(DirectiveView::Close { date, account: a })
            } else {
                None
            },
            None => None,
        }
    } else if kw == "balance"@ {
        match (account_at(h, 2), amount_at(h, 3)) {
            (Some(a), Some(am)) => if h.len() == 5 {
                Some(DirectiveView::Balance { date, account: a, amount: am })
            } else {
                None
            },
            _ => None,
        }
    } else if kw == "pad"@ {
        match (account_at(h, 2), account_at(h, 3)) {
            (Some(a), Some(b)) => if h.len() == 4 {
                Some(DirectiveView::Pad { date, from: a, to: b })
            } else {
                None
            },
            _ => None,
        }
    } else if kw == "note"@ {
        match (account_at(h, 2), str_at(h, 3)) {
            (Some(a), Some(s)) => if h.len() == 4 {
                Some(DirectiveView::Note { date, account: a, description: s })
            } else {
                None
            },
            _ => None,
        }
    } else if kw == "document"@ {
        match (account_at(h, 2), str_at(h, 3)) {
            (Some(a), Some(s)) => if h.len() == 4 {
                Some(DirectiveView::Document { date, account: a, path: s })
            } else {
                None
            },
            _ => None,
        }
    } else if kw == "price"@ {
        match (word_at(h, 2), amount_at(h, 3)) {
            (Some(c), Some(am)) => if h.len() == 5 && is_commodity(c) {
                Some(DirectiveView::Price { date, commodity: c, amount: am })
            } else {
                None
            },
            _ => None,
        }
    } else if kw == "event"@ {
        match (str_at(h, 2), str_at(h, 3)) {
            (Some(n), Some(v)) => if h.len() == 4 {
                Some(DirectiveView::Event { date, name: n, value: v })
            } else {
                None
            },
            _ => None,
        }
    } else if kw == "custom"@ {
        match (str_at(h, 2), values_from(h, 3)) {
            (Some(t), Some(v)) => if h.len() >= 4 {
                Some(DirectiveView::Custom { date, custom_type: t, values: v })
            } else {
                None
            },
            _ => None,
        }
    } else {
        None
    }
}

/// A dated directive, dispatched on the token after the date.
pub open spec fn dated_of(date: Date, h: Seq<TokenView>, lines: Seq<Seq<TokenView>>) -> Option<
    DirectiveView,
> {
    match word_at(h, 1) {
        Some(kw) => if kw == seq!['*'] {
            transaction_of(date, Flag::Complete, h, lines)
        } else if kw == seq!['!'] {
            transaction_of(date, Flag::Incomplete, h, lines)
        } else if kw == "commodity"@ {
            match (word_at(h, 2), metas_of(lines)) {
                (Some(c), Some(m)) => if h.len() == 3 && is_commodity(c) {
                    Some(DirectiveView::Commodity { date, name: c, metas: m })
                } else {
                    None
                },
                _ => None,
            }
        } else if lines.len() > 0 {
            None
        } else {
            simple_dated_of(date, kw, h)
        },
        None => None,
    }
}

/// A directive without a date: `option`, `plugin` or `include`.
pub open spec fn undated_of(kw: Seq<char>, h: Seq<TokenView>) -> Option<DirectiveView> {
    if kw == "option"@ {
        match (str_at(h, 1), str_at(h, 2)) {
            (Some(k), Some(v)) => if h.len() == 3 {
                Some(DirectiveView::Option { key: k, value: v })
            } else {
                None
            },
            _ => None,
        }
    } else if kw == "plugin"@ {
        match str_at(h, 1) {
            Some(m) => if h.len() == 2 {
                Some(DirectiveView::Plugin { module: m, value: None })
            } else if h.len() == 3 && str_at(h, 2).is_some() {
                Some(DirectiveView::Plugin { module: m, value: str_at(h, 2) })
            } else {
                None
            },
            None => None,
        }
    } else {
        match (str_at(h, 1), word_at(h, 1)) {
            (Some(f), _) => if h.len() == 2 {
                Some(DirectiveView::Include { file: f })
            } else {
                None
            },
            (None, Some(f)) => if h.len() == 2 {
                Some(DirectiveView::Include { file: f })
            } else {
                None
            },
            _ => None,
        }
    }
}

/// The directive of a header line `h` and its continuation lines.
pub open spec fn directive_of(h: Seq<TokenView>, lines: Seq<Seq<TokenView>>) -> Option<DirectiveView> {
    if h.len() == 0 {
        None
    } else {
        match h[0] {
            TokenView::Comment(c) => if h.len() == 1 && lines.len() == 0 {
                Some(DirectiveView::Comment { content: c })
            } else {
                None
            },
            TokenView::Word(w) => if w == "option"@ || w == "plugin"@ || w == "include"@ {
                if lines.len() == 0 {
                    undated_of(w, h)
                } else {
                    None
                }
            } else {
                match date_of(w) {
                    Some(d) => dated_of(d, h, lines),
                    None => None,
                }
            },
            _ => None,
        }
    }
}

/// The end of the token line that starts at `i`.
pub open spec fn line_tokens_end(t: Seq<TokenView>, i: int) -> int
    decreases t.len() - i,
{
    if 0 <= i < t.len() && !(t[i] is Newline) {
        line_tokens_end(t, i + 1)
    } else {
        i
    }
}

/// The first position from `i` that holds no line break.
pub open spec fn skip_newlines(t: Seq<TokenView>, i: int) -> int
    decreases t.len() - i,
{
    if 0 <= i < t.len() && t[i] is Newline {
        skip_newlines(t, i + 1)
    } else {
        i
    }
}

/// The indented continuation lines from the line break at `j`, and the
/// position after them.
pub open spec fn cont_lines(t: Seq<TokenView>, j: int) -> (Seq<Seq<TokenView>>, int)
    decreases t.len() - j,
{
    if 0 <= j && j + 1 < t.len() && t[j] == TokenView::Newline(true) && !(t[j + 1] is Newline) {
        let e = line_tokens_end(t, j + 1);
        if j + 1 < e <= t.len() {
            let r = cont_lines(t, e);
            (seq![t.subrange(j + 1, e)] + r.0, r.1)
        } else {
            (Seq::empty(), j)
        }
    } else {
        (Seq::empty(), j)
    }
}

/// The record that starts at token `i`, and the position after it.
pub open spec fn record_at(t: Seq<TokenView>, i: int) -> Option<(DirectiveView, int)> {
    let h = line_tokens_end(t, i);
    let (lines, e) = cont_lines(t, h);
    match directive_of(t.subrange(i, h), lines) {
        Some(d) => Some((d, e)),
        None => None,
    }
}

/// The single directive of a token sequence, blank lines around it.
pub open spec fn directive_from_tokens(t: Seq<TokenView>) -> Option<DirectiveView> {
    let i = skip_newlines(t, 0);
    if i < t.len() {
        match record_at(t, i) {
            Some((d, e)) => if skip_newlines(t, e) == t.len() {
                Some(d)
            } else {
                None
            },
            None => None,
        }
    } else {
        None
    }
}

/// The directive of a text holding exactly one.
pub open spec fn directive_from_text(s: Seq<char>) -> Option<DirectiveView> {
    match tokens_of(s) {
        Some(t) => directive_from_tokens(t),
        None => None,
    }
}

/// The directives of a token sequence from position `i` on.
pub open spec fn entries_from(t: Seq<TokenView>, i: int) -> Option<Seq<DirectiveView>>
    decreases t.len() - i,
{
    let j = skip_newlines(t, i);
    if j < 0 || j >= t.len() {
        Some(Seq::empty())
    } else {
        match record_at(t, j) {
            Some((d, e)) => if i <= j < e <= t.len() {
                match entries_from(t, e) {
                    Some(r) => Some(seq![d] + r),
                    None => None,
                }
            } else {
                None
            },
            None => None,
        }
    }
}

/// The directives of a whole text, in order.
pub open spec fn entries_from_text(s: Seq<char>) -> Option<Seq<DirectiveView>> {
    match tokens_of(s) {
        Some(t) => entries_from(t, 0),
        None => None,
    }
}

/// The tokens `toks[lo..hi]` as the grammar sees them.
pub open spec fn seg(toks: Seq<Token>, lo: int, hi: int) -> Seq<TokenView> {
    tokens_view(toks).subrange(lo, hi)
}

/// The kind of a parse failure.
#[derive(Debug, Clone, Copy, PartialEq, Eq, Structural)]
pub enum ErrorKind {
    /// A quoted string is unterminated or holds a malformed escape.
    Lexical,
    /// The tokens match no directive shape, or a word in them is malformed.
    Syntax,
    /// A standalone account is malformed or has no segment.
    InvalidAccount,
}

/// A parse failure and the character position where the offending unit
/// starts.
#[derive(Debug, Clone, Copy, PartialEq, Eq, Structural)]
pub struct ParseError {
    pub kind: ErrorKind,
    pub position: usize,
}

/// The string of the characters of `w`.
fn text_of(w: &Vec<char>) -> (r: String)
    ensures
        r@ == w@,
{
    let r = string_of(w, 0, w.len());
    assert(w@.subrange(0, w@.len() as int) =~= w@);
    r
}

/// The word at position `k` of `toks[lo..hi]`.
fn word_x(toks: &Vec<Token>, lo: usize, hi: usize, k: usize) -> (r: Option<&Vec<char>>)
    requires
        lo <= hi <= toks@.len(),
    ensures
        match r {
            Some(w) => word_at(seg(toks@, lo as int, hi as int), k as int) == Some(w@),
            None => word_at(seg(toks@, lo as int, hi as int), k as int) is None,
        },
{
    if k < hi - lo {
        match &toks[lo + k] {
            Token::Word(w) => Some(w),
            _ => None,
        }
    } else {
        None
    }
}

/// The quoted string at position `k` of `toks[lo..hi]`.
fn str_x(toks: &Vec<Token>, lo: usize, hi: usize, k: usize) -> (r: Option<&Vec<char>>)
    requires
        lo <= hi <= toks@.len(),
    ensures
        match r {
            Some(w) => str_at(seg(toks@, lo as int, hi as int), k as int) == Some(w@),
            None => str_at(seg(toks@, lo as int, hi as int), k as int) is None,
        },
{
    if k < hi - lo {
        match &toks[lo + k] {
            Token::Str(w) => Some(w),
            _ => None,
        }
    } else {
        None
    }
}

/// The token at position `k` of `toks[lo..hi]`, which must exist.
fn tok_x(toks: &Vec<Token>, lo: usize, hi: usize, k: usize) -> (r: &Token)
    requires
        lo <= hi <= toks@.len(),
        k < hi - lo,
    ensures
        r@ == seg(toks@, lo as int, hi as int)[k as int],
{
    &toks[lo + k]
}

/// The account at position `k` of `toks[lo..hi]`.
fn account_x(toks: &Vec<Token>, lo: usize, hi: usize, k: usize) -> (r: Option<Account>)
    requires
        lo <= hi <= toks@.len(),
    ensures
        match r {
            Some(a) => account_at(seg(toks@, lo as int, hi as int), k as int) == Some(a@),
            None => account_at(seg(toks@, lo as int, hi as int), k as int) is None,
        },
{
    match word_x(toks, lo, hi, k) {
        Some(w) => account_from_word(w),
        None => None,
    }
}

/// The amount at positions `k` and `k + 1` of `toks[lo..hi]`.
fn amount_x(toks: &Vec<Token>, lo: usize, hi: usize, k: usize) -> (r: Option<Amount>)
    requires
        lo <= hi <= toks@.len(),
    ensures
        match r {
            Some(a) => amount_at(seg(toks@, lo as int, hi as int), k as int) == Some(amount_view(a)),
            None => amount_at(seg(toks@, lo as int, hi as int), k as int) is None,
        },
{
    if k >= hi - lo {
        return None;
    }
    let n = match word_x(toks, lo, hi, k) {
        Some(n) => n,
        None => {
            return None;
        },
    };
    let c = match word_x(toks, lo, hi, k + 1) {
        Some(c) => c,
        None => {
            return None;
        },
    };
    match decimal_from_word(n) {
        Some(x) => if commodity_word(c) {
            Some((x, text_of(c)))
        } else {
            None
        },
        None => None,
    }
}

/// The views of a list of strings built so far.
pub open spec fn texts(v: Seq<String>) -> Seq<Seq<char>> {
    v.map_values(|x: String| x@)
}

/// Appending a string appends its view.
proof fn lemma_texts_push(v: Seq<String>, x: String, rest: Option<Seq<Seq<char>>>)
    ensures
        texts(v.push(x)) == texts(v).push(x@),
        prefix_segments(texts(v.push(x)), rest) == prefix_segments(
            texts(v),
            prefix_segments(seq![x@], rest),
        ),
{
    assert(texts(v.push(x)) =~= texts(v).push(x@));
    match rest {
        Some(r) => {
            assert(texts(v).push(x@) + r =~= texts(v) + (seq![x@] + r));
        },
        None => {},
    }
}

/// The commodities from position `k` of `toks[lo..hi]`.
fn commodity_list_x(toks: &Vec<Token>, lo: usize, hi: usize, k: usize) -> (r: Option<Vec<String>>)
    requires
        lo <= hi <= toks@.len(),
    ensures
        match r {
            Some(v) => commodity_list(seg(toks@, lo as int, hi as int), k as int) == Some(texts(v@)),
            None => commodity_list(seg(toks@, lo as int, hi as int), k as int) is None,
        },
{
    let ghost h = seg(toks@, lo as int, hi as int);
    let ghost k0 = k;
    if k >= hi - lo {
        return None;
    }
    let mut j = k;
    let mut out: Vec<String> = Vec::new();
    assert(prefix_segments(texts(out@), commodity_list(h, j as int)) =~= commodity_list(h, j as int))
        by {
        match commodity_list(h, j as int) {
            Some(x) => {
                assert(texts(out@) + x =~= x);
            },
            None => {},
        }
    };
    loop
        invariant
            lo <= hi <= toks@.len(),
            h == seg(toks@, lo as int, hi as int),
            k0 == k,
            j < hi - lo,
            prefix_segments(texts(out@), commodity_list(h, j as int)) == commodity_list(h, k0 as int),
        decreases hi - lo - j,
    {
        let c = match word_x(toks, lo, hi, j) {
            Some(c) => c,
            None => {
                assert(commodity_list(h, j as int) is None);
                assert(commodity_list(h, k0 as int) is None);
                return None;
            },
        };
        if !commodity_word(c) {
            assert(commodity_list(h, j as int) is None);
            return None;
        }
        let t = text_of(c);
        if j + 1 == hi - lo {
            proof {
                lemma_texts_push(out@, t, Some(Seq::<Seq<char>>::empty()));
                assert(seq![t@] + Seq::<Seq<char>>::empty() =~= seq![t@]);
                assert(texts(out@.push(t)) + Seq::<Seq<char>>::empty() =~= texts(out@.push(t)));
            }
            out.push(t);
            return Some(out);
        }
        if j + 2 < hi - lo && matches!(tok_x(toks, lo, hi, j + 1), Token::Comma) {
            proof {
                lemma_texts_push(out@, t, commodity_list(h, j + 2));
            }
            out.push(t);
            j = j + 2;
        } else {
            return None;
        }
    }
}

/// The values from position `k` of `toks[lo..hi]`.
fn values_x(toks: &Vec<Token>, lo: usize, hi: usize, k: usize) -> (r: Option<Vec<String>>)
    requires
        lo <= hi <= toks@.len(),
    ensures
        match r {
            Some(v) => values_from(seg(toks@, lo as int, hi as int), k as int) == Some(texts(v@)),
            None => values_from(seg(toks@, lo as int, hi as int), k as int) is None,
        },
{
    let ghost h = seg(toks@, lo as int, hi as int);
    let ghost k0 = k;
    if k >= hi - lo {
        assert(texts(Seq::<String>::empty()) =~= Seq::<Seq<char>>::empty());
        return Some(Vec::new());
    }
    let mut j = k;
    let mut out: Vec<String> = Vec::new();
    assert(prefix_segments(texts(out@), values_from(h, j as int)) =~= values_from(h, j as int)) by {
        match values_from(h, j as int) {
            Some(x) => {
                assert(texts(out@) + x =~= x);
            },
            None => {},
        }
    };
    while j < hi - lo
        invariant
            lo <= hi <= toks@.len(),
            h == seg(toks@, lo as int, hi as int),
            k0 == k,
            j <= hi - lo,
            prefix_segments(texts(out@), values_from(h, j as int)) == values_from(h, k0 as int),
        decreases hi - lo - j,
    {
        let t = match tok_x(toks, lo, hi, j) {
            Token::Str(v) => text_of(v),
            Token::Word(v) => text_of(v),
            _ => {
                return None;
            },
        };
        proof {
            lemma_texts_push(out@, t, values_from(h, j + 1));
        }
        out.push(t);
        j = j + 1;
    }
    assert(texts(out@) + Seq::<Seq<char>>::empty() =~= texts(out@));
    Some(out)
}

/// The token lines of a list of ranges.
pub open spec fn lines_view(toks: Seq<Token>, ranges: Seq<(usize, usize)>) -> Seq<Seq<TokenView>> {
    ranges.map_values(|r: (usize, usize)| seg(toks, r.0 as int, r.1 as int))
}

/// Every range lies within the tokens.
pub open spec fn ranges_ok(toks: Seq<Token>, ranges: Seq<(usize, usize)>) -> bool {
    forall|i: int| 0 <= i < ranges.len() ==> #[trigger] ranges[i].0 <= ranges[i].1 <= toks.len()
}

/// The metadata line `toks[lo..hi]`.
fn meta_line_x(toks: &Vec<Token>, lo: usize, hi: usize) -> (r: Option<(String, String)>)
    requires
        lo <= hi <= toks@.len(),
    ensures
        match r {
            Some((k, v)) => meta_line(seg(toks@, lo as int, hi as int)) == Some((k@, v@)),
            None => meta_line(seg(toks@, lo as int, hi as int)) is None,
        },
{
    let ghost l = seg(toks@, lo as int, hi as int);
    if hi - lo == 2 {
        match (word_x(toks, lo, hi, 0), str_x(toks, lo, hi, 1)) {
            (Some(w), Some(v)) => {
                if w.len() > 0 && w[w.len() - 1] == ':' {
                    let key = string_of(w, 0, w.len() - 1);
                    assert(key@ =~= w@.drop_last());
                    if key_word(&key) {
                        return Some((key, text_of(v)));
                    }
                }
                None
            },
            _ => None,
        }
    } else if hi - lo == 3 {
        match (word_x(toks, lo, hi, 0), word_x(toks, lo, hi, 1), str_x(toks, lo, hi, 2)) {
            (Some(k), Some(c), Some(v)) => {
                let key = text_of(k);
                if key_word(&key) && c.len() == 1 && c[0] == ':' {
                    assert(c@ =~= seq![':']);
                    Some((key, text_of(v)))
                } else {
                    None
                }
            },
            _ => None,
        }
    } else {
        None
    }
}

/// Whether a string is a metadata key.
fn key_word(k: &String) -> (r: bool)
    ensures
        r == is_key(k@),
{
    let w = crate::utils::chars_of(k.as_str());
    if w.len() == 0 {
        return false;
    }
    let mut i: usize = 0;
    while i < w.len()
        invariant
            i <= w@.len(),
            w@ == k@,
            forall|j: int| 0 <= j < i ==> crate::models::is_key_char(#[trigger] w@[j]),
        decreases w@.len() - i,
    {
        let c = w[i];
        if c == ':' || c == ' ' || c == '\t' || c == '\r' || c == '\n' || c == '{' || c == '}' || c
            == ',' || c == '@' || c == '"' {
            return false;
        }
        i = i + 1;
    }
    true
}

/// The metadata of the lines `ranges`, inserted in order.
fn metas_x(toks: &Vec<Token>, ranges: &Vec<(usize, usize)>) -> (r: Option<IndexMap<String, String>>)
    requires
        ranges_ok(toks@, ranges@),
    ensures
        match r {
            Some(m) => metas_of(lines_view(toks@, ranges@)) == Some(meta_entries(m)),
            None => metas_of(lines_view(toks@, ranges@)) is None,
        },
{
    let ghost lv = lines_view(toks@, ranges@);
    let mut m = meta_new();
    let mut i: usize = 0;
    assert(lv.take(0) =~= Seq::<Seq<TokenView>>::empty());
    while i < ranges.len()
        invariant
            i <= ranges@.len(),
            ranges_ok(toks@, ranges@),
            lv == lines_view(toks@, ranges@),
            metas_of(lv.take(i as int)) == Some(meta_entries(m)),
        decreases ranges@.len() - i,
    {
        let (lo, hi) = ranges[i];
        assert(ranges@[i as int].0 <= ranges@[i as int].1 <= toks@.len());
        match meta_line_x(toks, lo, hi) {
            Some((k, v)) => {
                assert(lv.take(i + 1).drop_last() =~= lv.take(i as int));
                assert(lv.take(i + 1).last() == lv[i as int]);
                meta_insert(&mut m, k, v);
            },
            None => {
                proof {
                    lemma_metas_none(lv, i as int);
                }
                return None;
            },
        }
        i = i + 1;
    }
    assert(lv.take(i as int) =~= lv);
    Some(m)
}

/// A malformed metadata line makes every longer list fail.
proof fn lemma_metas_none(lv: Seq<Seq<TokenView>>, i: int)
    requires
        0 <= i < lv.len(),
        meta_line(lv[i]) is None,
    ensures
        metas_of(lv) is None,
    decreases lv.len(),
{
    if i == lv.len() - 1 {
    } else {
        lemma_metas_none(lv.drop_last(), i);
    }
}

/// The cost block at position `j` of `toks[lo..hi]`, if one starts there.
fn cost_x(toks: &Vec<Token>, lo: usize, hi: usize, j: usize) -> (r: Option<
    (Option<(Amount, Option<String>)>, usize),
>)
    requires
        lo <= hi <= toks@.len(),
        j <= hi - lo,
    ensures
        match r {
            Some((c, e)) => cost_at(seg(toks@, lo as int, hi as int), j as int) == Some(
                (
                    match c {
                        Some((a, n)) => Some((amount_view(a), crate::models::opt_view(n))),
                        None => None,
                    },
                    e as int,
                ),
            ),
            None => cost_at(seg(toks@, lo as int, hi as int), j as int) is None,
        },
{
    let n = hi - lo;
    if !(j < n && matches!(tok_x(toks, lo, hi, j), Token::LBrace)) {
        return Some((None, j));
    }
    let c = match amount_x(toks, lo, hi, j + 1) {
        Some(c) => c,
        None => {
            return None;
        },
    };
    if n - j > 3 && matches!(tok_x(toks, lo, hi, j + 3), Token::RBrace) {
        return Some((Some((c, None)), j + 4));
    }
    if n - j > 5 && matches!(tok_x(toks, lo, hi, j + 3), Token::Comma) && matches!(
        tok_x(toks, lo, hi, j + 5),
        Token::RBrace,
    ) {
        match str_x(toks, lo, hi, j + 4) {
            Some(note) => {
                return Some((Some((c, Some(text_of(note)))), j + 6));
            },
            None => {},
        }
    }
    None
}

/// The price that ends a posting at position `j` of `toks[lo..hi]`.
fn price_x(toks: &Vec<Token>, lo: usize, hi: usize, j: usize) -> (r: Option<
    (Option<Amount>, Option<Amount>),
>)
    requires
        lo <= hi <= toks@.len(),
        j <= hi - lo,
    ensures
        match r {
            Some((a, b)) => price_at(seg(toks@, lo as int, hi as int), j as int) == Some(
                (crate::models::opt_amount_view(a), crate::models::opt_amount_view(b)),
            ),
            None => price_at(seg(toks@, lo as int, hi as int), j as int) is None,
        },
{
    let n = hi - lo;
    if j == n {
        return Some((None, None));
    }
    if n - j == 3 {
        let total = match tok_x(toks, lo, hi, j) {
            Token::At => false,
            Token::AtAt => true,
            _ => {
                return None;
            },
        };
        match amount_x(toks, lo, hi, j + 1) {
            Some(p) => if total {
                Some((None, Some(p)))
            } else {
                Some((Some(p), None))
            },
            None => None,
        }
    } else {
        None
    }
}

/// The posting line `toks[lo..hi]`.
fn posting_x(toks: &Vec<Token>, lo: usize, hi: usize) -> (r: Option<TransactionLine>)
    requires
        lo <= hi <= toks@.len(),
    ensures
        match r {
            Some(l) => posting_of(seg(toks@, lo as int, hi as int)) == Some(l@),
            None => posting_of(seg(toks@, lo as int, hi as int)) is None,
        },
{
    let ghost l = seg(toks@, lo as int, hi as int);
    let (flag, k): (Flag, usize) = match word_x(toks, lo, hi, 0) {
        Some(w) => if word_is(w, "*") {
            proof {
                reveal_strlit("*");
                assert("*"@ =~= seq!['*']);
            }
            (Flag::Complete, 1)
        } else if word_is(w, "!") {
            proof {
                reveal_strlit("*");
                reveal_strlit("!");
                assert("*"@ =~= seq!['*']);
                assert("!"@ =~= seq!['!']);
            }
            (Flag::Incomplete, 1)
        } else {
            proof {
                reveal_strlit("*");
                reveal_strlit("!");
                assert("*"@ =~= seq!['*']);
                assert("!"@ =~= seq!['!']);
            }
            (Flag::Complete, 0)
        },
        None => (Flag::Complete, 0),
    };
    assert(posting_flag(l) == (flag, k as int));
    let account = match account_x(toks, lo, hi, k) {
        Some(a) => a,
        None => {
            return None;
        },
    };
    if k + 1 == hi - lo {
        return Some(
            TransactionLine {
                flag,
                account,
                amount: None,
                cost: None,
                single_price: None,
                total_price: None,
            },
        );
    }
    let amount = match amount_x(toks, lo, hi, k + 1) {
        Some(a) => a,
        None => {
            return None;
        },
    };
    let (cost, j) = match cost_x(toks, lo, hi, k + 3) {
        Some(c) => c,
        None => {
            return None;
        },
    };
    let (single_price, total_price) = match price_x(toks, lo, hi, j) {
        Some(p) => p,
        None => {
            return None;
        },
    };
    Some(TransactionLine { flag, account, amount: Some(amount), cost, single_price, total_price })
}

/// The postings of the lines `ranges`.
fn postings_x(toks: &Vec<Token>, ranges: &Vec<(usize, usize)>) -> (r: Option<Vec<TransactionLine>>)
    requires
        ranges_ok(toks@, ranges@),
    ensures
        match r {
            Some(v) => postings_of(lines_view(toks@, ranges@)) == Some(
                v@.map_values(|l: TransactionLine| l@),
            ),
            None => postings_of(lines_view(toks@, ranges@)) is None,
        },
{
    let ghost lv = lines_view(toks@, ranges@);
    let mut out: Vec<TransactionLine> = Vec::new();
    let mut i: usize = 0;
    assert(lv.take(0) =~= Seq::<Seq<TokenView>>::empty());
    assert(out@.map_values(|l: TransactionLine| l@) =~= Seq::<LineView>::empty());
    while i < ranges.len()
        invariant
            i <= ranges@.len(),
            ranges_ok(toks@, ranges@),
            lv == lines_view(toks@, ranges@),
            postings_of(lv.take(i as int)) == Some(out@.map_values(|l: TransactionLine| l@)),
        decreases ranges@.len() - i,
    {
        let (lo, hi) = ranges[i];
        assert(ranges@[i as int].0 <= ranges@[i as int].1 <= toks@.len());
        match posting_x(toks, lo, hi) {
            Some(p) => {
                assert(lv.take(i + 1).drop_last() =~= lv.take(i as int));
                assert(lv.take(i + 1).last() == lv[i as int]);
                assert(out@.push(p).map_values(|l: TransactionLine| l@) =~= out@.map_values(
                    |l: TransactionLine| l@,
                ).push(p@));
                out.push(p);
            },
            None => {
                proof {
                    lemma_postings_none(lv, i as int);
                }
                return None;
            },
        }
        i = i + 1;
    }
    assert(lv.take(i as int) =~= lv);
    Some(out)
}

/// A malformed posting line makes every longer list fail.
proof fn lemma_postings_none(lv: Seq<Seq<TokenView>>, i: int)
    requires
        0 <= i < lv.len(),
        posting_of(lv[i]) is None,
    ensures
        postings_of(lv) is None,
    decreases lv.len(),
{
    if i < lv.len() - 1 {
        lemma_postings_none(lv.drop_last(), i);
    }
}

/// Puts tags and links in front of those of a result, if there is one.
pub open spec fn prefix_marks(
    tags: Seq<Seq<char>>,
    links: Seq<Seq<char>>,
    r: Option<(Seq<Seq<char>>, Seq<Seq<char>>)>,
) -> Option<(Seq<Seq<char>>, Seq<Seq<char>>)> {
    match r {
        Some((t, l)) => Some((tags + t, links + l)),
        None => None,
    }
}

/// The tags and links from position `k` of `toks[lo..hi]`.
fn marks_x(toks: &Vec<Token>, lo: usize, hi: usize, k: usize) -> (r: Option<
    (Vec<String>, Vec<String>),
>)
    requires
        lo <= hi <= toks@.len(),
    ensures
        match r {
            Some((t, l)) => marks_from(seg(toks@, lo as int, hi as int), k as int) == Some(
                (texts(t@), texts(l@)),
            ),
            None => marks_from(seg(toks@, lo as int, hi as int), k as int) is None,
        },
{
    let ghost h = seg(toks@, lo as int, hi as int);
    let mut tags: Vec<String> = Vec::new();
    let mut links: Vec<String> = Vec::new();
    if k >= hi - lo {
        assert(texts(tags@) =~= Seq::<Seq<char>>::empty());
        return Some((tags, links));
    }
    let mut j = k;
    assert(prefix_marks(texts(tags@), texts(links@), marks_from(h, j as int)) =~= marks_from(
        h,
        j as int,
    )) by {
        match marks_from(h, j as int) {
            Some((t, l)) => {
                assert(texts(tags@) + t =~= t);
                assert(texts(links@) + l =~= l);
            },
            None => {},
        }
    };
    while j < hi - lo
        invariant
            lo <= hi <= toks@.len(),
            h == seg(toks@, lo as int, hi as int),
            j <= hi - lo,
            prefix_marks(texts(tags@), texts(links@), marks_from(h, j as int)) == marks_from(
                h,
                k as int,
            ),
        decreases hi - lo - j,
    {
        let w = match word_x(toks, lo, hi, j) {
            Some(w) => w,
            None => {
                return None;
            },
        };
        if !(w.len() > 0 && tag_tail(w) && (w[0] == '#' || w[0] == '^')) {
            return None;
        }
        let name = string_of(w, 1, w.len());
        assert(name@ =~= w@.drop_first());
        proof {
            let rest = marks_from(h, j + 1);
            assert(texts(tags@.push(name)) =~= texts(tags@).push(name@));
            assert(texts(links@.push(name)) =~= texts(links@).push(name@));
            match rest {
                Some((t, l)) => {
                    assert(texts(tags@).push(name@) + t =~= texts(tags@) + (seq![name@] + t));
                    assert(texts(links@).push(name@) + l =~= texts(links@) + (seq![name@] + l));
                },
                None => {},
            }
        }
        if w[0] == '#' {
            tags.push(name);
        } else {
            links.push(name);
        }
        j = j + 1;
    }
    assert(texts(tags@) + Seq::<Seq<char>>::empty() =~= texts(tags@));
    assert(texts(links@) + Seq::<Seq<char>>::empty() =~= texts(links@));
    Some((tags, links))
}

/// A transaction whose header is `toks[lo..hi]` and whose postings are
/// the lines `ranges`.
fn transaction_x(
    date: Date,
    flag: Flag,
    toks: &Vec<Token>,
    lo: usize,
    hi: usize,
    ranges: &Vec<(usize, usize)>,
) -> (r: Option<Directive>)
    requires
        lo <= hi <= toks@.len(),
        ranges_ok(toks@, ranges@),
    ensures
        match r {
            Some(d) => transaction_of(
                date,
                flag,
                seg(toks@, lo as int, hi as int),
                lines_view(toks@, ranges@),
            ) == Some(d@),
            None => transaction_of(
                date,
                flag,
                seg(toks@, lo as int, hi as int),
                lines_view(toks@, ranges@),
            ) is None,
        },
{
    let (payee, narration, k): (Option<String>, Option<String>, usize) = match str_x(
        toks,
        lo,
        hi,
        2,
    ) {
        Some(a) => match str_x(toks, lo, hi, 3) {
            Some(b) => (Some(text_of(a)), Some(text_of(b)), 4),
            None => (None, Some(text_of(a)), 3),
        },
        None => (None, None, 2),
    };
    let (tags, links) = match marks_x(toks, lo, hi, k) {
        Some(m) => m,
        None => {
            return None;
        },
    };
    if ranges.len() == 0 {
        return None;
    }
    let lines = match postings_x(toks, ranges) {
        Some(l) => l,
        None => {
            return None;
        },
    };
    Some(Directive::Transaction(Transaction { date, flag, payee, narration, tags, links, lines }))
}

/// A dated directive other than a transaction or a commodity.
#[verifier::rlimit(40)]
fn simple_dated_x(date: Date, kw: &Vec<char>, toks: &Vec<Token>, lo: usize, hi: usize) -> (r: Option<
    Directive,
>)
    requires
        lo <= hi <= toks@.len(),
    ensures
        match r {
            Some(d) => simple_dated_of(date, kw@, seg(toks@, lo as int, hi as int)) == Some(d@),
            None => simple_dated_of(date, kw@, seg(toks@, lo as int, hi as int)) is None,
        },
{
    let n = hi - lo;
    if word_is(kw, "open") {
        let account = match account_x(toks, lo, hi, 2) {
            Some(a) => a,
            None => {
                return None;
            },
        };
        if n == 3 {
            return Some(Directive::Open { date, account, commodities: None });
        }
        match commodity_list_x(toks, lo, hi, 3) {
            Some(c) => Some(Directive::Open { date, account, commodities: Some(c) }),
            None => None,
        }
    } else if word_is(kw, "close") {
        match account_x(toks, lo, hi, 2) {
            Some(account) => if n == 3 {
                Some(Directive::Close { date, account })
            } else {
                None
            },
            None => None,
        }
    } else if word_is(kw, "balance") {
        match (account_x(toks, lo, hi, 2), amount_x(toks, lo, hi, 3)) {
            (Some(account), Some(amount)) => if n == 5 {
                Some(Directive::Balance { date, account, amount })
            } else {
                None
            },
            _ => None,
        }
    } else if word_is(kw, "pad") {
        match (account_x(toks, lo, hi, 2), account_x(toks, lo, hi, 3)) {
            (Some(from), Some(to)) => if n == 4 {
                Some(Directive::Pad { date, from, to })
            } else {
                None
            },
            _ => None,
        }
    } else if word_is(kw, "note") {
        match (account_x(toks, lo, hi, 2), str_x(toks, lo, hi, 3)) {
            (Some(account), Some(s)) => if n == 4 {
                Some(Directive::Note { date, account, description: text_of(s) })
            } else {
                None
            },
            _ => None,
        }
    } else if word_is(kw, "document") {
        match (account_x(toks, lo, hi, 2), str_x(toks, lo, hi, 3)) {
            (Some(account), Some(s)) => if n == 4 {
                Some(Directive::Document { date, account, path: text_of(s) })
            } else {
                None
            },
            _ => None,
        }
    } else if word_is(kw, "price") {
        match (word_x(toks, lo, hi, 2), amount_x(toks, lo, hi, 3)) {
            (Some(c), Some(amount)) => if n == 5 && commodity_word(c) {
                Some(Directive::Price { date, commodity: text_of(c), amount })
            } else {
                None
            },
            _ => None,
        }
    } else if word_is(kw, "event") {
        match (str_x(toks, lo, hi, 2), str_x(toks, lo, hi, 3)) {
            (Some(name), Some(value)) => if n == 4 {
                Some(Directive::Event { date, name: text_of(name), value: text_of(value) })
            } else {
                None
            },
            _ => None,
        }
    } else if word_is(kw, "custom") {
        match (str_x(toks, lo, hi, 2), values_x(toks, lo, hi, 3)) {
            (Some(t), Some(values)) => if n >= 4 {
                Some(Directive::Custom { date, custom_type: text_of(t), values })
            } else {
                None
            },
            _ => None,
        }
    } else {
        None
    }
}

/// A dated directive, dispatched on the token after the date.
fn dated_x(date: Date, toks: &Vec<Token>, lo: usize, hi: usize, ranges: &Vec<(usize, usize)>) -> (r:
    Option<Directive>)
    requires
        lo <= hi <= toks@.len(),
        ranges_ok(toks@, ranges@),
    ensures
        match r {
            Some(d) => dated_of(date, seg(toks@, lo as int, hi as int), lines_view(toks@, ranges@))
                == Some(d@),
            None => dated_of(date, seg(toks@, lo as int, hi as int), lines_view(toks@, ranges@)) is None,
        },
{
    let ghost lv = lines_view(toks@, ranges@);
    let kw = match word_x(toks, lo, hi, 1) {
        Some(kw) => kw,
        None => {
            return None;
        },
    };
    proof {
        reveal_strlit("*");
        reveal_strlit("!");
        assert("*"@ =~= seq!['*']);
        assert("!"@ =~= seq!['!']);
    }
    if word_is(kw, "*") {
        transaction_x(date, Flag::Complete, toks, lo, hi, ranges)
    } else if word_is(kw, "!") {
        transaction_x(date, Flag::Incomplete, toks, lo, hi, ranges)
    } else if word_is(kw, "commodity") {
        match (word_x(toks, lo, hi, 2), metas_x(toks, ranges)) {
            (Some(c), Some(metas)) => if hi - lo == 3 && commodity_word(c) {
                Some(Directive::Commodity { date, name: text_of(c), metas })
            } else {
                None
            },
            _ => None,
        }
    } else if ranges.len() > 0 {
        assert(lv.len() > 0);
        None
    } else {
        simple_dated_x(date, kw, toks, lo, hi)
    }
}

/// A directive without a date.
fn undated_x(kw: &Vec<char>, toks: &Vec<Token>, lo: usize, hi: usize) -> (r: Option<Directive>)
    requires
        lo <= hi <= toks@.len(),
    ensures
        match r {
            Some(d) => undated_of(kw@, seg(toks@, lo as int, hi as int)) == Some(d@),
            None => undated_of(kw@, seg(toks@, lo as int, hi as int)) is None,
        },
{
    let n = hi - lo;
    if word_is(kw, "option") {
        match (str_x(toks, lo, hi, 1), str_x(toks, lo, hi, 2)) {
            (Some(k), Some(v)) => if n == 3 {
                Some(Directive::Option { key: text_of(k), value: text_of(v) })
            } else {
                None
            },
            _ => None,
        }
    } else if word_is(kw, "plugin") {
        match str_x(toks, lo, hi, 1) {
            Some(m) => if n == 2 {
                Some(Directive::Plugin { module: text_of(m), value: None })
            } else if n == 3 {
                match str_x(toks, lo, hi, 2) {
                    Some(v) => Some(Directive::Plugin { module: text_of(m), value: Some(text_of(v)) }),
                    None => None,
                }
            } else {
                None
            },
            None => None,
        }
    } else {
        match str_x(toks, lo, hi, 1) {
            Some(f) => if n == 2 {
                Some(Directive::Include { file: text_of(f) })
            } else {
                None
            },
            None => match word_x(toks, lo, hi, 1) {
                Some(f) => if n == 2 {
                    Some(Directive::Include { file: text_of(f) })
                } else {
                    None
                },
                None => None,
            },
        }
    }
}

/// The directive of the header `toks[lo..hi]` and the lines `ranges`.
fn directive_x(toks: &Vec<Token>, lo: usize, hi: usize, ranges: &Vec<(usize, usize)>) -> (r: Option<
    Directive,
>)
    requires
        lo <= hi <= toks@.len(),
        ranges_ok(toks@, ranges@),
    ensures
        match r {
            Some(d) => directive_of(seg(toks@, lo as int, hi as int), lines_view(toks@, ranges@))
                == Some(d@),
            None => directive_of(seg(toks@, lo as int, hi as int), lines_view(toks@, ranges@)) is None,
        },
{
    let ghost lv = lines_view(toks@, ranges@);
    if hi == lo {
        return None;
    }
    match tok_x(toks, lo, hi, 0) {
        Token::Comment(c) => if hi - lo == 1 && ranges.len() == 0 {
            Some(Directive::Comment { content: text_of(c) })
        } else {
            assert(ranges@.len() > 0 ==> lv.len() > 0);
            None
        },
        Token::Word(w) => if word_is(w, "option") || word_is(w, "plugin") || word_is(w, "include") {
            if ranges.len() == 0 {
                undated_x(w, toks, lo, hi)
            } else {
                assert(lv.len() > 0);
                None
            }
        } else {
            match date_from_word(w) {
                Some(d) => dated_x(d, toks, lo, hi, ranges),
                None => None,
            }
        },
        _ => None,
    }
}

/// The end of the token line from `i`.
fn line_end_x(toks: &Vec<Token>, i: usize) -> (r: usize)
    requires
        i <= toks@.len(),
    ensures
        r == line_tokens_end(tokens_view(toks@), i as int),
        i <= r <= toks@.len(),
        i < toks@.len() && !(toks@[i as int]@ is Newline) ==> i < r,
{
    let mut k = i;
    while k < toks.len() && !matches!(toks[k], Token::Newline(_))
        invariant
            i <= k <= toks@.len(),
            line_tokens_end(tokens_view(toks@), i as int) == line_tokens_end(
                tokens_view(toks@),
                k as int,
            ),
        decreases toks@.len() - k,
    {
        k = k + 1;
    }
    k
}

/// The first position from `i` that holds no line break.
fn skip_newlines_x(toks: &Vec<Token>, i: usize) -> (r: usize)
    requires
        i <= toks@.len(),
    ensures
        r == skip_newlines(tokens_view(toks@), i as int),
        i <= r <= toks@.len(),
        r < toks@.len() ==> !(toks@[r as int]@ is Newline),
{
    let mut k = i;
    while k < toks.len() && matches!(toks[k], Token::Newline(_))
        invariant
            i <= k <= toks@.len(),
            skip_newlines(tokens_view(toks@), i as int) == skip_newlines(tokens_view(toks@), k as int),
        decreases toks@.len() - k,
    {
        k = k + 1;
    }
    k
}

/// The continuation lines from the line break at `j`, as ranges of
/// tokens, and the position after them.
fn cont_lines_x(toks: &Vec<Token>, j: usize) -> (r: (Vec<(usize, usize)>, usize))
    requires
        j <= toks@.len(),
    ensures
        ranges_ok(toks@, r.0@),
        lines_view(toks@, r.0@) == cont_lines(tokens_view(toks@), j as int).0,
        r.1 == cont_lines(tokens_view(toks@), j as int).1,
        j <= r.1 <= toks@.len(),
{
    let ghost t = tokens_view(toks@);
    let mut ranges: Vec<(usize, usize)> = Vec::new();
    let mut k = j;
    assert(lines_view(toks@, ranges@) + cont_lines(t, k as int).0 =~= cont_lines(t, k as int).0);
    loop
        invariant
            j <= k <= toks@.len(),
            t == tokens_view(toks@),
            ranges_ok(toks@, ranges@),
            lines_view(toks@, ranges@) + cont_lines(t, k as int).0 == cont_lines(t, j as int).0,
            cont_lines(t, k as int).1 == cont_lines(t, j as int).1,
        decreases toks@.len() - k,
    {
        if !(toks.len() - k > 1 && matches!(toks[k], Token::Newline(true)) && !matches!(
            toks[k + 1],
            Token::Newline(_),
        )) {
            assert(lines_view(toks@, ranges@) + Seq::<Seq<TokenView>>::empty() =~= lines_view(
                toks@,
                ranges@,
            ));
            return (ranges, k);
        }
        let e = line_end_x(toks, k + 1);
        proof {
            let l = t.subrange(k + 1, e as int);
            let rest = cont_lines(t, e as int);
            assert(lines_view(toks@, ranges@.push(((k + 1) as usize, e))) =~= lines_view(toks@, ranges@).push(
                l,
            ));
            assert(lines_view(toks@, ranges@).push(l) + rest.0 =~= lines_view(toks@, ranges@) + (
            seq![l] + rest.0));
        }
        ranges.push((k + 1, e));
        k = e;
    }
}

/// The record that starts at token `i`, and the position after it.
fn record_x(toks: &Vec<Token>, i: usize) -> (r: Option<(Directive, usize)>)
    requires
        i < toks@.len(),
        !(toks@[i as int]@ is Newline),
    ensures
        match r {
            Some((d, e)) => record_at(tokens_view(toks@), i as int) == Some((d@, e as int)) && i < e
                <= toks@.len(),
            None => record_at(tokens_view(toks@), i as int) is None,
        },
{
    let h = line_end_x(toks, i);
    let (ranges, e) = cont_lines_x(toks, h);
    assert(seg(toks@, i as int, h as int) == tokens_view(toks@).subrange(i as int, h as int));
    match directive_x(toks, i, h, &ranges) {
        Some(d) => Some((d, e)),
        None => None,
    }
}

/// Parses a text that holds exactly one directive, blank lines around it
/// allowed. A failure carries the position where the failing string or
/// record starts.
pub fn parse_directive(text: &str) -> (r: Result<Directive, ParseError>)
    ensures
        match r {
            Ok(d) => directive_from_text(text@) == Some(d@),
            Err(e) => directive_from_text(text@) is None && (e.kind == ErrorKind::Lexical
                <==> tokens_of(text@) is None) && e.kind != ErrorKind::InvalidAccount
                && e.position <= text@.len(),
        },
{
    let s = crate::utils::chars_of(text);
    let (toks, starts) = match tokenize(&s) {
        Ok(t) => t,
        Err(p) => {
            return Err(ParseError { kind: ErrorKind::Lexical, position: p });
        },
    };
    let i = skip_newlines_x(&toks, 0);
    if i >= toks.len() {
        return Err(ParseError { kind: ErrorKind::Syntax, position: s.len() });
    }
    match record_x(&toks, i) {
        Some((d, e)) => {
            let f = skip_newlines_x(&toks, e);
            if f == toks.len() {
                Ok(d)
            } else {
                Err(ParseError { kind: ErrorKind::Syntax, position: starts[f] })
            }
        },
        None => Err(ParseError { kind: ErrorKind::Syntax, position: starts[i] }),
    }
}

/// Parses a whole document into its directives, comments included, in
/// the order of the text. A failure carries the position where the
/// failing string or record starts.
pub fn parse_entries(text: &str) -> (r: Result<Vec<Directive>, ParseError>)
    ensures
        match r {
            Ok(v) => entries_from_text(text@) == Some(v@.map_values(|d: Directive| d@)),
            Err(e) => entries_from_text(text@) is None && (e.kind == ErrorKind::Lexical
                <==> tokens_of(text@) is None) && e.kind != ErrorKind::InvalidAccount
                && e.position <= text@.len(),
        },
{
    let s = crate::utils::chars_of(text);
    let (toks, starts) = match tokenize(&s) {
        Ok(t) => t,
        Err(p) => {
            return Err(ParseError { kind: ErrorKind::Lexical, position: p });
        },
    };
    let ghost t = tokens_view(toks@);
    let mut out: Vec<Directive> = Vec::new();
    let mut i: usize = 0;
    assert(out@.map_values(|d: Directive| d@) =~= Seq::<DirectiveView>::empty());
    assert(prefix_views(Seq::<DirectiveView>::empty(), entries_from(t, 0)) =~= entries_from(t, 0))
        by {
        match entries_from(t, 0) {
            Some(x) => {
                assert(Seq::<DirectiveView>::empty() + x =~= x);
            },
            None => {},
        }
    };
    loop
        invariant
            i <= toks@.len(),
            t == tokens_view(toks@),
            tokens_of(text@) == Some(t),
            starts@.len() == toks@.len(),
            s@ == text@,
            forall|k: int| 0 <= k < starts@.len() ==> #[trigger] starts@[k] < s@.len(),
            prefix_views(out@.map_values(|d: Directive| d@), entries_from(t, i as int))
                == entries_from(t, 0),
        decreases toks@.len() - i,
    {
        let j = skip_newlines_x(&toks, i);
        if j >= toks.len() {
            assert(out@.map_values(|d: Directive| d@) + Seq::<DirectiveView>::empty()
                =~= out@.map_values(|d: Directive| d@));
            return Ok(out);
        }
        match record_x(&toks, j) {
            Some((d, e)) => {
                proof {
                    let prev = out@.map_values(|x: Directive| x@);
                    assert(out@.push(d).map_values(|x: Directive| x@) =~= prev.push(d@));
                    match entries_from(t, e as int) {
                        Some(x) => {
                            assert(prev.push(d@) + x =~= prev + (seq![d@] + x));
                        },
                        None => {},
                    }
                }
                out.push(d);
                i = e;
            },
            None => {
                return Err(ParseError { kind: ErrorKind::Syntax, position: starts[j] });
            },
        }
    }
}

/// Puts directives in front of a result, if there is one.
pub open spec fn prefix_views(xs: Seq<DirectiveView>, r: Option<Seq<DirectiveView>>) -> Option<
    Seq<DirectiveView>,
> {
    match r {
        Some(x) => Some(xs + x),
        None => None,
    }
}

/// The account of a text that is one account and nothing else: a type
/// name and at least one segment, each segment a non-empty run of
/// characters other than a colon or whitespace.
pub open spec fn account_from_text(s: Seq<char>) -> Option<(crate::models::AccountType, Seq<Seq<char>>)> {
    if forall|i: int| 0 <= i < s.len() ==> !crate::models::is_blank(#[trigger] s[i]) {
        match account_of(s) {
            Some(a) => if a.1.len() > 0 {
                Some(a)
            } else {
                None
            },
            None => None,
        }
    } else {
        None
    }
}

/// Parses a standalone account, which must have at least one segment and
/// no whitespace around it; a failure is placed at the first whitespace,
/// else at the start.
pub fn parse_account(text: &str) -> (r: Result<Account, ParseError>)
    ensures
        match r {
            Ok(a) => account_from_text(text@) == Some(a@),
            Err(e) => account_from_text(text@) is None && e.kind == ErrorKind::InvalidAccount
                && e.position <= text@.len(),
        },
{
    let s = crate::utils::chars_of(text);
    let mut i: usize = 0;
    while i < s.len()
        invariant
            i <= s@.len(),
            s@ == text@,
            forall|k: int| 0 <= k < i ==> !crate::models::is_blank(#[trigger] s@[k]),
        decreases s@.len() - i,
    {
        let c = s[i];
        if c == ' ' || c == '\t' || c == '\r' || c == '\n' {
            return Err(ParseError { kind: ErrorKind::InvalidAccount, position: i });
        }
        i = i + 1;
    }
    match account_from_word(&s) {
        Some(a) => if a.value.len() > 0 {
            Ok(a)
        } else {
            Err(ParseError { kind: ErrorKind::InvalidAccount, position: 0 })
        },
        None => Err(ParseError { kind: ErrorKind::InvalidAccount, position: 0 }),
    }
}

} // verus!
