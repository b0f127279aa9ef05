//! The bare words of ledger text: dates, numbers, accounts, commodities,
//! tags and links.
use crate::models::{
    all_zero, is_calendar_day, is_commodity, is_commodity_char, is_tag, is_tag_char, Account,
    AccountType, Date, Decimal,
};
use crate::utils::{chars_of, string_of};
use vstd::prelude::*;

verus! {

/// A decimal digit character.
pub open spec fn is_digit(c: char) -> bool {
    '0' <= c <= '9'
}

/// The value of a digit character.
pub open spec fn digit_value(c: char) -> int {
    c as int - 48
}

/// The date written `YYYY-MM-DD`, when it is a day of the calendar.
pub open spec fn date_of(w: Seq<char>) -> Option<Date> {
    if w.len() == 10 && is_digit(w[0]) && is_digit(w[1]) && is_digit(w[2]) && is_digit(w[3])
        && w[4] == '-' && is_digit(w[5]) && is_digit(w[6]) && w[7] == '-' && is_digit(w[8])
        && is_digit(w[9]) {
        let y = digit_value(w[0]) * 1000 + digit_value(w[1]) * 100 + digit_value(w[2]) * 10
            + digit_value(w[3]);
        let m = digit_value(w[5]) * 10 + digit_value(w[6]);
        let d = digit_value(w[8]) * 10 + digit_value(w[9]);
        if is_calendar_day(y, m, d) {
            Some(Date { year: y as u32, month: m as u32, day: d as u32 })
        } else {
            None
        }
    } else {
        None
    }
}

/// Relies on `chrono::NaiveDate::from_ymd_opt`: it gives a date exactly
/// when the month is 1 to 12 and the day exists in that month of the
/// Gregorian calendar, for every year of four digits.
#[verifier::external_body]
fn calendar_day(y: u32, m: u32, d: u32) -> (r: bool)
    requires
        y <= 9999,
    ensures
        r == is_calendar_day(y as int, m as int, d as int),
{
    chrono::NaiveDate::from_ymd_opt(y as i32, m, d).is_some()
}

impl Date {
    /// The date of the given year, month and day, when it exists and its
    /// year has four digits.
    pub fn from_ymd_opt(year: u32, month: u32, day: u32) -> (r: Option<Date>)
        ensures
            r == (if year <= 9999 && is_calendar_day(year as int, month as int, day as int) {
                Some(Date { year, month, day })
            } else {
                None
            }),
    {
        if year <= 9999 && calendar_day(year, month, day) {
            Some(Date { year, month, day })
        } else {
            None
        }
    }
}

/// The value of a digit character.
fn digit(c: char) -> (r: u32)
    requires
        is_digit(c),
    ensures
        r == digit_value(c),
        r < 10,
{
    (c as u32) - 48
}

/// Parses a date word.
pub fn date_from_word(w: &Vec<char>) -> (r: Option<Date>)
    ensures
        r == date_of(w@),
{
    if w.len() != 10 {
        return None;
    }
    let dg = |c: char| -> (r: bool)
        ensures
            r == is_digit(c),
        { '0' <= c && c <= '9' };
    if !(dg(w[0]) && dg(w[1]) && dg(w[2]) && dg(w[3]) && w[4] == '-' && dg(w[5]) && dg(w[6])
        && w[7] == '-' && dg(w[8]) && dg(w[9])) {
        return None;
    }
    let y = digit(w[0]) * 1000 + digit(w[1]) * 100 + digit(w[2]) * 10 + digit(w[3]);
    let m = digit(w[5]) * 10 + digit(w[6]);
    let d = digit(w[8]) * 10 + digit(w[9]);
    if calendar_day(y, m, d) {
        Some(Date { year: y, month: m, day: d })
    } else {
        None
    }
}

/// The end of the run of digits from `p`.
pub open spec fn digit_end(s: Seq<char>, p: int) -> int
    decreases s.len() - p,
{
    if 0 <= p < s.len() && is_digit(s[p]) {
        digit_end(s, p + 1)
    } else {
        p
    }
}

/// The digit values of digit characters.
pub open spec fn digit_vals(s: Seq<char>) -> Seq<u8> {
    s.map_values(|c: char| digit_value(c) as u8)
}

/// Digits without their leading zeros, one digit at least kept.
pub open spec fn strip_zeros(d: Seq<u8>) -> Seq<u8>
    decreases d.len(),
{
    if d.len() > 1 && d[0] == 0 {
        strip_zeros(d.drop_first())
    } else {
        d
    }
}

/// The canonical decimal written `[-]digits[.digits]`: leading zeros of
/// the integer part dropped, and no sign on zero.
pub open spec fn decimal_of(w: Seq<char>) -> Option<(bool, Seq<u8>, Seq<u8>)> {
    let neg = w.len() > 0 && w[0] == '-';
    let b: int = if neg {
        1
    } else {
        0
    };
    let p = digit_end(w, b);
    if p == b {
        None
    } else {
        let iv = strip_zeros(digit_vals(w.subrange(b, p)));
        if p == w.len() {
            Some((neg && !all_zero(iv), iv, Seq::empty()))
        } else if w[p] == '.' && p + 1 < w.len() && digit_end(w, p + 1) == w.len() {
            let fv = digit_vals(w.subrange(p + 1, w.len() as int));
            Some((neg && !(all_zero(iv) && all_zero(fv)), iv, fv))
        } else {
            None
        }
    }
}

/// The end of the run of digits from `p`.
fn scan_digits(w: &Vec<char>, p: usize) -> (r: usize)
    requires
        p <= w@.len(),
    ensures
        r == digit_end(w@, p as int),
        p <= r <= w@.len(),
        forall|i: int| p <= i < r ==> is_digit(#[trigger] w@[i]),
{
    let mut i = p;
    while i < w.len() && '0' <= w[i] && w[i] <= '9'
        invariant
            p <= i <= w@.len(),
            digit_end(w@, p as int) == digit_end(w@, i as int),
            forall|k: int| p <= k < i ==> is_digit(#[trigger] w@[k]),
        decreases w@.len() - i,
    {
        i = i + 1;
    }
    i
}

/// The digit values of `w[lo..hi]`, all digits.
fn digits_from(w: &Vec<char>, lo: usize, hi: usize) -> (r: Vec<u8>)
    requires
        lo <= hi <= w@.len(),
        forall|i: int| lo <= i < hi ==> is_digit(#[trigger] w@[i]),
    ensures
        r@ == digit_vals(w@.subrange(lo as int, hi as int)),
        forall|i: int| 0 <= i < r@.len() ==> #[trigger] r@[i] < 10,
{
    let mut out: Vec<u8> = Vec::new();
    let mut i = lo;
    while i < hi
        invariant
            lo <= i <= hi <= w@.len(),
            forall|k: int| lo <= k < hi ==> is_digit(#[trigger] w@[k]),
            out@ == digit_vals(w@.subrange(lo as int, i as int)),
            forall|k: int| 0 <= k < out@.len() ==> #[trigger] out@[k] < 10,
        decreases hi - i,
    {
        let d = digit(w[i]) as u8;
        out.push(d);
        assert(digit_vals(w@.subrange(lo as int, i + 1)) =~= digit_vals(
            w@.subrange(lo as int, i as int),
        ).push(d));
        i = i + 1;
    }
    out
}

/// Whether every digit is zero.
fn zeros(d: &Vec<u8>) -> (r: bool)
    ensures
        r == all_zero(d@),
{
    let mut i: usize = 0;
    while i < d.len()
        invariant
            i <= d@.len(),
            forall|k: int| 0 <= k < i ==> #[trigger] d@[k] == 0,
        decreases d@.len() - i,
    {
        if d[i] != 0 {
            return false;
        }
        i = i + 1;
    }
    true
}

/// Parses a number word into a canonical decimal.
pub fn decimal_from_word(w: &Vec<char>) -> (r: Option<Decimal>)
    ensures
        match r {
            Some(x) => decimal_of(w@) == Some(x@) && x.wf(),
            None => decimal_of(w@) is None,
        },
{
    let neg = w.len() > 0 && w[0] == '-';
    let b: usize = if neg {
        1
    } else {
        0
    };
    let p = scan_digits(w, b);
    if p == b {
        return None;
    }
    let mut q = b;
    while q + 1 < p && w[q] == '0'
        invariant
            b <= q < p <= w@.len(),
            forall|i: int| b <= i < p ==> is_digit(#[trigger] w@[i]),
            strip_zeros(digit_vals(w@.subrange(b as int, p as int))) == strip_zeros(
                digit_vals(w@.subrange(q as int, p as int)),
            ),
        decreases p - q,
    {
        assert(digit_vals(w@.subrange(q as int, p as int)).drop_first() =~= digit_vals(
            w@.subrange(q + 1, p as int),
        ));
        q = q + 1;
    }
    let iv = digits_from(w, q, p);
    assert(strip_zeros(iv@) == iv@);
    if p == w.len() {
        let z = zeros(&iv);
        let x = Decimal { negative: neg && !z, int_digits: iv, frac_digits: Vec::new() };
        assert(x@ =~= (neg && !all_zero(iv@), iv@, Seq::<u8>::empty()));
        return Some(x);
    }
    if !(w[p] == '.' && p + 1 < w.len()) {
        return None;
    }
    let f = scan_digits(w, p + 1);
    if f != w.len() {
        return None;
    }
    let fv = digits_from(w, p + 1, f);
    let z = zeros(&iv) && zeros(&fv);
    Some(Decimal { negative: neg && !z, int_digits: iv, frac_digits: fv })
}

/// Whether `w` starts with the name of account type `t`, followed by a
/// colon or nothing.
pub open spec fn starts_with_type(w: Seq<char>, t: AccountType) -> bool {
    let n = t.name();
    n.len() <= w.len() && w.subrange(0, n.len() as int) == n && (w.len() == n.len() || w[n.len() as int]
        == ':')
}

/// The account type that a word starts with.
pub open spec fn account_type_of(w: Seq<char>) -> Option<AccountType> {
    if starts_with_type(w, AccountType::Assets) {
        Some(AccountType::Assets)
    } else if starts_with_type(w, AccountType::Liabilities) {
        Some(AccountType::Liabilities)
    } else if starts_with_type(w, AccountType::Equity) {
        Some(AccountType::Equity)
    } else if starts_with_type(w, AccountType::Income) {
        Some(AccountType::Income)
    } else if starts_with_type(w, AccountType::Expenses) {
        Some(AccountType::Expenses)
    } else {
        None
    }
}

/// The end of the run of characters other than `:` from `p`.
pub open spec fn colon_end(s: Seq<char>, p: int) -> int
    decreases s.len() - p,
{
    if 0 <= p < s.len() && s[p] != ':' {
        colon_end(s, p + 1)
    } else {
        p
    }
}

/// The segments written from `pos` on, each after a colon and non-empty.
pub open spec fn segments_of(w: Seq<char>, pos: int) -> Option<Seq<Seq<char>>>
    decreases w.len() - pos,
{
    if pos < 0 || pos >= w.len() {
        Some(Seq::empty())
    } else if w[pos] != ':' {
        None
    } else {
        let e = colon_end(w, pos + 1);
        if pos + 1 < e <= w.len() {
            match segments_of(w, e) {
                Some(r) => Some(seq![w.subrange(pos + 1, e)] + r),
                None => None,
            }
        } else {
            None
        }
    }
}

/// The account written as a word: a type name, then segments.
pub open spec fn account_of(w: Seq<char>) -> Option<(AccountType, Seq<Seq<char>>)> {
    match account_type_of(w) {
        Some(t) => match segments_of(w, t.name().len() as int) {
            Some(segs) => Some((t, segs)),
            None => None,
        },
        None => None,
    }
}

/// Whether the characters of `w` are those of `lit`.
pub fn word_is(w: &Vec<char>, lit: &str) -> (r: bool)
    ensures
        r == (w@ == lit@),
{
    let l = chars_of(lit);
    if w.len() != l.len() {
        return false;
    }
    let mut i: usize = 0;
    while i < w.len()
        invariant
            i <= w@.len(),
            w@.len() == l@.len(),
            l@ == lit@,
            forall|k: int| 0 <= k < i ==> w@[k] == l@[k],
        decreases w@.len() - i,
    {
        if w[i] != l[i] {
            return false;
        }
        i = i + 1;
    }
    assert(w@ =~= l@);
    true
}

/// Whether `w` starts with the name of account type `t`, followed by a
/// colon or nothing.
fn word_starts_with_type(w: &Vec<char>, t: AccountType) -> (r: bool)
    ensures
        r == starts_with_type(w@, t),
{
    let l = chars_of(t.name_str());
    if l.len() > w.len() {
        return false;
    }
    let mut i: usize = 0;
    while i < l.len()
        invariant
            i <= l@.len() <= w@.len(),
            l@ == t.name(),
            forall|k: int| 0 <= k < i ==> w@[k] == l@[k],
        decreases l@.len() - i,
    {
        if w[i] != l[i] {
            return false;
        }
        i = i + 1;
    }
    assert(w@.subrange(0, l@.len() as int) =~= l@);
    w.len() == l.len() || w[l.len()] == ':'
}

/// Puts `x` in front of a sequence of segments, if there is one.
pub open spec fn prefix_segments(x: Seq<Seq<char>>, r: Option<Seq<Seq<char>>>) -> Option<
    Seq<Seq<char>>,
> {
    match r {
        Some(t) => Some(x + t),
        None => None,
    }
}

/// Parses an account word.
pub fn account_from_word(w: &Vec<char>) -> (r: Option<Account>)
    ensures
        match r {
            Some(a) => account_of(w@) == Some(a@),
            None => account_of(w@) is None,
        },
{
    let t = if word_starts_with_type(w, AccountType::Assets) {
        AccountType::Assets
    } else if word_starts_with_type(w, AccountType::Liabilities) {
        AccountType::Liabilities
    } else if word_starts_with_type(w, AccountType::Equity) {
        AccountType::Equity
    } else if word_starts_with_type(w, AccountType::Income) {
        AccountType::Income
    } else if word_starts_with_type(w, AccountType::Expenses) {
        AccountType::Expenses
    } else {
        return None;
    };
    let l = chars_of(t.name_str());
    let mut pos = l.len();
    let mut segs: Vec<String> = Vec::new();
    assert(prefix_segments(segs@.map_values(|s: String| s@), segments_of(w@, pos as int))
        =~= segments_of(w@, pos as int)) by {
        match segments_of(w@, pos as int) {
            Some(x) => {
                assert(segs@.map_values(|s: String| s@) + x =~= x);
            },
            None => {},
        }
    };
    while pos < w.len()
        invariant
            pos <= w@.len(),
            account_type_of(w@) == Some(t),
            prefix_segments(segs@.map_values(|s: String| s@), segments_of(w@, pos as int))
                == segments_of(w@, t.name().len() as int),
        decreases w@.len() - pos,
    {
        if w[pos] != ':' {
            return None;
        }
        let mut e = pos + 1;
        while e < w.len() && w[e] != ':'
            invariant
                pos < e <= w@.len(),
                colon_end(w@, pos + 1) == colon_end(w@, e as int),
            decreases w@.len() - e,
        {
            e = e + 1;
        }
        if e == pos + 1 {
            return None;
        }
        let seg = string_of(w, pos + 1, e);
        proof {
            let v = segs@.map_values(|s: String| s@);
            assert(segs@.push(seg).map_values(|s: String| s@) =~= v.push(seg@));
            match segments_of(w@, e as int) {
                Some(x) => {
                    assert(v.push(seg@) + x =~= v + (seq![seg@] + x));
                },
                None => {},
            }
        }
        segs.push(seg);
        pos = e;
    }
    assert(segs@.map_values(|s: String| s@) + Seq::<Seq<char>>::empty() =~= segs@.map_values(
        |s: String| s@,
    ));
    Some(Account { account_type: t, value: segs })
}

/// Whether a word is a commodity symbol.
pub fn commodity_word(w: &Vec<char>) -> (r: bool)
    ensures
        r == is_commodity(w@),
{
    if w.len() == 0 {
        return false;
    }
    let mut i: usize = 0;
    while i < w.len()
        invariant
            i <= w@.len(),
            forall|k: int| 0 <= k < i ==> is_commodity_char(#[trigger] w@[k]),
        decreases w@.len() - i,
    {
        let c = w[i];
        if !(('A' <= c && c <= 'Z') || ('a' <= c && c <= 'z') || ('0' <= c && c <= '9')) {
            return false;
        }
        i = i + 1;
    }
    true
}

/// Whether `w[1..]` is a tag or link name.
pub fn tag_tail(w: &Vec<char>) -> (r: bool)
    requires
        w@.len() > 0,
    ensures
        r == is_tag(w@.drop_first()),
{
    if w.len() == 1 {
        return false;
    }
    let mut i: usize = 1;
    while i < w.len()
        invariant
            1 <= i <= w@.len(),
            forall|k: int| 1 <= k < i ==> is_tag_char(#[trigger] w@[k]),
        decreases w@.len() - i,
    {
        let c = w[i];
        if !(('A' <= c && c <= 'Z') || ('a' <= c && c <= 'z') || ('0' <= c && c <= '9') || c == '-') {
            assert(w@.drop_first()[i - 1] == c);
            return false;
        }
        i = i + 1;
    }
    assert forall|k: int| 0 <= k < w@.drop_first().len() implies is_tag_char(
        #[trigger] w@.drop_first()[k],
    ) by {
        assert(w@.drop_first()[k] == w@[k + 1]);
    };
    true
}

} // verus!
