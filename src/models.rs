//! The directive data model and its mathematical views.
use crate::meta::meta_entries;
use indexmap::IndexMap;
use vstd::prelude::*;

verus! {

/// The five root kinds of account.
#[derive(Debug, Clone, Copy, PartialEq, Eq, PartialOrd, Structural, Hash)]
pub enum AccountType {
    Assets,
    Liabilities,
    Equity,
    Income,
    Expenses,
}

impl AccountType {
    /// The keyword that names this account type in ledger text.
    pub open spec fn name(self) -> Seq<char> {
        match self {
            AccountType::Assets => "Assets"@,
            AccountType::Liabilities => "Liabilities"@,
            AccountType::Equity => "Equity"@,
            AccountType::Income => "Income"@,
            AccountType::Expenses => "Expenses"@,
        }
    }
}

/// An account: its root type and the path of segments below it.
#[derive(Debug, Clone, PartialEq, Eq, PartialOrd, Hash)]
pub struct Account {
    pub account_type: AccountType,
    pub value: Vec<String>,
}

/// A character that stands alone as a token of ledger text.
pub open spec fn is_punct(c: char) -> bool {
    c == '{' || c == '}' || c == ',' || c == '@'
}

/// A character of a bare word of ledger text.
pub open spec fn is_word_char(c: char) -> bool {
    !is_blank(c) && !is_punct(c) && c != '"'
}

/// A character that may stand inside an account segment: anything but a
/// colon or whitespace.
pub open spec fn is_segment_char(c: char) -> bool {
    c != ':' && !is_blank(c)
}

/// Inline whitespace: what separates tokens on one line.
pub open spec fn is_space(c: char) -> bool {
    c == ' ' || c == '\t' || c == '\r'
}

/// Any whitespace, line breaks included.
pub open spec fn is_blank(c: char) -> bool {
    is_space(c) || c == '\n'
}

impl View for Account {
    type V = (AccountType, Seq<Seq<char>>);

    open spec fn view(&self) -> (AccountType, Seq<Seq<char>>) {
        (self.account_type, self.value@.map_values(|s: String| s@))
    }
}

impl Account {
    /// Builds an account from its type and segments.
    pub fn new(account_type: AccountType, value: Vec<String>) -> (r: Self)
        ensures
            r.account_type == account_type,
            r.value == value,
    {
        Account { account_type, value }
    }

    /// Every segment is a non-empty run of segment characters.
    pub open spec fn wf(&self) -> bool {
        forall|i: int|
            0 <= i < self.value@.len() ==> {
                let seg = #[trigger] self.value@[i]@;
                seg.len() > 0 && forall|j: int| 0 <= j < seg.len() ==> is_segment_char(seg[j])
            }
    }
}

/// Whether a posting or transaction is complete (`*`) or incomplete (`!`).
#[derive(Debug, Clone, Copy, PartialEq, Eq, PartialOrd, Structural, Hash)]
pub enum Flag {
    Complete,
    Incomplete,
}

/// A calendar date: year, month and day of the proleptic Gregorian calendar.
#[derive(Debug, Clone, Copy, PartialEq, Eq, Structural, Hash)]
pub struct Date {
    pub year: u32,
    pub month: u32,
    pub day: u32,
}

/// Whether `y` is a leap year of the Gregorian calendar.
pub open spec fn is_leap_year(y: int) -> bool {
    y % 4 == 0 && (y % 100 != 0 || y % 400 == 0)
}

/// The number of days in month `m` of year `y`.
pub open spec fn days_in_month(y: int, m: int) -> int {
    if m == 2 {
        if is_leap_year(y) {
            29
        } else {
            28
        }
    } else if m == 4 || m == 6 || m == 9 || m == 11 {
        30
    } else {
        31
    }
}

/// Whether year, month and day name a day of the calendar.
pub open spec fn is_calendar_day(y: int, m: int, d: int) -> bool {
    1 <= m <= 12 && 1 <= d <= days_in_month(y, m)
}

impl Date {
    /// A day of the calendar whose year has four digits.
    pub open spec fn wf(&self) -> bool {
        self.year <= 9999 && is_calendar_day(self.year as int, self.month as int, self.day as int)
    }
}

/// A decimal number of unbounded precision, kept digit by digit.
///
/// `int_digits` are the digits before the point, `frac_digits` those after
/// it; the number of fractional digits is the value's precision and is kept
/// as written.
#[derive(Debug, Clone, PartialEq, Eq, Hash)]
pub struct Decimal {
    pub negative: bool,
    pub int_digits: Vec<u8>,
    pub frac_digits: Vec<u8>,
}

/// Every element is a decimal digit.
pub open spec fn all_digits(s: Seq<u8>) -> bool {
    forall|i: int| 0 <= i < s.len() ==> #[trigger] s[i] < 10
}

/// Every element is the digit zero.
pub open spec fn all_zero(s: Seq<u8>) -> bool {
    forall|i: int| 0 <= i < s.len() ==> #[trigger] s[i] == 0
}

impl View for Decimal {
    type V = (bool, Seq<u8>, Seq<u8>);

    open spec fn view(&self) -> (bool, Seq<u8>, Seq<u8>) {
        (self.negative, self.int_digits@, self.frac_digits@)
    }
}

impl Decimal {
    /// Canonical form: digits only, at least one integer digit, no leading
    /// zero before another integer digit, and no sign on zero.
    pub open spec fn wf(&self) -> bool {
        &&& self.int_digits@.len() > 0
        &&& all_digits(self.int_digits@)
        &&& all_digits(self.frac_digits@)
        &&& self.int_digits@.len() > 1 ==> self.int_digits@[0] != 0
        &&& self.negative ==> !(all_zero(self.int_digits@) && all_zero(self.frac_digits@))
    }
}

/// A quantity of a commodity.
pub type Amount = (Decimal, String);

/// The mathematical value of an amount.
pub open spec fn amount_view(a: Amount) -> ((bool, Seq<u8>, Seq<u8>), Seq<char>) {
    (a.0@, a.1@)
}

/// A character that may stand in a commodity symbol.
pub open spec fn is_commodity_char(c: char) -> bool {
    ('A' <= c <= 'Z') || ('a' <= c <= 'z') || ('0' <= c <= '9')
}

/// A non-empty run of commodity characters.
pub open spec fn is_commodity(s: Seq<char>) -> bool {
    s.len() > 0 && forall|i: int| 0 <= i < s.len() ==> is_commodity_char(#[trigger] s[i])
}

/// A character that may stand in a tag or a link name.
pub open spec fn is_tag_char(c: char) -> bool {
    ('A' <= c <= 'Z') || ('a' <= c <= 'z') || ('0' <= c <= '9') || c == '-'
}

/// A non-empty run of tag characters.
pub open spec fn is_tag(s: Seq<char>) -> bool {
    s.len() > 0 && forall|i: int| 0 <= i < s.len() ==> is_tag_char(#[trigger] s[i])
}

/// A character that may stand in a metadata key.
pub open spec fn is_key_char(c: char) -> bool {
    c != ':' && is_word_char(c)
}

/// A non-empty run of metadata key characters.
pub open spec fn is_key(s: Seq<char>) -> bool {
    s.len() > 0 && forall|i: int| 0 <= i < s.len() ==> is_key_char(#[trigger] s[i])
}

/// A well-formed amount: a canonical number and a commodity symbol.
pub open spec fn amount_wf(a: Amount) -> bool {
    a.0.wf() && is_commodity(a.1@)
}

/// One posting of a transaction.
#[derive(Debug, PartialEq, Eq)]
pub struct TransactionLine {
    pub flag: Flag,
    pub account: Account,
    pub amount: Option<Amount>,
    pub cost: Option<(Amount, Option<String>)>,
    pub single_price: Option<Amount>,
    pub total_price: Option<Amount>,
}

/// The view of an optional string.
pub open spec fn opt_view(o: Option<String>) -> Option<Seq<char>> {
    match o {
        Some(s) => Some(s@),
        None => None,
    }
}

/// The view of an optional amount.
pub open spec fn opt_amount_view(o: Option<Amount>) -> Option<((bool, Seq<u8>, Seq<u8>), Seq<char>)> {
    match o {
        Some(a) => Some(amount_view(a)),
        None => None,
    }
}

/// The view of a list of strings.
pub open spec fn strings_view(v: Vec<String>) -> Seq<Seq<char>> {
    v@.map_values(|s: String| s@)
}

/// The mathematical value of a posting.
pub struct LineView {
    pub flag: Flag,
    pub account: (AccountType, Seq<Seq<char>>),
    pub amount: Option<((bool, Seq<u8>, Seq<u8>), Seq<char>)>,
    pub cost: Option<(((bool, Seq<u8>, Seq<u8>), Seq<char>), Option<Seq<char>>)>,
    pub single_price: Option<((bool, Seq<u8>, Seq<u8>), Seq<char>)>,
    pub total_price: Option<((bool, Seq<u8>, Seq<u8>), Seq<char>)>,
}

impl View for TransactionLine {
    type V = LineView;

    open spec fn view(&self) -> LineView {
        LineView {
            flag: self.flag,
            account: self.account@,
            amount: opt_amount_view(self.amount),
            cost: match self.cost {
                Some((a, n)) => Some((amount_view(a), opt_view(n))),
                None => None,
            },
            single_price: opt_amount_view(self.single_price),
            total_price: opt_amount_view(self.total_price),
        }
    }
}

impl TransactionLine {
    /// A posting that the grammar can express: prices and a cost only
    /// after an amount, and never both a per-unit and a total price.
    pub open spec fn wf(&self) -> bool {
        &&& self.account.wf()
        &&& match self.amount {
            Some(a) => amount_wf(a),
            None => self.cost.is_none() && self.single_price.is_none() && self.total_price.is_none(),
        }
        &&& match self.cost {
            Some((a, _)) => amount_wf(a),
            None => true,
        }
        &&& match self.single_price {
            Some(a) => amount_wf(a),
            None => true,
        }
        &&& match self.total_price {
            Some(a) => amount_wf(a),
            None => true,
        }
        &&& !(self.single_price.is_some() && self.total_price.is_some())
    }
}

/// A dated transaction with its postings.
#[derive(Debug, PartialEq, Eq)]
pub struct Transaction {
    pub date: Date,
    pub flag: Flag,
    pub payee: Option<String>,
    pub narration: Option<String>,
    pub tags: Vec<String>,
    pub links: Vec<String>,
    pub lines: Vec<TransactionLine>,
}

/// The mathematical value of a transaction.
pub struct TransactionView {
    pub date: Date,
    pub flag: Flag,
    pub payee: Option<Seq<char>>,
    pub narration: Option<Seq<char>>,
    pub tags: Seq<Seq<char>>,
    pub links: Seq<Seq<char>>,
    pub lines: Seq<LineView>,
}

impl View for Transaction {
    type V = TransactionView;

    open spec fn view(&self) -> TransactionView {
        TransactionView {
            date: self.date,
            flag: self.flag,
            payee: opt_view(self.payee),
            narration: opt_view(self.narration),
            tags: strings_view(self.tags),
            links: strings_view(self.links),
            lines: self.lines@.map_values(|l: TransactionLine| l@),
        }
    }
}

impl Transaction {
    /// A transaction that the grammar can express: a payee only beside a
    /// narration, well-formed tags, links and postings, and at least one
    /// posting.
    pub open spec fn wf(&self) -> bool {
        &&& self.date.wf()
        &&& (self.payee.is_some() ==> self.narration.is_some())
        &&& forall|i: int| 0 <= i < self.tags@.len() ==> is_tag(#[trigger] self.tags@[i]@)
        &&& forall|i: int| 0 <= i < self.links@.len() ==> is_tag(#[trigger] self.links@[i]@)
        &&& self.lines@.len() > 0
        &&& forall|i: int| 0 <= i < self.lines@.len() ==> (#[trigger] self.lines@[i]).wf()
    }

    /// Builds a transaction from its parts.
    pub fn new(
        date: Date,
        flag: Flag,
        payee: Option<String>,
        narration: Option<String>,
        tags: Vec<String>,
        links: Vec<String>,
        lines: Vec<TransactionLine>,
    ) -> (r: Self)
        ensures
            r.date == date,
            r.flag == flag,
            r.payee == payee,
            r.narration == narration,
            r.tags == tags,
            r.links == links,
            r.lines == lines,
    {
        Transaction { date, flag, payee, narration, tags, links, lines }
    }
}

/// One record of a ledger.
#[derive(Debug, PartialEq)]
pub enum Directive {
    Open { date: Date, account: Account, commodities: Option<Vec<String>> },
    Close { date: Date, account: Account },
    Commodity { date: Date, name: String, metas: IndexMap<String, String> },
    Transaction(Transaction),
    Balance { date: Date, account: Account, amount: Amount },
    Pad { date: Date, from: Account, to: Account },
    Note { date: Date, account: Account, description: String },
    Document { date: Date, account: Account, path: String },
    Price { date: Date, commodity: String, amount: Amount },
    Event { date: Date, name: String, value: String },
    Custom { date: Date, custom_type: String, values: Vec<String> },
    Option { key: String, value: String },
    Plugin { module: String, value: Option<String> },
    Include { file: String },
    Comment { content: String },
}

/// The mathematical value of a directive.
pub enum DirectiveView {
    Open { date: Date, account: (AccountType, Seq<Seq<char>>), commodities: Option<Seq<Seq<char>>> },
    Close { date: Date, account: (AccountType, Seq<Seq<char>>) },
    Commodity { date: Date, name: Seq<char>, metas: Seq<(Seq<char>, Seq<char>)> },
    Transaction(TransactionView),
    Balance { date: Date, account: (AccountType, Seq<Seq<char>>), amount: ((bool, Seq<u8>, Seq<u8>), Seq<char>) },
    Pad { date: Date, from: (AccountType, Seq<Seq<char>>), to: (AccountType, Seq<Seq<char>>) },
    Note { date: Date, account: (AccountType, Seq<Seq<char>>), description: Seq<char> },
    Document { date: Date, account: (AccountType, Seq<Seq<char>>), path: Seq<char> },
    Price { date: Date, commodity: Seq<char>, amount: ((bool, Seq<u8>, Seq<u8>), Seq<char>) },
    Event { date: Date, name: Seq<char>, value: Seq<char> },
    Custom { date: Date, custom_type: Seq<char>, values: Seq<Seq<char>> },
    Option { key: Seq<char>, value: Seq<char> },
    Plugin { module: Seq<char>, value: Option<Seq<char>> },
    Include { file: Seq<char> },
    Comment { content: Seq<char> },
}

impl View for Directive {
    type V = DirectiveView;

    open spec fn view(&self) -> DirectiveView {
        match self {
            Directive::Open { date, account, commodities } => DirectiveView::Open {
                date: *date,
                account: account@,
                commodities: match commodities {
                    Some(c) => Some(strings_view(*c)),
                    None => None,
                },
            },
            Directive::Close { date, account } => DirectiveView::Close { date: *date, account: account@ },
            Directive::Commodity { date, name, metas } => DirectiveView::Commodity {
                date: *date,
                name: name@,
                metas: meta_entries(*metas),
            },
            Directive::Transaction(t) => DirectiveView::Transaction(t@),
            Directive::Balance { date, account, amount } => DirectiveView::Balance {
                date: *date,
                account: account@,
                amount: amount_view(*amount),
            },
            Directive::Pad { date, from, to } => DirectiveView::Pad { date: *date, from: from@, to: to@ },
            Directive::Note { date, account, description } => DirectiveView::Note {
                date: *date,
                account: account@,
                description: description@,
            },
            Directive::Document { date, account, path } => DirectiveView::Document {
                date: *date,
                account: account@,
                path: path@,
            },
            Directive::Price { date, commodity, amount } => DirectiveView::Price {
                date: *date,
                commodity: commodity@,
                amount: amount_view(*amount),
            },
            Directive::Event { date, name, value } => DirectiveView::Event { date: *date, name: name@, value: value@ },
            Directive::Custom { date, custom_type, values } => DirectiveView::Custom {
                date: *date,
                custom_type: custom_type@,
                values: strings_view(*values),
            },
            Directive::Option { key, value } => DirectiveView::Option { key: key@, value: value@ },
            Directive::Plugin { module, value } => DirectiveView::Plugin { module: module@, value: opt_view(*value) },
            Directive::Include { file } => DirectiveView::Include { file: file@ },
            Directive::Comment { content } => DirectiveView::Comment { content: content@ },
        }
    }
}

/// A comment line: it starts with `;` and holds no line break.
pub open spec fn is_comment_text(s: Seq<char>) -> bool {
    s.len() > 0 && s[0] == ';' && forall|i: int| 0 <= i < s.len() ==> #[trigger] s[i] != '\n'
}

/// Metadata keys that are all distinct and well-formed, none starting
/// like a comment.
pub open spec fn metas_wf(m: Seq<(Seq<char>, Seq<char>)>) -> bool {
    &&& forall|i: int| 0 <= i < m.len() ==> is_key(#[trigger] m[i].0) && m[i].0[0] != ';'
    &&& forall|i: int, j: int| 0 <= i < j < m.len() ==> #[trigger] m[i].0 != #[trigger] m[j].0
}

impl Directive {
    /// A directive that the ledger grammar can express.
    pub open spec fn wf(&self) -> bool {
        match self {
            Directive::Open { date, account, commodities } => {
                &&& date.wf()
                &&& account.wf()
                &&& match commodities {
                    Some(c) => c@.len() > 0 && forall|i: int|
                        0 <= i < c@.len() ==> is_commodity(#[trigger] c@[i]@),
                    None => true,
                }
            },
            Directive::Close { date, account } => date.wf() && account.wf(),
            Directive::Commodity { date, name, metas } => date.wf() && is_commodity(name@) && metas_wf(
                meta_entries(*metas),
            ),
            Directive::Transaction(t) => t.wf(),
            Directive::Balance { date, account, amount } => date.wf() && account.wf() && amount_wf(*amount),
            Directive::Pad { date, from, to } => date.wf() && from.wf() && to.wf(),
            Directive::Note { date, account, .. } => date.wf() && account.wf(),
            Directive::Document { date, account, .. } => date.wf() && account.wf(),
            Directive::Price { date, commodity, amount } => date.wf() && is_commodity(commodity@)
                && amount_wf(*amount),
            Directive::Event { date, .. } => date.wf(),
            Directive::Custom { date, values, .. } => date.wf() && values@.len() > 0,
            Directive::Option { .. } => true,
            Directive::Plugin { .. } => true,
            Directive::Include { .. } => true,
            Directive::Comment { content } => is_comment_text(content@),
        }
    }
}

} // verus!
