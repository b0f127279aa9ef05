//! Rendering of directives as canonical ledger text.
use crate::meta::{meta_entries, meta_get_index, meta_len};
use crate::models::{
    amount_view, strings_view, Account, AccountType, Amount, Date, Decimal, Directive, Flag,
    Transaction, TransactionLine,
};
use crate::utils::{escape_with_quote, push_char, quoted};
use vstd::prelude::*;

verus! {

/// The concatenation of a sequence of texts.
pub open spec fn concat_all(parts: Seq<Seq<char>>) -> Seq<char>
    decreases parts.len(),
{
    if parts.len() == 0 {
        Seq::empty()
    } else {
        parts[0] + concat_all(parts.drop_first())
    }
}

/// Concatenating one more part appends it.
pub proof fn lemma_concat_all_push(parts: Seq<Seq<char>>, x: Seq<char>)
    ensures
        concat_all(parts.push(x)) == concat_all(parts) + x,
    decreases parts.len(),
{
    if parts.len() == 0 {
        assert(parts.push(x).drop_first() =~= Seq::<Seq<char>>::empty());
        assert(concat_all(Seq::<Seq<char>>::empty()) =~= Seq::<char>::empty());
        assert(parts.push(x)[0] == x);
        assert(concat_all(parts.push(x)) =~= x);
    } else {
        assert(parts.push(x).drop_first() =~= parts.drop_first().push(x));
        lemma_concat_all_push(parts.drop_first(), x);
        assert(concat_all(parts.push(x)) =~= concat_all(parts) + x);
    }
}

/// The character of a decimal digit.
pub open spec fn digit_char(d: int) -> char {
    (d + 48) as char
}

/// The characters of a sequence of decimal digits.
pub open spec fn digits_text(s: Seq<u8>) -> Seq<char> {
    s.map_values(|d: u8| digit_char((d % 10) as int))
}

/// A date as `YYYY-MM-DD`.
pub open spec fn date_text(d: Date) -> Seq<char> {
    let y = d.year as int;
    let m = d.month as int;
    let day = d.day as int;
    seq![
        digit_char(y / 1000 % 10),
        digit_char(y / 100 % 10),
        digit_char(y / 10 % 10),
        digit_char(y % 10),
        '-',
        digit_char(m / 10 % 10),
        digit_char(m % 10),
        '-',
        digit_char(day / 10 % 10),
        digit_char(day % 10),
    ]
}

/// A decimal: an optional minus sign, the integer digits, and the
/// fractional digits after a point when there are any.
pub open spec fn decimal_text(x: Decimal) -> Seq<char> {
    (if x.negative {
        seq!['-']
    } else {
        Seq::empty()
    }) + digits_text(x.int_digits@) + (if x.frac_digits@.len() > 0 {
        seq!['.'] + digits_text(x.frac_digits@)
    } else {
        Seq::empty()
    })
}

/// An amount: the number, a space, the commodity.
pub open spec fn amount_text(a: Amount) -> Seq<char> {
    decimal_text(a.0) + seq![' '] + a.1@
}

/// The segments of an account, each after a colon.
pub open spec fn segments_text(segs: Seq<Seq<char>>) -> Seq<char> {
    concat_all(segs.map_values(|s: Seq<char>| seq![':'] + s))
}

/// An account: its type, then its segments.
pub open spec fn account_text(a: Account) -> Seq<char> {
    a.account_type.name() + segments_text(strings_view(a.value))
}

/// The character of a flag.
pub open spec fn flag_char(f: Flag) -> char {
    match f {
        Flag::Complete => '*',
        Flag::Incomplete => '!',
    }
}

/// A cost block: `{amount}` or `{amount, "note"}`.
pub open spec fn cost_text(c: (Amount, Option<String>)) -> Seq<char> {
    seq!['{'] + amount_text(c.0) + match c.1 {
        Some(n) => seq![',', ' '] + quoted(n@),
        None => Seq::empty(),
    } + seq!['}']
}

/// A posting: `[! ]account[ amount][ {cost}][ @ price | @@ price]`.
pub open spec fn line_text(l: TransactionLine) -> Seq<char> {
    (if l.flag == Flag::Incomplete {
        seq!['!', ' ']
    } else {
        Seq::empty()
    }) + account_text(l.account) + line_tail_text(l)
}

/// Tags or links, each after a space and its sigil.
pub open spec fn marks_text(marks: Seq<Seq<char>>, sigil: char) -> Seq<char> {
    concat_all(marks.map_values(|t: Seq<char>| seq![' ', sigil] + t))
}

/// The payee and narration of a transaction header.
pub open spec fn payee_narration_text(payee: Option<String>, narration: Option<String>) -> Seq<char> {
    match (payee, narration) {
        (Some(p), Some(n)) => seq![' '] + quoted(p@) + seq![' '] + quoted(n@),
        (None, Some(n)) => seq![' '] + quoted(n@),
        _ => Seq::empty(),
    }
}

/// The postings of a transaction, each on its own line indented by two
/// spaces.
pub open spec fn lines_text(lines: Seq<TransactionLine>) -> Seq<char> {
    concat_all(lines.map_values(|l: TransactionLine| seq!['\n', ' ', ' '] + line_text(l)))
}

/// A transaction: `date flag [payee] [narration] [#tag ...] [^link ...]`,
/// then its postings.
pub open spec fn transaction_text(t: Transaction) -> Seq<char> {
    date_text(t.date) + seq![' ', flag_char(t.flag)] + payee_narration_text(t.payee, t.narration)
        + marks_text(strings_view(t.tags), '#') + marks_text(strings_view(t.links), '^')
        + lines_text(t.lines@)
}

/// Metadata entries, each on its own line as `  key: "value"`.
pub open spec fn metas_text(m: Seq<(Seq<char>, Seq<char>)>) -> Seq<char> {
    concat_all(
        m.map_values(
            |e: (Seq<char>, Seq<char>)| seq!['\n', ' ', ' '] + e.0 + seq![':', ' '] + quoted(e.1),
        ),
    )
}

/// A non-empty list of commodities separated by `, `.
pub open spec fn commodities_text(c: Seq<Seq<char>>) -> Seq<char> {
    if c.len() == 0 {
        Seq::empty()
    } else {
        c[0] + concat_all(c.drop_first().map_values(|x: Seq<char>| seq![',', ' '] + x))
    }
}

/// Quoted values, each after a space.
pub open spec fn values_text(v: Seq<Seq<char>>) -> Seq<char> {
    concat_all(v.map_values(|x: Seq<char>| seq![' '] + quoted(x)))
}

/// The canonical text of a directive.
pub open spec fn directive_text(d: Directive) -> Seq<char> {
    match d {
        Directive::Open { date, account, commodities } => date_text(date) + " open "@ + account_text(
            account,
        ) + match commodities {
            Some(c) => seq![' '] + commodities_text(strings_view(c)),
            None => Seq::empty(),
        },
        Directive::Close { date, account } => date_text(date) + " close "@ + account_text(account),
        Directive::Commodity { date, name, metas } => date_text(date) + " commodity "@ + name@
            + metas_text(meta_entries(metas)),
        Directive::Transaction(t) => transaction_text(t),
        Directive::Balance { date, account, amount } => date_text(date) + " balance "@
            + account_text(account) + seq![' '] + amount_text(amount),
        Directive::Pad { date, from, to } => date_text(date) + " pad "@ + account_text(from) + seq![
            ' ',
        ] + account_text(to),
        Directive::Note { date, account, description } => date_text(date) + " note "@
            + account_text(account) + seq![' '] + quoted(description@),
        Directive::Document { date, account, path } => date_text(date) + " document "@
            + account_text(account) + seq![' '] + quoted(path@),
        Directive::Price { date, commodity, amount } => date_text(date) + " price "@ + commodity@
            + seq![' '] + amount_text(amount),
        Directive::Event { date, name, value } => date_text(date) + " event "@ + quoted(name@)
            + seq![' '] + quoted(value@),
        Directive::Custom { date, custom_type, values } => date_text(date) + " custom "@ + quoted(
            custom_type@,
        ) + values_text(strings_view(values)),
        Directive::Option { key, value } => "option "@ + quoted(key@) + seq![' '] + quoted(value@),
        Directive::Plugin { module, value } => "plugin "@ + quoted(module@) + match value {
            Some(v) => seq![' '] + quoted(v@),
            None => Seq::empty(),
        },
        Directive::Include { file } => "include "@ + quoted(file@),
        Directive::Comment { content } => content@,
    }
}

/// Rendering of a value as ledger text.
pub trait ToBeancountFile {
    /// The text of the value.
    spec fn text(&self) -> Seq<char>;

    /// Renders the value.
    fn to_text(&self) -> (r: String)
        ensures
            r@ == self.text(),
    ;
}

/// Appends the text of a value.
fn push_text<T: ToBeancountFile>(out: &mut String, x: &T)
    ensures
        final(out)@ == old(out)@ + x.text(),
{
    let t = x.to_text();
    out.append(t.as_str());
}

/// Appends a string between quotes.
fn push_quoted(out: &mut String, s: &String)
    ensures
        final(out)@ == old(out)@ + quoted(s@),
{
    let q = escape_with_quote(s.as_str());
    out.append(q.as_str());
}

/// Appends the digits of a sequence of decimal digits.
fn push_digits(out: &mut String, digits: &Vec<u8>)
    ensures
        final(out)@ == old(out)@ + digits_text(digits@),
{
    let mut i: usize = 0;
    while i < digits.len()
        invariant
            i <= digits@.len(),
            out@ == old(out)@ + digits_text(digits@.take(i as int)),
        decreases digits@.len() - i,
    {
        let d = digits[i];
        push_char(out, digit_of((d % 10) as u32));
        assert(digits_text(digits@.take(i + 1)) =~= digits_text(digits@.take(i as int)).push(
            digit_char((d % 10) as int),
        ));
        i = i + 1;
    }
    assert(digits@.take(i as int) =~= digits@);
}

/// The character of the decimal digit `d < 10`.
fn digit_of(d: u32) -> (r: char)
    requires
        d < 10,
    ensures
        r == digit_char(d as int),
{
    ((d as u8) + 48) as char
}

impl ToBeancountFile for Date {
    open spec fn text(&self) -> Seq<char> {
        date_text(*self)
    }

    fn to_text(&self) -> (r: String) {
        let mut out = String::new();
        let y = self.year;
        let m = self.month;
        let d = self.day;
        push_char(&mut out, digit_of(y / 1000 % 10));
        push_char(&mut out, digit_of(y / 100 % 10));
        push_char(&mut out, digit_of(y / 10 % 10));
        push_char(&mut out, digit_of(y % 10));
        push_char(&mut out, '-');
        push_char(&mut out, digit_of(m / 10 % 10));
        push_char(&mut out, digit_of(m % 10));
        push_char(&mut out, '-');
        push_char(&mut out, digit_of(d / 10 % 10));
        push_char(&mut out, digit_of(d % 10));
        assert(out@ =~= date_text(*self));
        out
    }
}

impl AccountType {
    /// The keyword of the account type.
    pub fn name_str(&self) -> (r: &'static str)
        ensures
            r@ == self.name(),
    {
        match self {
            AccountType::Assets => "Assets",
            AccountType::Liabilities => "Liabilities",
            AccountType::Equity => "Equity",
            AccountType::Income => "Income",
            AccountType::Expenses => "Expenses",
        }
    }
}

impl ToBeancountFile for AccountType {
    open spec fn text(&self) -> Seq<char> {
        self.name()
    }

    fn to_text(&self) -> (r: String) {
        let mut out = String::new();
        out.append(self.name_str());
        assert(out@ =~= self.name());
        out
    }
}

impl ToBeancountFile for Account {
    open spec fn text(&self) -> Seq<char> {
        account_text(*self)
    }

    fn to_text(&self) -> (r: String) {
        let mut out = String::new();
        out.append(self.account_type.name_str());
        let ghost segs = strings_view(self.value);
        assert(segs.take(0).map_values(|s: Seq<char>| seq![':'] + s) =~= Seq::<Seq<char>>::empty());
        assert(out@ =~= self.account_type.name() + segments_text(segs.take(0)));
        let mut i: usize = 0;
        while i < self.value.len()
            invariant
                i <= self.value@.len(),
                segs == strings_view(self.value),
                out@ == self.account_type.name() + segments_text(segs.take(i as int)),
            decreases self.value@.len() - i,
        {
            push_char(&mut out, ':');
            out.append(self.value[i].as_str());
            proof {
                let prev = segs.take(i as int).map_values(|s: Seq<char>| seq![':'] + s);
                assert(segs.take(i + 1).map_values(|s: Seq<char>| seq![':'] + s) =~= prev.push(
                    seq![':'] + segs[i as int],
                ));
                lemma_concat_all_push(prev, seq![':'] + segs[i as int]);
            }
            i = i + 1;
        }
        assert(segs.take(i as int) =~= segs);
        out
    }
}

impl ToBeancountFile for Decimal {
    open spec fn text(&self) -> Seq<char> {
        decimal_text(*self)
    }

    fn to_text(&self) -> (r: String) {
        let mut out = String::new();
        if self.negative {
            push_char(&mut out, '-');
        }
        push_digits(&mut out, &self.int_digits);
        if self.frac_digits.len() > 0 {
            push_char(&mut out, '.');
            push_digits(&mut out, &self.frac_digits);
        }
        assert(out@ =~= decimal_text(*self));
        out
    }
}

impl ToBeancountFile for Amount {
    open spec fn text(&self) -> Seq<char> {
        amount_text(*self)
    }

    fn to_text(&self) -> (r: String) {
        let mut out = String::new();
        push_text(&mut out, &self.0);
        push_char(&mut out, ' ');
        out.append(self.1.as_str());
        assert(out@ =~= amount_text(*self));
        out
    }
}

impl ToBeancountFile for Flag {
    open spec fn text(&self) -> Seq<char> {
        seq![flag_char(*self)]
    }

    fn to_text(&self) -> (r: String) {
        let mut out = String::new();
        match self {
            Flag::Complete => push_char(&mut out, '*'),
            Flag::Incomplete => push_char(&mut out, '!'),
        }
        assert(out@ =~= seq![flag_char(*self)]);
        out
    }
}

/// The amount part of a posting.
pub open spec fn line_amount_text(l: TransactionLine) -> Seq<char> {
    match l.amount {
        Some(a) => seq![' '] + amount_text(a),
        None => Seq::empty(),
    }
}

/// The cost part of a posting.
pub open spec fn line_cost_text(l: TransactionLine) -> Seq<char> {
    match l.cost {
        Some(c) => seq![' '] + cost_text(c),
        None => Seq::empty(),
    }
}

/// The price part of a posting.
pub open spec fn line_price_text(l: TransactionLine) -> Seq<char> {
    (match l.single_price {
        Some(p) => seq![' ', '@', ' '] + amount_text(p),
        None => Seq::empty(),
    }) + match l.total_price {
        Some(p) => seq![' ', '@', '@', ' '] + amount_text(p),
        None => Seq::empty(),
    }
}

/// The part of a posting that follows its account.
pub open spec fn line_tail_text(l: TransactionLine) -> Seq<char> {
    line_amount_text(l) + line_cost_text(l) + line_price_text(l)
}

/// Appends a cost block after a space.
fn push_cost(out: &mut String, cost: &(Amount, Option<String>))
    ensures
        final(out)@ == old(out)@ + seq![' '] + cost_text(*cost),
{
    push_char(out, ' ');
    push_char(out, '{');
    push_text(out, &cost.0);
    let ghost a = out@;
    if let Some(n) = &cost.1 {
        push_char(out, ',');
        push_char(out, ' ');
        push_quoted(out, n);
    }
    push_char(out, '}');
    assert(out@ =~= old(out)@ + seq![' '] + cost_text(*cost));
}

/// Appends a price after ` @ ` or ` @@ `.
fn push_price(out: &mut String, p: &Amount, total: bool)
    ensures
        final(out)@ == old(out)@ + (if total {
            seq![' ', '@', '@', ' ']
        } else {
            seq![' ', '@', ' ']
        }) + amount_text(*p),
{
    push_char(out, ' ');
    push_char(out, '@');
    if total {
        push_char(out, '@');
    }
    push_char(out, ' ');
    push_text(out, p);
    assert(out@ =~= old(out)@ + (if total {
        seq![' ', '@', '@', ' ']
    } else {
        seq![' ', '@', ' ']
    }) + amount_text(*p));
}

/// Appends what follows the account of a posting.
#[verifier::rlimit(30)]
fn push_line_tail(out: &mut String, l: &TransactionLine)
    ensures
        final(out)@ == old(out)@ + line_tail_text(*l),
{
    match &l.amount {
        Some(amount) => {
            push_char(out, ' ');
            push_text(out, amount);
        },
        None => {},
    }
    let ghost b = out@;
    assert(b =~= old(out)@ + line_amount_text(*l));
    match &l.cost {
        Some(cost) => push_cost(out, cost),
        None => {},
    }
    let ghost c = out@;
    assert(c =~= b + line_cost_text(*l));
    match &l.single_price {
        Some(p) => push_price(out, p, false),
        None => {},
    }
    match &l.total_price {
        Some(p) => push_price(out, p, true),
        None => {},
    }
    assert(out@ =~= c + line_price_text(*l));
    assert(out@ =~= old(out)@ + line_tail_text(*l));
}

impl ToBeancountFile for TransactionLine {
    open spec fn text(&self) -> Seq<char> {
        line_text(*self)
    }

    fn to_text(&self) -> (r: String) {
        let mut out = String::new();
        match self.flag {
            Flag::Incomplete => {
                push_char(&mut out, '!');
                push_char(&mut out, ' ');
            },
            Flag::Complete => {},
        }
        push_text(&mut out, &self.account);
        push_line_tail(&mut out, self);
        assert(out@ =~= line_text(*self));
        out
    }
}

/// Appends tags or links, each after a space and the sigil.
fn push_marks(out: &mut String, marks: &Vec<String>, sigil: char)
    ensures
        final(out)@ == old(out)@ + marks_text(strings_view(*marks), sigil),
{
    let ghost m = strings_view(*marks);
    assert(m.take(0).map_values(|t: Seq<char>| seq![' ', sigil] + t) =~= Seq::<Seq<char>>::empty());
    let mut i: usize = 0;
    while i < marks.len()
        invariant
            i <= marks@.len(),
            m == strings_view(*marks),
            out@ == old(out)@ + marks_text(m.take(i as int), sigil),
        decreases marks@.len() - i,
    {
        push_char(out, ' ');
        push_char(out, sigil);
        out.append(marks[i].as_str());
        proof {
            let prev = m.take(i as int).map_values(|t: Seq<char>| seq![' ', sigil] + t);
            assert(m.take(i + 1).map_values(|t: Seq<char>| seq![' ', sigil] + t) =~= prev.push(
                seq![' ', sigil] + m[i as int],
            ));
            lemma_concat_all_push(prev, seq![' ', sigil] + m[i as int]);
        }
        i = i + 1;
    }
    assert(m.take(i as int) =~= m);
}

/// Appends the postings of a transaction.
fn push_lines(out: &mut String, lines: &Vec<TransactionLine>)
    ensures
        final(out)@ == old(out)@ + lines_text(lines@),
{
    let ghost m = lines@;
    assert(m.take(0).map_values(|l: TransactionLine| seq!['\n', ' ', ' '] + line_text(l))
        =~= Seq::<Seq<char>>::empty());
    let mut i: usize = 0;
    while i < lines.len()
        invariant
            i <= lines@.len(),
            m == lines@,
            out@ == old(out)@ + lines_text(m.take(i as int)),
        decreases lines@.len() - i,
    {
        push_char(out, '\n');
        push_char(out, ' ');
        push_char(out, ' ');
        push_text(out, &lines[i]);
        proof {
            let prev = m.take(i as int).map_values(
                |l: TransactionLine| seq!['\n', ' ', ' '] + line_text(l),
            );
            assert(m.take(i + 1).map_values(
                |l: TransactionLine| seq!['\n', ' ', ' '] + line_text(l),
            ) =~= prev.push(seq!['\n', ' ', ' '] + line_text(m[i as int])));
            lemma_concat_all_push(prev, seq!['\n', ' ', ' '] + line_text(m[i as int]));
        }
        i = i + 1;
    }
    assert(m.take(i as int) =~= m);
}

impl ToBeancountFile for Transaction {
    open spec fn text(&self) -> Seq<char> {
        transaction_text(*self)
    }

    fn to_text(&self) -> (r: String) {
        let mut out = String::new();
        push_text(&mut out, &self.date);
        push_char(&mut out, ' ');
        match self.flag {
            Flag::Complete => push_char(&mut out, '*'),
            Flag::Incomplete => push_char(&mut out, '!'),
        }
        let ghost a = out@;
        match (&self.payee, &self.narration) {
            (Some(p), Some(n)) => {
                push_char(&mut out, ' ');
                push_quoted(&mut out, p);
                push_char(&mut out, ' ');
                push_quoted(&mut out, n);
            },
            (None, Some(n)) => {
                push_char(&mut out, ' ');
                push_quoted(&mut out, n);
            },
            _ => {},
        }
        assert(out@ =~= a + payee_narration_text(self.payee, self.narration));
        push_marks(&mut out, &self.tags, '#');
        push_marks(&mut out, &self.links, '^');
        push_lines(&mut out, &self.lines);
        assert(out@ =~= transaction_text(*self));
        out
    }
}

/// Appends a non-empty list of commodities separated by `, `.
fn push_commodities(out: &mut String, c: &Vec<String>)
    ensures
        final(out)@ == old(out)@ + commodities_text(strings_view(*c)),
{
    let ghost m = strings_view(*c);
    if c.len() == 0 {
        return;
    }
    out.append(c[0].as_str());
    let ghost rest = m.drop_first();
    assert(rest.take(0).map_values(|x: Seq<char>| seq![',', ' '] + x) =~= Seq::<Seq<char>>::empty());
    let mut i: usize = 1;
    while i < c.len()
        invariant
            1 <= i <= c@.len(),
            m == strings_view(*c),
            rest == m.drop_first(),
            out@ == old(out)@ + m[0] + concat_all(
                rest.take(i - 1).map_values(|x: Seq<char>| seq![',', ' '] + x),
            ),
        decreases c@.len() - i,
    {
        push_char(out, ',');
        push_char(out, ' ');
        out.append(c[i].as_str());
        proof {
            let prev = rest.take(i - 1).map_values(|x: Seq<char>| seq![',', ' '] + x);
            assert(rest.take(i as int).map_values(|x: Seq<char>| seq![',', ' '] + x) =~= prev.push(
                seq![',', ' '] + m[i as int],
            ));
            lemma_concat_all_push(prev, seq![',', ' '] + m[i as int]);
        }
        i = i + 1;
    }
    assert(rest.take(i - 1) =~= rest);
}

/// Appends metadata entries, one per line.
fn push_metas(out: &mut String, metas: &indexmap::IndexMap<String, String>)
    ensures
        final(out)@ == old(out)@ + metas_text(meta_entries(*metas)),
{
    let ghost m = meta_entries(*metas);
    let n = meta_len(metas);
    assert(m.take(0).map_values(
        |e: (Seq<char>, Seq<char>)| seq!['\n', ' ', ' '] + e.0 + seq![':', ' '] + quoted(e.1),
    ) =~= Seq::<Seq<char>>::empty());
    let mut i: usize = 0;
    while i < n
        invariant
            i <= n,
            n == m.len(),
            m == meta_entries(*metas),
            out@ == old(out)@ + metas_text(m.take(i as int)),
        decreases n - i,
    {
        let (k, v) = meta_get_index(metas, i);
        push_char(out, '\n');
        push_char(out, ' ');
        push_char(out, ' ');
        out.append(k.as_str());
        push_char(out, ':');
        push_char(out, ' ');
        push_quoted(out, v);
        proof {
            let prev = m.take(i as int).map_values(
                |e: (Seq<char>, Seq<char>)| seq!['\n', ' ', ' '] + e.0 + seq![':', ' '] + quoted(e.1),
            );
            let x = seq!['\n', ' ', ' '] + m[i as int].0 + seq![':', ' '] + quoted(m[i as int].1);
            assert(m.take(i + 1).map_values(
                |e: (Seq<char>, Seq<char>)| seq!['\n', ' ', ' '] + e.0 + seq![':', ' '] + quoted(e.1),
            ) =~= prev.push(x));
            lemma_concat_all_push(prev, x);
        }
        i = i + 1;
    }
    assert(m.take(i as int) =~= m);
}

/// Appends quoted values, each after a space.
fn push_values(out: &mut String, values: &Vec<String>)
    ensures
        final(out)@ == old(out)@ + values_text(strings_view(*values)),
{
    let ghost m = strings_view(*values);
    assert(m.take(0).map_values(|x: Seq<char>| seq![' '] + quoted(x)) =~= Seq::<Seq<char>>::empty());
    let mut i: usize = 0;
    while i < values.len()
        invariant
            i <= values@.len(),
            m == strings_view(*values),
            out@ == old(out)@ + values_text(m.take(i as int)),
        decreases values@.len() - i,
    {
        push_char(out, ' ');
        push_quoted(out, &values[i]);
        proof {
            let prev = m.take(i as int).map_values(|x: Seq<char>| seq![' '] + quoted(x));
            assert(m.take(i + 1).map_values(|x: Seq<char>| seq![' '] + quoted(x)) =~= prev.push(
                seq![' '] + quoted(m[i as int]),
            ));
            lemma_concat_all_push(prev, seq![' '] + quoted(m[i as int]));
        }
        i = i + 1;
    }
    assert(m.take(i as int) =~= m);
}

impl ToBeancountFile for Directive {
    open spec fn text(&self) -> Seq<char> {
        directive_text(*self)
    }

    fn to_text(&self) -> (r: String) {
        let mut out = String::new();
        match self {
            Directive::Open { date, account, commodities } => {
                push_text(&mut out, date);
                out.append(" open ");
                push_text(&mut out, account);
                if let Some(c) = commodities {
                    push_char(&mut out, ' ');
                    push_commodities(&mut out, c);
                }
            },
            Directive::Close { date, account } => {
                push_text(&mut out, date);
                out.append(" close ");
                push_text(&mut out, account);
            },
            Directive::Commodity { date, name, metas } => {
                push_text(&mut out, date);
                out.append(" commodity ");
                out.append(name.as_str());
                push_metas(&mut out, metas);
            },
            Directive::Transaction(t) => {
                push_text(&mut out, t);
            },
            Directive::Balance { date, account, amount } => {
                push_text(&mut out, date);
                out.append(" balance ");
                push_text(&mut out, account);
                push_char(&mut out, ' ');
                push_text(&mut out, amount);
            },
            Directive::Pad { date, from, to } => {
                push_text(&mut out, date);
                out.append(" pad ");
                push_text(&mut out, from);
                push_char(&mut out, ' ');
                push_text(&mut out, to);
            },
            Directive::Note { date, account, description } => {
                push_text(&mut out, date);
                out.append(" note ");
                push_text(&mut out, account);
                push_char(&mut out, ' ');
                push_quoted(&mut out, description);
            },
            Directive::Document { date, account, path } => {
                push_text(&mut out, date);
                out.append(" document ");
                push_text(&mut out, account);
                push_char(&mut out, ' ');
                push_quoted(&mut out, path);
            },
            Directive::Price { date, commodity, amount } => {
                push_text(&mut out, date);
                out.append(" price ");
                out.append(commodity.as_str());
                push_char(&mut out, ' ');
                push_text(&mut out, amount);
            },
            Directive::Event { date, name, value } => {
                push_text(&mut out, date);
                out.append(" event ");
                push_quoted(&mut out, name);
                push_char(&mut out, ' ');
                push_quoted(&mut out, value);
            },
            Directive::Custom { date, custom_type, values } => {
                push_text(&mut out, date);
                out.append(" custom ");
                push_quoted(&mut out, custom_type);
                push_values(&mut out, values);
            },
            Directive::Option { key, value } => {
                out.append("option ");
                push_quoted(&mut out, key);
                push_char(&mut out, ' ');
                push_quoted(&mut out, value);
            },
            Directive::Plugin { module, value } => {
                out.append("plugin ");
                push_quoted(&mut out, module);
                if let Some(v) = value {
                    push_char(&mut out, ' ');
                    push_quoted(&mut out, v);
                }
            },
            Directive::Include { file } => {
                out.append("include ");
                push_quoted(&mut out, file);
            },
            Directive::Comment { content } => {
                out.append(content.as_str());
            },
        }
        assert(out@ =~= directive_text(*self));
        out
    }
}

/// Renders a directive as canonical ledger text.
pub fn render(d: &Directive) -> (r: String)
    ensures
        r@ == directive_text(*d),
{
    d.to_text()
}

} // verus!
