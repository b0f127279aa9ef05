use beancount::models::{Account, AccountType, Date, Decimal, Directive, Flag, Transaction, TransactionLine};
use beancount::parser::{parse_account, parse_directive, parse_entries, ErrorKind};
use beancount::to_file::{render, ToBeancountFile};
use beancount::utils::{escape_character, escape_with_quote};
use beancount::words::decimal_from_word;
use indexmap::IndexMap;

fn day() -> Date {
    Date::from_ymd_opt(1970, 1, 1).unwrap()
}

fn dec(s: &str) -> Decimal {
    decimal_from_word(&s.chars().collect()).unwrap()
}

fn acct(t: AccountType, segs: &[&str]) -> Account {
    Account::new(t, segs.iter().map(|s| s.to_string()).collect())
}

fn round_trip(d: &Directive) -> Directive {
    parse_directive(&render(d)).unwrap()
}

#[test]
fn decimal_prints_back_as_written() {
    let d = parse_directive("1970-01-01 balance Assets:Cash 0.1 USD").unwrap();
    match d {
        Directive::Balance { amount, .. } => {
            assert_eq!(amount.0.to_text(), "0.1");
            assert_eq!(amount.1, "USD");
        }
        _ => panic!("not a balance"),
    }
    assert_eq!(dec("1.50").to_text(), "1.50");
    assert_eq!(dec("-12.000").to_text(), "-12.000");
}

#[test]
fn decimal_is_normalized() {
    assert_eq!(dec("007").to_text(), "7");
    assert_eq!(dec("-0.0").to_text(), "0.0");
    assert!(!dec("-0").negative);
    assert!(decimal_from_word(&"1.".chars().collect()).is_none());
    assert!(decimal_from_word(&"1e5".chars().collect()).is_none());
}

#[test]
fn payee_and_narration_resolution() {
    let posting = "\n  Assets:A 1 CNY";
    let none = parse_directive(&format!("1970-01-01 *{}", posting)).unwrap();
    let one = parse_directive(&format!("1970-01-01 * \"Narration\"{}", posting)).unwrap();
    let two = parse_directive(&format!("1970-01-01 * \"Payee\" \"Narration\"{}", posting)).unwrap();
    match (none, one, two) {
        (Directive::Transaction(a), Directive::Transaction(b), Directive::Transaction(c)) => {
            assert_eq!((a.payee, a.narration), (None, None));
            assert_eq!((b.payee, b.narration), (None, Some("Narration".to_owned())));
            assert_eq!((c.payee, c.narration), (Some("Payee".to_owned()), Some("Narration".to_owned())));
        }
        _ => panic!("not transactions"),
    }
}

#[test]
fn both_prices_on_one_posting_fail() {
    let r = parse_directive("1970-01-01 * \"N\"\n  Assets:A 1 CCC @ 1 CNY @@ 1 CNY");
    assert_eq!(r.unwrap_err().kind, ErrorKind::Syntax);
}

#[test]
fn metadata_keeps_order() {
    let d = parse_directive("1970-01-01 commodity CNY\n  a: \"1\"\n  中文-test: \"2\"").unwrap();
    match d {
        Directive::Commodity { metas, .. } => {
            let keys: Vec<&String> = metas.keys().collect();
            assert_eq!(keys, vec!["a", "中文-test"]);
        }
        _ => panic!("not a commodity"),
    }
}

#[test]
fn duplicate_metadata_key_overwrites_in_place() {
    let d = parse_directive("1970-01-01 commodity CNY\n  a: \"1\"\n  b: \"2\"\n  a: \"3\"").unwrap();
    match d {
        Directive::Commodity { metas, .. } => {
            let entries: Vec<(&String, &String)> = metas.iter().collect();
            assert_eq!(entries.len(), 2);
            assert_eq!((entries[0].0.as_str(), entries[0].1.as_str()), ("a", "3"));
            assert_eq!((entries[1].0.as_str(), entries[1].1.as_str()), ("b", "2"));
        }
        _ => panic!("not a commodity"),
    }
}

#[test]
fn escaping_backslash_round_trips() {
    assert_eq!(escape_with_quote("你 好 啊\\"), "\"你 好 啊\\\\\"");
    let d = Directive::Note { date: day(), account: acct(AccountType::Assets, &["A"]), description: "你 好 啊\\".to_owned() };
    assert_eq!(round_trip(&d), d);
}

#[test]
fn escaping_special_characters() {
    assert_eq!(escape_with_quote("a\"b$c`d"), "\"a\\\"b\\$c\\`d\"");
    assert_eq!(escape_with_quote("a\tb\nc\rd"), "\"a\\u{9}b\\u{a}c\\u{d}d\"");
    assert_eq!(escape_character('\t'), "\\u{9}");
    assert_eq!(escape_with_quote("x\u{200b}y\u{a0}z"), "\"x\\u{200b}y\\u{a0}z\"");
    assert_eq!(escape_character('\u{7}'), "\\a");
    assert_eq!(escape_character('\u{8}'), "\\b");
    assert_eq!(escape_character('\u{b}'), "\\v");
    assert_eq!(escape_character('\u{c}'), "\\f");
    assert_eq!(escape_character('\u{1b}'), "\\e");
    assert_eq!(escape_character('\u{0}'), "\\u{0}");
    let d = Directive::Event { date: day(), name: "tab\there".to_owned(), value: "x\u{200b}\u{7}y".to_owned() };
    assert_eq!(round_trip(&d), d);
}

#[test]
fn comment_then_open_in_order() {
    let v = parse_entries(";note\n1970-01-01 open Assets:Book").unwrap();
    assert_eq!(v.len(), 2);
    assert_eq!(v[0], Directive::Comment { content: ";note".to_owned() });
    assert_eq!(v[1], Directive::Open { date: day(), account: acct(AccountType::Assets, &["Book"]), commodities: None });
}

#[test]
fn entries_fail_on_any_bad_record() {
    let r = parse_entries("1970-01-01 open Assets:A\n\n1970-01-01 frobnicate Assets:B");
    assert_eq!(r.unwrap_err().kind, ErrorKind::Syntax);
    assert_eq!(parse_entries("").unwrap().len(), 0);
}

#[test]
fn bare_root_account() {
    let d = parse_directive("1970-01-01 open Assets").unwrap();
    assert_eq!(d, Directive::Open { date: day(), account: acct(AccountType::Assets, &[]), commodities: None });
    assert_eq!(parse_account("Assets").unwrap_err().kind, ErrorKind::InvalidAccount);
    assert_eq!(parse_account("Assets:A:B").unwrap(), acct(AccountType::Assets, &["A", "B"]));
    assert!(parse_account("Nothing:A").is_err());
    assert_eq!(parse_account(" Assets:A").unwrap_err().kind, ErrorKind::InvalidAccount);
    assert_eq!(parse_account("Assets:A ").unwrap_err().position, 8);
}

#[test]
fn account_segments_take_punctuation() {
    assert_eq!(parse_account("Assets:A,B:{x}@\"y").unwrap(), acct(AccountType::Assets, &["A,B", "{x}@\"y"]));
    let d = Directive::Pad { date: day(), from: acct(AccountType::Assets, &["A,B"]), to: acct(AccountType::Equity, &["@x"]) };
    assert_eq!(round_trip(&d), d);
    let o = parse_directive("1970-01-01 open Assets:A,B CNY, USD").unwrap();
    assert_eq!(o, Directive::Open { date: day(), account: acct(AccountType::Assets, &["A,B"]), commodities: Some(vec!["CNY".to_owned(), "USD".to_owned()]) });
}

#[test]
fn account_ordering_is_structural() {
    assert!(AccountType::Assets < AccountType::Expenses);
    assert!(acct(AccountType::Assets, &["B"]) < acct(AccountType::Equity, &["A"]));
    assert!(acct(AccountType::Assets, &["A"]) < acct(AccountType::Assets, &["A", "B"]));
    assert!(Flag::Complete < Flag::Incomplete);
}

#[test]
fn error_kinds() {
    assert_eq!(parse_directive("1970-01-01 note Assets:A \"open").unwrap_err().kind, ErrorKind::Lexical);
    assert_eq!(parse_directive("1970-01-01 note Assets:A \"\\q\"").unwrap_err().kind, ErrorKind::Lexical);
    assert_eq!(parse_directive("1970-01-32 open Assets:A").unwrap_err().kind, ErrorKind::Syntax);
    assert_eq!(parse_directive("1970-01-01 balance Assets:A 1.x CNY").unwrap_err().kind, ErrorKind::Syntax);
    assert_eq!(parse_directive("").unwrap_err().kind, ErrorKind::Syntax);
    assert_eq!(parse_directive("1970-01-01 note Assets:A \"open").unwrap_err().position, 25);
    assert_eq!(parse_directive("option \"a\" \"b\"\nplugin \"c\"").unwrap_err().position, 15);
    assert_eq!(parse_directive("option \"a\" \"b\"\noption \"c\" \"d\"").unwrap_err().kind, ErrorKind::Syntax);
}

#[test]
fn dates() {
    assert!(Date::from_ymd_opt(2023, 2, 29).is_none());
    assert!(Date::from_ymd_opt(2024, 2, 29).is_some());
    assert!(Date::from_ymd_opt(1900, 2, 29).is_none());
    assert!(Date::from_ymd_opt(2000, 2, 29).is_some());
    assert!(Date::from_ymd_opt(10000, 1, 1).is_none());
    assert_eq!(Date::from_ymd_opt(7, 3, 9).unwrap().to_text(), "0007-03-09");
}

#[test]
fn every_kind_round_trips() {
    let mut metas = IndexMap::new();
    metas.insert("name".to_owned(), "Yuan \"renminbi\"".to_owned());
    metas.insert("中文-test".to_owned(), "x".to_owned());
    let line = TransactionLine {
        flag: Flag::Incomplete,
        account: acct(AccountType::Assets, &["Broker"]),
        amount: Some((dec("-2"), "AAPL".to_owned())),
        cost: Some(((dec("150.25"), "USD".to_owned()), Some("lot 1".to_owned()))),
        single_price: None,
        total_price: Some((dec("320"), "USD".to_owned())),
    };
    let plain = TransactionLine {
        flag: Flag::Complete,
        account: acct(AccountType::Expenses, &["Fees"]),
        amount: None,
        cost: None,
        single_price: None,
        total_price: None,
    };
    let all = vec![
        Directive::Open { date: day(), account: acct(AccountType::Liabilities, &["Card"]), commodities: Some(vec!["USD".to_owned(), "EUR".to_owned()]) },
        Directive::Close { date: day(), account: acct(AccountType::Income, &["Job"]) },
        Directive::Commodity { date: day(), name: "CNY".to_owned(), metas },
        Directive::Transaction(Transaction::new(day(), Flag::Complete, Some("P".to_owned()), Some("N".to_owned()), vec!["t1".to_owned()], vec!["l-1".to_owned()], vec![line, plain])),
        Directive::Balance { date: day(), account: acct(AccountType::Assets, &["Cash"]), amount: (dec("-0.50"), "USD".to_owned()) },
        Directive::Pad { date: day(), from: acct(AccountType::Assets, &["Cash"]), to: acct(AccountType::Equity, &["Opening"]) },
        Directive::Document { date: day(), account: acct(AccountType::Assets, &["Cash"]), path: "".to_owned() },
        Directive::Price { date: day(), commodity: "USD".to_owned(), amount: (dec("7.1"), "CNY".to_owned()) },
        Directive::Custom { date: day(), custom_type: "budget".to_owned(), values: vec!["Expenses:Eat".to_owned(), "monthly".to_owned()] },
        Directive::Option { key: "title".to_owned(), value: "My $ledger".to_owned() },
        Directive::Plugin { module: "m".to_owned(), value: None },
        Directive::Include { file: "other file.bean".to_owned() },
        Directive::Comment { content: "; a comment".to_owned() },
    ];
    for d in &all {
        assert_eq!(&round_trip(d), d, "{}", render(d));
    }
}

#[test]
fn transaction_rendering() {
    let t = Transaction::new(
        day(),
        Flag::Incomplete,
        None,
        Some("N".to_owned()),
        vec!["a".to_owned(), "b".to_owned()],
        vec![],
        vec![TransactionLine {
            flag: Flag::Complete,
            account: acct(AccountType::Assets, &["A"]),
            amount: Some((dec("1"), "CCC".to_owned())),
            cost: None,
            single_price: Some((dec("2"), "CNY".to_owned())),
            total_price: None,
        }],
    );
    assert_eq!(t.to_text(), "1970-01-01 ! \"N\" #a #b\n  Assets:A 1 CCC @ 2 CNY");
}
