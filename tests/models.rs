use beancount::models::{Account, AccountType, Date, Decimal, Directive, Flag, Transaction, TransactionLine};
use beancount::parser::{parse_directive, parse_entries};
use beancount::words::decimal_from_word;
use indexmap::IndexMap;

fn day() -> Date {
    Date::from_ymd_opt(1970, 1, 1).unwrap()
}

fn dec(s: &str) -> Decimal {
    decimal_from_word(&s.chars().collect()).unwrap()
}

fn long_account() -> Account {
    Account::new(
        AccountType::Assets,
        vec![
            "123".to_owned(),
            "234".to_owned(),
            "English".to_owned(),
            "中文".to_owned(),
            "日本語".to_owned(),
            "한국어".to_owned(),
        ],
    )
}

fn line(account: Account, amount: Option<(Decimal, String)>) -> TransactionLine {
    TransactionLine { flag: Flag::Complete, account, amount, cost: None, single_price: None, total_price: None }
}

fn assets_123() -> Account {
    Account::new(AccountType::Assets, vec!["123".to_owned()])
}

fn expenses(name: &str) -> Account {
    Account::new(AccountType::Expenses, vec!["TestCategory".to_owned(), name.to_owned()])
}

#[test]
fn test_open_directive() {
    let directive = Directive::Open { date: day(), account: long_account(), commodities: None };
    let x = parse_directive("1970-01-01 open Assets:123:234:English:中文:日本語:한국어").unwrap();
    assert_eq!(directive, x);
}

#[test]
fn test_open_with_commodity() {
    let directive = Directive::Open { date: day(), account: long_account(), commodities: Some(vec!["CNY".to_owned()]) };
    let x = parse_directive("1970-01-01 open Assets:123:234:English:中文:日本語:한국어 CNY").unwrap();
    assert_eq!(directive, x);
}

#[test]
fn test_open_with_commodities() {
    let directive = Directive::Open {
        date: day(),
        account: long_account(),
        commodities: Some(vec!["CNY".to_owned(), "USD".to_owned(), "CAD".to_owned()]),
    };
    let x = parse_directive("1970-01-01 open Assets:123:234:English:中文:日本語:한국어 CNY, USD,CAD").unwrap();
    assert_eq!(directive, x);
}

#[test]
fn test_close() {
    let directive = Directive::Close {
        date: day(),
        account: Account::new(AccountType::Assets, vec!["123".to_owned(), "456".to_owned()]),
    };
    let x = parse_directive("1970-01-01 close Assets:123:456  ").unwrap();
    assert_eq!(directive, x);
}

#[test]
fn test_note_directive() {
    let directive = Directive::Note { date: day(), account: assets_123(), description: "你 好 啊\\".to_owned() };
    let x = parse_directive(r#"1970-01-01 note Assets:123 "你 好 啊\\""#).unwrap();
    assert_eq!(directive, x);
}

#[test]
fn test_commodity_without_attribute() {
    let x = parse_directive(r#"1970-01-01 commodity CNY  "#).unwrap();
    let directive = Directive::Commodity { date: day(), name: "CNY".to_owned(), metas: IndexMap::new() };
    assert_eq!(directive, x);
}

#[test]
fn test_commodity_with_single_attribute() {
    let x = parse_directive(
        r#"1970-01-01 commodity CNY
                  a: "b""#,
    )
    .unwrap();
    let mut metas = IndexMap::new();
    metas.insert("a".to_owned(), "b".to_owned());
    let directive = Directive::Commodity { date: day(), name: "CNY".to_owned(), metas };
    assert_eq!(directive, x);
}

#[test]
fn test_commodity_with_attributes() {
    let x = parse_directive(
        r#"1970-01-01 commodity CNY
                  a: "b"
                  中文-test  :  "한국어 我也不知道我在说啥""#,
    )
    .unwrap();
    let mut metas = IndexMap::new();
    metas.insert("a".to_owned(), "b".to_owned());
    metas.insert("中文-test".to_owned(), "한국어 我也不知道我在说啥".to_owned());
    let directive = Directive::Commodity { date: day(), name: "CNY".to_owned(), metas };
    assert_eq!(directive, x);
}

#[test]
fn simple_test() {
    let x = parse_directive(
        r#"1970-01-01 * "Payee" "Narration"
                  Assets:123  -1 CNY
                  Expenses:TestCategory:One 1 CNY"#,
    )
    .unwrap();
    let transaction = Transaction {
        date: day(),
        flag: Flag::Complete,
        payee: Some("Payee".to_owned()),
        narration: Some("Narration".to_owned()),
        tags: vec![],
        links: vec![],
        lines: vec![line(assets_123(), Some((dec("-1"), "CNY".to_string()))), line(expenses("One"), Some((dec("1"), "CNY".to_string())))],
    };
    let x1 = Directive::Transaction(transaction);
    assert_eq!(x1, x);
}

#[test]
fn without_payee_with_narration() {
    let x = parse_directive(
        r#"1970-01-01 * "Narration"
                  Assets:123  -1 CNY
                  Expenses:TestCategory:One 1 CNY"#,
    )
    .unwrap();
    let transaction = Transaction {
        date: day(),
        flag: Flag::Complete,
        payee: None,
        narration: Some("Narration".to_owned()),
        tags: vec![],
        links: vec![],
        lines: vec![line(assets_123(), Some((dec("-1"), "CNY".to_string()))), line(expenses("One"), Some((dec("1"), "CNY".to_string())))],
    };
    let x1 = Directive::Transaction(transaction);
    assert_eq!(x1, x);
}

#[test]
fn cost_and_cost_comment() {
    let x = parse_directive(
        r#"1970-01-01 * "Narration"
                  Assets:123  -1 CNY {0.1 USD , "TEST"}
                  Expenses:TestCategory:One 1 CNY {0.1 USD}"#,
    )
    .unwrap();
    let transaction = Transaction {
        date: day(),
        flag: Flag::Complete,
        payee: None,
        narration: Some("Narration".to_owned()),
        tags: vec![],
        links: vec![],
        lines: vec![TransactionLine { cost: Some(((dec("0.1"), "USD".to_owned()), Some("TEST".to_owned()))), ..line(assets_123(), Some((dec("-1"), "CNY".to_string()))) }, TransactionLine { cost: Some(((dec("0.1"), "USD".to_owned()), None)), ..line(expenses("One"), Some((dec("1"), "CNY".to_string()))) }],
    };
    let x1 = Directive::Transaction(transaction);
    assert_eq!(x1, x);
}

#[test]
fn multiple_transaction_lines() {
    let x = parse_directive(
        r#"1970-01-01 * "Payee" "Narration"
                  Assets:123  -1 CNY
                  Expenses:TestCategory:One 0.5 CNY
                  Expenses:TestCategory:Two 0.5 CNY"#,
    )
    .unwrap();
    let transaction = Transaction {
        date: day(),
        flag: Flag::Complete,
        payee: Some("Payee".to_owned()),
        narration: Some("Narration".to_owned()),
        tags: vec![],
        links: vec![],
        lines: vec![line(assets_123(), Some((dec("-1"), "CNY".to_string()))), line(expenses("One"), Some((dec("0.5"), "CNY".to_string()))), line(expenses("Two"), Some((dec("0.5"), "CNY".to_string())))],
    };
    let x1 = Directive::Transaction(transaction);
    assert_eq!(x1, x);
}

#[test]
fn optional_amount_in_line() {
    let x = parse_directive(
        r#"1970-01-01 * "Payee" "Narration"
                  Assets:123  -1 CNY
                  Expenses:TestCategory:One"#,
    )
    .unwrap();
    let transaction = Transaction {
        date: day(),
        flag: Flag::Complete,
        payee: Some("Payee".to_owned()),
        narration: Some("Narration".to_owned()),
        tags: vec![],
        links: vec![],
        lines: vec![line(assets_123(), Some((dec("-1"), "CNY".to_string()))), line(expenses("One"), None)],
    };
    let x1 = Directive::Transaction(transaction);
    assert_eq!(x1, x);
}

#[test]
fn optional_single_price() {
    let x = parse_directive(
        r#"1970-01-01 * "Payee" "Narration"
                  Assets:123  -1 CNY
                  Expenses:TestCategory:One 1 CCC @ 1 CNY"#,
    )
    .unwrap();
    let transaction = Transaction {
        date: day(),
        flag: Flag::Complete,
        payee: Some("Payee".to_owned()),
        narration: Some("Narration".to_owned()),
        tags: vec![],
        links: vec![],
        lines: vec![line(assets_123(), Some((dec("-1"), "CNY".to_string()))), TransactionLine { single_price: Some((dec("1"), "CNY".to_string())), ..line(expenses("One"), Some((dec("1"), "CCC".to_string()))) }],
    };
    let x1 = Directive::Transaction(transaction);
    assert_eq!(x1, x);
}

#[test]
fn optional_total_price() {
    let x = parse_directive(
        r#"1970-01-01 * "Payee" "Narration"
                  Assets:123  -1 CNY
                  Expenses:TestCategory:One 1 CCC @@ 1 CNY"#,
    )
    .unwrap();
    let transaction = Transaction {
        date: day(),
        flag: Flag::Complete,
        payee: Some("Payee".to_owned()),
        narration: Some("Narration".to_owned()),
        tags: vec![],
        links: vec![],
        lines: vec![line(assets_123(), Some((dec("-1"), "CNY".to_string()))), TransactionLine { total_price: Some((dec("1"), "CNY".to_string())), ..line(expenses("One"), Some((dec("1"), "CCC".to_string()))) }],
    };
    let x1 = Directive::Transaction(transaction);
    assert_eq!(x1, x);
}

#[test]
fn with_optional_tags_without_payee() {
    let x = parse_directive(
        r#"1970-01-01 *  "Narration" #mytag #tag2
                  Assets:123  -1 CNY
                  Expenses:TestCategory:One 1 CCC @@ 1 CNY"#,
    )
    .unwrap();
    let transaction = Transaction {
        date: day(),
        flag: Flag::Complete,
        payee: None,
        narration: Some("Narration".to_owned()),
        tags: vec!["mytag".to_owned(), "tag2".to_owned()],
        links: vec![],
        lines: vec![line(assets_123(), Some((dec("-1"), "CNY".to_string()))), TransactionLine { total_price: Some((dec("1"), "CNY".to_string())), ..line(expenses("One"), Some((dec("1"), "CCC".to_string()))) }],
    };
    let x1 = Directive::Transaction(transaction);
    assert_eq!(x1, x);
}

#[test]
fn optional_tags() {
    let x = parse_directive(
        r#"1970-01-01 * "Payee" "Narration" #mytag #tag2
                  Assets:123  -1 CNY
                  Expenses:TestCategory:One 1 CCC @@ 1 CNY"#,
    )
    .unwrap();
    let transaction = Transaction {
        date: day(),
        flag: Flag::Complete,
        payee: Some("Payee".to_owned()),
        narration: Some("Narration".to_owned()),
        tags: vec!["mytag".to_owned(), "tag2".to_owned()],
        links: vec![],
        lines: vec![line(assets_123(), Some((dec("-1"), "CNY".to_string()))), TransactionLine { total_price: Some((dec("1"), "CNY".to_string())), ..line(expenses("One"), Some((dec("1"), "CCC".to_string()))) }],
    };
    let x1 = Directive::Transaction(transaction);
    assert_eq!(x1, x);
}

#[test]
fn optional_links() {
    let x = parse_directive(
        r#"1970-01-01 * "Payee" "Narration" ^link1 ^link-2
                  Assets:123  -1 CNY
                  Expenses:TestCategory:One 1 CCC @@ 1 CNY"#,
    )
    .unwrap();
    let transaction = Transaction {
        date: day(),
        flag: Flag::Complete,
        payee: Some("Payee".to_owned()),
        narration: Some("Narration".to_owned()),
        tags: vec![],
        links: vec!["link1".to_owned(), "link-2".to_owned()],
        lines: vec![line(assets_123(), Some((dec("-1"), "CNY".to_string()))), TransactionLine { total_price: Some((dec("1"), "CNY".to_string())), ..line(expenses("One"), Some((dec("1"), "CCC".to_string()))) }],
    };
    let x1 = Directive::Transaction(transaction);
    assert_eq!(x1, x);
}

#[test]
fn pad_directive() {
    let x = parse_directive("1970-01-01 pad Assets:123:234:English:中文:日本語:한국어 Equity:ABC").unwrap();
    let directive = Directive::Pad {
        date: day(),
        from: long_account(),
        to: Account::new(AccountType::Equity, vec!["ABC".to_owned()]),
    };
    assert_eq!(directive, x);
}

#[test]
fn balance_directive() {
    let x = parse_directive("1970-01-01 balance Assets:123:234:English:中文:日本語:한국어  1 CNY").unwrap();
    let directive = Directive::Balance { date: day(), account: long_account(), amount: (dec("1"), "CNY".to_owned()) };
    assert_eq!(directive, x);
}

#[test]
fn empty_string() {
    let x = parse_directive(r#"1970-01-01 document Assets:123 """#).unwrap();
    let directive = Directive::Document { date: day(), account: assets_123(), path: "".to_owned() };
    assert_eq!(directive, x);
}

#[test]
fn has_document_content() {
    let x = parse_directive(r#"1970-01-01 document Assets:123 "here I am""#).unwrap();
    let directive = Directive::Document { date: day(), account: assets_123(), path: "here I am".to_owned() };
    assert_eq!(directive, x);
}

#[test]
fn models_test() {
    let x = parse_directive(r#"1970-01-01 price USD   7 CNY"#).unwrap();
    let directive = Directive::Price { date: day(), commodity: "USD".to_owned(), amount: (dec("7"), "CNY".to_owned()) };
    assert_eq!(directive, x);
}

#[test]
fn event_test() {
    let x = parse_directive(r#"1970-01-01 event "location"  "China""#).unwrap();
    let directive = Directive::Event { date: day(), name: "location".to_owned(), value: "China".to_owned() };
    assert_eq!(directive, x);
}

#[test]
fn option_test() {
    let x = parse_directive(r#"option "title"  "Personal""#).unwrap();
    let directive = Directive::Option { key: "title".to_owned(), value: "Personal".to_owned() };
    assert_eq!(directive, x);
}

#[test]
fn models_has_plugin_data() {
    let x = parse_directive(r#"plugin "module name"  "config data""#).unwrap();
    let directive = Directive::Plugin { module: "module name".to_owned(), value: Some("config data".to_owned()) };
    assert_eq!(directive, x);
}

#[test]
fn do_not_has_plugin_config_data() {
    let x = parse_directive(r#"plugin "module name""#).unwrap();
    let directive = Directive::Plugin { module: "module name".to_owned(), value: None };
    assert_eq!(directive, x);
}

#[test]
fn include_has_file_path() {
    let x = parse_directive(r#"include "file path""#).unwrap();
    let directive = Directive::Include { file: "file path".to_owned() };
    assert_eq!(directive, x);
}

#[test]
fn custom() {
    let x = parse_directive(r#"1970-01-01 custom "budget" Expenses:Eat "monthly" CNY"#).unwrap();
    let directive = Directive::Custom {
        date: day(),
        custom_type: "budget".to_owned(),
        values: vec!["Expenses:Eat".to_owned(), "monthly".to_owned(), "CNY".to_owned()],
    };
    assert_eq!(directive, x);
}

#[test]
fn comma() {
    let x = parse_directive(";你好啊").unwrap();
    let directive = Directive::Comment { content: ";你好啊".to_owned() };
    assert_eq!(directive, x);
}

#[test]
fn conbine_test() {
    let content: String = vec!["\n\n;你好啊", "1970-01-01 open Assets:Book\n"].join("\n");
    let entry = parse_entries(&content).unwrap();
    let directives = vec![
        Directive::Comment { content: ";你好啊".to_owned() },
        Directive::Open {
            date: day(),
            account: Account::new(AccountType::Assets, vec!["Book".to_owned()]),
            commodities: None,
        },
    ];
    assert_eq!(directives, entry);
}
