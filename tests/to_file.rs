use beancount::models::{Account, AccountType, Date, Directive};
use beancount::to_file::ToBeancountFile;
use beancount::words::decimal_from_word;

#[test]
fn open_to_text() {
    let directive = Directive::Open {
        date: Date::from_ymd_opt(1970, 1, 1).unwrap(),
        account: Account::new(AccountType::Equity, vec!["hello".to_owned()]),
        commodities: Some(vec!["CNY".to_owned()]),
    };
    let string = directive.to_text();
    assert_eq!("1970-01-01 open Equity:hello CNY", string);
}

#[test]
fn balance() {
    let directive = Directive::Balance {
        date: Date::from_ymd_opt(1970, 1, 1).unwrap(),
        account: Account::new(AccountType::Equity, vec!["hello".to_owned()]),
        amount: (decimal_from_word(&"10".chars().collect()).unwrap(), "CNY".to_owned()),
    };
    assert_eq!("1970-01-01 balance Equity:hello 10 CNY", directive.to_text())
}

#[test]
fn option() {
    let directive = Directive::Option { key: "hello".to_owned(), value: "value".to_string() };
    assert_eq!("option \"hello\" \"value\"", directive.to_text())
}
