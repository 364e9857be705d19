use mal::keyword::Keyword;
use mal::symbol::Symbol;

#[test]
fn keyword_test() {
    assert_eq!(":a", Keyword { name: String::from("a") }.to_text());
}

#[test]
fn symbol_test() {
    assert_eq!("a", Symbol { name: String::from("a") }.to_text());
}

#[test]
fn symbol_name() {
    assert_eq!("abc", Symbol::new("abc").get_name());
}
