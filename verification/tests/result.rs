use bits::result::{Error, IsError, ResultExtension};
use bits::text::decimal_string;

#[test]
fn error_display_and_details() {
    let e = Error::new("boom");
    assert_eq!("boom", e.to_string());
    assert_eq!("", e.output_details());

    let e = e.at_file("src/lib.rs", 42);
    assert_eq!(" -- at src/lib.rs:42", e.output_details());
    assert_eq!("boom", e.to_string());

    let e = e.detailed();
    assert_eq!("boom -- at src/lib.rs:42", e.to_string());
}

#[test]
fn raise_gives_the_error() {
    let r: Result<u8, Error> = Error::new("failed").raise();
    assert_eq!("failed", r.unwrap_err().to_string());

    let r: Result<u8, Error> = String::from("bad").err();
    assert_eq!("bad", r.unwrap_err().to_string());

    let ok: Result<u8, String> = Ok(7);
    assert_eq!(7, ok.raise().unwrap());
    let bad: Result<u8, String> = Err(String::from("no"));
    assert_eq!("no", bad.raise().unwrap_err().to_string());
}

#[test]
fn decimal_text() {
    assert_eq!("0", decimal_string(0));
    assert_eq!("7", decimal_string(7));
    assert_eq!("10", decimal_string(10));
    assert_eq!("18446744073709551615", decimal_string(u64::MAX));
}
