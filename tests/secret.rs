use authenticator::error::{Error, DECODE_FAILED, MALFORMED_RECORD};
use authenticator::records::{parse_secrets, records_text, split_text};
use authenticator::secret::Secret;

#[test]
fn parse_splits_on_the_tab() {
    let s = Secret::parse("github\tJBSWY3DPEHPK3PXP").unwrap();
    assert_eq!(s.name, "github");
    assert_eq!(s.seed(), "JBSWY3DPEHPK3PXP");
}

#[test]
fn parse_keeps_parts_verbatim() {
    let s = Secret::parse(" a b \t c ").unwrap();
    assert_eq!(s, Secret::new(" a b ".to_string(), " c ".to_string()));
    let s = Secret::parse("\t").unwrap();
    assert_eq!(s, Secret::new(String::new(), String::new()));
}

#[test]
fn parse_rejects_no_tab() {
    let e = Secret::parse("github").unwrap_err();
    assert_eq!(e.message(), MALFORMED_RECORD);
    let e = Secret::parse("").unwrap_err();
    assert_eq!(e.message(), MALFORMED_RECORD);
}

#[test]
fn parse_rejects_two_tabs() {
    let e = Secret::parse("a\tb\tc").unwrap_err();
    assert_eq!(e.message(), MALFORMED_RECORD);
}

#[test]
fn line_round_trip() {
    let s = Secret::new("name with spaces".to_string(), "JBSWY3DPEHPK3PXP".to_string());
    assert_eq!(s.to_line(), "name with spaces\tJBSWY3DPEHPK3PXP");
    assert_eq!(Secret::parse(&s.to_line()).unwrap(), s);
}

#[test]
fn generate_matches_reference_codes() {
    let s = Secret::new("github".to_string(), "JBSWY3DPEHPK3PXP".to_string());
    assert_eq!(s.generate(59).unwrap(), "996554");
    assert_eq!(s.generate(59 + 30).unwrap(), "602287");
    assert_eq!(s.generate(1111111109).unwrap(), "071271");
}

#[test]
fn generate_is_stable_within_a_window() {
    let s = Secret::new("github".to_string(), "JBSWY3DPEHPK3PXP".to_string());
    assert_eq!(s.generate(0).unwrap(), "282760");
    assert_eq!(s.generate(29).unwrap(), "282760");
    assert_eq!(s.generate(30).unwrap(), s.generate(59).unwrap());
    assert_ne!(s.generate(0).unwrap(), s.generate(60).unwrap());
}

#[test]
fn generate_rfc_6238_key() {
    // "12345678901234567890" in Base32.
    let s = Secret::new("rfc".to_string(), "GEZDGNBVGY3TQOJQGEZDGNBVGY3TQOJQ".to_string());
    assert_eq!(s.generate(59).unwrap(), "287082");
}

#[test]
fn generate_rejects_bad_seed() {
    let s = Secret::new("bad".to_string(), "not base32!".to_string());
    assert_eq!(s.generate(59).unwrap_err().message(), DECODE_FAILED);
}

#[test]
fn split_text_keeps_empty_pieces() {
    let parts = split_text("$a$$b", '$');
    assert_eq!(parts, vec!["", "a", "", "b"]);
    assert_eq!(split_text("", '\n'), vec![""]);
}

#[test]
fn records_text_and_parse_secrets() {
    let secrets = vec![
        Secret::new("a".to_string(), "1".to_string()),
        Secret::new("b".to_string(), "2".to_string()),
    ];
    let text = records_text(&secrets);
    assert_eq!(text, "a\t1\nb\t2\n");
    assert_eq!(parse_secrets(&text).unwrap(), secrets);
}

#[test]
fn error_from_keeps_message() {
    let e = Error::from("no secret found");
    assert_eq!(e.message(), "no secret found");
}
