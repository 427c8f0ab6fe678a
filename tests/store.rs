use authenticator::error::{
    BAD_FIELD_LENGTH, DECODE_FAILED, INCORRECT_PIN, MALFORMED_RECORD, MISSING_FIELD, NOT_FOUND,
};
use authenticator::store::{remove_secret, KdfLimits, Store};
use authenticator::secret::Secret;

fn pw() -> String {
    String::from("password")
}

fn other_pw() -> String {
    String::from("not the password")
}

fn test_secret() -> Secret {
    Secret::new("test".to_string(), "abcd".to_string())
}

fn fast() -> KdfLimits {
    KdfLimits::interactive()
}

#[test]
fn it_loads_plain_text() {
    let b = Store::from_str("test\tabcd", pw).unwrap();
    assert_eq!(Store::Plaintext(vec![test_secret()]), b);
}

#[test]
fn it_upgrades_plaintext_to_encrypted() {
    let store = Store::Plaintext(Vec::new());
    let (store, _) = store.upgrade(pw, false).unwrap();
    assert!(matches!(store, Store::Encrypted(_, _, _)));
}

#[test]
fn plain_text_skips_empty_lines() {
    let b = Store::from_str("a\tb\n\n\nc\td\n", pw).unwrap();
    let expected = vec![
        Secret::new("a".to_string(), "b".to_string()),
        Secret::new("c".to_string(), "d".to_string()),
    ];
    assert_eq!(Store::Plaintext(expected), b);
}

#[test]
fn empty_text_is_empty_plaintext() {
    let b = Store::from_str("", pw).unwrap();
    assert_eq!(Store::new(), b);
}

#[test]
fn plain_text_with_bad_record_fails() {
    let e = Store::from_str("a\tb\nno tab here\n", pw).unwrap_err();
    assert_eq!(e.message(), MALFORMED_RECORD);
}

#[test]
fn plaintext_round_trip() {
    let secrets = vec![
        Secret::new("github".to_string(), "JBSWY3DPEHPK3PXP".to_string()),
        Secret::new("mail".to_string(), "abcd".to_string()),
    ];
    let text = Store::Plaintext(secrets.clone()).to_string();
    assert_eq!(text, "github\tJBSWY3DPEHPK3PXP\nmail\tabcd\n");
    let back = Store::from_str(&text, pw).unwrap();
    assert_eq!(back, Store::Plaintext(secrets));
}

#[test]
fn encrypted_round_trip() {
    let secrets = vec![Secret::new("github".to_string(), "JBSWY3DPEHPK3PXP".to_string())];
    let (store, changed) = Store::Plaintext(secrets.clone())
        .upgrade_with_limits(pw, false, fast())
        .unwrap();
    assert!(changed);
    let text = store.clone().to_string();
    assert!(text.starts_with('$'));
    assert_eq!(text.split('$').count(), 4);
    assert!(!text.contains("github"));
    let back = Store::from_str_with_limits(&text, pw, fast()).unwrap();
    assert_eq!(back, store);
    assert_eq!(back.secrets(), &secrets);
}

#[test]
fn encrypted_saves_use_fresh_nonces() {
    let (store, _) = Store::new().upgrade_with_limits(pw, false, fast()).unwrap();
    let a = store.clone().to_string();
    let b = store.clone().to_string();
    assert_ne!(a, b);
    let fields_a: Vec<&str> = a.split('$').collect();
    let fields_b: Vec<&str> = b.split('$').collect();
    assert_eq!(fields_a[1], fields_b[1]);
}

#[test]
fn wrong_password_is_rejected() {
    let secrets = vec![Secret::new("github".to_string(), "JBSWY3DPEHPK3PXP".to_string())];
    let (store, _) = Store::Plaintext(secrets).upgrade_with_limits(pw, false, fast()).unwrap();
    let text = store.to_string();
    let e = Store::from_str_with_limits(&text, other_pw, fast()).unwrap_err();
    assert_eq!(e.message(), INCORRECT_PIN);
}

#[test]
fn tampered_body_is_rejected() {
    let (store, _) = Store::new().upgrade_with_limits(pw, false, fast()).unwrap();
    let text = store.to_string();
    let fields: Vec<&str> = text.split('$').collect();
    let tampered = format!("${}${}$AAAAAAAAAAAAAAAAAAAAAA==", fields[1], fields[2]);
    let e = Store::from_str_with_limits(&tampered, pw, fast()).unwrap_err();
    assert_eq!(e.message(), INCORRECT_PIN);
}

#[test]
fn upgrade_without_force_keeps_encrypted_store() {
    let (store, _) = Store::new().upgrade_with_limits(pw, false, fast()).unwrap();
    let (once, changed_once) = store.clone().upgrade_with_limits(pw, false, fast()).unwrap();
    let (twice, changed_twice) = once.clone().upgrade_with_limits(pw, false, fast()).unwrap();
    assert!(!changed_once);
    assert!(!changed_twice);
    assert_eq!(once, store);
    assert_eq!(twice, store);
}

#[test]
fn forced_upgrade_rekeys() {
    let secrets = vec![test_secret()];
    let (store, _) = Store::Plaintext(secrets.clone())
        .upgrade_with_limits(pw, false, fast())
        .unwrap();
    let (rekeyed, changed) = store.clone().upgrade_with_limits(other_pw, true, fast()).unwrap();
    assert!(changed);
    match (&store, &rekeyed) {
        (Store::Encrypted(k1, s1, _), Store::Encrypted(k2, s2, ss)) => {
            assert_ne!(s1, s2);
            assert_ne!(k1, k2);
            assert_eq!(ss, &secrets);
        }
        _ => panic!("both stores must be encrypted"),
    }
    let text = rekeyed.clone().to_string();
    assert_eq!(Store::from_str_with_limits(&text, other_pw, fast()).unwrap(), rekeyed);
}

#[test]
fn missing_field_is_rejected() {
    let e = Store::from_str("$AAAA$AAAA", pw).unwrap_err();
    assert_eq!(e.message(), MISSING_FIELD);
}

#[test]
fn invalid_base64_field_is_rejected() {
    let e = Store::from_str("$!!!$AAAA$AAAA", pw).unwrap_err();
    assert_eq!(e.message(), DECODE_FAILED);
}

#[test]
fn short_salt_is_rejected() {
    let e = Store::from_str("$AAAA$AAAA$AAAA", pw).unwrap_err();
    assert_eq!(e.message(), BAD_FIELD_LENGTH);
}

#[test]
fn remove_secret_removes_first_match() {
    let mut secrets = vec![
        Secret::new("a".to_string(), "1".to_string()),
        Secret::new("b".to_string(), "2".to_string()),
        Secret::new("b".to_string(), "3".to_string()),
    ];
    remove_secret(&mut secrets, &"b".to_string()).unwrap();
    assert_eq!(
        secrets,
        vec![
            Secret::new("a".to_string(), "1".to_string()),
            Secret::new("b".to_string(), "3".to_string()),
        ]
    );
}

#[test]
fn remove_missing_secret_fails() {
    let mut secrets = vec![test_secret()];
    let e = remove_secret(&mut secrets, &"other".to_string()).unwrap_err();
    assert_eq!(e.message(), NOT_FOUND);
    assert_eq!(secrets, vec![test_secret()]);
}

#[test]
fn secrets_mut_edits_in_place() {
    let (mut store, _) = Store::new().upgrade_with_limits(pw, false, fast()).unwrap();
    store.secrets_mut().push(test_secret());
    assert_eq!(store.secrets(), &vec![test_secret()]);
    assert!(matches!(store, Store::Encrypted(_, _, _)));
}

#[test]
fn add_save_reload_show() {
    let mut store = Store::from_str("", pw).unwrap();
    assert_eq!(store, Store::new());
    store
        .secrets_mut()
        .push(Secret::new("github".to_string(), "JBSWY3DPEHPK3PXP".to_string()));
    let text = store.to_string();
    let store = Store::from_str_with_limits(&text, pw, fast()).unwrap();
    let (store, changed) = store.upgrade_with_limits(pw, false, fast()).unwrap();
    assert!(changed);
    assert!(matches!(store, Store::Encrypted(_, _, _)));
    let saved = store.clone().to_string();
    let store = Store::from_str_with_limits(&saved, pw, fast()).unwrap();
    let names: Vec<&str> = store.secrets().iter().map(|s| s.name.as_str()).collect();
    assert_eq!(names, vec!["github"]);
    let shown = store.secrets()[0].generate(59).unwrap();
    let direct = Secret::new("github".to_string(), "JBSWY3DPEHPK3PXP".to_string())
        .generate(59)
        .unwrap();
    assert_eq!(shown, direct);
    assert_eq!(shown, "996554");
}

#[test]
fn find_secret_returns_first_match() {
    let secrets = vec![
        Secret::new("a".to_string(), "1".to_string()),
        Secret::new("b".to_string(), "2".to_string()),
        Secret::new("b".to_string(), "3".to_string()),
    ];
    let found = authenticator::store::find_secret(&secrets, &"b".to_string()).unwrap();
    assert_eq!(found.seed(), "2");
    assert!(authenticator::store::find_secret(&secrets, &"c".to_string()).is_none());
}
