use nvgs::users::User;

#[test]
fn passwords_verify_against_their_hash() {
    let user = User::new("ada", "secret", &[7u8; 16]).unwrap();
    assert_eq!(user.username, "ada");
    assert!(user.password_hash.starts_with("$argon2id$"));
    assert!(user.verify_password("secret"));
    assert!(!user.verify_password("Secret"));
    let again = User::new("ada", "secret", &[7u8; 16]).unwrap();
    assert_eq!(again.password_hash, user.password_hash);
}

#[test]
fn short_salt_is_refused_and_bad_hash_never_verifies() {
    assert!(User::new("ada", "secret", &[1u8; 2]).is_err());
    let broken = User { username: "x".to_string(), password_hash: "not a hash".to_string() };
    assert!(!broken.verify_password(""));
}

#[test]
fn salt_length_bounds() {
    assert!(User::new("ada", "pw", &[3u8; 8]).is_ok());
    assert!(User::new("ada", "pw", &[3u8; 48]).is_ok());
    assert!(User::new("ada", "pw", &[3u8; 7]).is_err());
    assert!(User::new("ada", "pw", &[3u8; 49]).is_err());
}
