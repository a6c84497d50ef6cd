use idirfein_server::auth_utils::{
    accept_token, accept_users, authorise, calculate_totp_token, compare_tokens,
    get_client_auth_list, AuthError,
};
use totp_rs::{Algorithm, TOTP};

const SEED: &[u8] = b"twenty bytes of seed";

const USERS: &str = "{\"alice\": [116, 119, 101, 110, 116, 121, 32, 98, 121, 116, 101, 115, 32, \
    111, 102, 32, 115, 101, 101, 100], \"bob\": [1, 2, 3]}";

fn tokens_around_now() -> Vec<String> {
    let totp = TOTP::new(Algorithm::SHA1, 6, 1, 30, SEED.to_vec()).unwrap();
    let now = std::time::SystemTime::now()
        .duration_since(std::time::UNIX_EPOCH)
        .unwrap()
        .as_secs();
    vec![totp.generate(now - 30), totp.generate(now), totp.generate(now + 30)]
}

#[test]
fn seeds_are_read_from_the_users_file() {
    let list = get_client_auth_list(USERS).unwrap();
    assert_eq!(list.get("alice").map(|seed| seed.as_slice()), Some(SEED));
    assert_eq!(list.get("bob"), Some(&vec![1u8, 2, 3]));
    assert!(list.get("carol").is_none());
    assert!(get_client_auth_list("{}").unwrap().get("alice").is_none());
}

#[test]
fn the_last_seed_of_a_client_counts() {
    let entries = vec![
        ("alice".to_string(), vec![1]),
        ("bob".to_string(), vec![2]),
        ("alice".to_string(), vec![3]),
    ];
    let list = accept_users(Ok(entries)).unwrap();
    assert_eq!(list.get("alice"), Some(&vec![3u8]));
    assert_eq!(list.get("bob"), Some(&vec![2u8]));
    assert!(list.get("carol").is_none());
    let error = serde_json::from_str::<Vec<u8>>("").err().unwrap();
    assert_eq!(accept_users(Err(error)).err(), Some(AuthError::MalformedUsers));
}

#[test]
fn malformed_users_files_are_refused() {
    for json in ["", "[]", "{\"alice\": [256]}", "{\"alice\": \"seed\"}", "{\"alice\": [1]"] {
        assert_eq!(get_client_auth_list(json).err(), Some(AuthError::MalformedUsers), "{}", json);
        assert_eq!(authorise(json, "alice", "000000"), Err(AuthError::MalformedUsers), "{}", json);
    }
}

#[test]
fn tokens_have_six_digits() {
    let token = calculate_totp_token(SEED).unwrap();
    assert_eq!(token.len(), 6);
    assert!(token.chars().all(|c| c.is_ascii_digit()));
}

#[test]
fn tokens_belong_to_the_current_time() {
    let token = calculate_totp_token(SEED).unwrap();
    assert!(tokens_around_now().contains(&token));
}

#[test]
fn tokens_last_for_half_a_minute() {
    let totp = TOTP::new(Algorithm::SHA1, 6, 1, 30, SEED.to_vec()).unwrap();
    assert_eq!(totp.generate(1_000_000_020), totp.generate(1_000_000_049));
    assert_eq!(totp.generate(59), totp.generate(30));
}

#[test]
fn short_seeds_are_refused() {
    assert_eq!(calculate_totp_token(&[7; 15]), Err(AuthError::InvalidCredentials));
    assert!(calculate_totp_token(&[7; 16]).is_ok());
    assert_eq!(authorise(USERS, "bob", "000000"), Err(AuthError::InvalidCredentials));
}

#[test]
fn a_failed_token_is_an_invalid_credential() {
    let refused = TOTP::new(Algorithm::SHA1, 6, 1, 30, vec![1, 2, 3]).err().unwrap();
    assert_eq!(accept_token(Err(refused)), Err(AuthError::InvalidCredentials));
    assert_eq!(accept_token(Ok(Ok("123456".to_string()))), Ok("123456".to_string()));
}

#[test]
fn tokens_are_compared_exactly() {
    assert_eq!(compare_tokens("123456", Ok("123456".to_string())), Ok(true));
    assert_eq!(compare_tokens("123457", Ok("123456".to_string())), Ok(false));
    assert_eq!(compare_tokens("12345", Ok("123456".to_string())), Ok(false));
    assert_eq!(compare_tokens("", Ok("123456".to_string())), Ok(false));
    assert_eq!(
        compare_tokens("123456", Err(AuthError::InvalidCredentials)),
        Err(AuthError::InvalidCredentials)
    );
}

#[test]
fn the_current_token_lets_a_client_in() {
    let mut allowed = false;
    for _ in 0..3 {
        let token = calculate_totp_token(SEED).unwrap();
        allowed = allowed || authorise(USERS, "alice", &token) == Ok(true);
    }
    assert!(allowed);
}

#[test]
fn wrong_tokens_keep_a_client_out() {
    assert_eq!(authorise(USERS, "alice", ""), Ok(false));
    assert_eq!(authorise(USERS, "alice", "12345"), Ok(false));
    assert_eq!(authorise(USERS, "alice", "abcdef"), Ok(false));
    let other = tokens_around_now();
    let wrong = (0..10).map(|i| format!("{:06}", i * 7919)).find(|t| !other.contains(t)).unwrap();
    assert_eq!(authorise(USERS, "alice", &wrong), Ok(false));
}

#[test]
fn unknown_clients_are_kept_out() {
    for token in tokens_around_now() {
        assert_eq!(authorise(USERS, "carol", &token), Ok(false));
        assert_eq!(authorise("{}", "alice", &token), Ok(false));
    }
}
