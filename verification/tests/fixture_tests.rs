use swe_grep::fixture::{compute_checksum, login_user};

#[test]
fn login_user_allows_admin() {
    assert_eq!(login_user("admin", "swe"), Some("token-admin".to_string()));
}

#[test]
fn login_user_rejects_other_credentials() {
    assert_eq!(login_user("admin", "wrong"), None);
    assert_eq!(login_user("guest", "swe"), None);
    assert_eq!(login_user("", ""), None);
}

#[test]
fn checksum_of_known_inputs() {
    assert_eq!(compute_checksum(""), 0);
    assert_eq!(compute_checksum("a"), 97);
    // 'a' * 31 + 'b' = 97 * 31 + 98
    assert_eq!(compute_checksum("ab"), 97 * 31 + 98);
}
