use markov::auth::{AuthKind, SaveData};

#[test]
fn fresh_save_data_is_not_authenticated() {
    let data = SaveData::new("key".to_string(), "secret".to_string());
    assert_eq!(data.auth_kind(), AuthKind::NotAuthenticated);
    assert!(!data.is_authenticated());
}

#[test]
fn an_app_token_alone_means_app_only() {
    let mut data = SaveData::new("key".to_string(), "secret".to_string());
    data.app_token = Some("bearer".to_string());
    assert_eq!(data.auth_kind(), AuthKind::AppOnly);
    assert!(data.is_authenticated());
}

#[test]
fn a_user_token_wins_over_an_app_token() {
    let mut data = SaveData::new("key".to_string(), "secret".to_string());
    data.app_token = Some("bearer".to_string());
    data.user_token = Some(("access".to_string(), "access-secret".to_string()));
    assert_eq!(data.auth_kind(), AuthKind::UserAuthenticated);
    assert!(data.is_authenticated());
}
