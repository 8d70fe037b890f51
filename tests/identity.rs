use sojas_api::pinkpolitiek_api::{PPErrorData, PPErrorResponse, PPLoginResponse};
use sojas_api::users::{
    bearer_token, login, login_action, login_status, resolve_remote, AuthError, LoginAction, LoginError, LoginReply,
    TokenCheck, User, UserStore,
};

fn answer(name: &str, token: &str) -> PPLoginResponse {
    PPLoginResponse {
        token: token.to_string(),
        user_email: format!("{}@example.org", name),
        user_nicename: name.to_string(),
        user_display_name: name.to_uppercase(),
    }
}

fn some_user() -> User {
    User {
        id: 1,
        display_name: "A".to_string(),
        username: "a".to_string(),
        email: "a@example.org".to_string(),
        soy_balance: 3,
        is_admin: 0,
        jwt: "t".to_string(),
    }
}

#[test]
fn bearer_prefix_is_removed() {
    assert_eq!(bearer_token("Bearer abc.def"), "abc.def");
    assert_eq!(bearer_token("abc"), "abc");
    assert_eq!(bearer_token("Bearer Bearer x"), "x");
}

#[test]
fn missing_header_is_missing_credentials() {
    let users = UserStore::new();
    assert!(matches!(users.resolve(None), Err(AuthError::MissingCredentials)));
    assert!(matches!(resolve_remote(None, TokenCheck::Valid(some_user())), Err(AuthError::MissingCredentials)));
}

#[test]
fn unknown_token_is_invalid() {
    let mut users = UserStore::new();
    let _ = users.store_to_db(&answer("anna", "tok-a"));
    assert!(matches!(users.resolve(Some("Bearer eyJ.unknown.sig")), Err(AuthError::InvalidToken)));
    assert!(matches!(resolve_remote(Some("Bearer x"), TokenCheck::Invalid), Err(AuthError::InvalidToken)));
}

#[test]
fn transport_failure_is_validation_unavailable() {
    let r = resolve_remote(Some("Bearer x"), TokenCheck::Unreachable);
    assert!(matches!(r, Err(AuthError::ValidationUnavailable)));
    assert_ne!(AuthError::ValidationUnavailable, AuthError::InvalidToken);
}

#[test]
fn known_token_resolves_to_user() {
    let mut users = UserStore::new();
    let _ = users.store_to_db(&answer("anna", "tok-a"));
    let _ = users.store_to_db(&answer("bert", "tok-b"));
    let u = users.resolve(Some("Bearer tok-b")).unwrap();
    assert_eq!(u.username, "bert");
    assert_eq!(u.id, 2);
    assert_eq!(users.validate_token("tok-a").unwrap().username, "anna");
    let checked = resolve_remote(Some("Bearer t"), TokenCheck::Valid(some_user())).unwrap();
    assert_eq!(checked.soy_balance, 3);
}

#[test]
fn second_login_updates_the_user() {
    let mut users = UserStore::new();
    let first = users.store_to_db(&answer("anna", "tok-1")).unwrap();
    assert_eq!(first.id, 1);
    assert_eq!(first.display_name, "ANNA");
    let mut again = answer("anna", "tok-2");
    again.user_email = "new@example.org".to_string();
    let second = users.store_to_db(&again).unwrap();
    assert_eq!(second.id, 1);
    assert_eq!(second.email, "new@example.org");
    assert_eq!(second.jwt, "tok-2");
    assert_eq!(users.users().len(), 1);
    assert!(matches!(users.validate_token("tok-1"), Err(AuthError::InvalidToken)));
}

#[test]
fn login_status_passes_not_found() {
    assert_eq!(login_status(404), 404);
    assert_eq!(login_status(403), 500);
    assert_eq!(login_status(500), 500);
}

#[test]
fn login_outcomes() {
    let mut users = UserStore::new();
    assert!(matches!(login(&mut users, LoginReply::Unreachable), Err(LoginError::Unavailable)));
    let refused = LoginReply::Refused {
        status: 403,
        envelope: PPErrorResponse {
            code: "[jwt_auth] incorrect_password".to_string(),
            message: "wrong".to_string(),
            data: PPErrorData { status: 403 },
        },
    };
    match login(&mut users, refused) {
        Err(LoginError::Remote { status, envelope }) => {
            assert_eq!(status, 500);
            assert_eq!(envelope.message, "wrong");
        },
        other => panic!("unexpected {:?}", other),
    }
    assert!(users.users().is_empty());
    let u = login(&mut users, LoginReply::Accepted(answer("cas", "tok-c"))).unwrap();
    assert_eq!(u.jwt, "tok-c");
    assert_eq!(users.users().len(), 1);
}

#[test]
fn token_held_by_another_user_is_refused() {
    let mut users = UserStore::new();
    assert!(users.store_to_db(&answer("anna", "tok-a")).is_ok());
    assert!(matches!(users.store_to_db(&answer("bert", "tok-a")), Err(LoginError::TokenTaken)));
    assert_eq!(users.users().len(), 1);
    assert_eq!(users.validate_token("tok-a").unwrap().username, "anna");
    assert!(matches!(login(&mut users, LoginReply::Accepted(answer("cas", "tok-a"))), Err(LoginError::TokenTaken)));
}

#[test]
fn relogin_with_same_token_keeps_one_row() {
    let mut users = UserStore::new();
    assert!(users.store_to_db(&answer("anna", "tok-a")).is_ok());
    let again = users.store_to_db(&answer("anna", "tok-a")).unwrap();
    assert_eq!(again.id, 1);
    assert_eq!(users.users().len(), 1);
}

#[test]
fn login_action_decisions() {
    assert!(matches!(login_action(LoginReply::Unreachable), LoginAction::Fail(LoginError::Unavailable)));
    let refused = LoginReply::Refused {
        status: 404,
        envelope: PPErrorResponse {
            code: "[jwt_auth] invalid_username".to_string(),
            message: "unknown".to_string(),
            data: PPErrorData { status: 404 },
        },
    };
    match login_action(refused) {
        LoginAction::Fail(LoginError::Remote { status, envelope }) => {
            assert_eq!(status, 404);
            assert_eq!(envelope.code, "[jwt_auth] invalid_username");
        },
        other => panic!("unexpected {:?}", other),
    }
    match login_action(LoginReply::Accepted(answer("dirk", "tok-d"))) {
        LoginAction::Cache(r) => assert_eq!(r.token, "tok-d"),
        other => panic!("unexpected {:?}", other),
    }
}
