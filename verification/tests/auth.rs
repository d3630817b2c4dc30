use algos::auth::{get_default_users, greet_user, hash_password, login, login_step, LoginAction, LoginRole, LoginStep, User};

#[test]
fn lib_it_works() {
    assert_eq!("Hello, Jane!", greet_user("Jane"));
}

#[test]
fn login_works() {
    let users = get_default_users();
    assert_eq!(
        login(&users, "admin", "admin"),
        Some(LoginAction::Granted(LoginRole::Admin))
    );
    assert_eq!(
        login(&users, "ana", "123"),
        Some(LoginAction::Granted(LoginRole::User))
    );
    assert_eq!(login(&users, "wrong", "password"), None);
}

#[test]
fn wrong_password_is_denied() {
    let users = get_default_users();
    assert_eq!(login(&users, "admin", "nimda"), Some(LoginAction::Denied));
}

#[test]
fn password_hash_is_upper_hex_sha256() {
    assert_eq!(
        hash_password("admin"),
        "8C6976E5B5410415BDE908BD4DEE15DFB167A9C873FC4BB8A81F6F2AB448A918"
    );
    assert_eq!(
        hash_password(""),
        "E3B0C44298FC1C149AFBF4C8996FB92427AE41E4649B934CA495991B7852B855"
    );
}

#[test]
fn new_user_is_lowercased_and_hashed() {
    let user = User::new("AnA", "123", LoginRole::User);
    assert_eq!(user.username, "ana");
    assert_eq!(user.password, hash_password("123"));
    assert_eq!(user.role, LoginRole::User);
}

#[test]
fn greeting_of_empty_name() {
    assert_eq!(greet_user(""), "Hello, !");
}

#[test]
fn default_users_names_and_hash_length() {
    let users = get_default_users();
    assert_eq!(users[0].1.username, "admin");
    assert_eq!(users[1].1.username, "ana");
    assert_eq!(hash_password("admin").len(), 64);
    assert_eq!(hash_password("").len(), 64);
}

#[test]
fn login_steps() {
    assert_eq!(
        login_step(3, Some(LoginAction::Granted(LoginRole::User))),
        (3, LoginStep::LoggedIn(LoginRole::User))
    );
    assert_eq!(login_step(0, Some(LoginAction::Denied)), (1, LoginStep::Retry));
    assert_eq!(login_step(4, None), (5, LoginStep::Retry));
    assert_eq!(login_step(5, None), (6, LoginStep::GiveUp));
}
