//! Users, password hashes and the login decision.
use vstd::prelude::*;
use sha2::Digest;

verus! {

use vstd::string::{StringExecFns, StrSliceExecFns};

/// The SHA-256 digest of `data`, as the `sha2` crate computes it.
pub uninterp spec fn sha256(data: Seq<u8>) -> Seq<u8>;

/// `sha2::Sha256::digest`: the SHA-256 digest of `data`, 32 bytes long.
#[verifier::external_body]
fn sha256_digest(data: &[u8]) -> (r: Vec<u8>)
    ensures
        r@ == sha256(data@),
        r@.len() == 32,
{
    sha2::Sha256::digest(data).to_vec()
}

/// The lowercase form of `s` by the Unicode rules of `str::to_lowercase`.
pub uninterp spec fn lowercase(s: Seq<char>) -> Seq<char>;

/// Every character of `s` is an ASCII lowercase letter or digit.
pub open spec fn lower_ascii(s: Seq<char>) -> bool {
    forall|i: int| 0 <= i < s.len() ==> ('a' <= #[trigger] s[i] <= 'z' || '0' <= s[i] <= '9')
}

/// `str::to_lowercase`: the lowercase form of `s`. Characters that are already
/// lowercase ASCII letters or digits map to themselves, so such a string comes back
/// unchanged.
#[verifier::external_body]
fn to_lowercase(s: &str) -> (r: String)
    ensures
        r@ == lowercase(s@),
        lower_ascii(s@) ==> r@ == s@,
{
    s.to_lowercase()
}

/// The upper-case hexadecimal digit of `n` (0..16).
pub open spec fn hex_digit(n: int) -> char {
    if n < 10 {
        (48 + n) as char
    } else {
        (55 + n) as char
    }
}

/// `bytes` written as upper-case hexadecimal, two digits per byte, high digit first.
pub open spec fn upper_hex(bytes: Seq<u8>) -> Seq<char> {
    Seq::new(
        2 * bytes.len(),
        |k: int|
            if k % 2 == 0 {
                hex_digit(bytes[k / 2] as int / 16)
            } else {
                hex_digit(bytes[k / 2] as int % 16)
            },
    )
}

/// The stored form of a password: its SHA-256 digest in upper-case hexadecimal.
pub open spec fn password_hash(password: Seq<char>) -> Seq<char> {
    upper_hex(sha256(vstd::utf8::encode_utf8(password)))
}

/// A greeting for `name`.
pub fn greet_user(name: &str) -> (r: String)
    ensures
        r@ == "Hello, "@ + name@ + "!"@,
{
    let mut s = String::from_str("Hello, ");
    s.append(name);
    s.append("!");
    s
}

/// What a login attempt is answered.
#[derive(PartialEq, Eq, Structural, Debug, Clone)]
pub enum LoginAction {
    Granted(LoginRole),
    Denied,
}

/// The role of a user.
#[derive(PartialEq, Eq, Structural, Debug, Clone)]
pub enum LoginRole {
    Admin,
    User,
}

/// A user: a lowercase name, the hash of the password, and a role.
#[derive(Debug, Clone)]
pub struct User {
    pub username: String,
    pub password: String,
    pub role: LoginRole,
}

/// The upper-case hexadecimal form of the SHA-256 digest of `password`.
pub fn hash_password(password: &str) -> (r: String)
    ensures
        r@ == password_hash(password@),
        r@.len() == 64,
{
    let digest = sha256_digest(password.as_bytes());
    hex_upper(&digest)
}

/// `bytes` in upper-case hexadecimal.
fn hex_upper(bytes: &Vec<u8>) -> (r: String)
    requires
        bytes@.len() <= usize::MAX / 2,
    ensures
        r@ == upper_hex(bytes@),
{
    let digits = "0123456789ABCDEF";
    proof {
        reveal_strlit("0123456789ABCDEF");
        assert forall|n: int| 0 <= n < 16 implies #[trigger] digits@[n] == hex_digit(n) by {
            assert(digits@[0] == '0');
        }
    }
    let mut s = String::new();
    let mut i: usize = 0;
    while i < bytes.len()
        invariant
            i <= bytes@.len(),
            bytes@.len() <= usize::MAX / 2,
            digits@.len() == 16,
            forall|n: int| 0 <= n < 16 ==> #[trigger] digits@[n] == hex_digit(n),
            s@ == upper_hex(bytes@.take(i as int)),
        decreases bytes@.len() - i,
    {
        let b = bytes[i];
        let hi = (b / 16) as usize;
        let lo = (b % 16) as usize;
        let ghost before = s@;
        s.append(digits.substring_char(hi, hi + 1));
        s.append(digits.substring_char(lo, lo + 1));
        proof {
            assert(s@ =~= upper_hex(bytes@.take(i as int + 1))) by {
                let t = bytes@.take(i as int + 1);
                assert forall|k: int| 0 <= k < 2 * t.len() implies s@[k] == upper_hex(t)[k] by {
                    if k < 2 * i {
                        assert(bytes@.take(i as int)[k / 2] == t[k / 2]);
                    }
                }
            }
        }
        i = i + 1;
    }
    proof {
        assert(bytes@.take(bytes@.len() as int) =~= bytes@);
    }
    s
}

impl User {
    /// A user named `username` in lowercase, with the hash of `password`.
    pub fn new(username: &str, password: &str, role: LoginRole) -> (u: User)
        ensures
            u.username@ == lowercase(username@),
            lower_ascii(username@) ==> u.username@ == username@,
            u.password@ == password_hash(password@),
            u.role == role,
    {
        User { username: to_lowercase(username), password: hash_password(password), role }
    }
}

/// The users every installation starts with: `admin` (password `admin`, an
/// administrator) and `ana` (password `123`, a user), each under its name.
pub fn get_default_users() -> (users: Vec<(String, User)>)
    ensures
        users@.len() == 2,
        users@[0].0@ == "admin"@,
        users@[0].1.username@ == "admin"@,
        users@[0].1.password@ == password_hash("admin"@),
        users@[0].1.role == LoginRole::Admin,
        users@[1].0@ == "ana"@,
        users@[1].1.username@ == "ana"@,
        users@[1].1.password@ == password_hash("123"@),
        users@[1].1.role == LoginRole::User,
{
    proof {
        reveal_strlit("admin");
        reveal_strlit("ana");
    }
    let mut users: Vec<(String, User)> = Vec::new();
    users.push((String::from_str("admin"), User::new("admin", "admin", LoginRole::Admin)));
    users.push((String::from_str("ana"), User::new("ana", "123", LoginRole::User)));
    users
}

/// The first place where `users` has an entry under `name`, if any.
pub open spec fn first_user(users: Seq<(String, User)>, name: Seq<char>) -> Option<int> {
    if exists|i: int| 0 <= i < users.len() && #[trigger] users[i].0@ == name {
        Some(
            choose|i: int|
                0 <= i < users.len() && #[trigger] users[i].0@ == name && forall|j: int|
                    0 <= j < i ==> users[j].0@ != name,
        )
    } else {
        None
    }
}

/// The answer to a login of `name` with a password whose hash is `hashed`:
/// `None` for an unknown name, access with the user's role when the hash
/// matches the stored one, and refusal otherwise.
pub open spec fn login_answer(users: Seq<(String, User)>, name: Seq<char>, hashed: Seq<char>) -> Option<
    LoginAction,
> {
    match first_user(users, name) {
        None => None,
        Some(i) => if users[i].1.password@ == hashed {
            Some(LoginAction::Granted(users[i].1.role))
        } else {
            Some(LoginAction::Denied)
        },
    }
}

/// Answers a login of `username` with `password` against the user table `users`.
pub fn login(users: &Vec<(String, User)>, username: &str, password: &str) -> (r: Option<LoginAction>)
    ensures
        r == login_answer(users@, username@, password_hash(password@)),
{
    let hashed_password = hash_password(password);
    let name = String::from_str(username);
    let mut i: usize = 0;
    while i < users.len()
        invariant
            i <= users@.len(),
            name@ == username@,
            hashed_password@ == password_hash(password@),
            forall|j: int| 0 <= j < i ==> #[trigger] users@[j].0@ != name@,
        decreases users@.len() - i,
    {
        if users[i].0 == name {
            proof {
                let w = i as int;
                let c = choose|c: int|
                    0 <= c < users@.len() && #[trigger] users@[c].0@ == name@ && forall|j: int|
                        0 <= j < c ==> users@[j].0@ != name@;
                if c < w {
                    assert(users@[c].0@ != name@);
                } else if c > w {
                    assert(users@[w].0@ != name@);
                }
                assert(first_user(users@, username@) == Some(w));
            }
            let user = &users[i].1;
            return if user.password == hashed_password {
                let role = match user.role {
                    LoginRole::Admin => LoginRole::Admin,
                    LoginRole::User => LoginRole::User,
                };
                Some(LoginAction::Granted(role))
            } else {
                Some(LoginAction::Denied)
            };
        }
        i = i + 1;
    }
    None
}


/// What the login program does after the answer to one attempt.
#[derive(PartialEq, Eq, Structural, Debug, Clone)]
pub enum LoginStep {
    /// The user is logged in with this role; the program ends.
    LoggedIn(LoginRole),
    /// The attempt failed; the user is asked again.
    Retry,
    /// Too many attempts failed; the program ends.
    GiveUp,
}

/// The login program's decision after `answer`, with `tries` failed attempts before it:
/// a granted login ends the program; any other answer counts one more failure, and the
/// program gives up once more than five attempts have failed. Returns the new count of
/// failures with the decision.
pub fn login_step(tries: u32, answer: Option<LoginAction>) -> (r: (u32, LoginStep))
    requires
        tries < u32::MAX,
    ensures
        match answer {
            Some(LoginAction::Granted(role)) => r == (tries, LoginStep::LoggedIn(role)),
            _ => r == (
                (tries + 1) as u32,
                if tries + 1 > 5 {
                    LoginStep::GiveUp
                } else {
                    LoginStep::Retry
                },
            ),
        },
{
    match answer {
        Some(LoginAction::Granted(role)) => (tries, LoginStep::LoggedIn(role)),
        _ => {
            let tries = tries + 1;
            if tries > 5 {
                (tries, LoginStep::GiveUp)
            } else {
                (tries, LoginStep::Retry)
            }
        },
    }
}


/// A login is answered from the first entry of the table under the name: access with
/// that entry's own role when the password hashes to its stored hash, refusal
/// otherwise; a name with no entry gets no answer.
pub proof fn law_login_answer(users: Seq<(String, User)>, name: Seq<char>, hashed: Seq<char>)
    ensures
        login_answer(users, name, hashed) is None <==> forall|i: int|
            0 <= i < users.len() ==> #[trigger] users[i].0@ != name,
        forall|i: int|
            0 <= i < users.len() && #[trigger] users[i].0@ == name && (forall|j: int|
                0 <= j < i ==> users[j].0@ != name) ==> login_answer(users, name, hashed) == if users[i].1.password@
                == hashed {
                Some(LoginAction::Granted(users[i].1.role))
            } else {
                Some(LoginAction::Denied)
            },
{
    assert forall|i: int|
        0 <= i < users.len() && #[trigger] users[i].0@ == name && (forall|j: int|
            0 <= j < i ==> users[j].0@ != name) implies first_user(users, name) == Some(i) by {
        let c = choose|c: int|
            0 <= c < users.len() && #[trigger] users[c].0@ == name && forall|j: int|
                0 <= j < c ==> users[j].0@ != name;
        assert(0 <= i < users.len() && users[i].0@ == name && forall|j: int|
            0 <= j < i ==> users[j].0@ != name);
        if c < i {
            assert(users[c].0@ != name);
        } else if c > i {
            assert(users[i].0@ != name);
        }
    }
    if exists|i: int| 0 <= i < users.len() && #[trigger] users[i].0@ == name {
        let i0 = choose|i: int| 0 <= i < users.len() && #[trigger] users[i].0@ == name;
        let f = least_match(users, name, i0);
        assert(first_user(users, name) == Some(f));
    }
}

/// The first entry under `name`, found below the entry `i`.
proof fn least_match(users: Seq<(String, User)>, name: Seq<char>, i: int) -> (f: int)
    requires
        0 <= i < users.len(),
        users[i].0@ == name,
    ensures
        0 <= f <= i,
        users[f].0@ == name,
        forall|j: int| 0 <= j < f ==> users[j].0@ != name,
    decreases i,
{
    if exists|j: int| 0 <= j < i && #[trigger] users[j].0@ == name {
        let j = choose|j: int| 0 <= j < i && #[trigger] users[j].0@ == name;
        least_match(users, name, j)
    } else {
        i
    }
}

} // verus!
