use vstd::prelude::*;
use vstd::string::*;

use crate::pinkpolitiek_api::{PPErrorResponse, PPLoginResponse};

verus! {

/// A user as stored locally; `jwt` is the bearer token that identifies the user.
#[derive(Clone, Debug)]
pub struct User {
    pub id: u32,
    pub display_name: String,
    pub username: String,
    pub email: String,
    pub soy_balance: i32,
    pub is_admin: i8,
    pub jwt: String,
}

/// The credentials sent to log in.
#[derive(Clone, Debug)]
pub struct LoginBody {
    pub username: String,
    pub password: String,
}

/// Why a request could not be tied to a user.
#[derive(Clone, Copy, Debug, PartialEq, Eq, Structural)]
pub enum AuthError {
    /// The request has no Authorization header.
    MissingCredentials,
    /// The token is not known, or the remote API says it is invalid.
    InvalidToken,
    /// The token could not be checked: the remote API was unreachable.
    ValidationUnavailable,
}

/// What the remote token check answered.
#[derive(Clone, Debug)]
pub enum TokenCheck {
    Valid(User),
    Invalid,
    Unreachable,
}

/// `s` with every occurrence of `pat` replaced by `rep`, scanning from the left and
/// without overlaps.
pub open spec fn replaced_all(s: Seq<char>, pat: Seq<char>, rep: Seq<char>) -> Seq<char>
    decreases s.len(),
{
    if s.len() == 0 {
        s
    } else if 0 < pat.len() <= s.len() && s.take(pat.len() as int) == pat {
        rep + replaced_all(s.skip(pat.len() as int), pat, rep)
    } else {
        seq![s[0]] + replaced_all(s.skip(1), pat, rep)
    }
}

/// `s` with every occurrence of `pat` replaced by `rep`, from the left and without
/// overlaps.
fn replace_text(s: &str, pat: &str, rep: &str) -> (r: String)
    requires
        pat@.len() > 0,
    ensures
        r@ == replaced_all(s@, pat@, rep@),
{
    let n = s.unicode_len();
    let plen = pat.unicode_len();
    let pattern = pat.to_owned();
    let mut out = String::new();
    let mut i: usize = 0;
    assert(s@.skip(0) =~= s@);
    while i < n
        invariant
            n == s@.len(),
            plen == pat@.len(),
            plen > 0,
            pattern@ == pat@,
            i <= n,
            out@ + replaced_all(s@.skip(i as int), pat@, rep@) == replaced_all(s@, pat@, rep@),
        decreases n - i,
    {
        let ghost rest = s@.skip(i as int);
        let found = if plen <= n - i {
            let piece = s.substring_char(i, i + plen).to_owned();
            assert(piece@ =~= rest.take(plen as int));
            piece == pattern
        } else {
            false
        };
        if found {
            assert(rest.skip(plen as int) =~= s@.skip(i + plen));
            assert(replaced_all(rest, pat@, rep@) == rep@ + replaced_all(rest.skip(plen as int), pat@, rep@));
            let ghost before = out@;
            out.append(rep);
            assert(out@ + replaced_all(s@.skip(i + plen), pat@, rep@) =~= before + (rep@ + replaced_all(
                rest.skip(plen as int),
                pat@,
                rep@,
            )));
            i = i + plen;
        } else {
            let one = s.substring_char(i, i + 1);
            assert(one@ =~= seq![rest[0]]);
            assert(rest.skip(1) =~= s@.skip(i + 1));
            assert(replaced_all(rest, pat@, rep@) == seq![rest[0]] + replaced_all(rest.skip(1), pat@, rep@));
            let ghost before = out@;
            out.append(one);
            assert(out@ + replaced_all(s@.skip(i + 1), pat@, rep@) =~= before + (seq![rest[0]] + replaced_all(
                rest.skip(1),
                pat@,
                rep@,
            )));
            i = i + 1;
        }
    }
    assert(s@.skip(n as int) =~= Seq::<char>::empty());
    assert(out@ =~= out@ + replaced_all(s@.skip(n as int), pat@, rep@));
    out
}

/// The token of an Authorization header: the header with each `"Bearer "` removed.
pub fn bearer_token(header: &str) -> (r: String)
    ensures
        r@ == replaced_all(header@, "Bearer "@, ""@),
{
    proof {
        reveal_strlit("Bearer ");
    }
    replace_text(header, "Bearer ", "")
}

/// Ties a request to a user through the remote token check: no header is
/// `MissingCredentials`; otherwise the check decides.
pub fn resolve_remote(header: Option<&str>, check: TokenCheck) -> (r: Result<User, AuthError>)
    ensures
        header is None ==> r == Err::<User, AuthError>(AuthError::MissingCredentials),
        header is Some ==> match check {
            TokenCheck::Valid(u) => r == Ok::<User, AuthError>(u),
            TokenCheck::Invalid => r == Err::<User, AuthError>(AuthError::InvalidToken),
            TokenCheck::Unreachable => r == Err::<User, AuthError>(AuthError::ValidationUnavailable),
        },
{
    match header {
        None => Err(AuthError::MissingCredentials),
        Some(_) => match check {
            TokenCheck::Valid(u) => Ok(u),
            TokenCheck::Invalid => Err(AuthError::InvalidToken),
            TokenCheck::Unreachable => Err(AuthError::ValidationUnavailable),
        },
    }
}

/// The position of the last user whose field picked by `by_token` equals `key`, or -1.
pub open spec fn find_user(users: Seq<User>, key: Seq<char>, by_token: bool) -> int
    decreases users.len(),
{
    if users.len() == 0 {
        -1
    } else if (if by_token { users.last().jwt@ } else { users.last().username@ }) == key {
        users.len() - 1
    } else {
        find_user(users.drop_last(), key, by_token)
    }
}

/// The user that logging in with `login` leaves, given the user stored under that
/// username before, and the id a new user gets.
pub open spec fn logged_in(existing: Option<User>, login: PPLoginResponse, new_id: u32) -> User {
    match existing {
        Some(old) => User {
            id: old.id,
            display_name: login.user_display_name,
            username: login.user_nicename,
            email: login.user_email,
            soy_balance: old.soy_balance,
            is_admin: old.is_admin,
            jwt: login.token,
        },
        None => User {
            id: new_id,
            display_name: login.user_display_name,
            username: login.user_nicename,
            email: login.user_email,
            soy_balance: 0,
            is_admin: 0,
            jwt: login.token,
        },
    }
}

proof fn lemma_find_user(users: Seq<User>, key: Seq<char>, by_token: bool)
    ensures
        -1 <= find_user(users, key, by_token) < users.len(),
        find_user(users, key, by_token) >= 0 ==> (if by_token {
            users[find_user(users, key, by_token)].jwt@
        } else {
            users[find_user(users, key, by_token)].username@
        }) == key,
        forall|k: int| find_user(users, key, by_token) < k < users.len()
            ==> (if by_token { (#[trigger] users[k]).jwt@ } else { users[k].username@ }) != key,
    decreases users.len(),
{
    if users.len() > 0 {
        lemma_find_user(users.drop_last(), key, by_token);
        assert forall|k: int| find_user(users, key, by_token) < k < users.len()
            implies (if by_token { (#[trigger] users[k]).jwt@ } else { users[k].username@ }) != key by {
            if k < users.len() - 1 {
                assert(users[k] == users.drop_last()[k]);
            }
        }
    }
}

fn copy_user(u: &User) -> (r: User)
    ensures
        r == *u,
{
    User {
        id: u.id,
        display_name: u.display_name.clone(),
        username: u.username.clone(),
        email: u.email.clone(),
        soy_balance: u.soy_balance,
        is_admin: u.is_admin,
        jwt: u.jwt.clone(),
    }
}

fn user_position(users: &Vec<User>, key: &String, by_token: bool) -> (r: Option<usize>)
    ensures
        match r {
            None => find_user(users@, key@, by_token) == -1,
            Some(j) => j as int == find_user(users@, key@, by_token),
        },
{
    proof {
        lemma_find_user(users@, key@, by_token);
    }
    let mut found: Option<usize> = None;
    let mut k: usize = 0;
    while k < users.len()
        invariant
            k <= users@.len(),
            match found {
                None => forall|m: int| 0 <= m < k
                    ==> (if by_token { (#[trigger] users@[m]).jwt@ } else { users@[m].username@ }) != key@,
                Some(j) => j < k && (if by_token { users@[j as int].jwt@ } else { users@[j as int].username@ }) == key@
                    && forall|m: int| j < m < k
                    ==> (if by_token { (#[trigger] users@[m]).jwt@ } else { users@[m].username@ }) != key@,
            },
        decreases users@.len() - k,
    {
        let u = &users[k];
        let same = if by_token { u.jwt == *key } else { u.username == *key };
        if same {
            found = Some(k);
        }
        k += 1;
    }
    found
}

/// The local users table.
pub struct UserStore {
    users: Vec<User>,
}

/// No two users share a username or a token.
pub open spec fn users_unique(users: Seq<User>) -> bool {
    forall|a: int, b: int| 0 <= a < b < users.len() ==> (#[trigger] users[a]).username@ != (#[trigger] users[b]).username@
        && users[a].jwt@ != users[b].jwt@
}

impl UserStore {
    /// Usernames and tokens are unique.
    pub open spec fn wf(&self) -> bool {
        users_unique(self.rows())
    }

    /// The stored users, in storage order.
    pub closed spec fn rows(&self) -> Seq<User> {
        self.users@
    }

    /// An empty table.
    pub fn new() -> (r: UserStore)
        ensures
            r.rows() == Seq::<User>::empty(),
            r.wf(),
    {
        UserStore { users: Vec::new() }
    }

    /// The stored users, in storage order.
    pub fn users(&self) -> (r: &Vec<User>)
        ensures
            r@ == self.rows(),
    {
        &self.users
    }

    /// Caches a successful remote login, keyed by username: an existing user gets the
    /// new display name, email and token; an unknown username becomes a new user whose
    /// id is one more than the number of users. A token that another user holds is
    /// refused with `TokenTaken`, since tokens identify users.
    pub fn store_to_db(&mut self, login: &PPLoginResponse) -> (r: Result<User, LoginError>)
        requires
            old(self).wf(),
            old(self).rows().len() < u32::MAX,
        ensures
            final(self).wf(),
            ({
                let j = find_user(old(self).rows(), login.user_nicename@, false);
                let t = find_user(old(self).rows(), login.token@, true);
                let existing = if j >= 0 { Some(old(self).rows()[j]) } else { None };
                let u = logged_in(existing, *login, (old(self).rows().len() + 1) as u32);
                &&& t >= 0 && t != j ==> r == Err::<User, LoginError>(LoginError::TokenTaken)
                    && final(self).rows() == old(self).rows()
                &&& !(t >= 0 && t != j) ==> r == Ok::<User, LoginError>(u)
                &&& !(t >= 0 && t != j) && j >= 0 ==> final(self).rows() == old(self).rows().update(j, u)
                &&& !(t >= 0 && t != j) && j < 0 ==> final(self).rows() == old(self).rows().push(u)
            }),
    {
        proof {
            lemma_find_user(self.users@, login.user_nicename@, false);
            lemma_find_user(self.users@, login.token@, true);
        }
        let holder = user_position(&self.users, &login.token, true);
        let named = user_position(&self.users, &login.user_nicename, false);
        match holder {
            Some(t) => {
                match named {
                    Some(j) => {
                        if t != j {
                            return Err(LoginError::TokenTaken);
                        }
                    },
                    None => {
                        return Err(LoginError::TokenTaken);
                    },
                }
            },
            None => {},
        }
        let ghost before = self.users@;
        proof {
            // No user but the one logging in holds the token.
            assert forall|k: int| 0 <= k < before.len() && before[k].jwt@ == login.token@
                implies find_user(before, login.user_nicename@, false) == k by {
                let t = find_user(before, login.token@, true);
                if k != t && t >= 0 {
                    if k < t {
                        assert(before[k].jwt@ != before[t].jwt@);
                    }
                }
            }
        }
        match named {
            Some(j) => {
                let user = {
                    let old_user = &self.users[j];
                    User {
                        id: old_user.id,
                        display_name: login.user_display_name.clone(),
                        username: login.user_nicename.clone(),
                        email: login.user_email.clone(),
                        soy_balance: old_user.soy_balance,
                        is_admin: old_user.is_admin,
                        jwt: login.token.clone(),
                    }
                };
                self.users[j] = copy_user(&user);
                proof {
                    assert forall|a: int, b: int| 0 <= a < b < self.users@.len() implies (#[trigger] self.users@[a]).username@
                        != (#[trigger] self.users@[b]).username@ && self.users@[a].jwt@ != self.users@[b].jwt@ by {
                        if a == j {
                            assert(before[b].username@ != before[j as int].username@);
                        } else if b == j {
                            assert(before[a].username@ != before[j as int].username@);
                        } else {
                            assert(self.users@[a] == before[a] && self.users@[b] == before[b]);
                        }
                    }
                }
                Ok(user)
            },
            None => {
                let user = User {
                    id: (self.users.len() + 1) as u32,
                    display_name: login.user_display_name.clone(),
                    username: login.user_nicename.clone(),
                    email: login.user_email.clone(),
                    soy_balance: 0,
                    is_admin: 0,
                    jwt: login.token.clone(),
                };
                self.users.push(copy_user(&user));
                proof {
                    assert forall|a: int, b: int| 0 <= a < b < self.users@.len() implies (#[trigger] self.users@[a]).username@
                        != (#[trigger] self.users@[b]).username@ && self.users@[a].jwt@ != self.users@[b].jwt@ by {
                        assert(self.users@[a] == before[a]);
                        if b < before.len() {
                            assert(self.users@[b] == before[b]);
                        }
                    }
                }
                Ok(user)
            },
        }
    }

    /// The user whose stored token is `token`; an unknown token is `InvalidToken`.
    pub fn validate_token(&self, token: &str) -> (r: Result<User, AuthError>)
        requires
            self.wf(),
        ensures
            forall|k: int| 0 <= k < self.rows().len() && (#[trigger] self.rows()[k]).jwt@ == token@
                ==> r == Ok::<User, AuthError>(self.rows()[k]),
            find_user(self.rows(), token@, true) >= 0 ==> r == Ok::<User, AuthError>(
                self.rows()[find_user(self.rows(), token@, true)],
            ),
            find_user(self.rows(), token@, true) < 0 ==> r == Err::<User, AuthError>(AuthError::InvalidToken),
    {
        proof {
            lemma_find_user(self.users@, token@, true);
            let f = find_user(self.users@, token@, true);
            assert forall|k: int| 0 <= k < self.users@.len() && (#[trigger] self.users@[k]).jwt@ == token@ implies f == k by {
                if f != k && f >= 0 && f < k {
                    assert(self.users@[f].jwt@ != self.users@[k].jwt@);
                }
            }
        }
        let key = token.to_owned();
        match user_position(&self.users, &key, true) {
            Some(j) => Ok(copy_user(&self.users[j])),
            None => Err(AuthError::InvalidToken),
        }
    }

    /// Ties a request to a stored user by the token of its Authorization header: no
    /// header is `MissingCredentials`, a token that no user holds is `InvalidToken`.
    pub fn resolve(&self, header: Option<&str>) -> (r: Result<User, AuthError>)
        requires
            self.wf(),
        ensures
            header is None ==> r == Err::<User, AuthError>(AuthError::MissingCredentials),
            header is Some ==> ({
                let token = replaced_all(header.unwrap()@, "Bearer "@, ""@);
                let j = find_user(self.rows(), token, true);
                &&& j >= 0 ==> r == Ok::<User, AuthError>(self.rows()[j])
                &&& j < 0 ==> r == Err::<User, AuthError>(AuthError::InvalidToken)
                &&& forall|k: int| 0 <= k < self.rows().len() && (#[trigger] self.rows()[k]).jwt@ == token
                    ==> r == Ok::<User, AuthError>(self.rows()[k])
            }),
    {
        match header {
            None => Err(AuthError::MissingCredentials),
            Some(h) => {
                let token = bearer_token(h);
                self.validate_token(token.as_str())
            },
        }
    }
}

/// What the remote login endpoint answered.
#[derive(Clone, Debug)]
pub enum LoginReply {
    /// The remote API could not be reached.
    Unreachable,
    /// Status 200 with the user's identity and token.
    Accepted(PPLoginResponse),
    /// Any other status, with the remote error envelope.
    Refused { status: u16, envelope: PPErrorResponse },
}

/// Why a login failed, with the status to answer the client.
#[derive(Clone, Debug)]
pub enum LoginError {
    /// The remote API could not be reached: answered with 503.
    Unavailable,
    /// The remote API refused: its envelope is passed on under `status`.
    Remote { status: u16, envelope: PPErrorResponse },
    /// Another user already holds the token: answered with 500.
    TokenTaken,
}

/// What to do with the remote login endpoint's answer.
#[derive(Clone, Debug)]
pub enum LoginAction {
    /// Cache the identity and token, then answer with them.
    Cache(PPLoginResponse),
    /// Answer with this error.
    Fail(LoginError),
}

/// Decides on the remote login endpoint's answer: an accepted login is cached; no
/// answer is `Unavailable`; a refusal passes the envelope on under `login_status`.
pub fn login_action(reply: LoginReply) -> (r: LoginAction)
    ensures
        match reply {
            LoginReply::Unreachable => r == LoginAction::Fail(LoginError::Unavailable),
            LoginReply::Refused { status, envelope } => r == LoginAction::Fail(
                LoginError::Remote { status: if status == 404 { 404u16 } else { 500u16 }, envelope },
            ),
            LoginReply::Accepted(login) => r == LoginAction::Cache(login),
        },
{
    match reply {
        LoginReply::Unreachable => LoginAction::Fail(LoginError::Unavailable),
        LoginReply::Refused { status, envelope } => LoginAction::Fail(
            LoginError::Remote { status: login_status(status), envelope },
        ),
        LoginReply::Accepted(login) => LoginAction::Cache(login),
    }
}

/// The status that passes a refused remote login on: 404 stays 404, anything else is 500.
pub fn login_status(remote_status: u16) -> (r: u16)
    ensures
        r == if remote_status == 404 { 404u16 } else { 500u16 },
{
    if remote_status == 404 {
        404
    } else {
        500
    }
}

/// Logs in through the remote API's answer: an accepted login is cached in `users`
/// (see `UserStore::store_to_db`) and gives the user; other answers change nothing.
pub fn login(users: &mut UserStore, reply: LoginReply) -> (r: Result<User, LoginError>)
    requires
        old(users).wf(),
        old(users).rows().len() < u32::MAX,
    ensures
        final(users).wf(),
        match reply {
            LoginReply::Unreachable => r == Err::<User, LoginError>(LoginError::Unavailable)
                && final(users).rows() == old(users).rows(),
            LoginReply::Refused { status, envelope } => r == Err::<User, LoginError>(
                LoginError::Remote { status: if status == 404 { 404u16 } else { 500u16 }, envelope },
            ) && final(users).rows() == old(users).rows(),
            LoginReply::Accepted(login) => {
                let j = find_user(old(users).rows(), login.user_nicename@, false);
                let t = find_user(old(users).rows(), login.token@, true);
                let existing = if j >= 0 { Some(old(users).rows()[j]) } else { None };
                let u = logged_in(existing, login, (old(users).rows().len() + 1) as u32);
                &&& t >= 0 && t != j ==> r == Err::<User, LoginError>(LoginError::TokenTaken)
                    && final(users).rows() == old(users).rows()
                &&& !(t >= 0 && t != j) ==> r == Ok::<User, LoginError>(u)
                &&& !(t >= 0 && t != j) && j >= 0 ==> final(users).rows() == old(users).rows().update(j, u)
                &&& !(t >= 0 && t != j) && j < 0 ==> final(users).rows() == old(users).rows().push(u)
            },
        },
{
    match login_action(reply) {
        LoginAction::Fail(e) => Err(e),
        LoginAction::Cache(login) => users.store_to_db(&login),
    }
}

} // verus!
