//! Who a caller is on the listeners that speak HTTP.

use vstd::prelude::*;
use vstd::string::*;
use vstd::utf8::*;

use super::base64;
use super::base64::decode_base64;
use super::scram;
use super::scram::{derive_credential, ScramCredential};
use crate::be::same_bytes;
use crate::text;
use crate::text::{eq_ignore_case, same_text, split_once, text_strict, trim};

verus! {

/// User and password of an `Authorization` header of the basic scheme.
pub open spec fn basic_in(header: Seq<char>) -> Option<(Seq<char>, Seq<char>)> {
    match text::once(header, ' ') {
        Some((scheme, rest)) if text::same_but_case(scheme, "Basic"@) => {
            match base64::base64_in(encode_utf8(text::trimmed(rest))) {
                Some(bytes) if valid_utf8(bytes) => text::once(decode_utf8(bytes), ':'),
                _ => None,
            }
        },
        _ => None,
    }
}

/// Reads user and password out of an `Authorization` header.
pub fn parse_basic_auth(header: Option<&str>) -> (r: Option<(String, String)>)
    ensures
        match r {
            Some((user, pass)) => (header matches Some(h) && basic_in(h@) == Some(
                (user@, pass@),
            )),
            None => header matches Some(h) ==> basic_in(h@) is None,
        },
{
    let (scheme, rest) = match header {
        Some(h) => match split_once(h, ' ') {
            Some(p) => p,
            None => return None,
        },
        None => return None,
    };
    if !eq_ignore_case(scheme.as_str(), "Basic") {
        return None;
    }
    let code = trim(rest.as_str());
    let bytes = match decode_base64(code.as_str().as_bytes()) {
        Some(b) => b,
        None => return None,
    };
    match text_strict(bytes) {
        Some(s) => split_once(s.as_str(), ':'),
        None => None,
    }
}

/// A header that holds the base64 text of user, colon and password is read as
/// that user and password, where the user's name holds no colon.
pub proof fn law_basic_header_is_read(
    user: Seq<char>,
    pass: Seq<char>,
    code: Seq<char>,
)
    requires
        !user.contains(':'),
        base64::base64_in(encode_utf8(code)) == Some(encode_utf8(user + seq![':'] + pass)),
        forall|i: int| 0 <= i < code.len() ==> base64::is_base64(#[trigger] code[i]),
    ensures
        basic_in("Basic"@ + seq![' '] + code) == Some((user, pass)),
{
    reveal_strlit("Basic");
    assert forall|i: int| 0 <= i < "Basic"@.len() implies "Basic"@[i] != ' ' by {}
    text::lemma_once("Basic"@, ' ', code);
    if code.len() > 0 {
        assert(base64::is_base64(code[0]));
        assert(base64::is_base64(code[code.len() - 1]));
    }
    assert(text::trim_front(code) == code);
    assert(text::trim_back(code) == code);
    let all = user + seq![':'] + pass;
    text::lemma_lossy_of_text(all);
    assert forall|i: int| 0 <= i < user.len() implies user[i] != ':' by {
        assert(user.contains(user[i]));
    }
    text::lemma_once(user, ':', pass);
}

/// A role as it is stored.
#[derive(Debug, Clone, PartialEq)]
pub struct Role {
    pub name: String,
    pub can_login: bool,
    pub superuser: bool,
    pub credential: ScramCredential,
}

/// On whose behalf a request is carried out.
#[derive(Debug, Clone, PartialEq)]
pub enum Actor {
    /// No roles are set up: everything is allowed.
    Unrestricted,
    /// What the role of this name is allowed.
    Role(String),
}

/// Why a caller is turned away.
#[derive(Debug, Clone, PartialEq)]
pub enum AuthError {
    MissingHeader,
    NoSuchRole(String),
    NoLogin(String),
    WrongPassword(String),
    NoSuperuser,
    NoTokenGate,
}

impl AuthError {
    pub open spec fn text(&self) -> Seq<char> {
        match self {
            AuthError::MissingHeader =>
                "missing or malformed Authorization header (expected 'Basic <base64>')"@,
            AuthError::NoSuchRole(u) => "role \""@ + u@ + "\" does not exist"@,
            AuthError::NoLogin(u) => "role \""@ + u@ + "\" is not permitted to log in"@,
            AuthError::WrongPassword(u) => "password authentication failed for role \""@ + u@
                + "\""@,
            AuthError::NoSuperuser =>
                "no superuser role exists to authorize the MCP token gate"@,
            AuthError::NoTokenGate =>
                "MCP requires a token gate (TPT_MCP_TOKEN) when roles are configured"@,
        }
    }

    /// What is wrong, in words.
    pub fn message(&self) -> (m: String)
        ensures
            m@ == self.text(),
    {
        match self {
            AuthError::MissingHeader =>
                "missing or malformed Authorization header (expected 'Basic <base64>')".to_owned(),
            AuthError::NoSuchRole(u) => {
                let mut m = "role \"".to_owned();
                m.append(u.as_str());
                m.append("\" does not exist");
                m
            },
            AuthError::NoLogin(u) => {
                let mut m = "role \"".to_owned();
                m.append(u.as_str());
                m.append("\" is not permitted to log in");
                m
            },
            AuthError::WrongPassword(u) => {
                let mut m = "password authentication failed for role \"".to_owned();
                m.append(u.as_str());
                m.append("\"");
                m
            },
            AuthError::NoSuperuser =>
                "no superuser role exists to authorize the MCP token gate".to_owned(),
            AuthError::NoTokenGate =>
                "MCP requires a token gate (TPT_MCP_TOKEN) when roles are configured".to_owned(),
        }
    }
}

/// The place of the first role of a name.
pub open spec fn role_at(roles: Seq<Role>, name: Seq<char>) -> Option<int>
    decreases roles.len(),
{
    if roles.len() == 0 {
        None
    } else {
        match role_at(roles.drop_last(), name) {
            Some(i) => Some(i),
            None => if roles.last().name@ == name {
                Some(roles.len() - 1)
            } else {
                None
            },
        }
    }
}

/// The place of the first superuser.
pub open spec fn superuser_at(roles: Seq<Role>) -> Option<int>
    decreases roles.len(),
{
    if roles.len() == 0 {
        None
    } else {
        match superuser_at(roles.drop_last()) {
            Some(i) => Some(i),
            None => if roles.last().superuser {
                Some(roles.len() - 1)
            } else {
                None
            },
        }
    }
}

proof fn lemma_found_stays(roles: Seq<Role>, n: int, name: Seq<char>)
    requires
        0 <= n <= roles.len(),
    ensures
        role_at(roles.take(n), name) matches Some(i) ==> role_at(roles, name) == Some(i),
        superuser_at(roles.take(n)) matches Some(i) ==> superuser_at(roles) == Some(i),
    decreases roles.len(),
{
    if n < roles.len() {
        assert(roles.drop_last().take(n) =~= roles.take(n));
        lemma_found_stays(roles.drop_last(), n, name);
    } else {
        assert(roles.take(n) =~= roles);
    }
}

fn find_role(roles: &Vec<Role>, name: &str) -> (r: Option<usize>)
    ensures
        match r {
            Some(i) => i < roles@.len() && role_at(roles@, name@) == Some(i as int),
            None => role_at(roles@, name@) is None,
        },
{
    let mut i: usize = 0;
    while i < roles.len()
        invariant
            i <= roles@.len(),
            role_at(roles@.take(i as int), name@) is None,
        decreases roles@.len() - i,
    {
        proof {
            assert(roles@.take(i + 1).drop_last() =~= roles@.take(i as int));
            lemma_found_stays(roles@, i + 1, name@);
        }
        if same_text(roles[i].name.as_str(), name) {
            return Some(i);
        }
        i += 1;
    }
    assert(roles@.take(roles@.len() as int) =~= roles@);
    None
}

fn find_superuser(roles: &Vec<Role>) -> (r: Option<usize>)
    ensures
        match r {
            Some(i) => i < roles@.len() && superuser_at(roles@) == Some(i as int),
            None => superuser_at(roles@) is None,
        },
{
    let mut i: usize = 0;
    while i < roles.len()
        invariant
            i <= roles@.len(),
            superuser_at(roles@.take(i as int)) is None,
        decreases roles@.len() - i,
    {
        proof {
            assert(roles@.take(i + 1).drop_last() =~= roles@.take(i as int));
            lemma_found_stays(roles@, i + 1, Seq::empty());
        }
        if roles[i].superuser {
            return Some(i);
        }
        i += 1;
    }
    assert(roles@.take(roles@.len() as int) =~= roles@);
    None
}

/// Whether a password is the one that a credential was derived from.
pub fn verify_password(credential: &ScramCredential, password: &str) -> (r: bool)
    ensures
        r == (credential.stored_key@ == scram::sha256_of(
            scram::client_key_of(
                scram::pbkdf2_of(
                    encode_utf8(password@),
                    credential.salt@,
                    credential.iterations,
                ),
            ),
        )),
{
    let derived = derive_credential(password, credential.salt.as_slice(), credential.iterations);
    same_bytes(derived.stored_key.as_slice(), credential.stored_key.as_slice())
}

/// Whether the password opens the role, as `verify_password` decides it.
pub open spec fn opens(role: Role, password: Seq<char>) -> bool {
    role.credential.stored_key@ == scram::sha256_of(
        scram::client_key_of(
            scram::pbkdf2_of(
                encode_utf8(password),
                role.credential.salt@,
                role.credential.iterations,
            ),
        ),
    )
}

/// Whether a caller who gave this user and password is let in, and as whom.
pub open spec fn let_in(
    roles: Seq<Role>,
    login: Option<(Seq<char>, Seq<char>)>,
    r: Result<Actor, AuthError>,
) -> bool {
    if roles.len() == 0 {
        r == Ok::<Actor, AuthError>(Actor::Unrestricted)
    } else {
        match login {
            None => r == Err::<Actor, AuthError>(AuthError::MissingHeader),
            Some((user, pass)) => match role_at(roles, user) {
                None => (r matches Err(AuthError::NoSuchRole(u)) && u@ == user),
                Some(i) => if !roles[i].can_login {
                    (r matches Err(AuthError::NoLogin(u)) && u@ == user)
                } else if !opens(roles[i], pass) {
                    (r matches Err(AuthError::WrongPassword(u)) && u@ == user)
                } else {
                    (r matches Ok(Actor::Role(u)) && u@ == user)
                },
            },
        }
    }
}

/// Lets a caller in who gave this user and password.
pub fn authenticate(roles: &Vec<Role>, login: Option<(String, String)>) -> (r: Result<
    Actor,
    AuthError,
>)
    ensures
        let_in(
            roles@,
            match login {
                Some((u, p)) => Some((u@, p@)),
                None => None,
            },
            r,
        ),
{
    if roles.len() == 0 {
        return Ok(Actor::Unrestricted);
    }
    let (user, pass) = match login {
        Some(p) => p,
        None => return Err(AuthError::MissingHeader),
    };
    let i: usize = match find_role(roles, user.as_str()) {
        Some(i) => i,
        None => return Err(AuthError::NoSuchRole(user)),
    };
    if !roles[i].can_login {
        return Err(AuthError::NoLogin(user));
    }
    if !verify_password(&roles[i].credential, pass.as_str()) {
        return Err(AuthError::WrongPassword(user));
    }
    Ok(Actor::Role(user))
}

/// User and password of a header that may be missing.
pub open spec fn login_in(header: Option<&str>) -> Option<(Seq<char>, Seq<char>)> {
    match header {
        Some(h) => basic_in(h@),
        None => None,
    }
}

/// Lets a caller in by an `Authorization` header. Without roles everyone is.
pub fn authenticate_basic(roles: &Vec<Role>, authorization: Option<&str>) -> (r: Result<
    Actor,
    AuthError,
>)
    ensures
        let_in(roles@, login_in(authorization), r),
{
    let login = parse_basic_auth(authorization);
    authenticate(roles, login)
}

/// On whose behalf a caller acts who passed the token gate: as the first
/// superuser. Without roles everything is allowed; with roles a gate is
/// needed.
pub fn actor_for_mcp(roles: &Vec<Role>, token: Option<&str>) -> (r: Result<Actor, AuthError>)
    ensures
        if roles@.len() == 0 {
            r == Ok::<Actor, AuthError>(Actor::Unrestricted)
        } else if token is None {
            r == Err::<Actor, AuthError>(AuthError::NoTokenGate)
        } else {
            match superuser_at(roles@) {
                None => r == Err::<Actor, AuthError>(AuthError::NoSuperuser),
                Some(i) => (r matches Ok(Actor::Role(n)) && n@ == roles@[i].name@),
            }
        },
{
    if roles.len() == 0 {
        return Ok(Actor::Unrestricted);
    }
    if token.is_none() {
        return Err(AuthError::NoTokenGate);
    }
    match find_superuser(roles) {
        Some(i) => Ok(Actor::Role(roles[i].name.clone())),
        None => Err(AuthError::NoSuperuser),
    }
}

/// Who is let in as a role gave the name of one that may log in, and a password
/// that fits its stored key. The password that a key was made of fits; without
/// roles everybody is let in, and without a login nobody else.
pub proof fn law_only_roles_with_their_passwords_are_let_in(
    roles: Seq<Role>,
    login: Option<(Seq<char>, Seq<char>)>,
    r: Result<Actor, AuthError>,
)
    requires
        let_in(roles, login, r),
    ensures
        roles.len() == 0 <==> r == Ok::<Actor, AuthError>(Actor::Unrestricted),
        roles.len() > 0 && login is None ==> r is Err,
        r matches Ok(Actor::Role(u)) ==> (login matches Some((user, pass)) && u@ == user && exists|
            i: int,
        |
            0 <= i < roles.len() && (#[trigger] roles[i]).name@ == user && roles[i].can_login
                && opens(roles[i], pass)),
        roles.len() > 0 ==> (login matches Some((user, pass)) ==> forall|i: int|
            0 <= i < roles.len() && (#[trigger] roles[i]).name@ == user && roles[i].can_login
                && roles[i].credential.of_password(pass) && (forall|j: int|
                0 <= j < i ==> (#[trigger] roles[j]).name@ != user) ==> r is Ok),
{
    if let Some((user, pass)) = login {
        lemma_role_at(roles, user);
    }
}

proof fn lemma_role_at(roles: Seq<Role>, name: Seq<char>)
    ensures
        match role_at(roles, name) {
            Some(i) => 0 <= i < roles.len() && roles[i].name@ == name && forall|j: int|
                0 <= j < i ==> (#[trigger] roles[j]).name@ != name,
            None => forall|j: int| 0 <= j < roles.len() ==> (#[trigger] roles[j]).name@ != name,
        },
    decreases roles.len(),
{
    if roles.len() > 0 {
        lemma_role_at(roles.drop_last(), name);
        assert forall|j: int| 0 <= j < roles.len() - 1 implies #[trigger] roles[j]
            == roles.drop_last()[j] by {}
    }
}

/// A role is the first of its name, and the superuser the first that is one.
pub proof fn law_first_role_of_a_name_counts(roles: Seq<Role>, name: Seq<char>)
    ensures
        match role_at(roles, name) {
            Some(i) => 0 <= i < roles.len() && roles[i].name@ == name && forall|j: int|
                0 <= j < i ==> (#[trigger] roles[j]).name@ != name,
            None => forall|j: int| 0 <= j < roles.len() ==> (#[trigger] roles[j]).name@ != name,
        },
        match superuser_at(roles) {
            Some(i) => 0 <= i < roles.len() && roles[i].superuser && forall|j: int|
                0 <= j < i ==> !(#[trigger] roles[j]).superuser,
            None => forall|j: int| 0 <= j < roles.len() ==> !(#[trigger] roles[j]).superuser,
        },
    decreases roles.len(),
{
    lemma_role_at(roles, name);
    if roles.len() > 0 {
        law_first_role_of_a_name_counts(roles.drop_last(), name);
        assert forall|j: int| 0 <= j < roles.len() - 1 implies #[trigger] roles[j]
            == roles.drop_last()[j] by {}
    }
}

/// A password fits a stored key where the key was made of it.
pub proof fn law_password_fits_its_own_key(
    credential: ScramCredential,
    password: &str,
    r: bool,
)
    requires
        call_ensures(verify_password, (&credential, password), r),
    ensures
        credential.of_password(password@) ==> r,
        r ==> credential.stored_key@ == scram::sha256_of(
            scram::hmac_of(
                scram::pbkdf2_of(
                    encode_utf8(password@),
                    credential.salt@,
                    credential.iterations,
                ),
                encode_utf8("Client Key"@),
            ),
        ),
{
}

} // verus!
