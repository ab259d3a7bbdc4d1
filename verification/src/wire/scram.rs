//! The server's half of SCRAM-SHA-256.

use hmac::Mac;
use rand::RngCore;
use sha2::Digest;
use vstd::prelude::*;
use vstd::string::*;
use vstd::utf8::*;

use super::base64;
use super::base64::{decode_base64, encode_base64};
use crate::be::same_bytes;
use crate::database::rowmap::copy_bytes;
use crate::text;
use crate::text::{after_prefix, chars_of, decimal_text, same_text, split_text, text_of, text_strict};

verus! {

/// The name of the mechanism.
pub const MECHANISM: &'static str = "SCRAM-SHA-256";

/// What `pbkdf2::pbkdf2_hmac` with SHA-256 makes of a password: 32 bytes.
pub uninterp spec fn pbkdf2_of(password: Seq<u8>, salt: Seq<u8>, rounds: u32) -> Seq<u8>;

/// The HMAC-SHA-256 of a message under a key.
pub uninterp spec fn hmac_of(key: Seq<u8>, msg: Seq<u8>) -> Seq<u8>;

/// The SHA-256 digest of bytes.
pub uninterp spec fn sha256_of(data: Seq<u8>) -> Seq<u8>;

/// Calls `pbkdf2::pbkdf2_hmac` with SHA-256 for 32 bytes. The result depends
/// on password, salt and number of rounds alone.
#[verifier::external_body]
fn pbkdf2_sha256(password: &[u8], salt: &[u8], rounds: u32) -> (key: Vec<u8>)
    ensures
        key@ == pbkdf2_of(password@, salt@, rounds),
        key@.len() == 32,
{
    let mut key = vec![0u8; 32];
    pbkdf2::pbkdf2_hmac::<sha2::Sha256>(password, salt, rounds, &mut key);
    key
}

/// Calls `hmac::Hmac` with SHA-256: the 32 bytes depend on key and message
/// alone, and a key of any length is accepted.
#[verifier::external_body]
fn hmac_sha256(key: &[u8], msg: &[u8]) -> (tag: Vec<u8>)
    ensures
        tag@ == hmac_of(key@, msg@),
        tag@.len() == 32,
{
    let mut mac = hmac::Hmac::<sha2::Sha256>::new_from_slice(key).expect("any key length");
    mac.update(msg);
    mac.finalize().into_bytes().to_vec()
}

/// Calls `sha2::Sha256::digest`: the 32 bytes depend on the data alone.
#[verifier::external_body]
fn sha256(data: &[u8]) -> (digest: Vec<u8>)
    ensures
        digest@ == sha256_of(data@),
        digest@.len() == 32,
{
    sha2::Sha256::digest(data).to_vec()
}

/// Calls `rand::thread_rng` for `n` random bytes. Nothing is said of their
/// values.
#[verifier::external_body]
fn random_bytes(n: usize) -> (bytes: Vec<u8>)
    requires
        n <= isize::MAX,
    ensures
        bytes@.len() == n,
{
    let mut bytes = vec![0u8; n];
    rand::thread_rng().fill_bytes(&mut bytes);
    bytes
}

/// What is kept of a password.
#[derive(Debug, Clone, PartialEq)]
pub struct ScramCredential {
    pub salt: Vec<u8>,
    pub iterations: u32,
    pub stored_key: Vec<u8>,
    pub server_key: Vec<u8>,
}

/// The key that a client proves to have.
pub open spec fn client_key_of(salted: Seq<u8>) -> Seq<u8> {
    hmac_of(salted, encode_utf8("Client Key"@))
}

/// The key with which the server signs.
pub open spec fn server_key_of(salted: Seq<u8>) -> Seq<u8> {
    hmac_of(salted, encode_utf8("Server Key"@))
}

impl ScramCredential {
    /// Whether this is what is kept of a password.
    pub open spec fn of_password(&self, password: Seq<char>) -> bool {
        let salted = pbkdf2_of(encode_utf8(password), self.salt@, self.iterations);
        &&& self.stored_key@ == sha256_of(client_key_of(salted))
        &&& self.server_key@ == server_key_of(salted)
    }
}

/// Derives what is kept of a password.
pub fn derive_credential(password: &str, salt: &[u8], iterations: u32) -> (c: ScramCredential)
    ensures
        c.salt@ == salt@,
        c.iterations == iterations,
        c.of_password(password@),
        c.stored_key@.len() == 32,
        c.server_key@.len() == 32,
{
    let salted = pbkdf2_sha256(password.as_bytes(), salt, iterations);
    let client_key = hmac_sha256(salted.as_slice(), "Client Key".as_bytes());
    let stored_key = sha256(client_key.as_slice());
    let server_key = hmac_sha256(salted.as_slice(), "Server Key".as_bytes());
    ScramCredential { salt: copy_bytes(salt), iterations, stored_key, server_key }
}

/// A salt for a new credential.
pub fn random_salt() -> (salt: Vec<u8>)
    ensures
        salt@.len() == 16,
{
    random_bytes(16)
}

/// Why a login attempt is turned down.
#[derive(Debug, Clone, Copy, PartialEq, Eq, Structural)]
pub enum ScramError {
    NotUtf8,
    UnsupportedGs2Header,
    MissingClientNonce,
    MissingChannelBinding,
    MissingNonce,
    NonceMismatch,
    MissingProof,
    InvalidBase64,
    MalformedProof,
    ProofFailed,
}

impl ScramError {
    /// What is wrong, in words.
    pub open spec fn text(&self) -> Seq<char> {
        match self {
            ScramError::NotUtf8 => "message is not valid UTF-8"@,
            ScramError::UnsupportedGs2Header => "unsupported SCRAM gs2-header (channel binding not supported)"@,
            ScramError::MissingClientNonce => "missing client nonce"@,
            ScramError::MissingChannelBinding => "missing channel binding"@,
            ScramError::MissingNonce => "missing nonce"@,
            ScramError::NonceMismatch => "nonce mismatch"@,
            ScramError::MissingProof => "missing proof"@,
            ScramError::InvalidBase64 => "proof is not valid base64"@,
            ScramError::MalformedProof => "malformed client proof"@,
            ScramError::ProofFailed => "SCRAM proof verification failed"@,
        }
    }

    /// What is wrong, in words.
    pub fn message(&self) -> (m: String)
        ensures
            m@ == self.text(),
    {
        match self {
            ScramError::NotUtf8 => "message is not valid UTF-8".to_owned(),
            ScramError::UnsupportedGs2Header => "unsupported SCRAM gs2-header (channel binding not supported)".to_owned(),
            ScramError::MissingClientNonce => "missing client nonce".to_owned(),
            ScramError::MissingChannelBinding => "missing channel binding".to_owned(),
            ScramError::MissingNonce => "missing nonce".to_owned(),
            ScramError::NonceMismatch => "nonce mismatch".to_owned(),
            ScramError::MissingProof => "missing proof".to_owned(),
            ScramError::InvalidBase64 => "proof is not valid base64".to_owned(),
            ScramError::MalformedProof => "malformed client proof".to_owned(),
            ScramError::ProofFailed => "SCRAM proof verification failed".to_owned(),
        }
    }
}

/// Whether a part of an attribute list is for `key`.
pub open spec fn is_attribute(part: Seq<char>, key: char) -> bool {
    part.len() >= 2 && part[0] == key && part[1] == '='
}

/// The first attribute of a key in a list of parts.
pub open spec fn attribute_in(parts: Seq<Seq<char>>, key: char) -> Option<Seq<char>>
    decreases parts.len(),
{
    if parts.len() == 0 {
        None
    } else if is_attribute(parts[0], key) {
        Some(parts[0].skip(2))
    } else {
        attribute_in(parts.drop_first(), key)
    }
}

/// The value of an attribute in a list separated by commas.
pub open spec fn field_of(s: Seq<char>, key: char) -> Option<Seq<char>> {
    attribute_in(text::split(s, ','), key)
}

/// The value of an attribute in a list separated by commas.
pub fn field(s: &str, key: char) -> (r: Option<String>)
    ensures
        match r {
            Some(v) => field_of(s@, key) == Some(v@),
            None => field_of(s@, key) is None,
        },
{
    let parts = split_text(s, ',');
    let ghost all = text::texts(parts@);
    let mut i: usize = 0;
    assert(all.skip(0) =~= all);
    while i < parts.len()
        invariant
            all == text::texts(parts@),
            all == text::split(s@, ','),
            i <= parts@.len(),
            attribute_in(all, key) == attribute_in(all.skip(i as int), key),
        decreases parts@.len() - i,
    {
        assert(all.skip(i as int).drop_first() =~= all.skip(i + 1));
        let chars = chars_of(parts[i].as_str());
        if chars.len() >= 2 && chars[0] == key && chars[1] == '=' {
            let v = text_of(chars.as_slice(), 2, chars.len());
            assert(v@ =~= all[i as int].skip(2));
            return Some(v);
        }
        i += 1;
    }
    None
}

/// What the server keeps between the two halves of a login.
#[derive(Debug, Clone, PartialEq)]
pub struct ServerFirst {
    pub client_first_bare: String,
    pub server_first_message: String,
    pub combined_nonce: String,
}

/// The client's first message without its header.
pub open spec fn bare_of(s: Seq<char>) -> Option<Seq<char>> {
    if text::starts_with(s, "n,,"@) {
        Some(s.skip("n,,"@.len() as int))
    } else if text::starts_with(s, "y,,"@) {
        Some(s.skip("y,,"@.len() as int))
    } else {
        None
    }
}

/// The server's first message.
pub open spec fn first_message(nonce: Seq<char>, salt: Seq<u8>, iterations: u32) -> Seq<char> {
    "r="@ + nonce + ",s="@ + base64::base64_of(salt) + ",i="@ + text::decimal(iterations as nat)
}

/// The server's answer to a client's first message, with the server's part of
/// the nonce given.
pub open spec fn server_first_of(
    client_first: Seq<u8>,
    salt: Seq<u8>,
    iterations: u32,
    nonce: Seq<u8>,
) -> Result<(Seq<char>, Seq<char>, Seq<char>), ScramError> {
    if !valid_utf8(client_first) {
        Err(ScramError::NotUtf8)
    } else {
        match bare_of(decode_utf8(client_first)) {
            None => Err(ScramError::UnsupportedGs2Header),
            Some(bare) => match field_of(bare, 'r') {
                None => Err(ScramError::MissingClientNonce),
                Some(r) => {
                    let combined = r + base64::base64_of(nonce);
                    Ok((bare, first_message(combined, salt, iterations), combined))
                },
            },
        }
    }
}

/// Answers a client's first message, with the server's part of the nonce
/// given.
pub fn server_first_with(client_first: &[u8], cred: &ScramCredential, nonce: &[u8]) -> (r: Result<
    ServerFirst,
    ScramError,
>)
    requires
        base64::fits(cred.salt@.len()),
        base64::fits(nonce@.len()),
    ensures
        match server_first_of(client_first@, cred.salt@, cred.iterations, nonce@) {
            Ok((bare, msg, combined)) => (r matches Ok(f) && f.client_first_bare@ == bare
                && f.server_first_message@ == msg && f.combined_nonce@ == combined),
            Err(e) => r == Err::<ServerFirst, ScramError>(e),
        },
{
    let s = match text_strict(copy_bytes(client_first)) {
        Some(s) => s,
        None => {
            return Err(ScramError::NotUtf8);
        },
    };
    let bare = match after_prefix(s.as_str(), "n,,") {
        Some(b) => b,
        None => match after_prefix(s.as_str(), "y,,") {
            Some(b) => b,
            None => {
                return Err(ScramError::UnsupportedGs2Header);
            },
        },
    };
    let mut combined = match field(bare.as_str(), 'r') {
        Some(r) => r,
        None => {
            return Err(ScramError::MissingClientNonce);
        },
    };
    combined.append(encode_base64(nonce).as_str());
    let mut msg = "r=".to_owned();
    msg.append(combined.as_str());
    msg.append(",s=");
    msg.append(encode_base64(cred.salt.as_slice()).as_str());
    msg.append(",i=");
    msg.append(decimal_text(cred.iterations as u64).as_str());
    Ok(
        ServerFirst {
            client_first_bare: bare,
            server_first_message: msg,
            combined_nonce: combined,
        },
    )
}

/// Answers a client's first message.
pub fn server_first(client_first: &[u8], cred: &ScramCredential) -> (r: Result<
    ServerFirst,
    ScramError,
>)
    requires
        base64::fits(cred.salt@.len()),
    ensures
        answers_first(client_first@, *cred, r),
{
    let nonce = random_bytes(18);
    let r = server_first_with(client_first, cred, nonce.as_slice());
    assert(first_answer(client_first@, *cred, nonce@, r));
    r
}

/// Whether this is the answer for a nonce.
pub open spec fn first_answer(
    client_first: Seq<u8>,
    cred: ScramCredential,
    nonce: Seq<u8>,
    r: Result<ServerFirst, ScramError>,
) -> bool {
    nonce.len() == 18 && match server_first_of(client_first, cred.salt@, cred.iterations, nonce) {
        Ok((bare, msg, combined)) => (r matches Ok(f) && f.client_first_bare@ == bare
            && f.server_first_message@ == msg && f.combined_nonce@ == combined),
        Err(e) => r == Err::<ServerFirst, ScramError>(e),
    }
}

/// Whether this is the answer for some nonce of 18 bytes.
pub open spec fn answers_first(
    client_first: Seq<u8>,
    cred: ScramCredential,
    r: Result<ServerFirst, ScramError>,
) -> bool {
    exists|nonce: Seq<u8>| first_answer(client_first, cred, nonce, r)
}

impl ServerFirst {
    /// The bytes of the server's first message.
    pub fn message_bytes(&self) -> (b: Vec<u8>)
        ensures
            b@ == encode_utf8(self.server_first_message@),
    {
        copy_bytes(self.server_first_message.as_str().as_bytes())
    }
}

/// What both sides sign.
pub open spec fn auth_message_of(
    bare: Seq<char>,
    server_first: Seq<char>,
    binding: Seq<char>,
    nonce: Seq<char>,
) -> Seq<char> {
    bare + ","@ + server_first + ","@ + "c="@ + binding + ",r="@ + nonce
}

/// Two byte strings of one length, byte by byte.
pub open spec fn xor_of(a: Seq<u8>, b: Seq<u8>) -> Seq<u8> {
    Seq::new(a.len(), |i: int| a[i] ^ b[i])
}

/// What a client's last message comes to: the server's last message, or the
/// reason why it is turned down.
pub open spec fn final_of(client_final: Seq<u8>, f: ServerFirst, cred: ScramCredential) -> Result<
    Seq<char>,
    ScramError,
> {
    if !valid_utf8(client_final) {
        Err(ScramError::NotUtf8)
    } else {
        let s = decode_utf8(client_final);
        match (field_of(s, 'c'), field_of(s, 'r'), field_of(s, 'p')) {
            (None, _, _) => Err(ScramError::MissingChannelBinding),
            (_, None, _) => Err(ScramError::MissingNonce),
            (Some(binding), Some(nonce), p) => if nonce != f.combined_nonce@ {
                Err(ScramError::NonceMismatch)
            } else {
                match p {
                    None => Err(ScramError::MissingProof),
                    Some(proof64) => match base64::base64_in(encode_utf8(proof64)) {
                        None => Err(ScramError::InvalidBase64),
                        Some(proof) => if proof.len() != 32 {
                            Err(ScramError::MalformedProof)
                        } else {
                            let auth = encode_utf8(
                                auth_message_of(
                                    f.client_first_bare@,
                                    f.server_first_message@,
                                    binding,
                                    nonce,
                                ),
                            );
                            if sha256_of(xor_of(proof, hmac_of(cred.stored_key@, auth)))
                                != cred.stored_key@ {
                                Err(ScramError::ProofFailed)
                            } else {
                                Ok("v="@ + base64::base64_of(hmac_of(cred.server_key@, auth)))
                            }
                        },
                    },
                }
            },
        }
    }
}

/// Two byte strings of one length, byte by byte.
pub fn xor_bytes(a: &[u8], b: &[u8]) -> (r: Vec<u8>)
    requires
        a@.len() == b@.len(),
    ensures
        r@ == xor_of(a@, b@),
{
    let mut r: Vec<u8> = Vec::new();
    let mut i: usize = 0;
    while i < a.len()
        invariant
            a@.len() == b@.len(),
            i <= a@.len(),
            r@ == xor_of(a@, b@).take(i as int),
        decreases a@.len() - i,
    {
        r.push(a[i] ^ b[i]);
        i += 1;
        assert(r@ =~= xor_of(a@, b@).take(i as int));
    }
    assert(r@ =~= xor_of(a@, b@));
    r
}

/// What both sides sign.
pub fn auth_message(first: &ServerFirst, binding: &str, nonce: &str) -> (m: String)
    ensures
        m@ == auth_message_of(
            first.client_first_bare@,
            first.server_first_message@,
            binding@,
            nonce@,
        ),
{
    let mut m = first.client_first_bare.clone();
    m.append(",");
    m.append(first.server_first_message.as_str());
    m.append(",");
    m.append("c=");
    m.append(binding);
    m.append(",r=");
    m.append(nonce);
    m
}

/// Checks a client's last message, and gives the server's.
pub fn verify_client_final(client_final: &[u8], first: &ServerFirst, cred: &ScramCredential) -> (r:
    Result<Vec<u8>, ScramError>)
    ensures
        match final_of(client_final@, *first, *cred) {
            Ok(msg) => (r matches Ok(v) && v@ == encode_utf8(msg)),
            Err(e) => r == Err::<Vec<u8>, ScramError>(e),
        },
{
    let s = match text_strict(copy_bytes(client_final)) {
        Some(s) => s,
        None => {
            return Err(ScramError::NotUtf8);
        },
    };
    let binding = match field(s.as_str(), 'c') {
        Some(c) => c,
        None => {
            return Err(ScramError::MissingChannelBinding);
        },
    };
    let nonce = match field(s.as_str(), 'r') {
        Some(r) => r,
        None => {
            return Err(ScramError::MissingNonce);
        },
    };
    if !same_text(nonce.as_str(), first.combined_nonce.as_str()) {
        return Err(ScramError::NonceMismatch);
    }
    let proof64 = match field(s.as_str(), 'p') {
        Some(p) => p,
        None => {
            return Err(ScramError::MissingProof);
        },
    };
    let proof = match decode_base64(proof64.as_str().as_bytes()) {
        Some(p) => p,
        None => {
            return Err(ScramError::InvalidBase64);
        },
    };
    if proof.len() != 32 {
        return Err(ScramError::MalformedProof);
    }
    let auth = auth_message(first, binding.as_str(), nonce.as_str());
    let signature = hmac_sha256(cred.stored_key.as_slice(), auth.as_str().as_bytes());
    let client_key = xor_bytes(proof.as_slice(), signature.as_slice());
    let computed = sha256(client_key.as_slice());
    if !same_bytes(computed.as_slice(), cred.stored_key.as_slice()) {
        return Err(ScramError::ProofFailed);
    }
    let server_signature = hmac_sha256(cred.server_key.as_slice(), auth.as_str().as_bytes());
    let mut out = "v=".to_owned();
    out.append(encode_base64(server_signature.as_slice()).as_str());
    Ok(copy_bytes(out.as_str().as_bytes()))
}

/// What an honest client sends last: the binding, the nonce, and its key under
/// its signature.
pub open spec fn honest_final(binding: Seq<char>, nonce: Seq<char>, proof64: Seq<char>) -> Seq<char> {
    "c="@ + binding + ",r="@ + nonce + ",p="@ + proof64
}

pub open spec fn no_comma(s: Seq<char>) -> bool {
    forall|i: int| 0 <= i < s.len() ==> s[i] != ','
}

/// The three parts of an honest client's last message.
proof fn lemma_final_parts(binding: Seq<char>, nonce: Seq<char>, proof64: Seq<char>)
    requires
        no_comma(binding),
        no_comma(nonce),
        no_comma(proof64),
    ensures
        field_of(honest_final(binding, nonce, proof64), 'c') == Some(binding),
        field_of(honest_final(binding, nonce, proof64), 'r') == Some(nonce),
        field_of(honest_final(binding, nonce, proof64), 'p') == Some(proof64),
{
    reveal_strlit("c=");
    reveal_strlit(",r=");
    reveal_strlit(",p=");
    let a = "c="@ + binding;
    let b = "r="@ + nonce;
    let c = "p="@ + proof64;
    reveal_strlit("r=");
    reveal_strlit("p=");
    let none = Seq::<char>::empty();
    let s = honest_final(binding, nonce, proof64);
    assert(s =~= a + (seq![','] + (b + (seq![','] + (c + none)))));
    text::lemma_split_head(c, none, ',');
    assert(c + none =~= c);
    assert(text::split(c, ',') =~= seq![c]);
    let t2 = seq![','] + c;
    assert(t2.drop_first() =~= c);
    assert(text::split(t2, ',') =~= seq![none, c]);
    text::lemma_split_head(b, t2, ',');
    assert(b + none =~= b);
    assert(text::split(b + t2, ',') =~= seq![b, c]);
    let t1 = seq![','] + (b + t2);
    assert(t1.drop_first() =~= b + t2);
    assert(text::split(t1, ',') =~= seq![none, b, c]);
    text::lemma_split_head(a, t1, ',');
    assert(a + none =~= a);
    assert(s =~= a + t1);
    let parts = text::split(s, ',');
    assert(parts =~= seq![a, b, c]);
    assert(a.skip(2) =~= binding);
    assert(b.skip(2) =~= nonce);
    assert(c.skip(2) =~= proof64);
    assert(parts.drop_first() =~= seq![b, c]);
    assert(seq![b, c].drop_first() =~= seq![c]);
    reveal_with_fuel(attribute_in, 4);
    assert(a[0] == 'c' && b[0] == 'r' && c[0] == 'p');
}

/// Who knows the password gets in: for a credential of a password, the last
/// message of a client with that password, signed as agreed, is accepted and
/// answered with the server's signature. The proof must be readable as base64
/// without a comma.
pub proof fn law_right_password_is_accepted(
    password: Seq<char>,
    cred: ScramCredential,
    f: ServerFirst,
    binding: Seq<char>,
    proof64: Seq<char>,
)
    requires
        cred.of_password(password),
        no_comma(binding),
        no_comma(f.combined_nonce@),
        no_comma(proof64),
        ({
            let salted = pbkdf2_of(encode_utf8(password), cred.salt@, cred.iterations);
            let key = client_key_of(salted);
            let auth = encode_utf8(
                auth_message_of(
                    f.client_first_bare@,
                    f.server_first_message@,
                    binding,
                    f.combined_nonce@,
                ),
            );
            let signature = hmac_of(cred.stored_key@, auth);
            &&& key.len() == 32
            &&& signature.len() == 32
            &&& base64::base64_in(encode_utf8(proof64)) == Some(xor_of(key, signature))
        }),
    ensures
        ({
            let auth = encode_utf8(
                auth_message_of(
                    f.client_first_bare@,
                    f.server_first_message@,
                    binding,
                    f.combined_nonce@,
                ),
            );
            final_of(
                encode_utf8(honest_final(binding, f.combined_nonce@, proof64)),
                f,
                cred,
            ) == Ok::<Seq<char>, ScramError>(
                "v="@ + base64::base64_of(hmac_of(cred.server_key@, auth)),
            )
        }),
{
    let s = honest_final(binding, f.combined_nonce@, proof64);
    text::lemma_lossy_of_text(s);
    lemma_final_parts(binding, f.combined_nonce@, proof64);
    let salted = pbkdf2_of(encode_utf8(password), cred.salt@, cred.iterations);
    let key = client_key_of(salted);
    let auth = encode_utf8(
        auth_message_of(
            f.client_first_bare@,
            f.server_first_message@,
            binding,
            f.combined_nonce@,
        ),
    );
    let signature = hmac_of(cred.stored_key@, auth);
    let proof = xor_of(key, signature);
    assert(xor_of(proof, signature) =~= key) by {
        assert forall|i: int| 0 <= i < 32 implies (key[i] ^ signature[i]) ^ signature[i] == key[i] by {
            let x = key[i];
            let y = signature[i];
            assert((x ^ y) ^ y == x) by (bit_vector);
        }
    }
}

/// Nobody gets in whose proof does not open the stored key: what is accepted
/// carries, under the signature, bytes with the digest that was stored.
pub proof fn law_only_the_key_is_accepted(client_final: Seq<u8>, f: ServerFirst, cred: ScramCredential)
    ensures
        final_of(client_final, f, cred) is Ok ==> exists|key: Seq<u8>|
            key.len() == 32 && #[trigger] sha256_of(key) == cred.stored_key@,
{
    if final_of(client_final, f, cred) is Ok {
        let s = decode_utf8(client_final);
        let binding = field_of(s, 'c')->0;
        let nonce = field_of(s, 'r')->0;
        let proof = base64::base64_in(encode_utf8(field_of(s, 'p')->0))->0;
        let auth = encode_utf8(
            auth_message_of(f.client_first_bare@, f.server_first_message@, binding, nonce),
        );
        let key = xor_of(proof, hmac_of(cred.stored_key@, auth));
        assert(key.len() == 32 && sha256_of(key) == cred.stored_key@);
    }
}

/// A field of a message is the rest of the first part that starts with its letter
/// and an equals sign; the parts have commas between them.
pub proof fn law_field_is_the_first_of_its_letter(
    parts: Seq<Seq<char>>,
    key: char,
    i: int,
    v: Seq<char>,
)
    requires
        0 <= i < parts.len(),
        parts[i] == seq![key, '='] + v,
        forall|j: int|
            0 <= j < i ==> !((#[trigger] parts[j]).len() >= 2 && parts[j][0] == key && parts[j][1]
                == '='),
        forall|j: int, k: int|
            0 <= j < parts.len() && 0 <= k < parts[j].len() ==> #[trigger] parts[j][k] != ',',
    ensures
        field_of(text::joined(parts, ','), key) == Some(v),
{
    text::law_joined_pieces_are_split_again(parts, ',');
    lemma_attribute_at(parts, key, i, v);
}

proof fn lemma_attribute_at(parts: Seq<Seq<char>>, key: char, i: int, v: Seq<char>)
    requires
        0 <= i < parts.len(),
        parts[i] == seq![key, '='] + v,
        forall|j: int|
            0 <= j < i ==> !((#[trigger] parts[j]).len() >= 2 && parts[j][0] == key && parts[j][1]
                == '='),
    ensures
        attribute_in(parts, key) == Some(v),
    decreases parts.len(),
{
    if i == 0 {
        assert(parts[0].skip(2) =~= v);
    } else {
        let rest = parts.drop_first();
        assert(!(parts[0].len() >= 2 && parts[0][0] == key && parts[0][1] == '='));
        assert forall|j: int| 0 <= j < i - 1 implies !((#[trigger] rest[j]).len() >= 2 && rest[j][0]
            == key && rest[j][1] == '=') by {
            assert(rest[j] == parts[j + 1]);
        }
        lemma_attribute_at(rest, key, i - 1, v);
    }
}

/// A message without a part of a letter has no such field.
pub proof fn law_missing_field_is_missing(parts: Seq<Seq<char>>, key: char)
    requires
        parts.len() > 0,
        forall|j: int|
            0 <= j < parts.len() ==> !((#[trigger] parts[j]).len() >= 2 && parts[j][0] == key
                && parts[j][1] == '='),
        forall|j: int, k: int|
            0 <= j < parts.len() && 0 <= k < parts[j].len() ==> #[trigger] parts[j][k] != ',',
    ensures
        field_of(text::joined(parts, ','), key) is None,
{
    text::law_joined_pieces_are_split_again(parts, ',');
    lemma_no_attribute(parts, key);
}

proof fn lemma_no_attribute(parts: Seq<Seq<char>>, key: char)
    requires
        forall|j: int|
            0 <= j < parts.len() ==> !((#[trigger] parts[j]).len() >= 2 && parts[j][0] == key
                && parts[j][1] == '='),
    ensures
        attribute_in(parts, key) is None,
    decreases parts.len(),
{
    if parts.len() > 0 {
        let rest = parts.drop_first();
        assert(!(parts[0].len() >= 2 && parts[0][0] == key && parts[0][1] == '='));
        assert forall|j: int| 0 <= j < rest.len() implies !((#[trigger] rest[j]).len() >= 2
            && rest[j][0] == key && rest[j][1] == '=') by {
            assert(rest[j] == parts[j + 1]);
        }
        lemma_no_attribute(rest, key);
    }
}

/// The answer to a client's first message gives its nonce with the server's behind
/// it, the salt and the number of rounds, as fields that the client can read.
pub proof fn law_first_answer_gives_nonce_salt_and_rounds(
    nonce: Seq<char>,
    salt: Seq<u8>,
    iterations: u32,
)
    requires
        !nonce.contains(','),
        !base64::base64_of(salt).contains(','),
    ensures
        ({
            let m = first_message(nonce, salt, iterations);
            &&& field_of(m, 'r') == Some(nonce)
            &&& field_of(m, 's') == Some(base64::base64_of(salt))
            &&& field_of(m, 'i') == Some(text::decimal(iterations as nat))
        }),
{
    reveal_strlit("r=");
    reveal_strlit(",s=");
    reveal_strlit(",i=");
    let code = base64::base64_of(salt);
    let n = text::decimal(iterations as nat);
    text::law_decimal_stands_for_its_number(iterations as nat);
    let a = seq!['r', '='] + nonce;
    let b = seq!['s', '='] + code;
    let c = seq!['i', '='] + n;
    let parts = seq![a, b, c];
    assert forall|j: int, k: int| 0 <= j < parts.len() && 0 <= k < parts[j].len() implies
        #[trigger] parts[j][k] != ',' by {
        if j == 0 && k >= 2 {
            assert(nonce.contains(nonce[k - 2]));
        } else if j == 1 && k >= 2 {
            assert(code.contains(code[k - 2]));
        } else if j == 2 && k >= 2 {
            assert(n[k - 2] <= '9');
        }
    }
    reveal_with_fuel(text::joined, 4);
    assert(parts.drop_first() =~= seq![b, c]);
    assert(seq![b, c].drop_first() =~= seq![c]);
    assert("r="@ =~= seq!['r', '=']);
    assert(",s="@ =~= seq![',', 's', '=']);
    assert(",i="@ =~= seq![',', 'i', '=']);
    let m = first_message(nonce, salt, iterations);
    assert(text::joined(parts, ',') =~= a + seq![','] + (b + seq![','] + c));
    assert(m =~= a + seq![','] + (b + seq![','] + c));
    law_field_is_the_first_of_its_letter(parts, 'r', 0, nonce);
    law_field_is_the_first_of_its_letter(parts, 's', 1, code);
    law_field_is_the_first_of_its_letter(parts, 'i', 2, n);
}

/// A client's first message is answered with its nonce first, and kept without the
/// two marks in front, of which only those without channel binding are taken.
pub proof fn law_first_answer_begins_with_the_clients_nonce(
    mark: char,
    parts: Seq<Seq<char>>,
    i: int,
    client_nonce: Seq<char>,
    salt: Seq<u8>,
    iterations: u32,
    nonce: Seq<u8>,
)
    requires
        mark != ',',
        0 <= i < parts.len(),
        parts[i] == seq!['r', '='] + client_nonce,
        forall|j: int|
            0 <= j < i ==> !((#[trigger] parts[j]).len() >= 2 && parts[j][0] == 'r' && parts[j][1]
                == '='),
        forall|j: int, k: int|
            0 <= j < parts.len() && 0 <= k < parts[j].len() ==> #[trigger] parts[j][k] != ',',
    ensures
        server_first_of(
            encode_utf8(seq![mark, ',', ','] + text::joined(parts, ',')),
            salt,
            iterations,
            nonce,
        ) == (if mark == 'n' || mark == 'y' {
            let both = client_nonce + base64::base64_of(nonce);
            Ok((text::joined(parts, ','), first_message(both, salt, iterations), both))
        } else {
            Err(ScramError::UnsupportedGs2Header)
        }),
{
    let bare = text::joined(parts, ',');
    let s = seq![mark, ',', ','] + bare;
    text::lemma_lossy_of_text(s);
    reveal_strlit("n,,");
    reveal_strlit("y,,");
    assert(s.take(3) =~= seq![mark, ',', ',']);
    assert("n,,"@ =~= seq!['n', ',', ',']);
    assert("y,,"@ =~= seq!['y', ',', ',']);
    assert(seq![mark, ',', ','][0] == mark);
    assert("n,,"@[0] == 'n');
    assert("y,,"@[0] == 'y');
    assert(s.skip(3) =~= bare);
    law_field_is_the_first_of_its_letter(parts, 'r', i, client_nonce);
}

/// What both sides sign is the client's first message, the server's, and the
/// client's last without its proof, with commas between them.
pub proof fn law_both_sides_sign_the_whole_exchange(
    bare: Seq<char>,
    server_first: Seq<char>,
    binding: Seq<char>,
    nonce: Seq<char>,
)
    ensures
        auth_message_of(bare, server_first, binding, nonce) == text::joined(
            seq![bare, server_first, seq!['c', '='] + binding, seq!['r', '='] + nonce],
            ',',
        ),
{
    reveal_strlit(",");
    reveal_strlit("c=");
    reveal_strlit(",r=");
    reveal_with_fuel(text::joined, 5);
    let c = seq!['c', '='] + binding;
    let r = seq!['r', '='] + nonce;
    let parts = seq![bare, server_first, c, r];
    assert(parts.drop_first() =~= seq![server_first, c, r]);
    assert(seq![server_first, c, r].drop_first() =~= seq![c, r]);
    assert(seq![c, r].drop_first() =~= seq![r]);
    assert(","@ =~= seq![',']);
    assert("c="@ =~= seq!['c', '=']);
    assert(",r="@ =~= seq![',', 'r', '=']);
    let comma = seq![','];
    assert(text::joined(parts, ',') =~= bare + comma + (server_first + comma + (c + comma + r)));
    assert(auth_message_of(bare, server_first, binding, nonce) =~= bare + comma + (server_first
        + comma + (c + comma + r)));
}

/// A login succeeds only where the client gives back the nonce of this exchange and
/// a proof that fits the stored key; the server then proves itself with its own
/// key over the same exchange.
pub proof fn law_login_needs_nonce_and_proof(
    client_final: Seq<u8>,
    f: ServerFirst,
    cred: ScramCredential,
    msg: Seq<char>,
)
    requires
        final_of(client_final, f, cred) == Ok::<Seq<char>, ScramError>(msg),
    ensures
        ({
            let s = decode_utf8(client_final);
            let binding = field_of(s, 'c');
            let proof64 = field_of(s, 'p');
            let auth = encode_utf8(
                text::joined(
                    seq![
                        f.client_first_bare@,
                        f.server_first_message@,
                        seq!['c', '='] + binding->0,
                        seq!['r', '='] + f.combined_nonce@,
                    ],
                    ',',
                ),
            );
            let proof_bytes = base64::base64_in(encode_utf8(proof64->0));
            &&& valid_utf8(client_final)
            &&& field_of(s, 'r') == Some(f.combined_nonce@)
            &&& binding is Some && proof64 is Some && proof_bytes is Some
            &&& proof_bytes->0.len() == 32
            &&& sha256_of(
                Seq::new(
                    32,
                    |i: int| proof_bytes->0[i] ^ hmac_of(cred.stored_key@, auth)[i],
                ),
            ) == cred.stored_key@
            &&& msg == seq!['v', '='] + base64::base64_of(hmac_of(cred.server_key@, auth))
        }),
{
    let s = decode_utf8(client_final);
    let binding = field_of(s, 'c')->0;
    law_both_sides_sign_the_whole_exchange(
        f.client_first_bare@,
        f.server_first_message@,
        binding,
        f.combined_nonce@,
    );
    let auth = encode_utf8(
        auth_message_of(
            f.client_first_bare@,
            f.server_first_message@,
            binding,
            f.combined_nonce@,
        ),
    );
    let got = base64::base64_in(encode_utf8(field_of(s, 'p')->0))->0;
    assert(Seq::new(32, |i: int| got[i] ^ hmac_of(cred.stored_key@, auth)[i]) =~= xor_of(
        got,
        hmac_of(cred.stored_key@, auth),
    ));
    reveal_strlit("v=");
    assert("v="@ =~= seq!['v', '=']);
}

/// The keys of client and server are made of the salted password and the two names
/// that the mechanism gives them.
pub proof fn law_keys_are_made_under_their_names(password: Seq<char>, cred: ScramCredential)
    requires
        cred.of_password(password),
    ensures
        ({
            let salted = pbkdf2_of(encode_utf8(password), cred.salt@, cred.iterations);
            let client = seq!['C', 'l', 'i', 'e', 'n', 't', ' ', 'K', 'e', 'y'];
            let server = seq!['S', 'e', 'r', 'v', 'e', 'r', ' ', 'K', 'e', 'y'];
            &&& cred.stored_key@ == sha256_of(hmac_of(salted, encode_utf8(client)))
            &&& cred.server_key@ == hmac_of(salted, encode_utf8(server))
        }),
{
    reveal_strlit("Client Key");
    reveal_strlit("Server Key");
    assert("Client Key"@ =~= seq!['C', 'l', 'i', 'e', 'n', 't', ' ', 'K', 'e', 'y']);
    assert("Server Key"@ =~= seq!['S', 'e', 'r', 'v', 'e', 'r', ' ', 'K', 'e', 'y']);
}

} // verus!
