//! Encrypted connections: the certificate and key that a server proves itself
//! with, and the probe with which a client asks for one.

use vstd::prelude::*;

use super::codec::SSL_REQUEST;
use crate::be;
use crate::be::get_u32;

verus! {

/// What to do with a connection whose first bytes were looked at.
#[derive(Debug, Clone, Copy, PartialEq, Eq, Structural)]
pub enum Probe {
    /// Fewer than eight bytes are there: look again.
    NeedMore,
    /// No probe: leave the bytes where they are.
    Plain,
    /// A probe: take its eight bytes, answer `S` and start the handshake.
    Encrypt,
    /// A probe that cannot be granted: take its eight bytes, answer `N` and go
    /// on in plain text.
    Refuse,
}

/// Whether eight bytes are the probe: their length, and its code.
pub open spec fn is_probe(bytes: Seq<u8>) -> bool {
    bytes.len() >= 8 && be::u32_at(bytes, 0) == 8 && be::u32_at(bytes, 4) == SSL_REQUEST as u32
}

/// Decides on the first bytes of a connection, given whether encryption is set
/// up.
pub fn negotiate(bytes: &[u8], acceptor: bool) -> (p: Probe)
    ensures
        p == if bytes@.len() < 8 {
            Probe::NeedMore
        } else if !is_probe(bytes@) {
            Probe::Plain
        } else if acceptor {
            Probe::Encrypt
        } else {
            Probe::Refuse
        },
{
    if bytes.len() < 8 {
        return Probe::NeedMore;
    }
    let len: u32 = get_u32(bytes, 0);
    let code: u32 = get_u32(bytes, 4);
    if len != 8 || code != SSL_REQUEST as u32 {
        Probe::Plain
    } else if acceptor {
        Probe::Encrypt
    } else {
        Probe::Refuse
    }
}

/// The certificates that PEM text holds, in their order, as DER bytes; none
/// where a section of it cannot be read.
pub uninterp spec fn pem_certs_in(pem: Seq<u8>) -> Option<Seq<Seq<u8>>>;

/// The first private key that PEM text holds, of any kind, as DER bytes: the
/// outer option is none where a section before it cannot be read, the inner one
/// where there is no key.
pub uninterp spec fn pem_key_in(pem: Seq<u8>) -> Option<Option<Seq<u8>>>;

/// Calls `rustls_pemfile::certs` and collects what it gives: the DER bytes of
/// each certificate, in order, or none where it gives an error. They depend on
/// the text alone. What the error says is dropped.
#[verifier::external_body]
fn pem_certs(pem: &[u8]) -> (r: Option<Vec<Vec<u8>>>)
    ensures
        match r {
            Some(certs) => pem_certs_in(pem@) == Some(be::contents(certs@)),
            None => pem_certs_in(pem@) is None,
        },
{
    let mut rd: &[u8] = pem;
    let certs: Result<Vec<Vec<u8>>, std::io::Error> = rustls_pemfile::certs(&mut rd).map(
        |c| c.map(|der| der.as_ref().to_vec()),
    ).collect();
    certs.ok()
}

/// Calls `rustls_pemfile::private_key`: the DER bytes of the first private key,
/// none where there is no key, or an error. They depend on the text alone. What
/// the error says is dropped, and so is the label that the key stands under.
#[verifier::external_body]
fn pem_key(pem: &[u8]) -> (r: Option<Option<Vec<u8>>>)
    ensures
        match r {
            Some(Some(key)) => pem_key_in(pem@) == Some(Some(key@)),
            Some(None) => pem_key_in(pem@) == Some(None::<Seq<u8>>),
            None => pem_key_in(pem@) is None,
        },
{
    let mut rd: &[u8] = pem;
    rustls_pemfile::private_key(&mut rd).ok().map(|k| k.map(|der| der.secret_der().to_vec()))
}

/// Why no certificate and key could be read.
#[derive(Debug, Clone, Copy, PartialEq, Eq, Structural)]
pub enum IdentityError {
    /// The text of the certificates cannot be read.
    BadCertificate,
    /// The text of the key cannot be read.
    BadKey,
    /// There is no key in its text.
    NoKey,
}

/// Decides on what the two texts held, the certificates first.
pub fn identity_from(certs: Option<Vec<Vec<u8>>>, key: Option<Option<Vec<u8>>>) -> (r: Result<
    (Vec<Vec<u8>>, Vec<u8>),
    IdentityError,
>)
    ensures
        match (certs, key) {
            (None, _) => r == Err::<(Vec<Vec<u8>>, Vec<u8>), _>(IdentityError::BadCertificate),
            (Some(_), None) => r == Err::<(Vec<Vec<u8>>, Vec<u8>), _>(IdentityError::BadKey),
            (Some(_), Some(None)) => r == Err::<(Vec<Vec<u8>>, Vec<u8>), _>(IdentityError::NoKey),
            (Some(cs), Some(Some(k))) => r == Ok::<_, IdentityError>((cs, k)),
        },
{
    match (certs, key) {
        (None, _) => Err(IdentityError::BadCertificate),
        (Some(_), None) => Err(IdentityError::BadKey),
        (Some(_), Some(None)) => Err(IdentityError::NoKey),
        (Some(cs), Some(Some(k))) => Ok((cs, k)),
    }
}

/// Reads the certificates and the key of a server from their PEM texts.
pub fn read_identity(cert_pem: &[u8], key_pem: &[u8]) -> (r: Result<
    (Vec<Vec<u8>>, Vec<u8>),
    IdentityError,
>)
    ensures
        match (pem_certs_in(cert_pem@), pem_key_in(key_pem@)) {
            (None, _) => r is Err && r->Err_0 is BadCertificate,
            (Some(_), None) => r is Err && r->Err_0 is BadKey,
            (Some(_), Some(None)) => r is Err && r->Err_0 is NoKey,
            (Some(cs), Some(Some(k))) => r matches Ok((a, b)) && be::contents(a@) == cs && b@ == k,
        },
{
    identity_from(pem_certs(cert_pem), pem_key(key_pem))
}

/// A client asks for encryption by eight bytes, and by no others: it is answered by
/// them alone, and whatever else it sends is taken as it is.
pub proof fn law_eight_bytes_ask_for_encryption(bytes: &[u8], acceptor: bool, p: Probe)
    requires
        call_ensures(negotiate, (bytes, acceptor), p),
    ensures
        p is NeedMore <==> bytes@.len() < 8,
        p is Encrypt <==> acceptor && bytes@.len() >= 8 && bytes@.take(8) == seq![
            0u8,
            0u8,
            0u8,
            8u8,
            4u8,
            210u8,
            22u8,
            47u8,
        ],
        p is Refuse <==> !acceptor && bytes@.len() >= 8 && bytes@.take(8) == seq![
            0u8,
            0u8,
            0u8,
            8u8,
            4u8,
            210u8,
            22u8,
            47u8,
        ],
{
    let b = bytes@;
    if b.len() >= 8 {
        let probe = seq![0u8, 0u8, 0u8, 8u8, 4u8, 210u8, 22u8, 47u8];
        reveal(be::un32);
        let a = b.subrange(0, 4);
        let c = b.subrange(4, 8);
        assert(a[0] == b[0] && a[1] == b[1] && a[2] == b[2] && a[3] == b[3]);
        assert(c[0] == b[4] && c[1] == b[5] && c[2] == b[6] && c[3] == b[7]);
        if is_probe(b) {
            assert(b.take(8) =~= probe);
        }
        if b.take(8) == probe {
            assert(b.take(8)[0] == b[0] && b.take(8)[1] == b[1] && b.take(8)[2] == b[2]);
            assert(b.take(8)[3] == b[3] && b.take(8)[4] == b[4] && b.take(8)[5] == b[5]);
            assert(b.take(8)[6] == b[6] && b.take(8)[7] == b[7]);
            assert(is_probe(b));
        }
    }
}

} // verus!
