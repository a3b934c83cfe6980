//! PEM files: the certificates and the key of this device.

use vstd::prelude::*;

verus! {

/// A section of a PEM file, with its bytes.
#[derive(Debug)]
pub enum PemItem {
    Certificate(Vec<u8>),
    RsaKey(Vec<u8>),
    Pkcs8Key(Vec<u8>),
    EcKey(Vec<u8>),
    RevocationList(Vec<u8>),
    /// A section of another kind.
    Other,
}

#[verifier::ext_equal]
pub enum PemItemView {
    Certificate(Seq<u8>),
    RsaKey(Seq<u8>),
    Pkcs8Key(Seq<u8>),
    EcKey(Seq<u8>),
    RevocationList(Seq<u8>),
    Other,
}

impl View for PemItem {
    type V = PemItemView;

    open spec fn view(&self) -> PemItemView {
        match self {
            PemItem::Certificate(b) => PemItemView::Certificate(b@),
            PemItem::RsaKey(b) => PemItemView::RsaKey(b@),
            PemItem::Pkcs8Key(b) => PemItemView::Pkcs8Key(b@),
            PemItem::EcKey(b) => PemItemView::EcKey(b@),
            PemItem::RevocationList(b) => PemItemView::RevocationList(b@),
            PemItem::Other => PemItemView::Other,
        }
    }
}

/// Why there is no key to be had from a file.
#[derive(Debug, Clone, Copy, PartialEq, Eq, Structural)]
pub enum KeyError {
    /// A section before the first key cannot be read.
    Unreadable,
    /// There is no key; keys that are encrypted do not count.
    Missing,
}

/// The first section that `rustls_pemfile::read_one` finds in a PEM file, and the bytes
/// that it leaves unread; `Some(None)` where there is no section, none where it reports
/// an error.
pub uninterp spec fn pem_section(pem: Seq<u8>) -> Option<Option<(PemItemView, Seq<u8>)>>;

/// Calls `rustls_pemfile::read_one` on the bytes of a file, or what is left of them. Its
/// result, named by `pem_section`, depends on the bytes alone. A section that is found
/// has been read, so fewer bytes are left.
#[verifier::external_body]
fn next_section(pem: &[u8]) -> (r: Option<Option<(PemItem, Vec<u8>)>>)
    ensures
        match r {
            Some(Some(found)) => pem_section(pem@) == Some(Some((found.0@, found.1@)))
                && found.1@.len() < pem@.len(),
            Some(None) => pem_section(pem@) == Some(None::<(PemItemView, Seq<u8>)>),
            None => pem_section(pem@) is None,
        },
{
    let mut rest = pem;
    let item = match rustls_pemfile::read_one(&mut rest).ok()? {
        None => return Some(None),
        Some(rustls_pemfile::Item::X509Certificate(b)) => PemItem::Certificate(b),
        Some(rustls_pemfile::Item::RSAKey(b)) => PemItem::RsaKey(b),
        Some(rustls_pemfile::Item::PKCS8Key(b)) => PemItem::Pkcs8Key(b),
        Some(rustls_pemfile::Item::ECKey(b)) => PemItem::EcKey(b),
        Some(rustls_pemfile::Item::Crl(b)) => PemItem::RevocationList(b),
        Some(_) => PemItem::Other,
    };
    Some(Some((item, rest.to_vec())))
}

/// The certificates in a PEM file, in order; none where a section cannot be read.
pub open spec fn pem_certs(pem: Seq<u8>) -> Option<Seq<Seq<u8>>>
    decreases pem.len(),
{
    match pem_section(pem) {
        None => None,
        Some(None) => Some(Seq::empty()),
        Some(Some((item, rest))) => if rest.len() < pem.len() {
            match pem_certs(rest) {
                None => None,
                Some(later) => Some(
                    match item {
                        PemItemView::Certificate(b) => seq![b] + later,
                        _ => later,
                    },
                ),
            }
        } else {
            None
        },
    }
}

/// Calls `rustls_pemfile::certs` on the bytes of a file: it reads one section after the
/// other as `rustls_pemfile::read_one` does, each of which takes bytes away, and gives the
/// certificates among them, or an error where one of the sections gives one.
#[verifier::external_body]
pub(crate) fn certs_of_pem(pem: &[u8]) -> (r: Option<Vec<Vec<u8>>>)
    ensures
        match r {
            Some(certs) => pem_certs(pem@) == Some(crate::views(certs@)),
            None => pem_certs(pem@) is None,
        },
{
    let mut reader = pem;
    rustls_pemfile::certs(&mut reader).ok()
}

/// The bytes of a section that is a private key.
pub open spec fn key_in(item: PemItemView) -> Option<Seq<u8>> {
    match item {
        PemItemView::RsaKey(b) => Some(b),
        PemItemView::Pkcs8Key(b) => Some(b),
        PemItemView::EcKey(b) => Some(b),
        _ => None,
    }
}

/// The first private key in a PEM file. What comes behind it is not looked at.
pub open spec fn first_key(pem: Seq<u8>) -> Result<Seq<u8>, KeyError>
    decreases pem.len(),
{
    match pem_section(pem) {
        None => Err(KeyError::Unreadable),
        Some(None) => Err(KeyError::Missing),
        Some(Some((item, rest))) => match key_in(item) {
            Some(key) => Ok(key),
            None => if rest.len() < pem.len() {
                first_key(rest)
            } else {
                Err(KeyError::Missing)
            },
        },
    }
}

/// The bytes of a section that is a private key.
pub fn private_key(item: PemItem) -> (r: Option<Vec<u8>>)
    ensures
        crate::wire::view_option(r) == key_in(item@),
{
    match item {
        PemItem::RsaKey(key) => Some(key),
        PemItem::Pkcs8Key(key) => Some(key),
        PemItem::EcKey(key) => Some(key),
        _ => None,
    }
}

/// The certificates in a PEM file; none where it cannot be read.
pub fn load_certs(pem: &[u8]) -> (r: Option<Vec<Vec<u8>>>)
    ensures
        match r {
            Some(certs) => pem_certs(pem@) == Some(crate::views(certs@)),
            None => pem_certs(pem@) is None,
        },
{
    certs_of_pem(pem)
}

/// The first private key in a PEM file.
pub fn load_private_key(pem: &[u8]) -> (r: Result<Vec<u8>, KeyError>)
    ensures
        match first_key(pem@) {
            Ok(key) => r matches Ok(k) && k@ == key,
            Err(e) => r == Err::<Vec<u8>, KeyError>(e),
        },
{
    let mut left: Vec<u8> = vstd::slice::slice_to_vec(pem);
    assert(left@ =~= pem@);
    loop
        invariant
            first_key(left@) == first_key(pem@),
        decreases left@.len(),
    {
        match next_section(left.as_slice()) {
            None => {
                return Err(KeyError::Unreadable);
            },
            Some(None) => {
                return Err(KeyError::Missing);
            },
            Some(Some((item, rest))) => {
                if let Some(key) = private_key(item) {
                    return Ok(key);
                }
                left = rest;
            },
        }
    }
}

} // verus!
