//! The certificate decoding this library takes from OpenSSL.

use crate::teams::{subject_view, EntryView, Subject};
use openssl::error::ErrorStack;
use openssl::nid::Nid;
use openssl::x509::X509;
use vstd::prelude::*;

verus! {

#[verifier::external_type_specification]
#[verifier::external_body]
pub struct ExErrorStack(ErrorStack);

/// The subjects of the certificates that OpenSSL decodes from a PEM buffer,
/// in order, or `None` where it refuses the buffer.
pub uninterp spec fn pem_subjects(pem: Seq<u8>) -> Option<Seq<(EntryView, EntryView)>>;

/// Relies on `X509::stack_from_pem`, which decodes the certificate blocks of
/// the buffer in order and fails as a whole on one that does not decode, and
/// on `X509Ref::subject_name`, `X509NameRef::entries_by_nid`,
/// `X509NameEntryRef::data` and `Asn1StringRef::as_utf8` for the first
/// Organization and Organizational Unit entry of each subject. The outcome
/// depends on the bytes alone. OpenSSL's memory buffer asserts that the
/// length fits a C `int`.
#[verifier::external_body]
pub(crate) fn subjects_from_pem(pem: &[u8]) -> (r: Result<Vec<Subject>, ErrorStack>)
    requires
        pem@.len() <= i32::MAX,
    ensures
        match r {
            Ok(subjects) => pem_subjects(pem@) == Some(
                subjects@.map_values(|s: Subject| subject_view(s)),
            ),
            Err(_) => pem_subjects(pem@) is None,
        },
{
    let first = |cert: &X509, nid: Nid|
        cert.subject_name().entries_by_nid(nid).next().map(
            |entry| entry.data().as_utf8().map(|text| text.to_string()),
        );
    let certs = X509::stack_from_pem(pem)?;
    Ok(certs.iter().map(
        |cert| Subject {
            organization: first(cert, Nid::ORGANIZATIONNAME),
            unit: first(cert, Nid::ORGANIZATIONALUNITNAME),
        },
    ).collect())
}

} // verus!
