//! The Object Codec collaborator boundary.
//!
//! Structural decoding of a complete bulk-data byte sequence under a
//! negotiated data encoding — and reading identifying fields out of
//! the decoded object — is the work of the `dicom` crates, consumed
//! here behind one trusted declaration. Whether given bytes decode
//! under a given encoding, and which identifiers the decoded object
//! carries, are functions of those arguments alone (the encoding
//! registry is fixed), so they are given names below; the session's
//! contracts are deterministic over those names, and success is owed
//! whenever they say the object decodes and carries its identifiers.

use vstd::prelude::*;
use dicom_encoding::transfer_syntax::TransferSyntaxIndex;
use dicom_object::mem::InMemDicomObject;
use dicom_object::StandardDataDictionary;
use dicom_transfer_syntax_registry::TransferSyntaxRegistry;

verus! {

#[verifier::external_type_specification]
#[verifier::external_body]
#[verifier::reject_recursive_types(D)]
pub struct ExInMemDicomObject<D>(InMemDicomObject<D>);

#[verifier::external_type_specification]
#[verifier::external_body]
pub struct ExStandardDataDictionary(StandardDataDictionary);

/// Whether `bytes` decode to an object under the data encoding named
/// `ts_uid`.
pub uninterp spec fn obj_decodes(bytes: Seq<u8>, ts_uid: Seq<char>) -> bool;

/// The class identifier the object decoded from `bytes` under
/// `ts_uid` carries, if it decodes and carries one as text.
pub uninterp spec fn obj_class_of(bytes: Seq<u8>, ts_uid: Seq<char>) -> Option<Seq<char>>;

/// The instance identifier the object decoded from `bytes` under
/// `ts_uid` carries, if it decodes and carries one as text.
pub uninterp spec fn obj_instance_of(bytes: Seq<u8>, ts_uid: Seq<char>) -> Option<Seq<char>>;

/// A decoded object together with the identifying fields read out of
/// it: its own class and instance identifiers, where present.
pub struct DecodedObject {
    pub object: InMemDicomObject<StandardDataDictionary>,
    pub class_uid: Option<String>,
    pub instance_uid: Option<String>,
}

/// The view of an optional identifier string.
pub open spec fn opt_string_view(o: Option<String>) -> Option<Seq<char>> {
    match o {
        None => None,
        Some(s) => Some(s@),
    }
}

/// Relies on `TransferSyntaxRegistry::get` to resolve the data
/// encoding named by `ts_uid`, on
/// `InMemDicomObject::read_dataset_with_ts` to structurally decode
/// the accumulated bytes under it, and on
/// `InMemDicomObject::element` with `DataElement::to_str` to read
/// the object's own class (0008,0016) and instance (0008,0018)
/// identifiers as text (`to_str` fails only on non-primitive values
/// and trims trailing space and NUL padding from string values).
/// Returns `None` exactly when the encoding is unknown to the
/// registry or the bytes do not decode.
#[verifier::external_body]
pub(crate) fn decode_object(bytes: &Vec<u8>, ts_uid: &String) -> (r: Option<DecodedObject>)
    ensures
        r is Some <==> obj_decodes(bytes@, ts_uid@),
        r matches Some(d) ==> opt_string_view(d.class_uid) == obj_class_of(bytes@, ts_uid@)
            && opt_string_view(d.instance_uid) == obj_instance_of(bytes@, ts_uid@),
{
    let ts = TransferSyntaxRegistry.get(ts_uid.as_str())?;
    let object = InMemDicomObject::read_dataset_with_ts(bytes.as_slice(), ts).ok()?;
    let class_uid = object
        .element(dicom_core::Tag(0x0008, 0x0016))
        .ok()
        .and_then(|e| e.to_str().ok())
        .map(|s| s.into_owned());
    let instance_uid = object
        .element(dicom_core::Tag(0x0008, 0x0018))
        .ok()
        .and_then(|e| e.to_str().ok())
        .map(|s| s.into_owned());
    Some(DecodedObject { object, class_uid, instance_uid })
}

} // verus!
