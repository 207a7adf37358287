use crate::errors::CodecError;
use std::io::{Cursor, Read, Write};
use vstd::prelude::*;

verus! {

/// The single-entry compressed container wrapped around a payload by the
/// compression stage. With fixed settings (one deflated entry under a
/// fixed name, constant metadata), the container bytes are a function of
/// the payload bytes alone, which is what this name stands for.
pub uninterp spec fn zip_of(b: Seq<u8>) -> Seq<u8>;

/// What opening a container yields: the entry count, the first entry's
/// name and its contents — or nothing, where the bytes do not parse as
/// a container. The parse is deterministic, so this is a function of
/// the container bytes alone.
pub uninterp spec fn unzip_of(c: Seq<u8>) -> Option<(nat, Seq<u8>, Seq<u8>)>;

/// The fixed name, as bytes, of the one entry under which the payload
/// is stored inside a container ("data" in ASCII).
pub open spec fn container_entry_name() -> Seq<u8> {
    seq![100u8, 97u8, 116u8, 97u8]
}

/// Payload sizes the container writer is sure to accept. The writer
/// refuses payloads whose raw or deflated size crosses the ZIP64
/// threshold of `u32::MAX` bytes; staying a factor of two below it
/// leaves room for the worst case where deflate slightly expands the
/// payload instead of shrinking it.
pub open spec fn container_input_ok(len: int) -> bool {
    len <= u32::MAX as int / 2
}

/// Relies on zip::write::ZipWriter: writing one deflated entry with the
/// default (constant) metadata into an in-memory buffer yields container
/// bytes that depend on the payload alone. Its only failure path is the
/// ZIP64 threshold check on the raw and deflated entry sizes, so a
/// payload within `container_input_ok` always succeeds and one beyond
/// `u32::MAX` bytes never does.
#[verifier::external_body]
pub(crate) fn container_pack(data: &[u8]) -> (r: Result<Vec<u8>, CodecError>)
    ensures
        r matches Ok(c) ==> c@ == zip_of(data@),
        container_input_ok(data@.len() as int) ==> r is Ok,
        data@.len() > u32::MAX as int ==> r is Err,
        r matches Err(e) ==> e == CodecError::IoError,
{
    let options = zip::write::FileOptions::default().compression_method(
        zip::CompressionMethod::Deflated,
    );
    let mut writer = zip::ZipWriter::new(Cursor::new(Vec::new()));
    writer.start_file("data", options).map_err(|_| CodecError::IoError)?;
    writer.write_all(data).map_err(|_| CodecError::IoError)?;
    let cursor = writer.finish().map_err(|_| CodecError::IoError)?;
    Ok(cursor.into_inner())
}

/// Relies on zip::read::ZipArchive: opening a container and reading its
/// first entry to the end with an empty password is a deterministic
/// parse, named `unzip_of`; a truncated, corrupt or encrypted container
/// is reported as an error rather than a panic (entry 0 is read through
/// by_index_decrypt, which returns the failure as a value even where a
/// forged encryption field is planted on a plaintext entry, and which
/// discards the password on ordinary plaintext entries). A container
/// that the writer above produced always opens as one entry named
/// "data" holding exactly the bytes that were written into it.
#[verifier::external_body]
pub(crate) fn container_open(c: &[u8]) -> (r: Result<(usize, Vec<u8>, Vec<u8>), CodecError>)
    ensures
        r matches Ok(t) ==> (unzip_of(c@) matches Some(u) && u.0 == t.0 && u.1 == t.1@ && u.2
            == t.2@),
        r matches Ok(t) ==> (forall|b: Seq<u8>|
            c@ == #[trigger] zip_of(b) ==> t.0 == 1 && t.1@ == container_entry_name() && t.2@
                == b),
        r matches Err(e) ==> e == CodecError::MalformedContainer && unzip_of(c@) is None && !(
        exists|b: Seq<u8>| c@ == #[trigger] zip_of(b)),
{
    let mut archive = zip::read::ZipArchive::new(Cursor::new(c)).map_err(
        |_| CodecError::MalformedContainer,
    )?;
    let count = archive.len();
    let mut entry = match archive.by_index_decrypt(0, b"") {
        Ok(Ok(e)) => e,
        _ => return Err(CodecError::MalformedContainer),
    };
    let name = entry.name().as_bytes().to_vec();
    let mut out = Vec::new();
    entry.read_to_end(&mut out).map_err(|_| CodecError::MalformedContainer)?;
    Ok((count, name, out))
}

} // verus!
