//! Reading a byte-stream source to exhaustion.

use vstd::prelude::*;

verus! {

/// `std::io::Error`, declared so a failed read can be handed back.
#[verifier::external_type_specification]
#[verifier::external_body]
pub struct ExIoError(std::io::Error);

/// Relies on `std::io::Read::read_to_end`: it reads the stream to
/// exhaustion and collects every byte it yields, or fails with the
/// stream's error. Nothing is promised of the bytes: they are whatever
/// the stream holds, and two reads need not agree.
#[verifier::external_body]
fn read_to_end_bytes<R: std::io::Read>(handle: &mut R) -> Result<Vec<u8>, std::io::Error> {
    let mut buf = vec![];
    handle.read_to_end(&mut buf)?;
    Ok(buf)
}

/// Read the given byte-stream source to exhaustion and hand back the raw
/// bytes, or the stream's own error. No line splitting, no encoding
/// assumption, no side effect beyond the read.
pub fn read_proc_file<R: std::io::Read>(handle: R) -> Result<Vec<u8>, std::io::Error> {
    let mut handle = handle;
    read_to_end_bytes(&mut handle)
}

} // verus!
