//! Optional parts of an index file, each of which starts with a signature and its size.

use vstd::prelude::*;

pub mod fs_monitor;
pub mod tree;
pub mod untracked_cache;

pub use fs_monitor::FsMonitor;
pub use tree::Tree;
pub use untracked_cache::UntrackedCache;

use crate::util::law_u32_is_written_to_four_bytes;
use crate::util::law_u32_read_gives_back_written;
use crate::util::u32_be_bytes;
use crate::util::u32_parsed;
use crate::util::write_bytes;
use crate::util::write_u32;

verus! {

/// The four bytes by which an extension is recognized.
pub type Signature = [u8; 4];

/// Why an extension could not be written.
#[derive(Clone, Copy, Debug, PartialEq, Eq, Structural)]
pub enum WriteError {
    /// There is no directory with the given index.
    InvalidDirectory,
    /// A bitmap exceeds 4GB.
    BitmapTooLarge,
    /// The extension exceeds 4GB.
    ExtensionTooLarge,
}

/// The bytes of an extension in an index file: its signature, the size of its payload, and the payload.
pub open spec fn framed(signature: Signature, payload: Seq<u8>) -> Seq<u8> {
    signature@ + u32_be_bytes(payload.len() as u32) + payload
}

/// Append an extension with `signature` and `payload` to `out`, or fail without a change if the payload is too large.
pub(crate) fn write_extension(out: &mut Vec<u8>, signature: Signature, payload: &[u8]) -> (res: Result<(), WriteError>)
    ensures
        match res {
            Ok(()) => payload@.len() <= u32::MAX && final(out)@ == old(out)@ + framed(signature, payload@),
            Err(err) => err == WriteError::ExtensionTooLarge && payload@.len() > u32::MAX && final(out)@ == old(out)@,
        },
{
    let payload_size: usize = payload.len();
    if payload_size > u32::MAX as usize {
        return Err(WriteError::ExtensionTooLarge);
    }
    write_bytes(out, signature.as_slice());
    write_u32(out, payload_size as u32);
    write_bytes(out, payload);
    assert(out@ =~= old(out)@ + framed(signature, payload@));
    Ok(())
}

/// An extension says what it is and how long it is: its signature comes first, then the length of its payload, and the
/// payload of that length, so that it can be told from what follows it.
pub proof fn law_extension_can_be_split_off(signature: Signature, payload: Seq<u8>, more: Seq<u8>)
    requires
        payload.len() <= u32::MAX,
    ensures
        (framed(signature, payload) + more).take(4) == signature@,
        u32_parsed((framed(signature, payload) + more).skip(4)) matches Some((len, rest)) && len == payload.len()
            && rest.take(len as int) == payload && rest.skip(len as int) == more,
        framed(signature, payload).len() == 8 + payload.len(),
{
    let bytes = framed(signature, payload) + more;
    let len = payload.len() as u32;
    assert(signature@.len() == 4);
    law_u32_is_written_to_four_bytes(len);
    assert(bytes.take(4) =~= signature@);
    assert(bytes.skip(4) =~= u32_be_bytes(len) + (payload + more));
    law_u32_read_gives_back_written(len, payload + more);
    assert((payload + more).take(len as int) =~= payload);
    assert((payload + more).skip(len as int) =~= more);
}

} // verus!
