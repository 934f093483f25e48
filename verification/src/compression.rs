//! Zstandard compression.

use crate::repo::constants;
use std::io::{Read, Write};
use vstd::prelude::*;
use zstd::stream::raw::{CParameter, DParameter};

verus! {

/// The bytes that are read, up to `limit` of them, when the frames at the start
/// of `bytes` are decompressed with windows of at most the given size.
pub uninterp spec fn decompressed(bytes: Seq<u8>, limit: int, window_log_max: u32) -> Seq<u8>;

/// The frame holds the data: reading up to its end gives the data, whatever
/// follows the frame.
pub open spec fn holds_data(frame: Seq<u8>, data: Seq<u8>) -> bool {
    forall|rest: Seq<u8>, limit: int|
        0 <= limit <= data.len() ==> #[trigger] decompressed(
            frame + rest,
            limit,
            constants::DEFAULT_WINDOW_LOG_MAX,
        ) == data.take(limit)
}

/// Wraps `zstd::Decoder`: with the parameter `WindowLogMax` set, it is read to
/// its end or up to `limit` bytes. Where nothing fails, what is read is a
/// function of the bytes and of the limits. A failure is given as text, with
/// the bytes that were read before; nothing more is claimed of these, as a
/// failure may come from a lack of memory.
#[verifier::external_body]
pub(crate) fn decompress(bytes: &[u8], limit: u64, window_log_max: u32) -> (r: (
    Vec<u8>,
    Option<String>,
))
    ensures
        r.0@.len() <= limit,
        r.1 is None ==> r.0@ == decompressed(bytes@, limit as int, window_log_max),
{
    let mut data = Vec::new();
    let result = zstd::Decoder::new(bytes).and_then(|mut decoder| {
        decoder.set_parameter(DParameter::WindowLogMax(window_log_max))?;
        decoder.take(limit).read_to_end(&mut data)
    });
    (data, result.err().map(|e| e.to_string()))
}

/// The frame is one that the encoder makes of the data at the given level, with
/// or without long distance matching, with a window of the given size and as
/// many workers besides the calling thread.
pub uninterp spec fn is_frame_of(
    frame: Seq<u8>,
    data: Seq<u8>,
    level: i32,
    long_distance: bool,
    window_log: u32,
    extra_workers: u32,
) -> bool;

/// Wraps `zstd::Encoder`: with the parameters `NbWorkers`,
/// `EnableLongDistanceMatching` and `WindowLog` set, all data is written, and
/// the frame is finished. Where nothing fails, the frame is one for the data
/// and these parameters, and holds the data, if its window is not larger than
/// what is accepted during decompression. Which bytes the frame is made of is
/// not said: the level and the number of workers decide how well it is
/// compressed, and the bytes may differ between machines. A failure is given
/// as text, of which nothing is claimed.
#[verifier::external_body]
pub(crate) fn compress(
    data: &[u8],
    level: i32,
    long_distance: bool,
    window_log: u32,
    extra_workers: u32,
) -> (r: Result<Vec<u8>, String>)
    ensures
        r matches Ok(frame) ==> is_frame_of(
            frame@,
            data@,
            level,
            long_distance,
            window_log,
            extra_workers,
        ),
        r matches Ok(frame) ==> window_log <= constants::DEFAULT_WINDOW_LOG_MAX ==> holds_data(
            frame@,
            data@,
        ),
{
    let run = || {
        let mut encoder = zstd::Encoder::new(Vec::new(), level)?;
        encoder.set_parameter(CParameter::NbWorkers(extra_workers))?;
        encoder.set_parameter(CParameter::EnableLongDistanceMatching(long_distance))?;
        encoder.set_parameter(CParameter::WindowLog(window_log))?;
        encoder.write_all(data)?;
        encoder.finish()
    };
    run().map_err(|e: std::io::Error| e.to_string())
}

} // verus!
