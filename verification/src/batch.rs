//! Operations on batches of objects.

use crate::compression;
use crate::compression::compress;
use crate::digest;
use crate::digest::{sha1, ObjectChecksum};
use crate::ioerror::{IoError, IoErrorKind};
use crate::progress::{Checkpoint, ProgressReporter};
use crate::repo::constants;
use vstd::prelude::*;

verus! {

/// Options for the batch compression functions.
pub struct CompressionOptions {
    pub level: i32,
    pub window_log: u32,
    pub num_workers: u32,
}

/// The contents of a list of objects.
pub open spec fn contents_of(objects: Seq<Vec<u8>>) -> Seq<Seq<u8>> {
    objects.map_values(|o: Vec<u8>| o@)
}

/// The pieces, one after the other.
pub open spec fn joined(pieces: Seq<Seq<u8>>) -> Seq<u8>
    decreases pieces.len(),
{
    if pieces.len() == 0 {
        Seq::empty()
    } else {
        joined(pieces.drop_last()) + pieces.last()
    }
}

/// Joining a list is joining a first part of it and then the rest.
pub proof fn lemma_joined_split(pieces: Seq<Seq<u8>>, i: int)
    requires
        0 <= i <= pieces.len(),
    ensures
        joined(pieces) == joined(pieces.take(i)) + joined(pieces.skip(i)),
    decreases pieces.len() - i,
{
    if i == pieces.len() {
        assert(pieces.take(i) =~= pieces);
        assert(pieces.skip(i) =~= Seq::empty());
        assert(joined(pieces) =~= joined(pieces.take(i)) + joined(pieces.skip(i)));
    } else {
        let init = pieces.drop_last();
        lemma_joined_split(init, i);
        assert(init.take(i) =~= pieces.take(i));
        assert(init.skip(i) =~= pieces.skip(i).drop_last());
        assert(pieces.skip(i).last() == pieces.last());
        assert(joined(pieces) =~= joined(pieces.take(i)) + joined(pieces.skip(i)));
    }
}

/// Joins the contents of a list of objects.
pub fn join_objects(objects: &[Vec<u8>]) -> (r: Vec<u8>)
    ensures
        r@ == joined(contents_of(objects@)),
{
    let mut r: Vec<u8> = Vec::new();
    let ghost pieces = contents_of(objects@);
    let mut i: usize = 0;
    assert(pieces.take(0) =~= Seq::empty());
    while i < objects.len()
        invariant
            i <= objects.len(),
            pieces == contents_of(objects@),
            r@ == joined(pieces.take(i as int)),
        decreases objects.len() - i,
    {
        assert(pieces.take(i + 1).drop_last() =~= pieces.take(i as int));
        assert(pieces[i as int] == objects@[i as int]@);
        r.extend_from_slice(objects[i].as_slice());
        i += 1;
    }
    assert(pieces.take(i as int) =~= pieces);
    r
}

/// Computes the content checksums of the objects.
pub fn compute_checksums(objects: &[Vec<u8>]) -> (r: Vec<ObjectChecksum>)
    requires
        forall|i: int|
            0 <= i < objects@.len() ==> (#[trigger] objects@[i])@.len() < 0x2000_0000_0000_0000,
    ensures
        r@.len() == objects@.len(),
        forall|i: int|
            0 <= i < r@.len() ==> (#[trigger] r@[i])@ == digest::sha1_of(objects@[i]@),
{
    let mut r: Vec<ObjectChecksum> = Vec::new();
    let mut i: usize = 0;
    while i < objects.len()
        invariant
            forall|i: int|
                0 <= i < objects@.len() ==> (#[trigger] objects@[i])@.len() < 0x2000_0000_0000_0000,
            i <= objects.len(),
            r@.len() == i,
            forall|j: int| 0 <= j < i ==> (#[trigger] r@[j])@ == digest::sha1_of(objects@[j]@),
        decreases objects.len() - i,
    {
        r.push(sha1(objects[i].as_slice()));
        i += 1;
    }
    r
}

/// Compresses the specified set of objects using ZStandard compression, with
/// long distance matching and the specified options, into one frame. Returns the number of bytes processed
/// (the size of the decompressed stream) and the frame.
pub fn compress_files<F: Fn(&Checkpoint)>(
    objects: &[Vec<u8>],
    opts: &CompressionOptions,
    reporter: &ProgressReporter<F>,
) -> (r: Result<(u64, Vec<u8>), IoError>)
    requires
        opts.num_workers > 0,
        reporter.is_ready(),
    ensures
        r matches Ok(done) ==> compression::is_frame_of(
            done.1@,
            joined(contents_of(objects@)),
            opts.level,
            true,
            opts.window_log,
            (opts.num_workers - 1) as u32,
        ),
        r matches Ok(done) ==> done.0 == joined(contents_of(objects@)).len() && (opts.window_log
            <= constants::DEFAULT_WINDOW_LOG_MAX ==> compression::holds_data(
            done.1@,
            joined(contents_of(objects@)),
        )),
        forall|i: int|
            0 <= i < objects@.len() ==> #[trigger] reporter.reported(
                (Checkpoint {
                    done: i as usize,
                    remaining: Some((objects@.len() - i) as usize),
                }),
            ),
        reporter.reported((Checkpoint { done: objects@.len() as usize, remaining: Some(0) })),
{
    let data = join_objects(objects);
    let mut i: usize = 0;
    while i < objects.len()
        invariant
            i <= objects.len(),
            reporter.is_ready(),
            forall|j: int|
                0 <= j < i ==> #[trigger] reporter.reported(
                    (Checkpoint {
                        done: j as usize,
                        remaining: Some((objects@.len() - j) as usize),
                    }),
                ),
        decreases objects.len() - i,
    {
        reporter.checkpoint(i, Some(objects.len() - i));
        i += 1;
    }
    reporter.checkpoint(objects.len(), Some(0));
    // Zstandard takes the number of workers to mean extra compression threads
    // (0 means on same thread as IO).
    match compress(data.as_slice(), opts.level, true, opts.window_log, opts.num_workers - 1) {
        Ok(frame) => Ok((data.len() as u64, frame)),
        Err(e) => Err(IoError { kind: IoErrorKind::Other, message: e }),
    }
}

/// Joined byte strings stand one behind the other, each whole, with nothing
/// before, between or behind them.
pub proof fn law_every_piece_is_joined(pieces: Seq<Seq<u8>>, i: int)
    requires
        0 <= i < pieces.len(),
    ensures
        joined(pieces.take(0)) == Seq::<u8>::empty(),
        (joined(pieces.take(i)) + pieces[i]).is_prefix_of(joined(pieces)),
        i == pieces.len() - 1 ==> joined(pieces) == joined(pieces.take(i)) + pieces[i],
    decreases pieces.len() - i,
{
    lemma_joined_take(pieces, i, pieces.len() as int);
    assert(pieces.take(pieces.len() as int) =~= pieces);
    assert(pieces.take(0) =~= Seq::empty());
    if i == pieces.len() - 1 {
        assert(pieces.drop_last() =~= pieces.take(i));
    }
}

proof fn lemma_joined_take(pieces: Seq<Seq<u8>>, i: int, n: int)
    requires
        0 <= i < n <= pieces.len(),
    ensures
        (joined(pieces.take(i)) + pieces[i]).is_prefix_of(joined(pieces.take(n))),
    decreases n,
{
    let now = pieces.take(n);
    assert(now.drop_last() =~= pieces.take(n - 1));
    let start = joined(pieces.take(i)) + pieces[i];
    if i < n - 1 {
        lemma_joined_take(pieces, i, n - 1);
        let before = joined(pieces.take(n - 1));
        assert(start =~= joined(now).subrange(0, start.len() as int));
    } else {
        assert(start =~= joined(now).subrange(0, start.len() as int));
    }
}

} // verus!
