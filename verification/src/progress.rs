//! Reports of the progress of long operations.

use vstd::prelude::*;

verus! {

/// How far an operation has come.
#[derive(Clone, Copy, Debug, PartialEq, Eq)]
pub struct Checkpoint {
    pub done: usize,
    pub remaining: Option<usize>,
}

/// Hands checkpoints to a callback, if there is one.
pub struct ProgressReporter<F: Fn(&Checkpoint)> {
    callback: Option<F>,
}

impl<F: Fn(&Checkpoint)> ProgressReporter<F> {
    /// The callback.
    pub closed spec fn callback(&self) -> Option<F> {
        self.callback
    }

    /// The callback accepts every checkpoint.
    pub open spec fn is_ready(&self) -> bool {
        self.callback() matches Some(f) ==> forall|c: &Checkpoint| #[trigger] call_requires(f, (c,))
    }

    /// The callback was called with the checkpoint.
    pub open spec fn reported(&self, c: Checkpoint) -> bool {
        self.callback() matches Some(f) ==> call_ensures(f, (&c,), ())
    }

    /// Creates a reporter with a callback.
    pub fn new(f: F) -> (r: Self)
        ensures
            r.callback() == Some(f),
    {
        ProgressReporter { callback: Some(f) }
    }

    /// Creates a reporter that reports nothing.
    pub fn dummy() -> (r: Self)
        ensures
            r.callback() is None,
    {
        ProgressReporter { callback: None }
    }

    /// Reports how far an operation has come.
    pub fn checkpoint(&self, done: usize, remaining: Option<usize>)
        requires
            self.is_ready(),
        ensures
            self.reported((Checkpoint { done, remaining })),
    {
        match &self.callback {
            Some(callback) => {
                callback(&Checkpoint { done, remaining });
            },
            None => {},
        }
    }
}

/// Counts the bytes that are written to a writer, and reports them.
pub struct ProgressWriter<'a, T, F: Fn(&Checkpoint)> {
    pub reporter: &'a ProgressReporter<F>,
    pub writer: T,
    pub remaining: Option<usize>,
    pub written: usize,
}

/// The number of bytes that remain once some have been written.
pub open spec fn remaining_after(remaining: Option<usize>, n: usize) -> Option<usize> {
    match remaining {
        Some(left) => Some((left - n) as usize),
        None => None,
    }
}

impl<'a, T, F: Fn(&Checkpoint)> ProgressWriter<'a, T, F> {
    /// Creates a writer for an unknown number of bytes.
    pub fn new(writer: T, reporter: &'a ProgressReporter<F>) -> (r: Self)
        ensures
            r.writer == writer,
            r.reporter == reporter,
            r.remaining is None,
            r.written == 0,
    {
        ProgressWriter { reporter, writer, remaining: None, written: 0 }
    }

    /// Creates a writer for a known number of bytes.
    pub fn with_known_size(writer: T, reporter: &'a ProgressReporter<F>, size: usize) -> (r: Self)
        ensures
            r.writer == writer,
            r.reporter == reporter,
            r.remaining == Some(size),
            r.written == 0,
    {
        ProgressWriter { reporter, writer, remaining: Some(size), written: 0 }
    }

    /// Counts bytes that the writer has written, and reports them.
    pub fn record(&mut self, bytes_written: usize)
        requires
            old(self).reporter.is_ready(),
            old(self).written + bytes_written <= usize::MAX,
            old(self).remaining matches Some(left) ==> bytes_written <= left,
        ensures
            final(self).writer == old(self).writer,
            final(self).reporter == old(self).reporter,
            final(self).written == old(self).written + bytes_written,
            final(self).remaining == remaining_after(old(self).remaining, bytes_written),
            final(self).reporter.reported(
                (Checkpoint { done: final(self).written, remaining: final(self).remaining }),
            ),
    {
        self.written = self.written + bytes_written;
        if let Some(left) = self.remaining {
            self.remaining = Some(left - bytes_written);
        }
        self.reporter.checkpoint(self.written, self.remaining);
    }
}

} // verus!
