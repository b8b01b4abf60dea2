//! How far the writing of a disc has come.

use vstd::prelude::*;

verus! {

/// The bytes that were written, of how many.
#[derive(Debug, Clone, Copy, PartialEq, Eq, Structural)]
pub struct Share {
    pub done: usize,
    pub total: usize,
}

/// Keeps count of the bytes that are written. A quiet one shows nothing, and counts nothing.
#[derive(Debug, Clone, Copy, PartialEq, Eq, Structural)]
pub struct ProgressNotifier {
    pub total_size: usize,
    pub bytes_so_far: usize,
    pub quiet: bool,
}

impl ProgressNotifier {
    /// What a notifier shows: nothing if it is quiet.
    pub open spec fn shown(self) -> Option<Share> {
        if self.quiet {
            None
        } else {
            Some(Share { done: self.bytes_so_far, total: self.total_size })
        }
    }

    /// The count after one more file.
    pub open spec fn after_file(self, file_bytes: usize) -> ProgressNotifier {
        if self.quiet {
            self
        } else {
            ProgressNotifier { bytes_so_far: (self.bytes_so_far + file_bytes) as usize, ..self }
        }
    }

    /// A count that starts at nothing.
    pub fn new(quiet: bool) -> (r: ProgressNotifier)
        ensures
            r == (ProgressNotifier { total_size: 0, bytes_so_far: 0, quiet }),
    {
        ProgressNotifier { total_size: 0, bytes_so_far: 0, quiet }
    }

    /// Sets how many bytes there are.
    pub fn notify_total_bytes(&mut self, total_size: usize)
        ensures
            *final(self) == (ProgressNotifier { total_size, ..*old(self) }),
    {
        self.total_size = total_size;
    }

    /// Counts a file; what is shown does not count it yet.
    pub fn notify_writing_file(&mut self, file_bytes: usize) -> (r: Option<Share>)
        requires
            old(self).quiet || old(self).bytes_so_far + file_bytes <= usize::MAX,
        ensures
            r == old(self).shown(),
            *final(self) == old(self).after_file(file_bytes),
    {
        if self.quiet {
            return None;
        }
        let share = Share { done: self.bytes_so_far, total: self.total_size };
        self.bytes_so_far = self.bytes_so_far + file_bytes;
        Some(share)
    }

    /// What is shown when the header is written.
    pub fn notify_writing_header(&self) -> (r: Option<Share>)
        ensures
            r == self.shown(),
    {
        if self.quiet {
            None
        } else {
            Some(Share { done: self.bytes_so_far, total: self.total_size })
        }
    }

    /// What is shown when all is written.
    pub fn notify_flushing_to_disk(&self) -> (r: Option<String>)
        ensures
            match r {
                Some(line) => !self.quiet && line@ == "Flushing written data to the disk..."@,
                None => self.quiet,
            },
    {
        if self.quiet {
            None
        } else {
            Some("Flushing written data to the disk...".to_owned())
        }
    }
}

/// The sum of sizes.
pub open spec fn sum_of(sizes: Seq<usize>) -> nat
    decreases sizes.len(),
{
    if sizes.len() == 0 {
        0
    } else {
        sum_of(sizes.drop_last()) + sizes.last() as nat
    }
}

/// The count after a sequence of files.
pub open spec fn after_files(p: ProgressNotifier, sizes: Seq<usize>) -> ProgressNotifier
    decreases sizes.len(),
{
    if sizes.len() == 0 {
        p
    } else {
        after_files(p, sizes.drop_last()).after_file(sizes.last())
    }
}

/// What is shown after some files counts exactly their bytes, against the total that was set; a
/// quiet notifier never shows anything.
pub proof fn law_progress_counts_files(p: ProgressNotifier, sizes: Seq<usize>)
    requires
        p.bytes_so_far + sum_of(sizes) <= usize::MAX,
    ensures
        after_files(p, sizes).shown() == if p.quiet {
            None
        } else {
            Some(Share { done: (p.bytes_so_far + sum_of(sizes)) as usize, total: p.total_size })
        },
    decreases sizes.len(),
{
    if sizes.len() > 0 {
        law_progress_counts_files(p, sizes.drop_last());
    }
}

} // verus!
