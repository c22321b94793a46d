//! The decisions of reading a file by batches of lines: the file is read
//! outside, a line at a time, and each outcome is handed to `batch_step`.
use vstd::prelude::*;

verus! {

/// What reading the next line gave.
pub enum LineRead {
    /// a line of text
    Line(String),
    /// a read error
    Failed,
    /// the end of the file
    End,
}

/// A batch being read: the lines so far, how many, whether the reader is
/// done with the file, and whether this batch stopped reading.
pub struct BatchProgress {
    pub lines: Vec<String>,
    pub count: usize,
    pub done: bool,
    pub stopped: bool,
}

/// The start of a batch for a reader that is `done` or not: a done reader
/// reads nothing more.
pub fn begin_batch(done: bool) -> (p: BatchProgress)
    ensures
        p.lines@.len() == 0,
        p.count == 0,
        p.done == done,
        p.stopped == done,
{
    BatchProgress { lines: Vec::new(), count: 0, done: done, stopped: done }
}

/// Takes in the outcome of reading one more line: a line is kept and the
/// batch stops once it holds `batch_size` lines; an error makes the reader
/// done; the end of the file stops the batch.
pub fn batch_step(p: &mut BatchProgress, ev: LineRead, batch_size: usize)
    requires
        !old(p).stopped,
        old(p).count == old(p).lines@.len(),
        old(p).count < usize::MAX,
    ensures
        final(p).count == final(p).lines@.len(),
        match ev {
            LineRead::Line(s) => {
                &&& final(p).lines@ == old(p).lines@.push(s)
                &&& final(p).count == old(p).count + 1
                &&& final(p).done == old(p).done
                &&& final(p).stopped == (final(p).count == batch_size)
            },
            LineRead::Failed => {
                &&& final(p).lines@ == old(p).lines@
                &&& final(p).count == old(p).count
                &&& final(p).done
                &&& final(p).stopped
            },
            LineRead::End => {
                &&& final(p).lines@ == old(p).lines@
                &&& final(p).count == old(p).count
                &&& final(p).done == old(p).done
                &&& final(p).stopped
            },
        },
{
    match ev {
        LineRead::Line(s) => {
            p.lines.push(s);
            p.count = p.count + 1;
            if p.count == batch_size {
                p.stopped = true;
            }
        },
        LineRead::Failed => {
            p.done = true;
            p.stopped = true;
        },
        LineRead::End => {
            p.stopped = true;
        },
    }
}

/// The lines of the batch and whether the reader is done after it: done
/// where it was, where the batch is empty or where it holds fewer than
/// `batch_size` lines.
pub fn end_batch(p: BatchProgress, batch_size: usize) -> (r: (Vec<String>, bool))
    ensures
        r.0@ == p.lines@,
        r.1 == (p.done || p.count == 0 || p.count < batch_size),
{
    let mut done = p.done;
    if p.count == 0 {
        done = true;
    }
    if p.count < batch_size {
        done = true;
    }
    (p.lines, done)
}

} // verus!
