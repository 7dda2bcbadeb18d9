//! The batch writer: which samples wait for the next commit, and when the
//! commit is due.
//!
//! The writer takes requests off the write queue into a buffer. A commit
//! is due when the buffer has reached the batch size, when the batch timer
//! ticks over a buffer that is not empty, and when the queue is closed. The
//! caller runs the queue, the timer and the transaction, and tells the
//! writer how the commit ended.

use vstd::prelude::*;
use crate::sample::Sample;
use crate::storage::StorageError;

verus! {

/// A sample on the write queue. A request whose sender waits for the commit
/// carries the ticket by which the sender is answered.
#[derive(Debug)]
pub struct WriteRequest {
    pub metrics: Sample,
    pub ack: Option<u64>,
}

/// Why a commit is due.
#[derive(Debug, Clone, Copy, PartialEq, Eq, Structural)]
pub enum FlushReason {
    /// The buffer has reached the batch size.
    BatchSize,
    /// The batch timer ticked.
    Timeout,
    /// The write queue is closed.
    Shutdown,
}

/// The senders to answer after a commit, and the answer.
#[derive(Debug)]
pub struct AckBatch {
    /// The tickets of the senders, in the order in which their requests
    /// came.
    pub tickets: Vec<u64>,
    /// What each of them is told.
    pub result: Result<(), StorageError>,
}

/// The buffer of the batch writer.
#[derive(Debug)]
pub struct BatchWriter {
    batch_size: usize,
    buffer: Vec<Sample>,
    pending_acks: Vec<u64>,
}

impl BatchWriter {
    /// Number of buffered samples at which a commit is due.
    pub closed spec fn batch_size(&self) -> nat {
        self.batch_size as nat
    }

    /// The samples that wait for the next commit, in the order in which
    /// they came.
    pub closed spec fn buffered(&self) -> Seq<Sample> {
        self.buffer@
    }

    /// The tickets of the senders that wait for an answer, in the order in
    /// which their requests came.
    pub closed spec fn waiting(&self) -> Seq<u64> {
        self.pending_acks@
    }

    /// A writer with an empty buffer.
    pub fn new(batch_size: usize) -> (writer: BatchWriter)
        ensures
            writer.batch_size() == batch_size,
            writer.buffered() == Seq::<Sample>::empty(),
            writer.waiting() == Seq::<u64>::empty(),
    {
        BatchWriter { batch_size, buffer: Vec::new(), pending_acks: Vec::new() }
    }

    /// Takes a request off the queue: its sample goes behind the buffered
    /// ones, its ticket behind the waiting ones. A commit is due where the
    /// buffer has then reached the batch size.
    pub fn receive(&mut self, request: WriteRequest) -> (due: Option<FlushReason>)
        ensures
            final(self).batch_size() == old(self).batch_size(),
            final(self).buffered() == old(self).buffered().push(request.metrics),
            final(self).waiting() == match request.ack {
                Some(ticket) => old(self).waiting().push(ticket),
                None => old(self).waiting(),
            },
            due == if final(self).buffered().len() >= old(self).batch_size() {
                Some(FlushReason::BatchSize)
            } else {
                None::<FlushReason>
            },
    {
        self.buffer.push(request.metrics);
        match request.ack {
            Some(ticket) => {
                self.pending_acks.push(ticket);
            },
            None => {},
        }
        if self.buffer.len() >= self.batch_size {
            Some(FlushReason::BatchSize)
        } else {
            None
        }
    }

    /// The batch timer has ticked: a commit is due unless the buffer is
    /// empty.
    pub fn tick(&self) -> (due: Option<FlushReason>)
        ensures
            due == if self.buffered().len() > 0 {
                Some(FlushReason::Timeout)
            } else {
                None::<FlushReason>
            },
    {
        if self.buffer.len() > 0 {
            Some(FlushReason::Timeout)
        } else {
            None
        }
    }

    /// The write queue is closed: a last commit is due unless the buffer is
    /// empty.
    pub fn close(&self) -> (due: Option<FlushReason>)
        ensures
            due == if self.buffered().len() > 0 {
                Some(FlushReason::Shutdown)
            } else {
                None::<FlushReason>
            },
    {
        if self.buffer.len() > 0 {
            Some(FlushReason::Shutdown)
        } else {
            None
        }
    }

    /// The samples to commit: the buffer, in the order in which the samples
    /// came.
    pub fn batch(&self) -> (samples: &Vec<Sample>)
        ensures
            samples@ == self.buffered(),
    {
        &self.buffer
    }

    /// Number of buffered samples.
    pub fn buffered_len(&self) -> (len: usize)
        ensures
            len == self.buffered().len(),
    {
        self.buffer.len()
    }

    /// Number of senders that wait for an answer.
    pub fn waiting_len(&self) -> (len: usize)
        ensures
            len == self.waiting().len(),
    {
        self.pending_acks.len()
    }

    /// Drops the buffered sample at the given index, which could not be
    /// encoded, so that it does not fail every commit to come. The other
    /// samples stay in their order. Nothing is dropped where the buffer has
    /// no sample at the index; the result says whether one was dropped.
    pub fn discard(&mut self, index: usize) -> (dropped: bool)
        ensures
            final(self).batch_size() == old(self).batch_size(),
            final(self).waiting() == old(self).waiting(),
            dropped == (index < old(self).buffered().len()),
            final(self).buffered() == if dropped {
                old(self).buffered().remove(index as int)
            } else {
                old(self).buffered()
            },
    {
        if index < self.buffer.len() {
            let _ = self.buffer.remove(index);
            true
        } else {
            false
        }
    }

    /// The commit has ended. Every waiting sender is to be told how; none
    /// waits any longer. After a commit that succeeded the buffer is empty;
    /// after one that failed the buffer is as it was, so that the next
    /// commit takes its samples again.
    pub fn flushed(&mut self, result: Result<(), StorageError>) -> (answers: AckBatch)
        ensures
            final(self).batch_size() == old(self).batch_size(),
            answers.tickets@ == old(self).waiting(),
            answers.result == result,
            final(self).waiting() == Seq::<u64>::empty(),
            final(self).buffered() == if result is Ok {
                Seq::<Sample>::empty()
            } else {
                old(self).buffered()
            },
    {
        let mut tickets: Vec<u64> = Vec::new();
        tickets.append(&mut self.pending_acks);
        match result {
            Ok(_) => {
                self.buffer.clear();
            },
            Err(_) => {},
        }
        AckBatch { tickets, result }
    }
}

} // verus!
