//! Decisions around reads, writes and their errors.
use vstd::prelude::*;

verus! {

/// The kind of an input or output error.
#[derive(Debug, Clone, Copy, PartialEq, Eq, Structural)]
pub enum IoErrorKind {
    NotFound,
    PermissionDenied,
    AlreadyExists,
    Interrupted,
    UnexpectedEof,
    WriteZero,
    Other,
}

/// An input or output error.
#[derive(Debug)]
pub struct IoError {
    pub kind: IoErrorKind,
    pub message: String,
}

/// What to do after a read.
pub enum ReadStep {
    /// Read on, behind the bytes that are there.
    More(usize),
    /// Done: this many bytes are there.
    Done(usize),
    /// The read failed.
    Failed(IoError),
}

/// What a read with `total` of `out_len` bytes there leads to: an end of the input or a full buffer
/// ends the reading, and an interrupted read is tried again.
pub open spec fn read_step_of(
    total: usize,
    out_len: usize,
    outcome: Result<usize, IoError>,
) -> ReadStep {
    match outcome {
        Ok(n) => if n == 0 || total + n == out_len {
            ReadStep::Done((total + n) as usize)
        } else {
            ReadStep::More((total + n) as usize)
        },
        Err(e) => if e.kind == IoErrorKind::Interrupted {
            ReadStep::More(total)
        } else {
            ReadStep::Failed(e)
        },
    }
}

/// Decide what a read leads to while a buffer of `out_len` bytes is filled, of which `total` are
/// there.
pub fn read_retry_on_intr(total: usize, out_len: usize, outcome: Result<usize, IoError>) -> (r:
    ReadStep)
    requires
        total < out_len,
        outcome matches Ok(n) ==> total + n <= out_len,
    ensures
        r == read_step_of(total, out_len, outcome),
{
    match outcome {
        Ok(n) => {
            let there: usize = total + n;
            if n == 0 || there == out_len {
                ReadStep::Done(there)
            } else {
                ReadStep::More(there)
            }
        },
        Err(e) => {
            if e.kind == IoErrorKind::Interrupted {
                ReadStep::More(total)
            } else {
                ReadStep::Failed(e)
            }
        },
    }
}

/// What to do next while a buffer is written to several writers.
pub enum WriteStep {
    /// Write the whole buffer to this writer.
    Write(usize),
    /// Done: every writer has the buffer of this length.
    Done(usize),
    /// A write failed.
    Failed(usize),
}

/// Several writers that get the same data.
pub struct MultiWriter<W> {
    pub writers: Vec<W>,
}

impl<W> View for MultiWriter<W> {
    type V = Seq<W>;

    open spec fn view(&self) -> Seq<W> {
        self.writers@
    }
}

/// The first write that failed.
pub open spec fn first_failed(outcomes: Seq<bool>) -> Option<int>
    decreases outcomes.len(),
{
    if outcomes.len() == 0 {
        None
    } else {
        match first_failed(outcomes.drop_last()) {
            Some(i) => Some(i),
            None => if outcomes.last() {
                None
            } else {
                Some(outcomes.len() - 1)
            },
        }
    }
}

impl<W> MultiWriter<W> {
    /// Write to several writers.
    pub fn new(writers: Vec<W>) -> (r: Self)
        ensures
            r@ == writers@,
    {
        MultiWriter { writers }
    }

    /// What to do next while `buf_len` bytes are written, after the writes with the given outcomes:
    /// each writer gets the whole buffer in turn, up to the first failure.
    pub fn write(&self, buf_len: usize, outcomes: &[bool]) -> (r: WriteStep)
        requires
            outcomes@.len() <= self@.len(),
        ensures
            r == (match first_failed(outcomes@) {
                Some(i) => WriteStep::Failed(i as usize),
                None => if outcomes@.len() < self@.len() {
                    WriteStep::Write(outcomes@.len() as usize)
                } else {
                    WriteStep::Done(buf_len)
                },
            }),
    {
        let mut i: usize = 0;
        assert(outcomes@.take(0) =~= Seq::empty());
        while i < outcomes.len()
            invariant
                i <= outcomes@.len(),
                first_failed(outcomes@.take(i as int)) is None,
            decreases outcomes.len() - i,
        {
            proof {
                assert(outcomes@.take(i + 1).drop_last() =~= outcomes@.take(i as int));
            }
            if !outcomes[i] {
                proof {
                    lemma_first_failed_prefix(outcomes@, i + 1);
                }
                return WriteStep::Failed(i);
            }
            i += 1;
        }
        assert(outcomes@.take(outcomes@.len() as int) =~= outcomes@);
        if outcomes.len() < self.writers.len() {
            WriteStep::Write(outcomes.len())
        } else {
            WriteStep::Done(buf_len)
        }
    }
}

proof fn lemma_first_failed_prefix(outcomes: Seq<bool>, n: int)
    requires
        0 <= n <= outcomes.len(),
        first_failed(outcomes.take(n)) is Some,
    ensures
        first_failed(outcomes) == first_failed(outcomes.take(n)),
    decreases outcomes.len(),
{
    if n == outcomes.len() {
        assert(outcomes.take(n) =~= outcomes);
    } else {
        assert(outcomes.drop_last().take(n) =~= outcomes.take(n));
        lemma_first_failed_prefix(outcomes.drop_last(), n);
    }
}

/// `result`, with an error of the given kind taken as success.
pub fn ignore_errorkind(result: Result<(), IoError>, kind: IoErrorKind) -> (r: Result<(), IoError>)
    ensures
        r is Ok <==> (result matches Err(e) ==> e.kind == kind),
        r is Err ==> r == result,
{
    match result {
        Ok(_) => Ok(()),
        Err(e) => {
            if e.kind == kind {
                Ok(())
            } else {
                Err(e)
            }
        },
    }
}

/// A write to several writers stops at the first one that fails, and is done only when every one
/// has taken it.
pub proof fn law_first_failed_write_is_the_first(outcomes: Seq<bool>)
    ensures
        match first_failed(outcomes) {
            Some(i) => 0 <= i < outcomes.len() && !outcomes[i] && forall|j: int|
                0 <= j < i ==> #[trigger] outcomes[j],
            None => forall|j: int| 0 <= j < outcomes.len() ==> #[trigger] outcomes[j],
        },
    decreases outcomes.len(),
{
    if outcomes.len() > 0 {
        let shorter = outcomes.drop_last();
        law_first_failed_write_is_the_first(shorter);
        assert forall|j: int| 0 <= j < shorter.len() implies shorter[j] == #[trigger] outcomes[j] by {
        }
    }
}

/// Filling a buffer loses and invents no byte: what is there grows by what was read, an interrupted
/// read changes nothing and does not end the reading, any other failure is handed on, and reading
/// goes on exactly while the buffer is not full and the input has not ended.
pub proof fn law_reading_counts_what_was_read(
    total: usize,
    out_len: usize,
    outcome: Result<usize, IoError>,
)
    requires
        total < out_len,
        outcome matches Ok(n) ==> total + n <= out_len,
    ensures
        match read_step_of(total, out_len, outcome) {
            ReadStep::Done(t) => outcome matches Ok(n) && t == total + n && (n == 0 || t
                == out_len),
            ReadStep::More(t) => t < out_len && (outcome matches Ok(n) ==> n > 0 && t == total + n)
                && (outcome matches Err(e) ==> t == total && e.kind == IoErrorKind::Interrupted),
            ReadStep::Failed(e) => outcome == Result::<usize, IoError>::Err(e) && e.kind
                != IoErrorKind::Interrupted,
        },
{
}

} // verus!
