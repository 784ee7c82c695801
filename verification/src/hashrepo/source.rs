//! Positional reads of an open file.
//!
//! A read of a range is made of partial reads. Interrupted ones are made again,
//! and a file that ends before the range does is an error.

use vstd::prelude::*;

verus! {

/// Why a positional read failed, apart from what the system reports.
#[derive(Clone, Copy, Debug, PartialEq, Eq, Structural)]
pub enum ReadFault {
    /// The range does not fit in a file offset.
    RangeOverflow,
    /// The range exceeds the captured file length.
    PastEnd,
    /// The file was truncated during the read.
    Truncated,
    /// A partial read exceeded its destination.
    Exceeded,
}

/// What the system answered to one partial read.
#[derive(Clone, Copy, Debug, PartialEq, Eq, Structural)]
pub enum ReadAnswer {
    Read(usize),
    Interrupted,
}

/// Refuses a range that does not lie within the captured length.
pub fn check_range(offset: u64, length: u64, captured: u64) -> (outcome: Result<(), ReadFault>)
    ensures
        if offset + length > u64::MAX {
            outcome == Err::<(), ReadFault>(ReadFault::RangeOverflow)
        } else if offset + length > captured {
            outcome == Err::<(), ReadFault>(ReadFault::PastEnd)
        } else {
            outcome is Ok
        },
{
    match offset.checked_add(length) {
        None => Err(ReadFault::RangeOverflow),
        Some(end) => if end > captured {
            Err(ReadFault::PastEnd)
        } else {
            Ok(())
        },
    }
}

/// A read of a range under way: the first `filled` bytes are there, and the
/// next partial read is made at `offset`.
#[derive(Clone, Copy, Debug, PartialEq, Eq, Structural)]
pub struct PositionalRead {
    pub offset: u64,
    pub filled: usize,
    pub length: usize,
}

impl PositionalRead {
    pub open spec fn sound(self) -> bool {
        self.filled <= self.length
    }

    pub fn new(offset: u64, length: usize) -> (read: PositionalRead)
        ensures
            read == (PositionalRead { offset, filled: 0, length }),
            read.sound(),
    {
        PositionalRead { offset, filled: 0, length }
    }

    /// Whether every byte is there.
    pub fn is_done(&self) -> (yes: bool)
        requires
            self.sound(),
        ensures
            yes == (self.filled == self.length),
    {
        self.filled == self.length
    }

    /// What an answer makes of the read.
    pub open spec fn after(self, answer: ReadAnswer) -> Result<PositionalRead, ReadFault> {
        match answer {
            ReadAnswer::Interrupted => Ok(self),
            ReadAnswer::Read(count) => if count == 0 {
                Err(ReadFault::Truncated)
            } else if count > self.length - self.filled {
                Err(ReadFault::Exceeded)
            } else if self.offset + count > u64::MAX {
                Err(ReadFault::RangeOverflow)
            } else {
                Ok(
                    PositionalRead {
                        offset: (self.offset + count) as u64,
                        filled: (self.filled + count) as usize,
                        length: self.length,
                    },
                )
            },
        }
    }

    /// Takes the answer to one partial read. A read that failed stays as it
    /// was.
    pub fn take(&mut self, answer: ReadAnswer) -> (outcome: Result<(), ReadFault>)
        requires
            old(self).sound(),
            old(self).filled < old(self).length,
        ensures
            final(self).sound(),
            match old(self).after(answer) {
                Ok(next) => outcome is Ok && *final(self) == next,
                Err(fault) => outcome == Err::<(), ReadFault>(fault) && *final(self) == *old(self),
            },
    {
        match answer {
            ReadAnswer::Interrupted => Ok(()),
            ReadAnswer::Read(count) => {
                if count == 0 {
                    return Err(ReadFault::Truncated);
                }
                if count > self.length - self.filled {
                    return Err(ReadFault::Exceeded);
                }
                match self.offset.checked_add(count as u64) {
                    None => Err(ReadFault::RangeOverflow),
                    Some(offset) => {
                        self.offset = offset;
                        self.filled = self.filled + count;
                        Ok(())
                    },
                }
            },
        }
    }
}

/// The state behind the first `upto` answers, none of which ends the read.
pub open spec fn after_all(start: PositionalRead, answers: Seq<ReadAnswer>, upto: int) -> Result<
    PositionalRead,
    ReadFault,
>
    decreases upto,
{
    if upto <= 0 {
        Ok(start)
    } else {
        match after_all(start, answers, upto - 1) {
            Ok(state) => state.after(answers[upto - 1]),
            Err(fault) => Err(fault),
        }
    }
}

/// However often it is interrupted and however it is cut into parts, a read
/// always goes on where the bytes that are there end.
pub proof fn a_read_goes_on_where_it_ended(offset: u64, length: usize, answers: Seq<ReadAnswer>, upto: int)
    requires
        0 <= upto <= answers.len(),
    ensures
        after_all(PositionalRead { offset, filled: 0, length }, answers, upto) matches Ok(state)
            ==> state.sound() && state.length == length && state.offset == offset + state.filled,
    decreases upto,
{
    if upto > 0 {
        a_read_goes_on_where_it_ended(offset, length, answers, upto - 1);
    }
}

} // verus!
