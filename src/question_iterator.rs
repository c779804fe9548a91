use crate::bits::{u16_at, BitData};
use crate::header::{Header, QD_AT, SIZE};
use crate::domain_name::parsed_name;
use crate::question::{question_end, question_parses, Question, SIZE as QUESTION_SIZE};
use vstd::prelude::*;

verus! {

/// Walks the question section of a message, one question at a time.
#[derive(Debug, Copy, Clone)]
pub struct QuestionIterator {
    next: usize,
    remaining: u16,
}

impl QuestionIterator {
    pub closed spec fn next_spec(&self) -> int {
        self.next as int
    }

    pub closed spec fn remaining_spec(&self) -> nat {
        self.remaining as nat
    }

    /// The next question, parsed from `message`. `None` once the announced
    /// questions are used up; a question that does not parse ends the walk.
    pub fn next_question<'d>(&mut self, message: &'d [u8]) -> (r: Option<Question<'d>>)
        ensures
            old(self).remaining_spec() == 0 ==> r is None && *final(self) == *old(self),
            old(self).remaining_spec() > 0 && question_parses(message@, old(self).next_spec())
                ==> {
                &&& r matches Some(q) && parsed_name(Some(q.name_spec()), message@, old(self).next_spec())
                    && q.footer() == message@.subrange(
                    q.name_spec().end(),
                    q.name_spec().end() + QUESTION_SIZE,
                )
                &&& final(self).next_spec() == question_end(message@, old(self).next_spec())
                &&& final(self).remaining_spec() == old(self).remaining_spec() - 1
            },
            old(self).remaining_spec() > 0 && !question_parses(message@, old(self).next_spec())
                ==> r is None && final(self).remaining_spec() == 0,
    {
        if self.remaining == 0 {
            return None;
        }
        match Question::from_message(message, self.next) {
            Some(q) => {
                self.next = q.end_offset();
                self.remaining = self.remaining - 1;
                Some(q)
            },
            None => {
                self.remaining = 0;
                None
            },
        }
    }
}

/// Starts a walk over the questions that follow `header`, as many as its
/// QDCOUNT announces (none when the count is unreadable).
pub fn over<'d, D: BitData + ?Sized>(header: &Header<'d, D>) -> (r: QuestionIterator)
    ensures
        r.next_spec() == header.start() + SIZE,
        r.remaining_spec() == match u16_at(header.bytes(), header.start() + QD_AT) {
            Some(n) => n as nat,
            None => 0,
        },
{
    let qdcount = match header.qd() {
        Some(n) => n,
        None => 0,
    };
    let next = header.end_offset();
    QuestionIterator { next: next, remaining: qdcount }
}

} // verus!
