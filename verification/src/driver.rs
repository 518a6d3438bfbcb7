//! Decision logic for the optimizer driver and the read-eval-print loop.
//!
//! The surrounding program performs the outside work — reading lines,
//! clocking the run, calling the engine — and asks these functions what to
//! do next: whether a buffered submission is complete, and whether another
//! saturation generation is still due.

use vstd::prelude::*;

verus! {

/// Occurrences of `c` in `s`.
pub open spec fn count_char(s: Seq<char>, c: char) -> int
    decreases s.len(),
{
    if s.len() == 0 {
        0
    } else {
        count_char(s.drop_last(), c) + if s.last() == c {
            1int
        } else {
            0int
        }
    }
}

/// A buffered submission is complete when its brackets balance: at least
/// as many closing as opening parentheses.
pub open spec fn buffer_complete(s: Seq<char>) -> bool {
    count_char(s, '(') <= count_char(s, ')')
}

/// The read-eval-print buffer: lines accumulate until the bracket balance
/// says the expression is complete.
pub struct ReplBuffer {
    pub buf: Vec<char>,
}

fn count_char_exec(s: &Vec<char>, c: char) -> (r: usize)
    ensures
        r as int == count_char(s@, c),
        r <= s@.len(),
{
    let mut n: usize = 0;
    let mut i: usize = 0;
    while i < s.len()
        invariant
            i <= s@.len(),
            n as int == count_char(s@.subrange(0, i as int), c),
            n <= i,
        decreases s@.len() - i,
    {
        proof {
            assert(s@.subrange(0, i as int + 1).drop_last() =~= s@.subrange(0, i as int));
            assert(s@.subrange(0, i as int + 1).last() == s@[i as int]);
        }
        if s[i] == c {
            n += 1;
        }
        i += 1;
    }
    proof {
        assert(s@.subrange(0, s@.len() as int) =~= s@);
    }
    n
}

impl ReplBuffer {
    /// A fresh, empty buffer (the awaiting-input state).
    pub fn new() -> (r: ReplBuffer)
        ensures
            r.buf@ == Seq::<char>::empty(),
    {
        ReplBuffer { buf: Vec::new() }
    }

    /// Appends one line (and its newline). When the brackets now balance,
    /// the buffered text is handed back for evaluation and the buffer is
    /// cleared, so one submission's outcome can never leak into the next;
    /// otherwise the buffer keeps waiting for more lines.
    pub fn feed(&mut self, line: &Vec<char>) -> (r: Option<Vec<char>>)
        ensures
            ({
                let grown = old(self).buf@ + line@ + seq!['\n'];
                match r {
                    Some(text) => {
                        &&& text@ == grown
                        &&& buffer_complete(grown)
                        &&& final(self).buf@ == Seq::<char>::empty()
                    },
                    None => {
                        &&& final(self).buf@ == grown
                        &&& !buffer_complete(grown)
                    },
                }
            }),
    {
        let ghost grown = self.buf@ + line@ + seq!['\n'];
        let mut i: usize = 0;
        while i < line.len()
            invariant
                i <= line@.len(),
                self.buf@ == old(self).buf@ + line@.subrange(0, i as int),
            decreases line@.len() - i,
        {
            self.buf.push(line[i]);
            assert(self.buf@ =~= old(self).buf@ + line@.subrange(0, i as int + 1));
            i += 1;
        }
        self.buf.push('\n');
        assert(self.buf@ =~= grown);
        let opens = count_char_exec(&self.buf, '(');
        let closes = count_char_exec(&self.buf, ')');
        if opens <= closes {
            let mut taken: Vec<char> = Vec::new();
            core::mem::swap(&mut taken, &mut self.buf);
            Some(taken)
        } else {
            None
        }
    }
}

/// Whether the optimizer should run another generation: only while no
/// fixpoint has been reached and neither the iteration budget nor the
/// wall-clock budget is spent. Running out of budget is not an error; the
/// caller proceeds to extraction with what the graph currently proves.
pub fn should_continue(
    saturated: bool,
    iters_done: u64,
    iter_limit: u64,
    elapsed_ms: u64,
    time_limit_ms: u64,
) -> (r: bool)
    ensures
        r == (!saturated && iters_done < iter_limit && elapsed_ms < time_limit_ms),
{
    !saturated && iters_done < iter_limit && elapsed_ms < time_limit_ms
}

} // verus!
