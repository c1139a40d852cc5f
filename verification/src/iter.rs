//! Running a program: from one instruction to the place of the next.
use crate::abyss::Abyss;
use crate::awatism::AwaTism;
use crate::interpreter::{outcome, ContinueAt, Error, Interpreter};
use crate::program::Program;
use vstd::prelude::*;

verus! {

/// The place at which a program goes on after an instruction at `pc` that
/// ended in `step`; `None` where it is done.
pub open spec fn successor(step: ContinueAt, labels: Seq<Option<usize>>, pc: usize) -> Result<
    Option<usize>,
    Error,
> {
    match step {
        ContinueAt::Next => Ok(
            if pc + 1 <= usize::MAX {
                Some((pc + 1) as usize)
            } else {
                None
            },
        ),
        ContinueAt::SkipNext => Ok(
            if pc + 2 <= usize::MAX {
                Some((pc + 2) as usize)
            } else {
                None
            },
        ),
        ContinueAt::Halt => Ok(None),
        ContinueAt::Label(label) => match labels[label@ as int] {
            Some(target) => Ok(Some(target)),
            None => Err(Error::UnknownLabel(label)),
        },
    }
}

/// What running the instruction at `pc` returns, given how the instruction
/// itself ended.
pub open spec fn advanced(
    result: Result<ContinueAt, Error>,
    labels: Seq<Option<usize>>,
    pc: usize,
) -> Result<Option<usize>, Error> {
    match result {
        Ok(step) => successor(step, labels, pc),
        Err(e) => Err(e),
    }
}

/// Carries out the instruction at `pc` and says where the program goes on.
pub fn run_single<A: Abyss>(
    interpreter: &mut Interpreter<A>,
    awatism: AwaTism,
    labels: &[Option<usize>],
    pc: usize,
    input: &[u8],
) -> (r: Result<Option<usize>, Error>)
    requires
        old(interpreter).inv(),
        labels@.len() == 32,
    ensures
        final(interpreter).inv(),
        ({
            let out = outcome(
                old(interpreter).abyss_view().view(),
                old(interpreter).pending(),
                awatism,
                input@,
            );
            &&& r == advanced(out.result, labels@, pc)
            &&& final(interpreter).abyss_view().view() == out.chain
            &&& final(interpreter).pending() == out.output
        }),
{
    match interpreter.next(awatism, input) {
        Ok(ContinueAt::Next) => Ok(pc.checked_add(1)),
        Ok(ContinueAt::SkipNext) => Ok(pc.checked_add(2)),
        Ok(ContinueAt::Halt) => Ok(None),
        Ok(ContinueAt::Label(label)) => {
            let index = label.get() as usize;
            match labels[index] {
                Some(next) => Ok(Some(next)),
                None => Err(Error::UnknownLabel(label)),
            }
        },
        Err(error) => Err(error),
    }
}

/// The place in a program at which it goes on.
#[derive(Debug, Clone)]
pub struct Cursor<'a> {
    pub program: &'a Program,
    pub pc: Option<usize>,
}

impl<'a> Cursor<'a> {
    /// The program that the cursor runs.
    pub open spec fn program(&self) -> Program {
        *self.program
    }

    /// A cursor at the first instruction of `program`.
    pub fn new(program: &'a Program) -> (r: Self)
        ensures
            r.program() == *program,
            r.pc == Some(0usize),
    {
        Cursor { program, pc: Some(0) }
    }

    /// The number of instructions of the program.
    pub fn len(&self) -> (r: usize)
        ensures
            r == self.program()@.len(),
    {
        self.program.len()
    }

    /// Whether the program has no instruction.
    pub fn is_empty(&self) -> (r: bool)
        ensures
            r == (self.program()@.len() == 0),
    {
        self.program.is_empty()
    }

    /// The instruction that is next, with its place; `None` where the
    /// program is done.
    pub fn current(&self) -> (r: Option<(usize, AwaTism)>)
        ensures
            r == (match self.pc {
                Some(pc) if pc < self.program()@.len() => Some((pc, self.program()@[pc as int])),
                _ => None,
            }),
    {
        let pc = self.pc?;
        match self.program.get(pc) {
            Some(awatism) => Some((pc, *awatism)),
            None => None,
        }
    }

    /// Carries out the instruction that is next and moves on; `false`, and
    /// nothing done, where the program is done.
    pub fn next<A: Abyss>(&mut self, interpreter: &mut Interpreter<A>, input: &[u8]) -> (r: Result<
        bool,
        Error,
    >)
        requires
            old(interpreter).inv(),
        ensures
            final(interpreter).inv(),
            final(self).program() == old(self).program(),
            match old(self).pc {
                Some(pc) if pc < old(self).program()@.len() => {
                    let out = outcome(
                        old(interpreter).abyss_view().view(),
                        old(interpreter).pending(),
                        old(self).program()@[pc as int],
                        input@,
                    );
                    &&& final(interpreter).abyss_view().view() == out.chain
                    &&& final(interpreter).pending() == out.output
                    &&& match advanced(out.result, old(self).program().label_table(), pc) {
                        Ok(next) => r == Ok::<bool, Error>(true) && final(self).pc == next,
                        Err(e) => r == Err::<bool, Error>(e) && final(self).pc == old(self).pc,
                    }
                },
                _ => {
                    &&& r == Ok::<bool, Error>(false)
                    &&& final(self).pc == old(self).pc
                    &&& final(interpreter).abyss_view() == old(interpreter).abyss_view()
                    &&& final(interpreter).pending() == old(interpreter).pending()
                },
            },
    {
        let Some((pc, awatism)) = self.current() else {
            return Ok(false);
        };
        match run_single(interpreter, awatism, self.program.labels(), pc, input) {
            Ok(next) => {
                self.pc = next;
                Ok(true)
            },
            Err(e) => Err(e),
        }
    }
}

} // verus!
