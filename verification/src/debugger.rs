//! The debugger: a program run step by step, on command.
use crate::abyss::{Abyss, Tree};
use crate::awatism::AwaTism;
use crate::debugger::command::{command_of, parse_command, Command, Refusal};
use crate::debugger::widgets::{
    last_line, opened, scrolled, written, Direction, Screen, Tab,
};
use crate::error::NumberError;
use crate::interpreter::{outcome, Error as RuntimeError, Interpreter};
use crate::iter::{advanced, Cursor};
use crate::program::Program;
use std::collections::HashSet;
use vstd::prelude::*;

pub mod command;
pub mod widgets;

verus! {

broadcast use vstd::std_specs::hash::group_hash_axioms;

/// What the debugger waits for.
#[derive(Debug, Clone, Copy, PartialEq, Eq, Hash, Structural)]
pub enum Mode {
    /// A command.
    Command,
    /// A line of input for the program.
    Input,
    /// The key that closes it: the program is done.
    Done,
    /// Nothing: it is closed.
    Close,
}

/// Why a command was not carried out.
#[derive(Debug, Clone, Copy, PartialEq, Eq, Hash, Structural)]
pub enum Error {
    UnknownCommand,
    /// The program has no instruction at the place of the breakpoint.
    InvalidBreakpoint,
    RuntimeError(RuntimeError),
    ParseError(NumberError),
}

/// A key that was pressed.
#[derive(Debug, Clone, Copy, PartialEq, Eq, Hash, Structural)]
pub enum Key {
    Enter,
    Tab,
    BackTab,
    /// A letter together with the control key.
    Control(u8),
    /// Any other key.
    Other,
}

/// What is left to do with the line that is being typed, after a key.
#[derive(Debug, Clone, Copy, PartialEq, Eq, Hash, Structural)]
pub enum Reaction {
    /// Nothing.
    Keep,
    /// The line is emptied.
    Reset,
    /// The key goes to the line.
    Edit,
    /// The command in the line was refused: the line is emptied, and the
    /// reason is to be reported.
    Refused(Error),
}

/// The debugger as a value.
pub struct Model {
    /// The place of the instruction that is next.
    pub pc: Option<usize>,
    /// The chain of bubbles.
    pub chain: Seq<Tree>,
    /// What the program printed and the panel does not show yet.
    pub pending: Seq<u8>,
    pub breakpoints: Set<usize>,
    pub mode: Mode,
    /// The panel that is shown.
    pub tab: Tab,
    /// The instruction that the panel of the program marks.
    pub center: usize,
    /// The first line that the panel of the program shows.
    pub top: usize,
    /// The lines of what was read and printed.
    pub io: Seq<Seq<u8>>,
    pub io_scroll: u16,
    pub abyss_scroll: u16,
    /// The lines of what was reported.
    pub diagnostics: Seq<Seq<u8>>,
    pub diagnostics_scroll: u16,
}

/// The instruction at `pc` reads a line of input.
pub open spec fn reads(code: Seq<AwaTism>, pc: Option<usize>) -> bool {
    pc matches Some(at) && at < code.len() && (code[at as int] is Read || code[at as int]
        is ReadNum)
}

impl Model {
    /// After one turn: where a command is awaited and the program is about
    /// to read, the debugger goes over to await the input; else the next
    /// instruction is carried out with `input`, what was printed is shown,
    /// and the panel of the program follows. The program is done where no
    /// instruction is next; once it is done, nothing happens any more.
    pub open spec fn next(self, program: Program, input: Seq<u8>) -> (Model, Result<(), Error>) {
        if self.mode is Done || self.mode is Close {
            (self, Ok(()))
        } else if self.mode is Command && reads(program@, self.pc) {
            (Model { mode: Mode::Input, tab: Tab::IO, ..self }, Ok(()))
        } else {
            match self.pc {
                Some(pc) if pc < program@.len() => {
                    let out = outcome(self.chain, self.pending, program@[pc as int], input);
                    let after = Model { chain: out.chain, pending: out.output, ..self };
                    match advanced(out.result, program.label_table(), pc) {
                        Err(e) => (after, Err(Error::RuntimeError(e))),
                        Ok(None) => (Model { pc: None, ..after }, Ok(())),
                        Ok(Some(next)) => (after.arrived(next), Ok(())),
                    }
                },
                _ => (Model { mode: Mode::Done, ..self }, Ok(())),
            }
        }
    }

    /// After an instruction that leads on to the instruction at `next`:
    /// what it printed is shown, the panel of the program follows, and a
    /// command is awaited.
    pub open spec fn arrived(self, next: usize) -> Model {
        let shown = if self.pending.len() > 0 {
            Model {
                io: written(opened(self.io), self.pending),
                io_scroll: 0,
                tab: Tab::IO,
                ..self
            }
        } else {
            self
        };
        Model {
            pc: Some(next),
            pending: Seq::empty(),
            mode: Mode::Command,
            center: next,
            top: if next > 5 {
                (next - 5) as usize
            } else {
                0
            },
            ..shown
        }
    }

    /// Whether a run of steps ends here: where no command is awaited, at a
    /// breakpoint, and where no instruction is left, which also ends the
    /// program.
    pub open spec fn should_break(self) -> (Model, bool) {
        if !(self.mode is Command) {
            (self, true)
        } else {
            match self.pc {
                Some(pc) => (self, self.breakpoints.contains(pc)),
                None => (Model { mode: Mode::Done, ..self }, true),
            }
        }
    }

    /// After up to `count` turns without input: the first error ends them,
    /// and so does the first place to break.
    pub open spec fn steps(self, program: Program, count: nat) -> (Model, Result<(), Error>)
        decreases count,
    {
        if count == 0 {
            (self, Ok(()))
        } else {
            let (turned, result) = self.next(program, Seq::empty());
            if result is Err {
                (turned, result)
            } else {
                let (checked, stop) = turned.should_break();
                if stop {
                    (checked, Ok(()))
                } else {
                    checked.steps(program, (count - 1) as nat)
                }
            }
        }
    }

    /// With the breakpoint at `pc` set where there was none, and lifted
    /// where there was one.
    pub open spec fn toggled(self, pc: usize) -> Model {
        Model {
            breakpoints: if self.breakpoints.contains(pc) {
                self.breakpoints.remove(pc)
            } else {
                self.breakpoints.insert(pc)
            },
            ..self
        }
    }

    /// After a command. A run takes as many steps as a machine word
    /// counts.
    pub open spec fn execute(self, program: Program, command: Command) -> (
        Model,
        Result<(), Error>,
    ) {
        match command {
            Command::Step => self.next(program, Seq::empty()),
            Command::Steps(count) => self.steps(program, count as nat),
            Command::Run => self.steps(program, usize::MAX as nat),
            Command::Toggle => match self.pc {
                Some(pc) => (self.toggled(pc), Ok(())),
                None => (self, Err(Error::InvalidBreakpoint)),
            },
            Command::ToggleBy(offset) => match self.pc {
                Some(pc) if 0 <= pc + offset < program@.len() => (
                    self.toggled((pc + offset) as usize),
                    Ok(()),
                ),
                _ => (self, Err(Error::InvalidBreakpoint)),
            },
            Command::ToggleLine(line) => if 1 <= line <= program@.len() {
                (self.toggled((line - 1) as usize), Ok(()))
            } else {
                (self, Err(Error::InvalidBreakpoint))
            },
            Command::Quit => (Model { mode: Mode::Close, ..self }, Ok(())),
        }
    }

    /// After the text of a command.
    pub open spec fn run(self, program: Program, parsed: Result<Command, Refusal>) -> (
        Model,
        Result<(), Error>,
    ) {
        match parsed {
            Ok(command) => self.execute(program, command),
            Err(Refusal::Unknown) => (self, Err(Error::UnknownCommand)),
            Err(Refusal::Number(e)) => (self, Err(Error::ParseError(e))),
        }
    }

    /// With the panel that is shown scrolled by one line.
    pub open spec fn scrolled(self, direction: Direction) -> Model {
        match self.tab {
            Tab::IO => Model {
                io_scroll: scrolled(
                    self.io_scroll as int,
                    direction,
                    last_line(self.io),
                    u16::MAX as int,
                ) as u16,
                ..self
            },
            Tab::Abyss => Model {
                abyss_scroll: scrolled(
                    self.abyss_scroll as int,
                    direction,
                    u16::MAX as int,
                    u16::MAX as int,
                ) as u16,
                ..self
            },
            Tab::Diagnostics => Model {
                diagnostics_scroll: scrolled(
                    self.diagnostics_scroll as int,
                    direction,
                    last_line(self.diagnostics),
                    u16::MAX as int,
                ) as u16,
                ..self
            },
        }
    }

    /// With the panel of the program scrolled by one line.
    pub open spec fn leafed(self, program: Program, direction: Direction) -> Model {
        Model {
            top: scrolled(
                self.top as int,
                direction,
                (if program@.len() == 0 {
                    0
                } else {
                    program@.len() - 1
                }),
                usize::MAX as int,
            ) as usize,
            ..self
        }
    }

    /// With the panel beside the one that was shown.
    pub open spec fn cycled(self, direction: Direction) -> Model {
        Model {
            tab: match (self.tab, direction) {
                (Tab::IO, Direction::Forward) => Tab::Abyss,
                (Tab::Abyss, Direction::Forward) => Tab::Diagnostics,
                (Tab::Diagnostics, Direction::Forward) => Tab::IO,
                (Tab::IO, Direction::Backward) => Tab::Diagnostics,
                (Tab::Abyss, Direction::Backward) => Tab::IO,
                (Tab::Diagnostics, Direction::Backward) => Tab::Abyss,
            },
            ..self
        }
    }

    /// After `text` was reported.
    pub open spec fn reported(self, text: Seq<u8>) -> Model {
        Model {
            diagnostics: written(opened(self.diagnostics), text).push(Seq::empty()),
            diagnostics_scroll: 0,
            tab: Tab::Diagnostics,
            ..self
        }
    }

    /// After a key, with `text` in the line that is being typed. The enter
    /// key has the command carried out that the line holds, or hands the
    /// line to the program as its input, or closes the debugger once the
    /// program is done; the other keys go through the panels, scroll them,
    /// close the debugger, or go to the line.
    pub open spec fn handle(self, program: Program, key: Key, text: Seq<u8>) -> (
        Model,
        Result<Reaction, Error>,
    ) {
        match key {
            Key::Enter => match self.mode {
                Mode::Command => {
                    let (after, result) = self.run(program, command_of(text));
                    match result {
                        Ok(_) => (after, Ok(Reaction::Reset)),
                        Err(e) => (after, Ok(Reaction::Refused(e))),
                    }
                },
                Mode::Input => {
                    let typed = Model {
                        io: written(opened(self.io), text).push(Seq::empty()),
                        io_scroll: 0,
                        ..self
                    };
                    let (after, result) = typed.next(program, text);
                    match result {
                        Ok(_) => (after, Ok(Reaction::Reset)),
                        Err(e) => (after, Err(e)),
                    }
                },
                _ => (Model { mode: Mode::Close, ..self }, Ok(Reaction::Keep)),
            },
            Key::Tab => (self.cycled(Direction::Forward), Ok(Reaction::Keep)),
            Key::BackTab => (self.cycled(Direction::Backward), Ok(Reaction::Keep)),
            Key::Control(106) => (self.scrolled(Direction::Forward), Ok(Reaction::Keep)),
            Key::Control(107) => (self.scrolled(Direction::Backward), Ok(Reaction::Keep)),
            Key::Control(108) => (self.leafed(program, Direction::Forward), Ok(Reaction::Keep)),
            Key::Control(104) => (self.leafed(program, Direction::Backward), Ok(Reaction::Keep)),
            Key::Control(99) => (Model { mode: Mode::Close, ..self }, Ok(Reaction::Keep)),
            _ => if self.mode is Command || self.mode is Input {
                (self, Ok(Reaction::Edit))
            } else {
                (self, Ok(Reaction::Keep))
            },
        }
    }
}

/// A program that is run step by step, with the panels that show it.
pub struct Debugger<'a, A: Abyss> {
    pub cursor: Cursor<'a>,
    pub interpreter: Interpreter<A>,
    pub breakpoints: HashSet<usize>,
    pub view: Screen<'a>,
    pub mode: Mode,
}

impl<'a, A: Abyss> Debugger<'a, A> {
    /// The Abyss is in order, and the panel of the program shows the
    /// program that is run.
    pub open spec fn inv(&self) -> bool {
        self.interpreter.inv() && self.view.program.shown() == self.cursor.program()
    }

    /// The debugger as a value.
    pub open spec fn model(&self) -> Model {
        Model {
            pc: self.cursor.pc,
            chain: self.interpreter.abyss_view().view(),
            pending: self.interpreter.pending(),
            breakpoints: self.breakpoints@,
            mode: self.mode,
            tab: self.view.active_tab,
            center: self.view.program.center(),
            top: self.view.program.top(),
            io: self.view.io@,
            io_scroll: self.view.io.scroll,
            abyss_scroll: self.view.abyss.scroll,
            diagnostics: self.view.diagnostics@,
            diagnostics_scroll: self.view.diagnostics.scroll,
        }
    }

    /// The program that is run.
    pub open spec fn program(&self) -> Program {
        self.cursor.program()
    }

    /// A debugger at the start of `program`, which awaits a command.
    pub fn new(program: &'a Program, abyss: A) -> (r: Self)
        requires
            abyss.inv(),
        ensures
            r.inv(),
            r.program() == *program,
            r.view.scroll_size == 1,
            r.model() == (Model {
                pc: Some(0usize),
                chain: abyss.view(),
                pending: Seq::empty(),
                breakpoints: Set::empty(),
                mode: Mode::Command,
                tab: Tab::IO,
                center: 0,
                top: 0,
                io: Seq::empty(),
                io_scroll: 0,
                abyss_scroll: 0,
                diagnostics: Seq::empty(),
                diagnostics_scroll: 0,
            }),
    {
        Debugger {
            cursor: Cursor::new(program),
            interpreter: Interpreter::new(abyss),
            breakpoints: HashSet::new(),
            view: Screen::new(program, Tab::IO, 1),
            mode: Mode::Command,
        }
    }

    /// One turn: see [`Model::next`].
    pub fn next(&mut self, input: &[u8]) -> (r: Result<(), Error>)
        requires
            old(self).inv(),
        ensures
            final(self).inv(),
            final(self).program() == old(self).program(),
            final(self).view.scroll_size == old(self).view.scroll_size,
            (final(self).model(), r) == old(self).model().next(old(self).program(), input@),
    {
        if matches!(self.mode, Mode::Done) || matches!(self.mode, Mode::Close) {
            return Ok(());
        }
        let asks = match self.cursor.current() {
            Some((_, AwaTism::Read)) => true,
            Some((_, AwaTism::ReadNum)) => true,
            _ => false,
        };
        if matches!(self.mode, Mode::Command) && asks {
            self.view.active_tab = Tab::IO;
            self.mode = Mode::Input;
            return Ok(());
        }
        match self.cursor.next(&mut self.interpreter, input) {
            Err(e) => Err(Error::RuntimeError(e)),
            Ok(false) => {
                self.mode = Mode::Done;
                Ok(())
            },
            Ok(true) => {
                if let Some(pc) = self.cursor.pc {
                    self.view.program.set_pc(pc);
                    let output = self.interpreter.take_output();
                    if output.len() > 0 {
                        self.view.io.push(output.as_slice());
                        self.view.active_tab = Tab::IO;
                    }
                    self.mode = Mode::Command;
                }
                Ok(())
            },
        }
    }

    /// Whether a run of steps ends here: see [`Model::should_break`].
    pub fn should_break(&mut self) -> (r: bool)
        requires
            old(self).inv(),
        ensures
            final(self).inv(),
            final(self).program() == old(self).program(),
            final(self).view == old(self).view,
            (final(self).model(), r) == old(self).model().should_break(),
    {
        if !matches!(self.mode, Mode::Command) {
            return true;
        }
        match self.cursor.pc {
            Some(pc) => self.breakpoints.contains(&pc),
            None => {
                self.mode = Mode::Done;
                true
            },
        }
    }

    /// Sets the breakpoint at `pc` where there is none, and lifts it where
    /// there is one.
    pub fn toggle(&mut self, pc: usize)
        requires
            old(self).inv(),
        ensures
            final(self).inv(),
            final(self).program() == old(self).program(),
            final(self).view == old(self).view,
            final(self).model() == old(self).model().toggled(pc),
    {
        if !self.breakpoints.remove(&pc) {
            self.breakpoints.insert(pc);
            proof {
                assert(self.breakpoints@ =~= old(self).breakpoints@.insert(pc));
            }
        }
    }

    /// Takes up to `count` turns without input: see [`Model::steps`].
    pub fn steps(&mut self, count: usize) -> (r: Result<(), Error>)
        requires
            old(self).inv(),
        ensures
            final(self).inv(),
            final(self).program() == old(self).program(),
            final(self).view.scroll_size == old(self).view.scroll_size,
            (final(self).model(), r) == old(self).model().steps(old(self).program(), count as nat),
    {
        let mut i: usize = 0;
        let input: Vec<u8> = Vec::new();
        while i < count
            invariant_except_break
                old(self).model().steps(old(self).program(), count as nat) == self.model().steps(
                    self.program(),
                    (count - i) as nat,
                ),
            invariant
                0 <= i <= count,
                input@ == Seq::<u8>::empty(),
                self.inv(),
                self.program() == old(self).program(),
                self.view.scroll_size == old(self).view.scroll_size,
            ensures
                old(self).model().steps(old(self).program(), count as nat) == (
                    self.model(),
                    Ok::<(), Error>(()),
                ),
            decreases count - i,
        {
            match self.next(input.as_slice()) {
                Err(e) => {
                    return Err(e);
                },
                Ok(_) => {},
            }
            if self.should_break() {
                break;
            }
            i = i + 1;
        }
        Ok(())
    }

    /// Carries out the command that `text` spells: see [`Model::execute`].
    pub fn execute(&mut self, text: &[u8]) -> (r: Result<(), Error>)
        requires
            old(self).inv(),
        ensures
            final(self).inv(),
            final(self).program() == old(self).program(),
            final(self).view.scroll_size == old(self).view.scroll_size,
            (final(self).model(), r) == old(self).model().run(
                old(self).program(),
                command_of(text@),
            ),
    {
        let command = match parse_command(text) {
            Ok(command) => command,
            Err(Refusal::Unknown) => {
                return Err(Error::UnknownCommand);
            },
            Err(Refusal::Number(e)) => {
                return Err(Error::ParseError(e));
            },
        };
        let len = self.cursor.len();
        match command {
            Command::Step => {
                let input: Vec<u8> = Vec::new();
                self.next(input.as_slice())
            },
            Command::Steps(count) => self.steps(count),
            Command::Run => self.steps(usize::MAX),
            Command::Toggle => match self.cursor.pc {
                Some(pc) => {
                    self.toggle(pc);
                    Ok(())
                },
                None => Err(Error::InvalidBreakpoint),
            },
            Command::ToggleBy(offset) => match self.cursor.pc {
                Some(pc) => {
                    let target: i128 = pc as i128 + offset as i128;
                    if 0 <= target && target < len as i128 {
                        self.toggle(target as usize);
                        Ok(())
                    } else {
                        Err(Error::InvalidBreakpoint)
                    }
                },
                None => Err(Error::InvalidBreakpoint),
            },
            Command::ToggleLine(line) => {
                if 1 <= line && line <= len {
                    self.toggle(line - 1);
                    Ok(())
                } else {
                    Err(Error::InvalidBreakpoint)
                }
            },
            Command::Quit => {
                self.mode = Mode::Close;
                Ok(())
            },
        }
    }

    /// Writes `text` to the panel of what is reported, and shows that
    /// panel.
    pub fn report(&mut self, text: &[u8])
        requires
            old(self).inv(),
        ensures
            final(self).inv(),
            final(self).program() == old(self).program(),
            final(self).view.scroll_size == old(self).view.scroll_size,
            final(self).model() == old(self).model().reported(text@),
    {
        self.view.diagnostics.push_line(text);
        self.view.active_tab = Tab::Diagnostics;
    }

    /// Takes a key, with `text` in the line that is being typed: see
    /// [`Model::handle`].
    pub fn handle_event(&mut self, key: Key, text: &[u8]) -> (r: Result<Reaction, Error>)
        requires
            old(self).inv(),
        ensures
            final(self).inv(),
            final(self).program() == old(self).program(),
            final(self).view.scroll_size == old(self).view.scroll_size,
            (final(self).model(), r) == old(self).model().handle(old(self).program(), key, text@),
    {
        match key {
            Key::Enter => match self.mode {
                Mode::Command => match self.execute(text) {
                    Ok(_) => Ok(Reaction::Reset),
                    Err(e) => Ok(Reaction::Refused(e)),
                },
                Mode::Input => {
                    self.view.io.push_line(text);
                    match self.next(text) {
                        Ok(_) => Ok(Reaction::Reset),
                        Err(e) => Err(e),
                    }
                },
                _ => {
                    self.mode = Mode::Close;
                    Ok(Reaction::Keep)
                },
            },
            Key::Tab => {
                self.view.cycle(Direction::Forward);
                Ok(Reaction::Keep)
            },
            Key::BackTab => {
                self.view.cycle(Direction::Backward);
                Ok(Reaction::Keep)
            },
            Key::Control(106) => {
                self.view.scroll(Direction::Forward);
                Ok(Reaction::Keep)
            },
            Key::Control(107) => {
                self.view.scroll(Direction::Backward);
                Ok(Reaction::Keep)
            },
            Key::Control(108) => {
                self.view.program.scroll(Direction::Forward);
                Ok(Reaction::Keep)
            },
            Key::Control(104) => {
                self.view.program.scroll(Direction::Backward);
                Ok(Reaction::Keep)
            },
            Key::Control(99) => {
                self.mode = Mode::Close;
                Ok(Reaction::Keep)
            },
            _ => {
                if matches!(self.mode, Mode::Command) || matches!(self.mode, Mode::Input) {
                    Ok(Reaction::Edit)
                } else {
                    Ok(Reaction::Keep)
                }
            },
        }
    }
}

} // verus!
