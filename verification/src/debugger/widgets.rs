//! What the panels of the debugger show, apart from how it is drawn.
use crate::program::Program;
use crate::text::{count_digits, digits_of};
use vstd::prelude::*;

verus! {

/// The panels that share the right side of the screen.
#[derive(Debug, Clone, Copy, PartialEq, Eq, Hash, Structural)]
pub enum Tab {
    IO,
    Abyss,
    Diagnostics,
}

impl Tab {
    /// The place of the panel among the three, counted from zero.
    pub open spec fn place(self) -> int {
        match self {
            Tab::IO => 0,
            Tab::Abyss => 1,
            Tab::Diagnostics => 2,
        }
    }

    /// The panel to the right, and the first one behind the last.
    pub fn next(self) -> (r: Self)
        ensures
            r.place() == (self.place() + 1) % 3,
    {
        match self {
            Tab::IO => Tab::Abyss,
            Tab::Abyss => Tab::Diagnostics,
            Tab::Diagnostics => Tab::IO,
        }
    }

    /// The panel to the left, and the last one before the first.
    pub fn prev(self) -> (r: Self)
        ensures
            r.place() == (self.place() + 2) % 3,
    {
        match self {
            Tab::IO => Tab::Diagnostics,
            Tab::Abyss => Tab::IO,
            Tab::Diagnostics => Tab::Abyss,
        }
    }
}

/// The way to scroll, or to go through the panels.
#[derive(Debug, Clone, Copy, PartialEq, Eq, Hash, Structural)]
pub enum Direction {
    Forward,
    Backward,
}

/// The text of each line.
pub open spec fn texts(lines: Seq<Vec<u8>>) -> Seq<Seq<u8>> {
    Seq::new(lines.len(), |i: int| lines[i]@)
}

/// The lines with one empty line where there is none.
pub open spec fn opened(lines: Seq<Seq<u8>>) -> Seq<Seq<u8>> {
    if lines.len() == 0 {
        seq![Seq::empty()]
    } else {
        lines
    }
}

/// The lines after `text` was written behind them: every byte goes to the
/// end of the last line, and a line feed starts a new line.
pub open spec fn written(lines: Seq<Seq<u8>>, text: Seq<u8>) -> Seq<Seq<u8>>
    recommends
        lines.len() > 0,
    decreases text.len(),
{
    if text.len() == 0 {
        lines
    } else if text[0] == 10 {
        written(lines.push(Seq::empty()), text.skip(1))
    } else {
        written(lines.drop_last().push(lines.last().push(text[0])), text.skip(1))
    }
}

/// The number that a scroll position comes to where it takes one step.
pub open spec fn scrolled(at: int, direction: Direction, last: int, most: int) -> int {
    match direction {
        Direction::Backward => if at > 0 {
            at - 1
        } else {
            0
        },
        Direction::Forward => {
            let next = if at < most {
                at + 1
            } else {
                most
            };
            if next < last {
                next
            } else {
                last
            }
        },
    }
}

/// The number of the last of the lines, counted from zero, as far as 16
/// bits hold it; zero where there is no line.
pub open spec fn last_line(lines: Seq<Seq<u8>>) -> int {
    if lines.len() == 0 {
        0
    } else {
        (lines.len() - 1) % 0x10000
    }
}

/// Text that was read and written, line by line, with the line at which
/// the panel starts to show it.
#[derive(Debug, Clone)]
pub struct MirrorIO {
    pub lines: Vec<Vec<u8>>,
    pub scroll: u16,
}

impl MirrorIO {
    /// The text of the lines.
    pub open spec fn view(&self) -> Seq<Seq<u8>> {
        texts(self.lines@)
    }

    /// A mirror without text.
    pub fn new() -> (r: Self)
        ensures
            r@ == Seq::<Seq<u8>>::empty(),
            r.scroll == 0,
    {
        let r = MirrorIO { lines: Vec::new(), scroll: 0 };
        assert(r@ =~= Seq::<Seq<u8>>::empty());
        r
    }

    /// Writes `text` behind what is there, and scrolls back to the top.
    pub fn push(&mut self, text: &[u8])
        ensures
            final(self)@ == written(opened(old(self)@), text@),
            final(self).scroll == 0,
    {
        let mut line: Vec<u8> = match self.lines.pop() {
            Some(line) => line,
            None => Vec::new(),
        };
        let mut i: usize = 0;
        proof {
            assert(texts(self.lines@).push(line@) =~= opened(old(self)@));
            assert(text@.skip(0) =~= text@);
        }
        while i < text.len()
            invariant
                0 <= i <= text@.len(),
                written(opened(old(self)@), text@) == written(
                    texts(self.lines@).push(line@),
                    text@.skip(i as int),
                ),
            decreases text@.len() - i,
        {
            let ghost before = texts(self.lines@).push(line@);
            let ghost rest = text@.skip(i as int);
            proof {
                assert(rest[0] == text@[i as int]);
                assert(rest.skip(1) =~= text@.skip(i + 1));
                assert(before.drop_last() =~= texts(self.lines@));
            }
            if text[i] == 10 {
                self.lines.push(line);
                line = Vec::new();
                proof {
                    assert(texts(self.lines@).push(line@) =~= before.push(Seq::empty()));
                }
            } else {
                line.push(text[i]);
                proof {
                    assert(texts(self.lines@).push(line@) =~= before.drop_last().push(
                        before.last().push(rest[0]),
                    ));
                }
            }
            i = i + 1;
        }
        proof {
            assert(texts(self.lines@.push(line)) =~= texts(self.lines@).push(line@));
        }
        self.lines.push(line);
        self.scroll = 0;
    }

    /// Writes `text` behind what is there, and starts a new line.
    pub fn push_line(&mut self, text: &[u8])
        ensures
            final(self)@ == written(opened(old(self)@), text@).push(Seq::empty()),
            final(self).scroll == 0,
    {
        self.push(text);
        let ghost before = self@;
        self.lines.push(Vec::new());
        proof {
            assert(self@ =~= before.push(Seq::empty()));
        }
    }

    /// Moves the first line shown by one, not before the first line and
    /// not behind the last; the number of the last line counts as far as 16
    /// bits hold it.
    pub fn scroll(&mut self, direction: Direction)
        ensures
            final(self).lines == old(self).lines,
            final(self).scroll == scrolled(
                old(self).scroll as int,
                direction,
                last_line(old(self)@),
                u16::MAX as int,
            ),
    {
        let len = self.lines.len();
        let last: u16 = if len == 0 {
            0
        } else {
            ((len - 1) % 0x10000) as u16
        };
        self.scroll = step(self.scroll as usize, direction, last as usize, 0xFFFF) as u16;
    }
}

impl Default for MirrorIO {
    fn default() -> (r: Self)
        ensures
            r@ == Seq::<Seq<u8>>::empty(),
            r.scroll == 0,
    {
        MirrorIO::new()
    }
}

/// One step of a scroll position that stays between zero and `last`, and
/// at most at `most`.
pub fn step(at: usize, direction: Direction, last: usize, most: usize) -> (r: usize)
    ensures
        r == scrolled(at as int, direction, last as int, most as int),
{
    match direction {
        Direction::Backward => if at > 0 {
            at - 1
        } else {
            0
        },
        Direction::Forward => {
            let next = if at < most {
                at + 1
            } else {
                most
            };
            if next < last {
                next
            } else {
                last
            }
        },
    }
}

/// The lines of the program, with the instruction that is next and the
/// line at which the panel starts to show them.
#[derive(Debug, Clone, Copy)]
pub struct ProgramWindow<'a> {
    program: &'a Program,
    pc: usize,
    scroll: usize,
    line_digits: usize,
}

impl<'a> ProgramWindow<'a> {
    #[verifier::type_invariant]
    spec fn wf(self) -> bool {
        self.line_digits == digits_of(self.program@.len()).len() && self.line_digits <= 20
    }

    /// The program that is shown.
    pub closed spec fn shown(&self) -> Program {
        *self.program
    }

    /// The place of the instruction that is next.
    pub closed spec fn center(&self) -> usize {
        self.pc
    }

    /// The place of the first line that is shown.
    pub closed spec fn top(&self) -> usize {
        self.scroll
    }

    /// The panel of `program`, at its first instruction.
    pub fn new(program: &'a Program) -> (r: Self)
        ensures
            r.shown() == *program,
            r.center() == 0,
            r.top() == 0,
    {
        ProgramWindow { program, pc: 0, scroll: 0, line_digits: count_digits(program.len()) }
    }

    /// The program that is shown.
    pub fn program(&self) -> (r: &'a Program)
        ensures
            *r == self.shown(),
    {
        self.program
    }

    /// The place of the instruction that is marked as the next.
    pub fn pc(&self) -> (r: usize)
        ensures
            r == self.center(),
    {
        self.pc
    }

    /// The place of the first line that is shown.
    pub fn first(&self) -> (r: usize)
        ensures
            r == self.top(),
    {
        self.scroll
    }

    /// The number of digits of the number of the last line.
    pub fn line_digits(&self) -> (r: usize)
        ensures
            r == digits_of(self.shown()@.len()).len(),
    {
        proof {
            use_type_invariant(self);
        }
        self.line_digits
    }

    /// The width that the panel needs.
    pub fn min_width(&self) -> (r: usize)
        ensures
            r == digits_of(self.shown()@.len()).len() + 9,
    {
        proof {
            use_type_invariant(self);
        }
        self.line_digits + 9
    }

    /// Marks the instruction at `pc` as the next, and shows the lines from
    /// five before it.
    pub fn set_pc(&mut self, pc: usize)
        ensures
            final(self).shown() == old(self).shown(),
            final(self).center() == pc,
            final(self).top() == (if pc > 5 {
                pc - 5
            } else {
                0
            }),
    {
        proof {
            use_type_invariant(&*self);
        }
        self.pc = pc;
        self.scroll = if pc > 5 {
            pc - 5
        } else {
            0
        };
    }

    /// Moves the first line shown by one, not before the first line and
    /// not behind the last.
    pub fn scroll(&mut self, direction: Direction)
        ensures
            final(self).shown() == old(self).shown(),
            final(self).center() == old(self).center(),
            final(self).top() == scrolled(
                old(self).top() as int,
                direction,
                (if old(self).shown()@.len() == 0 {
                    0
                } else {
                    old(self).shown()@.len() - 1
                }),
                usize::MAX as int,
            ),
    {
        proof {
            use_type_invariant(&*self);
        }
        let len = self.program.len();
        let last = if len == 0 {
            0
        } else {
            len - 1
        };
        self.scroll = step(self.scroll, direction, last, usize::MAX);
    }
}

/// The line at which the panel of the Abyss starts to show it.
#[derive(Debug, Clone, Copy)]
pub struct AbyssDisplay {
    pub scroll: u16,
}

impl AbyssDisplay {
    /// A panel that shows the Abyss from its top.
    pub fn new() -> (r: Self)
        ensures
            r.scroll == 0,
    {
        AbyssDisplay { scroll: 0 }
    }

    /// Moves the first line shown by one, not before the first line.
    pub fn scroll(&mut self, direction: Direction)
        ensures
            final(self).scroll == scrolled(
                old(self).scroll as int,
                direction,
                u16::MAX as int,
                u16::MAX as int,
            ),
    {
        self.scroll = step(self.scroll as usize, direction, 0xFFFF, 0xFFFF) as u16;
    }
}

impl Default for AbyssDisplay {
    fn default() -> (r: Self)
        ensures
            r.scroll == 0,
    {
        AbyssDisplay::new()
    }
}

/// All that the debugger shows.
#[derive(Debug, Clone)]
pub struct Screen<'a> {
    pub active_tab: Tab,
    pub scroll_size: usize,
    pub program: ProgramWindow<'a>,
    pub abyss: AbyssDisplay,
    pub io: MirrorIO,
    pub diagnostics: MirrorIO,
}

impl<'a> Screen<'a> {
    /// The panels at the start of `program`, with `initial_tab` shown.
    pub fn new(program: &'a Program, initial_tab: Tab, scroll_size: usize) -> (r: Self)
        ensures
            r.active_tab == initial_tab,
            r.scroll_size == scroll_size,
            r.program.shown() == *program,
            r.program.center() == 0,
            r.program.top() == 0,
            r.abyss.scroll == 0,
            r.io@ == Seq::<Seq<u8>>::empty(),
            r.io.scroll == 0,
            r.diagnostics@ == Seq::<Seq<u8>>::empty(),
            r.diagnostics.scroll == 0,
    {
        Screen {
            active_tab: initial_tab,
            scroll_size,
            program: ProgramWindow::new(program),
            abyss: AbyssDisplay::new(),
            io: MirrorIO::new(),
            diagnostics: MirrorIO::new(),
        }
    }

    /// Goes on to the panel beside the one that is shown.
    pub fn cycle(&mut self, direction: Direction)
        ensures
            *final(self) == (Screen {
                active_tab: final(self).active_tab,
                ..*old(self)
            }),
            final(self).active_tab.place() == (match direction {
                Direction::Forward => (old(self).active_tab.place() + 1) % 3,
                Direction::Backward => (old(self).active_tab.place() + 2) % 3,
            }),
    {
        self.active_tab = match direction {
            Direction::Forward => self.active_tab.next(),
            Direction::Backward => self.active_tab.prev(),
        };
    }

    /// Scrolls the panel that is shown.
    pub fn scroll(&mut self, direction: Direction)
        ensures
            final(self).active_tab == old(self).active_tab,
            final(self).scroll_size == old(self).scroll_size,
            final(self).program == old(self).program,
            match old(self).active_tab {
                Tab::IO => {
                    &&& final(self).abyss == old(self).abyss
                    &&& final(self).diagnostics == old(self).diagnostics
                    &&& final(self).io.lines == old(self).io.lines
                    &&& final(self).io.scroll == scrolled(
                        old(self).io.scroll as int,
                        direction,
                        last_line(old(self).io@),
                        u16::MAX as int,
                    )
                },
                Tab::Abyss => {
                    &&& final(self).io == old(self).io
                    &&& final(self).diagnostics == old(self).diagnostics
                    &&& final(self).abyss.scroll == scrolled(
                        old(self).abyss.scroll as int,
                        direction,
                        u16::MAX as int,
                        u16::MAX as int,
                    )
                },
                Tab::Diagnostics => {
                    &&& final(self).io == old(self).io
                    &&& final(self).abyss == old(self).abyss
                    &&& final(self).diagnostics.lines == old(self).diagnostics.lines
                    &&& final(self).diagnostics.scroll == scrolled(
                        old(self).diagnostics.scroll as int,
                        direction,
                        last_line(old(self).diagnostics@),
                        u16::MAX as int,
                    )
                },
            },
    {
        match self.active_tab {
            Tab::IO => self.io.scroll(direction),
            Tab::Abyss => self.abyss.scroll(direction),
            Tab::Diagnostics => self.diagnostics.scroll(direction),
        }
    }
}

} // verus!
