//! The instructions of the language.
use crate::text::{decimal_of, push_decimal};
use crate::u5::u5;
use vstd::prelude::*;

verus! {

/// One instruction.
#[derive(Debug, Clone, Copy, PartialEq, Eq, Hash, Structural)]
pub enum AwaTism {
    NoOp,
    Print,
    PrintNum,
    Read,
    ReadNum,
    Terminate,
    Blow(i8),
    Submerge(u5),
    Pop,
    Duplicate,
    Surround(u5),
    Merge,
    Add,
    Subtract,
    Multiply,
    Divide,
    Count,
    Label(u5),
    Jump(u5),
    EqualTo,
    LessThan,
    GreaterThan,
    DoublePop,
}

/// The name of an instruction in assembly text.
pub open spec fn mnemonic(awatism: AwaTism) -> Seq<u8> {
    match awatism {
        AwaTism::NoOp => seq![110u8, 111, 112],  // nop
        AwaTism::Print => seq![112u8, 114, 110],  // prn
        AwaTism::PrintNum => seq![112u8, 114, 49],  // pr1
        AwaTism::Read => seq![114u8, 101, 100],  // red
        AwaTism::ReadNum => seq![114u8, 51, 100],  // r3d
        AwaTism::Terminate => seq![116u8, 114, 109],  // trm
        AwaTism::Blow(_) => seq![98u8, 108, 111],  // blo
        AwaTism::Submerge(_) => seq![115u8, 98, 109],  // sbm
        AwaTism::Pop => seq![112u8, 111, 112],  // pop
        AwaTism::Duplicate => seq![100u8, 112, 108],  // dpl
        AwaTism::Surround(_) => seq![115u8, 114, 110],  // srn
        AwaTism::Merge => seq![109u8, 114, 103],  // mrg
        AwaTism::Add => seq![52u8, 100, 100],  // 4dd
        AwaTism::Subtract => seq![115u8, 117, 98],  // sub
        AwaTism::Multiply => seq![109u8, 117, 108],  // mul
        AwaTism::Divide => seq![100u8, 105, 118],  // div
        AwaTism::Count => seq![99u8, 110, 116],  // cnt
        AwaTism::Label(_) => seq![108u8, 98, 108],  // lbl
        AwaTism::Jump(_) => seq![106u8, 109, 112],  // jmp
        AwaTism::EqualTo => seq![101u8, 113, 108],  // eql
        AwaTism::LessThan => seq![108u8, 115, 115],  // lss
        AwaTism::GreaterThan => seq![103u8, 114, 56],  // gr8
        AwaTism::DoublePop => seq![112u8, 48, 112],  // p0p
    }
}

/// The number that an instruction carries, if it carries one.
pub open spec fn argument(awatism: AwaTism) -> Option<int> {
    match awatism {
        AwaTism::Blow(v) => Some(v as int),
        AwaTism::Submerge(v) => Some(v@ as int),
        AwaTism::Surround(v) => Some(v@ as int),
        AwaTism::Label(v) => Some(v@ as int),
        AwaTism::Jump(v) => Some(v@ as int),
        _ => None,
    }
}

/// An instruction as assembly text: its name and, behind a blank, the
/// number that it carries.
pub open spec fn spelled(awatism: AwaTism) -> Seq<u8> {
    match argument(awatism) {
        Some(v) => mnemonic(awatism) + seq![32u8] + decimal_of(v),
        None => mnemonic(awatism),
    }
}

impl AwaTism {
    /// The instruction as assembly text.
    pub fn text(&self) -> (r: Vec<u8>)
        ensures
            r@ == spelled(*self),
    {
        let (a, b, c, number): (u8, u8, u8, Option<i16>) = match *self {
            AwaTism::NoOp => (110, 111, 112, None),
            AwaTism::Print => (112, 114, 110, None),
            AwaTism::PrintNum => (112, 114, 49, None),
            AwaTism::Read => (114, 101, 100, None),
            AwaTism::ReadNum => (114, 51, 100, None),
            AwaTism::Terminate => (116, 114, 109, None),
            AwaTism::Blow(v) => (98, 108, 111, Some(v as i16)),
            AwaTism::Submerge(v) => (115, 98, 109, Some(v.get() as i16)),
            AwaTism::Pop => (112, 111, 112, None),
            AwaTism::Duplicate => (100, 112, 108, None),
            AwaTism::Surround(v) => (115, 114, 110, Some(v.get() as i16)),
            AwaTism::Merge => (109, 114, 103, None),
            AwaTism::Add => (52, 100, 100, None),
            AwaTism::Subtract => (115, 117, 98, None),
            AwaTism::Multiply => (109, 117, 108, None),
            AwaTism::Divide => (100, 105, 118, None),
            AwaTism::Count => (99, 110, 116, None),
            AwaTism::Label(v) => (108, 98, 108, Some(v.get() as i16)),
            AwaTism::Jump(v) => (106, 109, 112, Some(v.get() as i16)),
            AwaTism::EqualTo => (101, 113, 108, None),
            AwaTism::LessThan => (108, 115, 115, None),
            AwaTism::GreaterThan => (103, 114, 56, None),
            AwaTism::DoublePop => (112, 48, 112, None),
        };
        let mut out: Vec<u8> = Vec::new();
        out.push(a);
        out.push(b);
        out.push(c);
        assert(out@ =~= mnemonic(*self));
        if let Some(v) = number {
            out.push(32);
            push_decimal(&mut out, v as i128);
            assert(out@ =~= mnemonic(*self) + seq![32u8] + decimal_of(v as int));
        }
        out
    }
}

} // verus!
