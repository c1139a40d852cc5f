//! A program: its instructions in order, and where each label leads.
use crate::awatism::AwaTism;
use crate::u5::u5;
use vstd::prelude::*;

verus! {

/// Where the label `label` leads in `instructions`: behind the last
/// instruction that sets it; `None` where none does.
pub open spec fn label_target(instructions: Seq<AwaTism>, label: u8) -> Option<usize>
    decreases instructions.len(),
{
    if instructions.len() == 0 {
        None
    } else if instructions.last() == AwaTism::Label(u5::of(label)) {
        Some(instructions.len() as usize)
    } else {
        label_target(instructions.drop_last(), label)
    }
}

/// Instructions in their order, and for each label the place behind the
/// instruction that sets it.
#[derive(Debug)]
pub struct Program {
    instructions: Vec<AwaTism>,
    labels: Vec<Option<usize>>,
}

impl View for Program {
    type V = Seq<AwaTism>;

    closed spec fn view(&self) -> Seq<AwaTism> {
        self.instructions@
    }
}

impl Default for Program {
    fn default() -> (r: Self)
        ensures
            r@ == Seq::<AwaTism>::empty(),
    {
        Program::new()
    }
}

impl Clone for Program {
    fn clone(&self) -> (r: Self)
        ensures
            r@ == self@,
    {
        let code = self.iter();
        let mut copy: Vec<AwaTism> = Vec::with_capacity(code.len());
        let mut i: usize = 0;
        while i < code.len()
            invariant
                0 <= i <= code@.len(),
                copy@ == code@.take(i as int),
            decreases code@.len() - i,
        {
            copy.push(code[i]);
            proof {
                assert(copy@ =~= code@.take(i + 1));
            }
            i = i + 1;
        }
        proof {
            assert(code@.take(code@.len() as int) =~= code@);
        }
        Program::from_vec(copy)
    }
}

impl Program {
    /// The table of labels has its 32 places, each what the instructions
    /// make it.
    #[verifier::type_invariant]
    spec fn wf(self) -> bool {
        &&& self.labels@.len() == 32
        &&& forall|k: int|
            0 <= k < 32 ==> #[trigger] self.labels@[k] == label_target(self.instructions@, k as u8)
    }

    /// The table of labels.
    pub closed spec fn label_table(&self) -> Seq<Option<usize>> {
        self.labels@
    }

    fn no_labels() -> (labels: Vec<Option<usize>>)
        ensures
            labels@.len() == 32,
            forall|k: int| 0 <= k < 32 ==> #[trigger] labels@[k] == None::<usize>,
    {
        let mut labels: Vec<Option<usize>> = Vec::with_capacity(32);
        let mut k: usize = 0;
        while k < 32
            invariant
                0 <= k <= 32,
                labels@.len() == k,
                forall|j: int| 0 <= j < k ==> #[trigger] labels@[j] == None::<usize>,
            decreases 32 - k,
        {
            labels.push(None);
            k = k + 1;
        }
        labels
    }

    /// A program without instructions.
    pub fn new() -> (r: Self)
        ensures
            r@ == Seq::<AwaTism>::empty(),
    {
        Program { instructions: Vec::new(), labels: Self::no_labels() }
    }

    /// A program without instructions, with room for `capacity` of them.
    pub fn with_capacity(capacity: usize) -> (r: Self)
        ensures
            r@ == Seq::<AwaTism>::empty(),
    {
        Program { instructions: Vec::with_capacity(capacity), labels: Self::no_labels() }
    }

    /// The program of the instructions in their order.
    pub fn from_vec(instructions: Vec<AwaTism>) -> (r: Self)
        ensures
            r@ == instructions@,
    {
        let mut labels = Self::no_labels();
        let mut pc: usize = 0;
        proof {
            assert(instructions@.take(0) =~= Seq::<AwaTism>::empty());
        }
        while pc < instructions.len()
            invariant
                0 <= pc <= instructions@.len(),
                labels@.len() == 32,
                forall|k: int|
                    0 <= k < 32 ==> #[trigger] labels@[k] == label_target(
                        instructions@.take(pc as int),
                        k as u8,
                    ),
            decreases instructions@.len() - pc,
        {
            let ghost before = labels@;
            let ghost next = instructions@.take(pc + 1);
            proof {
                assert(next.drop_last() =~= instructions@.take(pc as int));
                assert(next.last() == instructions@[pc as int]);
            }
            if let AwaTism::Label(label) = instructions[pc] {
                labels.set(label.get() as usize, Some(pc + 1));
                proof {
                    u5::lemma_of(label@);
                }
            }
            proof {
                assert forall|k: int| 0 <= k < 32 implies #[trigger] labels@[k] == label_target(
                    next,
                    k as u8,
                ) by {
                    u5::lemma_of(k as u8);
                    assert(before[k] == label_target(instructions@.take(pc as int), k as u8));
                }
            }
            pc = pc + 1;
        }
        proof {
            assert(instructions@.take(instructions@.len() as int) =~= instructions@);
        }
        Program { instructions, labels }
    }

    /// The number of instructions.
    pub fn len(&self) -> (r: usize)
        ensures
            r == self@.len(),
    {
        self.instructions.len()
    }

    /// Whether the program has no instruction.
    pub fn is_empty(&self) -> (r: bool)
        ensures
            r == (self@.len() == 0),
    {
        self.instructions.len() == 0
    }

    /// The instructions in order.
    pub fn iter(&self) -> (r: &[AwaTism])
        ensures
            r@ == self@,
    {
        self.instructions.as_slice()
    }

    /// The instruction at `index`, if there is one.
    pub fn get(&self, index: usize) -> (r: Option<&AwaTism>)
        ensures
            index < self@.len() ==> r == Some(&self@[index as int]),
            index >= self@.len() ==> r is None,
    {
        if index < self.instructions.len() {
            Some(&self.instructions[index])
        } else {
            None
        }
    }

    /// Where each label leads: the place of the first instruction behind
    /// it, not of the label itself; `None` for a label that is not set.
    pub fn labels(&self) -> (r: &[Option<usize>])
        ensures
            r@ == self.label_table(),
            r@.len() == 32,
            forall|k: int| 0 <= k < 32 ==> #[trigger] r@[k] == label_target(self@, k as u8),
    {
        proof {
            use_type_invariant(self);
        }
        self.labels.as_slice()
    }

    /// Appends an instruction; a label leads behind itself from now on.
    pub fn push(&mut self, awatism: AwaTism)
        ensures
            final(self)@ == old(self)@.push(awatism),
    {
        proof {
            use_type_invariant(&*self);
        }
        let ghost before = self.labels@;
        let ghost was = self.instructions@;
        let mut taken = Program::new();
        std::mem::swap(self, &mut taken);
        let Program { mut instructions, mut labels } = taken;
        instructions.push(awatism);
        if let AwaTism::Label(label) = awatism {
            labels.set(label.get() as usize, Some(instructions.len()));
            proof {
                u5::lemma_of(label@);
            }
        }
        proof {
            let now = instructions@;
            assert(now.drop_last() =~= was);
            assert forall|k: int| 0 <= k < 32 implies #[trigger] labels@[k] == label_target(
                now,
                k as u8,
            ) by {
                u5::lemma_of(k as u8);
                assert(before[k] == label_target(was, k as u8));
            }
        }
        *self = Program { instructions, labels };
    }
}

} // verus!
