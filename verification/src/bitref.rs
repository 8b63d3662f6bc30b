//! Tri-state signal cells and the operator that combines them.
//!
//! A cell holds a width and a state: nothing written yet, a value that does
//! not matter, or one bit for each position of the width. Combining cells
//! never changes them.

use std::rc::Rc;
use vstd::prelude::*;

verus! {

/// What a signal cell holds.
#[derive(Clone, Debug, PartialEq, Eq)]
pub enum State {
    /// No driver has written yet.
    Unknown,
    /// The driver's value is indeterminate.
    DontCare,
    /// A concrete bit vector.
    Bits(Vec<bool>),
}

impl State {
    /// Whether the state can be held by a cell of `width` bits: a bit
    /// vector has to be exactly that wide.
    pub open spec fn fits(&self, width: nat) -> bool {
        self matches State::Bits(v) ==> v@.len() == width
    }
}

/// A signal cell: a width and the state that was last written.
pub struct BitRef {
    pub num_bits: usize,
    data: State,
}

impl BitRef {
    /// The state that the cell holds.
    pub closed spec fn state(&self) -> State {
        self.data
    }

    /// The number of bits of the cell.
    pub closed spec fn width(&self) -> nat {
        self.num_bits as nat
    }

    /// A cell is well formed when its state fits its width.
    pub open spec fn wf(&self) -> bool {
        self.state().fits(self.width())
    }

    /// A cell of `bits` bits that nothing has written to.
    pub fn new(bits: usize) -> (r: BitRef)
        ensures
            r.width() == bits,
            r.state() is Unknown,
            r.wf(),
    {
        BitRef { num_bits: bits, data: State::Unknown }
    }

    /// Writes `state` and hands back what the cell held before.
    pub fn write(&mut self, state: State) -> (previous: State)
        requires
            state.fits(old(self).width()),
        ensures
            final(self).state() == state,
            final(self).width() == old(self).width(),
            previous == old(self).state(),
            final(self).wf(),
    {
        let mut held = state;
        std::mem::swap(&mut self.data, &mut held);
        held
    }

    /// The number of bits of the cell.
    pub fn bit_count(&self) -> (n: usize)
        ensures
            n == self.width(),
    {
        self.num_bits
    }

    /// The state that the cell holds.
    pub fn read(&self) -> (r: &State)
        ensures
            *r == self.state(),
    {
        &self.data
    }
}

/// The operators that cells can be combined under.
#[derive(Clone, Copy, Debug, PartialEq, Eq, Structural, PartialOrd, Ord)]
pub enum Op {
    NOT,
    AND,
    OR,
    NAND,
    NOR,
    XOR,
    XNOR,
}

/// The bit that a fold under `op` starts from: one for AND, zero for every
/// other operator.
pub open spec fn identity_bit(op: Op) -> bool {
    op == Op::AND
}

/// One step of a fold under `op`: the accumulated bit taken together with
/// the next input bit.
pub open spec fn fold_step(op: Op, acc: bool, bit: bool) -> bool {
    match op {
        Op::AND | Op::NAND => bit && acc,
        Op::OR | Op::NOR => bit || acc,
        Op::XOR | Op::XNOR => bit != acc,
        Op::NOT => !bit || acc,
    }
}

/// Whether `op` inverts the folded bit at the end.
pub open spec fn inverts(op: Op) -> bool {
    op == Op::NAND || op == Op::NOR || op == Op::XNOR
}

/// The bit at `position` of a state; false where the state has no such bit.
pub open spec fn bit_of(state: State, position: int) -> bool {
    match state {
        State::Bits(v) => 0 <= position < v@.len() && v@[position],
        _ => false,
    }
}

/// The bit at `position` once the first `count` of `states` are folded in
/// under `op`, in order.
pub open spec fn folded_bit(op: Op, states: Seq<State>, count: nat, position: int) -> bool
    decreases count,
{
    if count == 0 {
        identity_bit(op)
    } else {
        fold_step(
            op,
            folded_bit(op, states, (count - 1) as nat, position),
            bit_of(states[count - 1], position),
        )
    }
}

/// The bit at `position` of the combination of `states` under `op`.
pub open spec fn combined_bit(op: Op, states: Seq<State>, position: int) -> bool {
    folded_bit(op, states, states.len(), position) != inverts(op)
}

/// Under AND a bit is set where it is set in every input.
pub proof fn lemma_and_bit(states: Seq<State>, count: nat, position: int)
    requires
        count <= states.len(),
    ensures
        folded_bit(Op::AND, states, count, position) <==> forall|i: int|
            0 <= i < count ==> bit_of(#[trigger] states[i], position),
    decreases count,
{
    if count > 0 {
        lemma_and_bit(states, (count - 1) as nat, position);
        if folded_bit(Op::AND, states, count, position) {
            assert forall|i: int| 0 <= i < count implies bit_of(
                #[trigger] states[i],
                position,
            ) by {}
        }
    }
}

/// Under OR a bit is set where it is set in some input, and under NOR
/// where it is set in none.
pub proof fn lemma_or_bit(states: Seq<State>, count: nat, position: int)
    requires
        count <= states.len(),
    ensures
        folded_bit(Op::OR, states, count, position) <==> exists|i: int|
            0 <= i < count && bit_of(#[trigger] states[i], position),
        folded_bit(Op::NOR, states, count, position) == folded_bit(
            Op::OR,
            states,
            count,
            position,
        ),
    decreases count,
{
    if count > 0 {
        lemma_or_bit(states, (count - 1) as nat, position);
        if folded_bit(Op::OR, states, (count - 1) as nat, position) {
            let i = choose|i: int| 0 <= i < count - 1 && bit_of(#[trigger] states[i], position);
            assert(0 <= i < count && bit_of(states[i], position));
        }
        if bit_of(states[count - 1], position) {
            assert(0 <= count - 1 < count && bit_of(states[count - 1], position));
        }
    }
}

/// Under NAND the fold starts from zero like that of every operator but
/// AND, so it stays at zero, and the inversion sets every bit.
pub proof fn lemma_nand_bit(states: Seq<State>, count: nat, position: int)
    requires
        count <= states.len(),
    ensures
        !folded_bit(Op::NAND, states, count, position),
        count == states.len() ==> combined_bit(Op::NAND, states, position),
    decreases count,
{
    if count > 0 {
        lemma_nand_bit(states, (count - 1) as nat, position);
    }
}

/// Under XOR one more input flips a bit where its own bit is set, and so
/// it does under XNOR before the inversion.
pub proof fn lemma_xor_bit(states: Seq<State>, count: nat, position: int)
    requires
        count <= states.len(),
    ensures
        count > 0 ==> folded_bit(Op::XOR, states, count, position) == (folded_bit(
            Op::XOR,
            states,
            (count - 1) as nat,
            position,
        ) != bit_of(states[count - 1], position)),
        folded_bit(Op::XNOR, states, count, position) == folded_bit(
            Op::XOR,
            states,
            count,
            position,
        ),
    decreases count,
{
    if count > 0 {
        lemma_xor_bit(states, (count - 1) as nat, position);
    }
}

/// One input under NOT comes out with every bit negated.
pub proof fn lemma_not_bit(state: State, position: int)
    ensures
        combined_bit(Op::NOT, seq![state], position) == !bit_of(state, position),
{
    reveal_with_fuel(folded_bit, 2);
    assert(seq![state][0] == state);
}

/// The states of a list of cells.
pub open spec fn states_of(inputs: Seq<Rc<BitRef>>) -> Seq<State> {
    Seq::new(inputs.len(), |i: int| inputs[i].state())
}

/// Whether one of `states` is unknown.
pub open spec fn any_unknown(states: Seq<State>) -> bool {
    exists|i: int| 0 <= i < states.len() && #[trigger] states[i] is Unknown
}

/// Whether one of `states` does not matter.
pub open spec fn any_dont_care(states: Seq<State>) -> bool {
    exists|i: int| 0 <= i < states.len() && #[trigger] states[i] is DontCare
}

/// Combines the cells `inputs` under `operator`.
///
/// An unknown input makes the result unknown, whatever else there is.
/// Failing that, an input that does not matter makes the result not matter.
/// Otherwise the result has the width of the first input, and each of its
/// bits is the fold of the inputs' bits at that position.
pub fn op(inputs: &Vec<Rc<BitRef>>, operator: Op) -> (r: State)
    requires
        inputs@.len() > 0,
        forall|i: int| 0 <= i < inputs@.len() ==> (#[trigger] inputs@[i]).wf(),
        forall|i: int| 0 <= i < inputs@.len() ==> (#[trigger] inputs@[i]).width() == inputs@[0].width(),
    ensures
        any_unknown(states_of(inputs@)) <==> r is Unknown,
        !any_unknown(states_of(inputs@)) && any_dont_care(states_of(inputs@)) <==> r is DontCare,
        r matches State::Bits(v) ==> {
            &&& v@.len() == inputs@[0].width()
            &&& forall|j: int| 0 <= j < v@.len() ==> v@[j] == combined_bit(operator, states_of(inputs@), j)
        },
{
    let n: usize = inputs[0].num_bits;
    let ghost states = states_of(inputs@);
    let mut a: usize = 0;
    while a < inputs.len()
        invariant
            a <= inputs.len(),
            states == states_of(inputs@),
            forall|i: int| 0 <= i < a ==> !(#[trigger] states[i] is Unknown),
        decreases inputs.len() - a,
    {
        if let State::Unknown = inputs[a].read() {
            assert(states[a as int] is Unknown);
            return State::Unknown;
        }
        a += 1;
    }
    let mut ret: Vec<bool> = Vec::new();
    let mut i: usize = 0;
    while i < n
        invariant
            i <= n,
            ret@.len() == i,
            forall|j: int| 0 <= j < i ==> ret@[j] == identity_bit(operator),
        decreases n - i,
    {
        ret.push(operator == Op::AND);
        i += 1;
    }
    let mut a: usize = 0;
    while a < inputs.len()
        invariant
            a <= inputs.len(),
            n == inputs@[0].width(),
            states == states_of(inputs@),
            forall|i: int| 0 <= i < inputs@.len() ==> (#[trigger] inputs@[i]).wf(),
            forall|i: int| 0 <= i < inputs@.len() ==> (#[trigger] inputs@[i]).width() == n,
            forall|i: int| 0 <= i < states.len() ==> !(#[trigger] states[i] is Unknown),
            forall|i: int| 0 <= i < a ==> (#[trigger] states[i] is Bits),
            ret@.len() == n,
            forall|j: int| 0 <= j < n ==> ret@[j] == folded_bit(operator, states, a as nat, j),
        decreases inputs.len() - a,
    {
        match inputs[a].read() {
            State::Bits(bits) => {
                assert(states[a as int] == State::Bits(*bits));
                assert(inputs@[a as int].wf());
                let mut i: usize = 0;
                while i < n
                    invariant
                        i <= n,
                        bits@.len() == n,
                        ret@.len() == n,
                        a < states.len(),
                        states[a as int] == State::Bits(*bits),
                        forall|j: int| 0 <= j < i ==> ret@[j] == folded_bit(operator, states, (a + 1) as nat, j),
                        forall|j: int| i <= j < n ==> ret@[j] == folded_bit(operator, states, a as nat, j),
                    decreases n - i,
                {
                    let bit: bool = bits[i];
                    let acc: bool = ret[i];
                    let next: bool = match operator {
                        Op::AND | Op::NAND => bit && acc,
                        Op::OR | Op::NOR => bit || acc,
                        Op::XOR | Op::XNOR => bit != acc,
                        Op::NOT => !bit || acc,
                    };
                    assert(bit == bit_of(states[a as int], i as int));
                    ret.set(i, next);
                    i += 1;
                }
            },
            _ => {
                assert(states[a as int] is DontCare);
                return State::DontCare;
            },
        }
        a += 1;
    }
    let mut i: usize = 0;
    while i < n
        invariant
            i <= n,
            ret@.len() == n,
            forall|j: int| 0 <= j < i ==> ret@[j] == combined_bit(operator, states, j),
            forall|j: int| i <= j < n ==> ret@[j] == folded_bit(operator, states, states.len(), j),
        decreases n - i,
    {
        match operator {
            Op::NAND | Op::NOR | Op::XNOR => {
                let bit: bool = ret[i];
                ret.set(i, !bit);
            },
            _ => {},
        }
        i += 1;
    }
    State::Bits(ret)
}

} // verus!
