use vstd::prelude::*;

verus! {

/// Number of input slots of every component.
pub const COMPONENT_INPUT_LENGTH: usize = 8;

/// Number of persistent registers of every component.
pub const COMPONENT_REGISTER_LENGTH: usize = 8;

/// The input slot that carries the time step of the current tick. Only the
/// tick driver writes it; connections target the other slots.
pub const DIFF_TIME_INPUT: usize = 0;

/// The behaviour of a component.
#[derive(Clone, Copy, Debug, PartialEq, Eq, Structural)]
pub enum ComponentType {
    Amplifier,
    Buffer,
    Differentiator,
    Distributor,
    Divider,
    Integrator,
    LowerSaturator,
    Mixer,
    Noise,
    Saw,
    Sine,
    Square,
    Subtractor,
    Triangle,
    UpperSaturator,
    And,
    Not,
    Or,
}

/// An input slot of a component: `(component id, slot index)`.
pub type Destination = (usize, usize);

/// One node of the graph: its behaviour, its input slots, its registers, its
/// current output and the slots its output is delivered to.
#[derive(Debug)]
pub struct Component<V> {
    pub component_type: ComponentType,
    pub input_values: Vec<V>,
    pub registers: Vec<V>,
    pub output_value: V,
    pub output_destinations: Vec<Destination>,
}

impl<V> Component<V> {
    /// Slots and registers have their fixed lengths.
    pub open spec fn wf(&self) -> bool {
        &&& self.input_values@.len() == COMPONENT_INPUT_LENGTH
        &&& self.registers@.len() == COMPONENT_REGISTER_LENGTH
    }

    /// A component that has never been evaluated: every slot, register and
    /// the output hold `rest`, and nothing is connected to its output.
    pub open spec fn is_fresh(&self, component_type: ComponentType, rest: V) -> bool {
        &&& self.wf()
        &&& self.component_type == component_type
        &&& forall|i: int| 0 <= i < COMPONENT_INPUT_LENGTH ==> self.input_values@[i] == rest
        &&& forall|i: int| 0 <= i < COMPONENT_REGISTER_LENGTH ==> self.registers@[i] == rest
        &&& self.output_value == rest
        &&& self.output_destinations@.len() == 0
    }
}

impl<V: Copy> Component<V> {
    /// A fresh component of the given type whose values all hold `rest`.
    pub fn new(component_type: ComponentType, rest: V) -> (r: Component<V>)
        ensures
            r.is_fresh(component_type, rest),
    {
        let mut input_values: Vec<V> = Vec::new();
        let mut i: usize = 0;
        while i < COMPONENT_INPUT_LENGTH
            invariant
                i <= COMPONENT_INPUT_LENGTH,
                input_values@.len() == i,
                forall|k: int| 0 <= k < i ==> input_values@[k] == rest,
            decreases COMPONENT_INPUT_LENGTH - i,
        {
            input_values.push(rest);
            i += 1;
        }
        let mut registers: Vec<V> = Vec::new();
        let mut j: usize = 0;
        while j < COMPONENT_REGISTER_LENGTH
            invariant
                j <= COMPONENT_REGISTER_LENGTH,
                registers@.len() == j,
                forall|k: int| 0 <= k < j ==> registers@[k] == rest,
            decreases COMPONENT_REGISTER_LENGTH - j,
        {
            registers.push(rest);
            j += 1;
        }
        Component {
            component_type,
            input_values,
            registers,
            output_value: rest,
            output_destinations: Vec::new(),
        }
    }
}

} // verus!
