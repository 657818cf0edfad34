use vstd::prelude::*;
use crate::component::{
    Component, ComponentType, Destination, COMPONENT_INPUT_LENGTH, COMPONENT_REGISTER_LENGTH,
    DIFF_TIME_INPUT,
};

verus! {

/// Status code of a propagation that settled.
pub const RETURN_CODE_SUCCESS: i32 = 0;

/// Base of the status code of a propagation that did not settle; the id of
/// the offending component is added to it.
pub const RETURN_CODE_INFINITE_LOOP_DETECTED: i32 = 1;

/// The most components a sketch holds.
pub const SKETCH_COMPONENT_MAX_LENGTH: usize = 4096;

/// The most evaluations of one component within one propagation.
pub const MAX_LOOP_COUNT: u32 = 255;

/// The status code of a propagation abandoned because of `component`.
pub fn infinite_loop_code(component: usize) -> (r: i32)
    requires
        component < SKETCH_COMPONENT_MAX_LENGTH,
    ensures
        r == RETURN_CODE_INFINITE_LOOP_DETECTED + component,
{
    RETURN_CODE_INFINITE_LOOP_DETECTED + component as i32
}

/// Why a construction call or an injection was rejected.
#[derive(Clone, Copy, Debug, PartialEq, Eq, Structural)]
pub enum SketchError {
    /// The sketch already holds `SKETCH_COMPONENT_MAX_LENGTH` components.
    CapacityExceeded,
    /// No component has this id.
    UnknownComponent(usize),
    /// No input slot has this index.
    SlotOutOfRange(usize),
    /// The time-step slot is written by the tick driver alone.
    ReservedSlot,
    /// A buffer of the requested length does not fit in memory.
    BufferTooLarge,
}

impl SketchError {
    /// The status code that reports the rejection to a host: a negative
    /// number, one per kind of rejection, apart from the success code and the
    /// codes of loops that do not settle.
    pub fn code(&self) -> (r: i32)
        ensures
            r < 0,
            r == match *self {
                SketchError::CapacityExceeded => -1i32,
                SketchError::UnknownComponent(_) => -2i32,
                SketchError::SlotOutOfRange(_) => -3i32,
                SketchError::ReservedSlot => -4i32,
                SketchError::BufferTooLarge => -5i32,
            },
    {
        match self {
            SketchError::CapacityExceeded => -1,
            SketchError::UnknownComponent(_) => -2,
            SketchError::SlotOutOfRange(_) => -3,
            SketchError::ReservedSlot => -4,
            SketchError::BufferTooLarge => -5,
        }
    }
}

/// Where a propagation stands.
#[derive(Clone, Copy, Debug, PartialEq, Eq, Structural)]
pub enum Phase {
    /// No propagation is under way.
    Idle,
    /// A propagation is under way and waits for `next_step`.
    Running,
    /// The host evaluates this component and then calls `finish_evaluation`.
    Evaluating(usize),
}

/// What the host does next in a propagation.
#[derive(Clone, Copy, Debug, PartialEq, Eq, Structural)]
pub enum Step {
    /// Evaluate this component, then call `finish_evaluation`.
    Evaluate(usize),
    /// Every wave has been evaluated: the graph has settled.
    Settled,
    /// This component was scheduled more than `MAX_LOOP_COUNT` times in one
    /// propagation; the propagation has been abandoned.
    InfiniteLoopDetected(usize),
}

/// Why a destination cannot receive a value from a connection or an
/// injection, in a sketch of `len` components.
pub open spec fn destination_error(len: nat, d: Destination) -> Option<SketchError> {
    if d.0 >= len {
        Some(SketchError::UnknownComponent(d.0))
    } else if d.1 >= COMPONENT_INPUT_LENGTH {
        Some(SketchError::SlotOutOfRange(d.1))
    } else if d.1 == DIFF_TIME_INPUT {
        Some(SketchError::ReservedSlot)
    } else {
        None
    }
}

/// Why `connect(d, source)` is rejected in a sketch of `len` components.
pub open spec fn connect_error(len: nat, d: Destination, source: usize) -> Option<SketchError> {
    if source >= len {
        Some(SketchError::UnknownComponent(source))
    } else {
        destination_error(len, d)
    }
}

/// The error of the first entry of a batch whose destination is rejected.
pub open spec fn batch_error<V>(len: nat, inputs: Seq<(Destination, V)>) -> Option<SketchError>
    decreases inputs.len(),
{
    if inputs.len() == 0 {
        None
    } else {
        let prior = batch_error(len, inputs.drop_last());
        if prior is Some {
            prior
        } else {
            destination_error(len, inputs.last().0)
        }
    }
}

/// The value of slot `d` after the writes of `inputs` in order, where it held
/// `prior` before them: the last write to it wins.
pub open spec fn written_value<V>(inputs: Seq<(Destination, V)>, d: Destination, prior: V) -> V
    decreases inputs.len(),
{
    if inputs.len() == 0 {
        prior
    } else if inputs.last().0 == d {
        inputs.last().1
    } else {
        written_value(inputs.drop_last(), d, prior)
    }
}

/// `q` followed by each id of `ids`, in order, that is not in it yet.
pub open spec fn push_distinct(q: Seq<usize>, ids: Seq<usize>) -> Seq<usize>
    decreases ids.len(),
{
    if ids.len() == 0 {
        q
    } else {
        let p = push_distinct(q, ids.drop_last());
        if p.contains(ids.last()) {
            p
        } else {
            p.push(ids.last())
        }
    }
}

/// The components that a list of destinations names, in order.
pub open spec fn destination_ids(ds: Seq<Destination>) -> Seq<usize> {
    ds.map_values(|d: Destination| d.0)
}

/// The components that a batch of injections names, in order.
pub open spec fn input_ids<V>(inputs: Seq<(Destination, V)>) -> Seq<usize> {
    inputs.map_values(|x: (Destination, V)| x.0.0)
}

/// How many more evaluations the loop counts allow, summed over components.
pub open spec fn evaluations_left(counts: Seq<u32>) -> nat
    decreases counts.len(),
{
    if counts.len() == 0 {
        0
    } else {
        let c = counts.last();
        evaluations_left(counts.drop_last()) + if c <= MAX_LOOP_COUNT {
            (MAX_LOOP_COUNT - c) as nat
        } else {
            0
        }
    }
}

/// Appends `id` to `q` unless `q` holds it already.
fn push_distinct_id(q: &mut Vec<usize>, id: usize)
    ensures
        final(q)@ == if old(q)@.contains(id) {
            old(q)@
        } else {
            old(q)@.push(id)
        },
{
    let mut i: usize = 0;
    while i < q.len()
        invariant
            i <= q@.len(),
            q@ == old(q)@,
            forall|k: int| 0 <= k < i ==> q@[k] != id,
        decreases q@.len() - i,
    {
        if q[i] == id {
            return;
        }
        i += 1;
    }
    q.push(id);
}

proof fn lemma_evaluations_left_step(counts: Seq<u32>, i: int)
    requires
        0 <= i < counts.len(),
        counts[i] < MAX_LOOP_COUNT,
    ensures
        evaluations_left(counts.update(i, (counts[i] + 1) as u32)) + 1 == evaluations_left(counts),
    decreases counts.len(),
{
    let u = counts.update(i, (counts[i] + 1) as u32);
    if i == counts.len() - 1 {
        assert(u.drop_last() =~= counts.drop_last());
    } else {
        assert(u.drop_last() =~= counts.drop_last().update(i, (counts[i] + 1) as u32));
        lemma_evaluations_left_step(counts.drop_last(), i);
    }
}

proof fn lemma_evaluations_left_fresh(counts: Seq<u32>)
    requires
        forall|i: int| 0 <= i < counts.len() ==> counts[i] == 0,
    ensures
        evaluations_left(counts) == MAX_LOOP_COUNT * counts.len(),
    decreases counts.len(),
{
    if counts.len() > 0 {
        lemma_evaluations_left_fresh(counts.drop_last());
    }
}

proof fn lemma_batch_error_extends<V>(len: nat, inputs: Seq<(Destination, V)>, i: int)
    requires
        0 <= i < inputs.len(),
        batch_error(len, inputs.take(i)) is None,
        destination_error(len, inputs[i].0) is Some,
    ensures
        batch_error(len, inputs) == destination_error(len, inputs[i].0),
    decreases inputs.len(),
{
    if i < inputs.len() - 1 {
        assert(inputs.drop_last().take(i) =~= inputs.take(i));
        lemma_batch_error_extends(len, inputs.drop_last(), i);
    } else {
        assert(inputs.drop_last() =~= inputs.take(i));
    }
}

proof fn lemma_batch_error_entry<V>(len: nat, inputs: Seq<(Destination, V)>, i: int)
    requires
        0 <= i < inputs.len(),
        batch_error(len, inputs) is None,
    ensures
        destination_error(len, inputs[i].0) is None,
    decreases inputs.len(),
{
    if i < inputs.len() - 1 {
        lemma_batch_error_entry(len, inputs.drop_last(), i);
    }
}

proof fn lemma_take_next_contains<T>(f: Seq<T>, k: int, x: T)
    requires
        0 <= k < f.len(),
    ensures
        f.take(k + 1).contains(x) <==> (f.take(k).contains(x) || f[k] == x),
{
    if f.take(k).contains(x) {
        let j = choose|j: int| 0 <= j < k && #[trigger] f.take(k)[j] == x;
        assert(f.take(k + 1)[j] == x);
    }
    if f[k] == x {
        assert(f.take(k + 1)[k] == x);
    }
    if f.take(k + 1).contains(x) {
        let j = choose|j: int| 0 <= j < k + 1 && #[trigger] f.take(k + 1)[j] == x;
        if j < k {
            assert(f.take(k)[j] == x);
        }
    }
}

proof fn lemma_evaluations_left_at_most(counts: Seq<u32>)
    ensures
        evaluations_left(counts) <= MAX_LOOP_COUNT * counts.len(),
    decreases counts.len(),
{
    if counts.len() > 0 {
        lemma_evaluations_left_at_most(counts.drop_last());
    }
}

/// A propagation never hangs. Each `Step::Evaluate` that `next_step` hands
/// out uses up one of the evaluations that the loop counts still allow
/// (`evaluations_left`), `finish_evaluation` gives none back, and a sketch of
/// `len` components never has more than `MAX_LOOP_COUNT * len` of them left.
/// So within `MAX_LOOP_COUNT * len` evaluations `next_step` returns
/// `Step::Settled` or `Step::InfiniteLoopDetected`.
pub proof fn lemma_propagation_is_bounded<V>(s: &Sketch<V>)
    requires
        s.wf(),
    ensures
        evaluations_left(s.loop_counts()) <= MAX_LOOP_COUNT * s.len(),
{
    lemma_evaluations_left_at_most(s.loop_counts());
}

/// The shape of a well-formed sketch, as callers see it: one loop count per
/// component, bounded by `MAX_LOOP_COUNT` while a propagation runs; waves that
/// name existing components, each at most once; connections that target existing components
/// and slots other than the time step; a component under evaluation that
/// stands at the cursor of the wave and has been counted.
pub proof fn lemma_wf_shape<V>(s: &Sketch<V>)
    requires
        s.wf(),
    ensures
        s.loop_counts().len() == s.len(),
        s.len() <= SKETCH_COMPONENT_MAX_LENGTH,
        s.cursor() <= s.wave().len(),
        s.wave().no_duplicates(),
        s.next_wave().no_duplicates(),
        forall|i: int| 0 <= i < s.wave().len() ==> #[trigger] s.wave()[i] < s.len(),
        forall|i: int| 0 <= i < s.next_wave().len() ==> #[trigger] s.next_wave()[i] < s.len(),
        forall|c: int| 0 <= c < s.len() ==> #[trigger] s.loop_counts()[c] <= MAX_LOOP_COUNT + 1,
        s.phase() != Phase::Idle ==> forall|c: int|
            0 <= c < s.len() ==> #[trigger] s.loop_counts()[c] <= MAX_LOOP_COUNT,
        forall|c: int| 0 <= c < s.len() ==> (#[trigger] s.components()[c]).wf(),
        forall|c: int, k: int|
            0 <= c < s.len() && 0 <= k < s.fanout(c).len() ==> Sketch::<V>::valid_connection(
                s.len(),
                #[trigger] s.fanout(c)[k],
            ),
        s.phase() is Evaluating ==> s.cursor() < s.wave().len() && s.wave()[s.cursor() as int]
            == s.pending() && s.loop_counts()[s.pending() as int] >= 1,
{
}

/// The graph: components owned by id, in creation order, and the state of
/// the propagation under way.
pub struct Sketch<V> {
    components: Vec<Component<V>>,
    rest: V,
    loop_counts: Vec<u32>,
    wave: Vec<usize>,
    cursor: usize,
    next_wave: Vec<usize>,
    phase: Phase,
}

impl<V> Sketch<V> {
    /// The components, indexed by id.
    pub closed spec fn components(&self) -> Seq<Component<V>> {
        self.components@
    }

    /// The value of an idle slot: what fresh components hold and what the
    /// time-step slot is reset to after each evaluation.
    pub closed spec fn rest(&self) -> V {
        self.rest
    }

    /// How many times each component has been scheduled in this propagation.
    pub closed spec fn loop_counts(&self) -> Seq<u32> {
        self.loop_counts@
    }

    /// The wave being evaluated.
    pub closed spec fn wave(&self) -> Seq<usize> {
        self.wave@
    }

    /// How many components of the wave have been taken up.
    pub closed spec fn cursor(&self) -> nat {
        self.cursor as nat
    }

    /// The next wave, without duplicates, in order of first scheduling.
    pub closed spec fn next_wave(&self) -> Seq<usize> {
        self.next_wave@
    }

    /// Where the propagation stands.
    pub closed spec fn phase(&self) -> Phase {
        self.phase
    }

    /// The number of components.
    pub open spec fn len(&self) -> nat {
        self.components().len()
    }

    /// The value in input slot `s` of component `c`.
    pub open spec fn slot(&self, c: int, s: int) -> V {
        self.components()[c].input_values@[s]
    }

    /// The current output of component `c`.
    pub open spec fn output(&self, c: int) -> V {
        self.components()[c].output_value
    }

    /// The destinations of the output of component `c`, in connection order.
    pub open spec fn fanout(&self, c: int) -> Seq<Destination> {
        self.components()[c].output_destinations@
    }

    /// A connection of a sketch of `len` components targets an existing
    /// component and a slot other than the time step.
    pub open spec fn valid_connection(len: nat, d: Destination) -> bool {
        destination_error(len, d) is None
    }

    /// The invariant of a sketch; `lemma_wf_shape` states what callers may
    /// rely on.
    pub closed spec fn wf(&self) -> bool {
        let n = self.components@.len();
        &&& n <= SKETCH_COMPONENT_MAX_LENGTH
        &&& self.loop_counts@.len() == n
        &&& forall|c: int| 0 <= c < n ==> (#[trigger] self.components@[c]).wf()
        &&& forall|c: int, k: int|
            0 <= c < n && 0 <= k < self.components@[c].output_destinations@.len()
                ==> Self::valid_connection(n, #[trigger] self.components@[c].output_destinations@[k])
        &&& forall|i: int| 0 <= i < self.wave@.len() ==> #[trigger] self.wave@[i] < n
        &&& forall|i: int| 0 <= i < self.next_wave@.len() ==> #[trigger] self.next_wave@[i] < n
        &&& self.cursor <= self.wave@.len()
        &&& self.wave@.no_duplicates()
        &&& self.next_wave@.no_duplicates()
        &&& forall|c: int| 0 <= c < n ==> #[trigger] self.loop_counts@[c] <= MAX_LOOP_COUNT + 1
        &&& self.phase != Phase::Idle ==> forall|c: int|
            0 <= c < n ==> #[trigger] self.loop_counts@[c] <= MAX_LOOP_COUNT
        &&& self.phase != Phase::Idle ==> forall|c: int|
            0 <= c < n && #[trigger] self.loop_counts@[c] >= 1 && self.phase != Phase::Evaluating(
                c as usize,
            ) ==> self.components@[c].input_values@[DIFF_TIME_INPUT as int] == self.rest
        &&& match self.phase {
            Phase::Evaluating(id) => {
                &&& self.cursor < self.wave@.len()
                &&& self.wave@[self.cursor as int] == id
                &&& self.loop_counts@[id as int] >= 1
            },
            _ => true,
        }
    }

    /// The wave under way has been taken up to its end.
    pub open spec fn wave_done(&self) -> bool {
        self.cursor() == self.wave().len()
    }

    /// Nothing is left to evaluate in this propagation.
    pub open spec fn settled(&self) -> bool {
        self.wave_done() && self.next_wave().len() == 0
    }

    /// The wave from which the next component is taken: the next wave takes
    /// the place of one that has been taken up to its end.
    pub open spec fn scheduled_wave(&self) -> Seq<usize> {
        if self.wave_done() {
            self.next_wave()
        } else {
            self.wave()
        }
    }

    /// The position in `scheduled_wave` of the component taken up next.
    pub open spec fn scheduled_cursor(&self) -> nat {
        if self.wave_done() {
            0
        } else {
            self.cursor()
        }
    }

    /// The next wave once the next component has been taken up.
    pub open spec fn scheduled_next_wave(&self) -> Seq<usize> {
        if self.wave_done() {
            Seq::empty()
        } else {
            self.next_wave()
        }
    }

    /// The component that the next step takes up.
    pub open spec fn scheduled_id(&self) -> usize {
        self.scheduled_wave()[self.scheduled_cursor() as int]
    }

    /// The component under evaluation.
    pub open spec fn pending(&self) -> usize {
        match self.phase() {
            Phase::Evaluating(id) => id,
            _ => 0,
        }
    }

    /// The components of `self` and `other` agree but for their input slots
    /// and outputs.
    pub open spec fn same_but_values(&self, other: &Self) -> bool {
        &&& self.len() == other.len()
        &&& forall|c: int|
            0 <= c < self.len() ==> {
                &&& (#[trigger] self.components()[c]).component_type
                    == other.components()[c].component_type
                &&& self.components()[c].registers@ == other.components()[c].registers@
                &&& self.components()[c].output_destinations@
                    == other.components()[c].output_destinations@
            }
    }
}

impl<V: Copy> Sketch<V> {
    /// An empty sketch whose idle slots hold `rest`.
    pub fn new(rest: V) -> (r: Sketch<V>)
        ensures
            r.wf(),
            r.len() == 0,
            r.rest() == rest,
            r.phase() == Phase::Idle,
    {
        Sketch {
            components: Vec::new(),
            rest,
            loop_counts: Vec::new(),
            wave: Vec::new(),
            cursor: 0,
            next_wave: Vec::new(),
            phase: Phase::Idle,
        }
    }

    /// Removes every component, ready for a new session.
    pub fn init(&mut self)
        ensures
            final(self).wf(),
            final(self).len() == 0,
            final(self).rest() == old(self).rest(),
            final(self).phase() == Phase::Idle,
    {
        self.components.clear();
        self.loop_counts.clear();
        self.wave.clear();
        self.cursor = 0;
        self.next_wave.clear();
        self.phase = Phase::Idle;
    }

    /// The number of components.
    pub fn component_count(&self) -> (r: usize)
        requires
            self.wf(),
        ensures
            r == self.len(),
    {
        self.components.len()
    }

    /// Appends a fresh component of the given type; its id is the number of
    /// components created before it.
    pub fn create_component(&mut self, component_type: ComponentType) -> (r: Result<
        usize,
        SketchError,
    >)
        requires
            old(self).wf(),
        ensures
            final(self).wf(),
            final(self).rest() == old(self).rest(),
            final(self).phase() == old(self).phase(),
            final(self).wave() == old(self).wave(),
            final(self).cursor() == old(self).cursor(),
            final(self).next_wave() == old(self).next_wave(),
            old(self).len() == SKETCH_COMPONENT_MAX_LENGTH ==> r == Err::<usize, SketchError>(
                SketchError::CapacityExceeded,
            ) && final(self).components() == old(self).components() && final(self).loop_counts()
                == old(self).loop_counts(),
            old(self).len() < SKETCH_COMPONENT_MAX_LENGTH ==> {
                &&& r == Ok::<usize, SketchError>(old(self).len() as usize)
                &&& final(self).len() == old(self).len() + 1
                &&& final(self).components().drop_last() == old(self).components()
                &&& final(self).components().last().is_fresh(component_type, old(self).rest())
                &&& final(self).loop_counts() == old(self).loop_counts().push(0)
            },
    {
        if self.components.len() >= SKETCH_COMPONENT_MAX_LENGTH {
            return Err(SketchError::CapacityExceeded);
        }
        let id = self.components.len();
        let c = Component::new(component_type, self.rest);
        self.components.push(c);
        self.loop_counts.push(0);
        proof {
            assert(self.components@.drop_last() =~= old(self).components@);
            assert forall|k: int, j: int|
                0 <= k < self.components@.len() && 0 <= j
                    < self.components@[k].output_destinations@.len() implies Self::valid_connection(
                self.components@.len(),
                #[trigger] self.components@[k].output_destinations@[j],
            ) by {
                if k < id {
                    assert(Self::valid_connection(
                        old(self).components@.len(),
                        old(self).components@[k].output_destinations@[j],
                    ));
                }
            }
        }
        Ok(id)
    }

    /// Delivers the output of `output_component_index` to `input_destination`
    /// from now on. Edges are only ever added; cycles are allowed.
    pub fn connect(&mut self, input_destination: Destination, output_component_index: usize) -> (r:
        Result<(), SketchError>)
        requires
            old(self).wf(),
        ensures
            final(self).wf(),
            final(self).rest() == old(self).rest(),
            final(self).phase() == old(self).phase(),
            final(self).wave() == old(self).wave(),
            final(self).cursor() == old(self).cursor(),
            final(self).next_wave() == old(self).next_wave(),
            final(self).loop_counts() == old(self).loop_counts(),
            final(self).len() == old(self).len(),
            match connect_error(old(self).len(), input_destination, output_component_index) {
                Some(e) => r == Err::<(), SketchError>(e) && final(self).components()
                    == old(self).components(),
                None => {
                    &&& r == Ok::<(), SketchError>(())
                    &&& forall|c: int|
                        0 <= c < old(self).len() && c != output_component_index
                            ==> #[trigger] final(self).components()[c] == old(self).components()[c]
                    &&& final(self).components()[output_component_index as int].component_type
                        == old(self).components()[output_component_index as int].component_type
                    &&& final(self).components()[output_component_index as int].input_values
                        == old(self).components()[output_component_index as int].input_values
                    &&& final(self).components()[output_component_index as int].registers == old(self).components()[output_component_index as int].registers
                    &&& final(self).output(output_component_index as int) == old(self).output(
                        output_component_index as int,
                    )
                    &&& final(self).fanout(output_component_index as int) == old(self).fanout(
                        output_component_index as int,
                    ).push(input_destination)
                },
            },
    {
        let n = self.components.len();
        if output_component_index >= n {
            return Err(SketchError::UnknownComponent(output_component_index));
        }
        if input_destination.0 >= n {
            return Err(SketchError::UnknownComponent(input_destination.0));
        }
        if input_destination.1 >= COMPONENT_INPUT_LENGTH {
            return Err(SketchError::SlotOutOfRange(input_destination.1));
        }
        if input_destination.1 == DIFF_TIME_INPUT {
            return Err(SketchError::ReservedSlot);
        }
        self.components[output_component_index].output_destinations.push(input_destination);
        proof {
            assert forall|k: int, j: int|
                0 <= k < self.components@.len() && 0 <= j
                    < self.components@[k].output_destinations@.len() implies Self::valid_connection(
                self.components@.len(),
                #[trigger] self.components@[k].output_destinations@[j],
            ) by {
                if k != output_component_index || j < old(self).components@[k].output_destinations@.len() {
                    assert(Self::valid_connection(
                        old(self).components@.len(),
                        old(self).components@[k].output_destinations@[j],
                    ));
                }
            }
            assert(forall|c: int| 0 <= c < n ==> (#[trigger] self.components@[c]).wf());
        }
        Ok(())
    }

    /// Resets the loop counts and the waves, with the phase made idle.
    fn clear_schedule(&mut self)
        requires
            old(self).wf(),
        ensures
            final(self).wf(),
            final(self).components() == old(self).components(),
            final(self).rest() == old(self).rest(),
            final(self).phase() == Phase::Idle,
            final(self).cursor() == 0,
            final(self).wave().len() == 0,
            final(self).next_wave().len() == 0,
            final(self).loop_counts().len() == old(self).len(),
            forall|c: int| 0 <= c < old(self).len() ==> #[trigger] final(self).loop_counts()[c] == 0,
    {
        self.phase = Phase::Idle;
        self.wave.clear();
        self.next_wave.clear();
        self.cursor = 0;
        let n = self.loop_counts.len();
        let mut c: usize = 0;
        while c < n
            invariant
                self.wf(),
                n == self.loop_counts@.len(),
                c <= n,
                self.components@ == old(self).components@,
                self.rest == old(self).rest,
                self.phase == Phase::Idle,
                self.cursor == 0,
                self.wave@.len() == 0,
                self.next_wave@.len() == 0,
                forall|k: int| 0 <= k < c ==> #[trigger] self.loop_counts@[k] == 0,
            decreases n - c,
        {
            self.loop_counts.set(c, 0);
            c += 1;
        }
    }

    /// Writes each injected value into its slot, in order, and starts a
    /// propagation whose first wave holds the injected components, each once,
    /// in order of first injection. The host then calls `next_step` until it
    /// no longer returns `Step::Evaluate`.
    ///
    /// A batch with a rejected destination changes nothing; the error is that
    /// of its first such entry.
    pub fn input_values(&mut self, inputs: Vec<(Destination, V)>) -> (r: Result<(), SketchError>)
        requires
            old(self).wf(),
        ensures
            final(self).wf(),
            match batch_error(old(self).len(), inputs@) {
                Some(e) => r == Err::<(), SketchError>(e) && *final(self) == *old(self),
                None => {
                    &&& r == Ok::<(), SketchError>(())
                    &&& final(self).same_but_values(old(self))
                    &&& final(self).rest() == old(self).rest()
                    &&& final(self).phase() == Phase::Running
                    &&& final(self).wave() == push_distinct(Seq::empty(), input_ids(inputs@))
                    &&& final(self).cursor() == 0
                    &&& final(self).next_wave().len() == 0
                    &&& forall|c: int|
                        0 <= c < old(self).len() ==> #[trigger] final(self).loop_counts()[c] == 0
                    &&& evaluations_left(final(self).loop_counts()) == MAX_LOOP_COUNT * old(self).len()
                    &&& forall|c: int|
                        0 <= c < old(self).len() ==> #[trigger] final(self).output(c) == old(self).output(c)
                    &&& forall|c: int, s: int|
                        0 <= c < old(self).len() && 0 <= s < COMPONENT_INPUT_LENGTH
                            ==> #[trigger] final(self).slot(c, s) == written_value(
                            inputs@,
                            (c as usize, s as usize),
                            old(self).slot(c, s),
                        )
                },
            },
    {
        let n = self.components.len();
        let mut i: usize = 0;
        while i < inputs.len()
            invariant
                i <= inputs@.len(),
                *self == *old(self),
                self.wf(),
                n == old(self).len(),
                batch_error(n as nat, inputs@.take(i as int)) is None,
            decreases inputs@.len() - i,
        {
            assert(inputs@.take(i + 1).drop_last() =~= inputs@.take(i as int));
            let d = inputs[i].0;
            if d.0 >= n {
                assert(inputs@.take(inputs@.len() as int) =~= inputs@);
                proof { lemma_batch_error_extends(n as nat, inputs@, i as int); }
                return Err(SketchError::UnknownComponent(d.0));
            }
            if d.1 >= COMPONENT_INPUT_LENGTH {
                proof { lemma_batch_error_extends(n as nat, inputs@, i as int); }
                return Err(SketchError::SlotOutOfRange(d.1));
            }
            if d.1 == DIFF_TIME_INPUT {
                proof { lemma_batch_error_extends(n as nat, inputs@, i as int); }
                return Err(SketchError::ReservedSlot);
            }
            i += 1;
        }
        assert(inputs@.take(inputs@.len() as int) =~= inputs@);
        self.clear_schedule();
        self.phase = Phase::Running;
        let ghost cleared = *self;
        let mut i: usize = 0;
        while i < inputs.len()
            invariant
                self.wf(),
                i <= inputs@.len(),
                n == self.len(),
                batch_error(n as nat, inputs@) is None,
                self.same_but_values(&cleared),
                self.rest == cleared.rest,
                self.phase == Phase::Running,
                self.cursor == 0,
                self.next_wave@.len() == 0,
                self.loop_counts@ == cleared.loop_counts@,
                forall|c: int| 0 <= c < n ==> #[trigger] self.loop_counts@[c] == 0,
                self.wave@ == push_distinct(Seq::empty(), input_ids(inputs@.take(i as int))),
                forall|c: int| 0 <= c < n ==> #[trigger] self.output(c) == cleared.output(c),
                forall|c: int, s: int|
                    0 <= c < n && 0 <= s < COMPONENT_INPUT_LENGTH ==> #[trigger] self.slot(c, s)
                        == written_value(
                        inputs@.take(i as int),
                        (c as usize, s as usize),
                        cleared.slot(c, s),
                    ),
            decreases inputs@.len() - i,
        {
            proof { lemma_batch_error_entry(n as nat, inputs@, i as int); }
            let (d, v) = inputs[i];
            let ghost prev = *self;
            self.components[d.0].input_values.set(d.1, v);
            push_distinct_id(&mut self.wave, d.0);
            proof {
                let t = inputs@.take(i + 1);
                assert(t.drop_last() =~= inputs@.take(i as int));
                assert(t.last() == (d, v));
                assert forall|c: int| 0 <= c < n implies #[trigger] self.output(c)
                    == cleared.output(c) by {
                    assert(prev.output(c) == cleared.output(c));
                }
                assert forall|c: int, s: int|
                    0 <= c < n && 0 <= s < COMPONENT_INPUT_LENGTH implies #[trigger] self.slot(c, s)
                        == written_value(t, (c as usize, s as usize), cleared.slot(c, s)) by {
                    assert(prev.slot(c, s) == written_value(
                        inputs@.take(i as int),
                        (c as usize, s as usize),
                        cleared.slot(c, s),
                    ));
                }
                assert(input_ids(t).drop_last() =~= input_ids(inputs@.take(i as int)));
                assert(forall|c: int| 0 <= c < n ==> (#[trigger] self.components@[c]).wf());
                assert forall|c: int, k: int|
                    0 <= c < n && 0 <= k < self.components@[c].output_destinations@.len()
                        implies Self::valid_connection(
                    n as nat,
                    #[trigger] self.components@[c].output_destinations@[k],
                ) by {
                    assert(self.components@[c].output_destinations@
                        == cleared.components@[c].output_destinations@);
                }
            }
            i += 1;
        }
        proof {
            assert(inputs@.take(i as int) =~= inputs@);
            lemma_evaluations_left_fresh(self.loop_counts@);
            assert forall|c: int, s: int|
                0 <= c < n && 0 <= s < COMPONENT_INPUT_LENGTH implies #[trigger] self.slot(c, s)
                    == written_value(inputs@, (c as usize, s as usize), old(self).slot(c, s)) by {
                assert(cleared.slot(c, s) == old(self).slot(c, s));
            }
        }
        Ok(())
    }

    /// Writes one value into one slot and starts a propagation from its
    /// component, as `input_values` does for a batch of one.
    pub fn input_value(&mut self, index: Destination, value: V) -> (r: Result<(), SketchError>)
        requires
            old(self).wf(),
        ensures
            final(self).wf(),
            match destination_error(old(self).len(), index) {
                Some(e) => r == Err::<(), SketchError>(e) && *final(self) == *old(self),
                None => {
                    &&& r == Ok::<(), SketchError>(())
                    &&& final(self).same_but_values(old(self))
                    &&& final(self).rest() == old(self).rest()
                    &&& final(self).phase() == Phase::Running
                    &&& final(self).wave() == seq![index.0]
                    &&& final(self).cursor() == 0
                    &&& final(self).next_wave().len() == 0
                    &&& forall|c: int|
                        0 <= c < old(self).len() ==> #[trigger] final(self).loop_counts()[c] == 0
                    &&& forall|c: int|
                        0 <= c < old(self).len() ==> #[trigger] final(self).output(c) == old(
                            self,
                        ).output(c)
                    &&& forall|c: int, s: int|
                        0 <= c < old(self).len() && 0 <= s < COMPONENT_INPUT_LENGTH
                            ==> #[trigger] final(self).slot(c, s) == if (c as usize, s as usize)
                            == index {
                            value
                        } else {
                            old(self).slot(c, s)
                        }
                },
            },
    {
        let inputs = vec![(index, value)];
        proof {
            let x = inputs@;
            assert(x.drop_last() =~= Seq::<(Destination, V)>::empty());
            assert(batch_error(old(self).len(), x.drop_last()) is None);
            assert(batch_error(old(self).len(), x) == destination_error(old(self).len(), index));
            let ids = input_ids(x);
            assert(ids.drop_last() =~= Seq::<usize>::empty());
            assert(ids.last() == index.0);
            assert(push_distinct(Seq::empty(), ids.drop_last()) == Seq::<usize>::empty());
            assert(!Seq::<usize>::empty().contains(index.0));
            assert(push_distinct(Seq::empty(), ids) =~= seq![index.0]);
            assert forall|d: Destination, prior: V| #[trigger] written_value(x, d, prior) == if d
                == index {
                value
            } else {
                prior
            } by {
                assert(written_value(x.drop_last(), d, prior) == prior);
            }
        }
        self.input_values(inputs)
    }

    /// Starts the propagation of one tick: the time step `dt` is written into
    /// the time-step slot of every component, and the first wave holds every
    /// component in id order.
    pub fn next_tick(&mut self, dt: V)
        requires
            old(self).wf(),
        ensures
            final(self).wf(),
            final(self).same_but_values(old(self)),
            final(self).rest() == old(self).rest(),
            final(self).phase() == Phase::Running,
            final(self).wave() == Seq::new(old(self).len(), |c: int| c as usize),
            final(self).cursor() == 0,
            final(self).next_wave().len() == 0,
            forall|c: int| 0 <= c < old(self).len() ==> #[trigger] final(self).loop_counts()[c] == 0,
            evaluations_left(final(self).loop_counts()) == MAX_LOOP_COUNT * old(self).len(),
            forall|c: int|
                0 <= c < old(self).len() ==> #[trigger] final(self).output(c) == old(self).output(c),
            forall|c: int, s: int|
                0 <= c < old(self).len() && 0 <= s < COMPONENT_INPUT_LENGTH ==> #[trigger] final(self).slot(c, s) == if s == DIFF_TIME_INPUT {
                    dt
                } else {
                    old(self).slot(c, s)
                },
    {
        self.clear_schedule();
        self.phase = Phase::Running;
        let ghost cleared = *self;
        let n = self.components.len();
        let mut c: usize = 0;
        while c < n
            invariant
                self.wf(),
                c <= n,
                n == self.len(),
                n == old(self).len(),
                self.same_but_values(&cleared),
                self.rest == cleared.rest,
                self.phase == Phase::Running,
                self.cursor == 0,
                self.next_wave@.len() == 0,
                self.loop_counts@ == cleared.loop_counts@,
                forall|k: int| 0 <= k < n ==> #[trigger] self.loop_counts@[k] == 0,
                self.wave@ == Seq::new(c as nat, |k: int| k as usize),
                forall|k: int| 0 <= k < n ==> #[trigger] self.output(k) == old(self).output(k),
                forall|k: int, s: int|
                    0 <= k < n && 0 <= s < COMPONENT_INPUT_LENGTH ==> #[trigger] self.slot(k, s)
                        == if s == DIFF_TIME_INPUT && k < c {
                        dt
                    } else {
                        old(self).slot(k, s)
                    },
            decreases n - c,
        {
            let ghost prev = *self;
            self.components[c].input_values.set(DIFF_TIME_INPUT, dt);
            self.wave.push(c);
            proof {
                assert(self.wave@ =~= Seq::new((c + 1) as nat, |k: int| k as usize));
                assert forall|k: int| 0 <= k < n implies #[trigger] self.output(k) == old(self).output(k) by {
                    assert(prev.output(k) == old(self).output(k));
                }
                assert forall|k: int, s: int|
                    0 <= k < n && 0 <= s < COMPONENT_INPUT_LENGTH implies #[trigger] self.slot(k, s)
                        == if s == DIFF_TIME_INPUT && k < c + 1 {
                        dt
                    } else {
                        old(self).slot(k, s)
                    } by {
                    assert(prev.slot(k, s) == if s == DIFF_TIME_INPUT && k < c {
                        dt
                    } else {
                        old(self).slot(k, s)
                    });
                }
                assert(forall|k: int| 0 <= k < n ==> (#[trigger] self.components@[k]).wf());
                assert forall|k: int, j: int|
                    0 <= k < n && 0 <= j < self.components@[k].output_destinations@.len()
                        implies Self::valid_connection(
                    n as nat,
                    #[trigger] self.components@[k].output_destinations@[j],
                ) by {
                    assert(self.components@[k].output_destinations@
                        == prev.components@[k].output_destinations@);
                }
            }
            c += 1;
        }
        proof {
            lemma_evaluations_left_fresh(self.loop_counts@);
        }
    }

    /// Takes up the next component of the propagation. When the wave under
    /// way is used up, the next wave takes its place; when that is empty too,
    /// the graph has settled. The component's loop count goes up by one; past
    /// `MAX_LOOP_COUNT` the propagation is abandoned.
    pub fn next_step(&mut self) -> (r: Step)
        requires
            old(self).wf(),
            old(self).phase() == Phase::Running,
        ensures
            final(self).wf(),
            final(self).components() == old(self).components(),
            final(self).rest() == old(self).rest(),
            old(self).settled() ==> r == Step::Settled && final(self).phase() == Phase::Idle
                && final(self).loop_counts() == old(self).loop_counts(),
            !old(self).settled() ==> {
                let id = old(self).scheduled_id();
                let count = old(self).loop_counts()[id as int];
                &&& id < old(self).len()
                &&& final(self).wave() == old(self).scheduled_wave()
                &&& final(self).cursor() == old(self).scheduled_cursor()
                &&& final(self).next_wave() == old(self).scheduled_next_wave()
                &&& final(self).loop_counts() == old(self).loop_counts().update(
                    id as int,
                    (count + 1) as u32,
                )
                &&& count >= MAX_LOOP_COUNT ==> r == Step::InfiniteLoopDetected(id) && final(self).phase() == Phase::Idle
                &&& count < MAX_LOOP_COUNT ==> {
                    &&& r == Step::Evaluate(id)
                    &&& final(self).phase() == Phase::Evaluating(id)
                    &&& evaluations_left(final(self).loop_counts()) + 1 == evaluations_left(
                        old(self).loop_counts(),
                    )
                    &&& count >= 1 ==> final(self).slot(id as int, DIFF_TIME_INPUT as int)
                        == final(self).rest()
                }
            },
    {
        if self.cursor == self.wave.len() {
            if self.next_wave.len() == 0 {
                self.phase = Phase::Idle;
                return Step::Settled;
            }
            std::mem::swap(&mut self.wave, &mut self.next_wave);
            self.next_wave.clear();
            self.cursor = 0;
        }
        let id = self.wave[self.cursor];
        let count = self.loop_counts[id] + 1;
        proof {
            if count <= MAX_LOOP_COUNT {
                lemma_evaluations_left_step(self.loop_counts@, id as int);
            }
        }
        self.loop_counts.set(id, count);
        if count > MAX_LOOP_COUNT {
            self.phase = Phase::Idle;
            return Step::InfiniteLoopDetected(id);
        }
        self.phase = Phase::Evaluating(id);
        Step::Evaluate(id)
    }

    /// Ends the evaluation of the pending component: `output` becomes its
    /// output and its time-step slot returns to rest. When `changed` holds,
    /// the output is written into every destination it is connected to and
    /// their components join the next wave, each once.
    pub fn finish_evaluation(&mut self, output: V, changed: bool)
        requires
            old(self).wf(),
            old(self).phase() is Evaluating,
        ensures
            final(self).wf(),
            final(self).same_but_values(old(self)),
            final(self).rest() == old(self).rest(),
            final(self).phase() == Phase::Running,
            final(self).wave() == old(self).wave(),
            final(self).cursor() == old(self).cursor() + 1,
            final(self).loop_counts() == old(self).loop_counts(),
            final(self).output(old(self).pending() as int) == output,
            forall|c: int|
                0 <= c < old(self).len() && c != old(self).pending() ==> #[trigger] final(self).output(c) == old(self).output(c),
            forall|c: int, s: int|
                0 <= c < old(self).len() && 0 <= s < COMPONENT_INPUT_LENGTH ==> #[trigger] final(self).slot(c, s) == if changed && old(self).fanout(old(self).pending() as int).contains(
                    (c as usize, s as usize),
                ) {
                    output
                } else if c == old(self).pending() && s == DIFF_TIME_INPUT {
                    old(self).rest()
                } else {
                    old(self).slot(c, s)
                },
            final(self).next_wave() == if changed {
                push_distinct(
                    old(self).next_wave(),
                    destination_ids(old(self).fanout(old(self).pending() as int)),
                )
            } else {
                old(self).next_wave()
            },
    {
        let id = match self.phase {
            Phase::Evaluating(id) => id,
            _ => 0,
        };
        let rest = self.rest;
        self.components[id].output_value = output;
        self.components[id].input_values.set(DIFF_TIME_INPUT, rest);
        let wave_len = self.wave.len();
        assert(self.cursor < wave_len);
        self.cursor += 1;
        self.phase = Phase::Running;
        proof {
            assert(forall|c: int| 0 <= c < self.len() ==> (#[trigger] self.components@[c]).wf());
            assert forall|c: int, j: int|
                0 <= c < self.len() && 0 <= j < self.components@[c].output_destinations@.len()
                    implies Self::valid_connection(
                self.len(),
                #[trigger] self.components@[c].output_destinations@[j],
            ) by {
                assert(self.components@[c].output_destinations@
                    == old(self).components@[c].output_destinations@);
            }
            assert forall|c: int|
                0 <= c < self.len() && #[trigger] self.loop_counts@[c] >= 1 implies self.slot(
                c,
                DIFF_TIME_INPUT as int,
            ) == rest by {
                if c != id {
                    assert(old(self).slot(c, DIFF_TIME_INPUT as int) == rest);
                }
            }
        }
        let ghost start = *self;
        if changed {
            let m = self.components[id].output_destinations.len();
            let mut k: usize = 0;
            while k < m
                invariant
                    self.wf(),
                    k <= m,
                    id < self.len(),
                    self.len() == old(self).len(),
                    m == old(self).fanout(id as int).len(),
                    self.phase == Phase::Running,
                    self.rest == rest,
                    rest == old(self).rest(),
                    self.same_but_values(&start),
                    self.wave@ == old(self).wave@,
                    self.cursor == old(self).cursor + 1,
                    self.loop_counts@ == start.loop_counts@,
                    forall|c: int| 0 <= c < self.len() ==> #[trigger] self.output(c) == start.output(c),
                    self.fanout(id as int) == old(self).fanout(id as int),
                    forall|c: int, s: int|
                        0 <= c < self.len() && 0 <= s < COMPONENT_INPUT_LENGTH ==> #[trigger] self.slot(
                            c,
                            s,
                        ) == if old(self).fanout(id as int).take(k as int).contains(
                            (c as usize, s as usize),
                        ) {
                            output
                        } else {
                            start.slot(c, s)
                        },
                    self.next_wave@ == push_distinct(
                        old(self).next_wave(),
                        destination_ids(old(self).fanout(id as int).take(k as int)),
                    ),
                decreases m - k,
            {
                let d = self.components[id].output_destinations[k];
                let ghost prev = *self;
                proof {
                    assert(Self::valid_connection(self.len(), self.components@[id as int].output_destinations@[k as int]));
                }
                self.components[d.0].input_values.set(d.1, output);
                push_distinct_id(&mut self.next_wave, d.0);
                proof {
                    let f = old(self).fanout(id as int);
                    assert(f.take(k + 1) =~= f.take(k as int).push(d));
                    assert(destination_ids(f.take(k + 1)).drop_last() =~= destination_ids(
                        f.take(k as int),
                    ));
                    assert forall|c: int| 0 <= c < self.len() implies #[trigger] self.output(c)
                        == start.output(c) by {
                        assert(prev.output(c) == start.output(c));
                    }
                    assert forall|c: int, s: int|
                        0 <= c < self.len() && 0 <= s < COMPONENT_INPUT_LENGTH implies #[trigger] self.slot(
                            c,
                            s,
                        ) == if f.take(k + 1).contains((c as usize, s as usize)) {
                            output
                        } else {
                            start.slot(c, s)
                        } by {
                        assert(prev.slot(c, s) == if f.take(k as int).contains(
                            (c as usize, s as usize),
                        ) {
                            output
                        } else {
                            start.slot(c, s)
                        });
                        lemma_take_next_contains(f, k as int, (c as usize, s as usize));
                    }
                    assert(forall|c: int| 0 <= c < self.len() ==> (#[trigger] self.components@[c]).wf());
                    assert forall|c: int, j: int|
                        0 <= c < self.len() && 0 <= j < self.components@[c].output_destinations@.len()
                            implies Self::valid_connection(
                        self.len(),
                        #[trigger] self.components@[c].output_destinations@[j],
                    ) by {
                        assert(self.components@[c].output_destinations@
                            == prev.components@[c].output_destinations@);
                    }
                }
                k += 1;
            }
            proof {
                assert(old(self).fanout(id as int).take(m as int) =~= old(self).fanout(id as int));
            }
        }
        proof {
            let f = old(self).fanout(id as int);
            assert forall|c: int|
                0 <= c < self.len() && #[trigger] self.loop_counts@[c] >= 1 implies self.slot(
                c,
                DIFF_TIME_INPUT as int,
            ) == rest by {
                if f.contains((c as usize, DIFF_TIME_INPUT)) {
                    let j = choose|j: int| 0 <= j < f.len() && #[trigger] f[j] == (c as usize, DIFF_TIME_INPUT);
                    assert(Self::valid_connection(old(self).len(), old(self).components@[id as int].output_destinations@[j]));
                }
            }
        }
    }

    /// Sets a register of a component.
    pub fn set_register(&mut self, index: usize, register: usize, value: V)
        requires
            old(self).wf(),
            index < old(self).len(),
            register < COMPONENT_REGISTER_LENGTH,
        ensures
            final(self).wf(),
            final(self).rest() == old(self).rest(),
            final(self).phase() == old(self).phase(),
            final(self).wave() == old(self).wave(),
            final(self).cursor() == old(self).cursor(),
            final(self).next_wave() == old(self).next_wave(),
            final(self).loop_counts() == old(self).loop_counts(),
            final(self).len() == old(self).len(),
            final(self).components()[index as int].registers@ == old(self).components()[index as int].registers@.update(register as int, value),
            final(self).components()[index as int].component_type == old(self).components()[index as int].component_type,
            final(self).components()[index as int].input_values == old(self).components()[index as int].input_values,
            final(self).output(index as int) == old(self).output(index as int),
            final(self).fanout(index as int) == old(self).fanout(index as int),
            forall|c: int|
                0 <= c < old(self).len() && c != index ==> #[trigger] final(self).components()[c]
                    == old(self).components()[c],
    {
        self.components[index].registers.set(register, value);
        proof {
            assert(forall|c: int| 0 <= c < self.len() ==> (#[trigger] self.components@[c]).wf());
            assert forall|c: int, j: int|
                0 <= c < self.len() && 0 <= j < self.components@[c].output_destinations@.len()
                    implies Self::valid_connection(
                self.len(),
                #[trigger] self.components@[c].output_destinations@[j],
            ) by {
                assert(self.components@[c].output_destinations@
                    == old(self).components@[c].output_destinations@);
            }
        }
    }

    /// The current output of a component.
    pub fn get_output_value(&self, index: usize) -> (r: V)
        requires
            self.wf(),
            index < self.len(),
        ensures
            r == self.output(index as int),
    {
        self.components[index].output_value
    }

    /// A component, to be read by the host that evaluates it.
    pub fn component(&self, index: usize) -> (r: &Component<V>)
        requires
            self.wf(),
            index < self.len(),
        ensures
            *r == self.components()[index as int],
            r.wf(),
    {
        &self.components[index]
    }

    /// The value of an idle slot.
    pub fn rest_value(&self) -> (r: V)
        ensures
            r == self.rest(),
    {
        self.rest
    }

    /// Where the propagation stands.
    pub fn current_phase(&self) -> (r: Phase)
        ensures
            r == self.phase(),
    {
        self.phase
    }
}

} // verus!
