use vstd::prelude::*;
use crate::sketch::{
    infinite_loop_code, Sketch, SketchError, RETURN_CODE_INFINITE_LOOP_DETECTED,
    SKETCH_COMPONENT_MAX_LENGTH,
};

verus! {

/// The first tap that names no component of a sketch of `len` components.
pub open spec fn first_unknown_tap(len: nat, taps: Seq<usize>) -> Option<usize>
    decreases taps.len(),
{
    if taps.len() == 0 {
        None
    } else {
        let prior = first_unknown_tap(len, taps.drop_last());
        if prior is Some {
            prior
        } else if taps.last() >= len {
            Some(taps.last())
        } else {
            None
        }
    }
}

/// A run of ticks that did not settle: the index of the failing tick and the
/// component that exceeded its loop count.
#[derive(Clone, Copy, Debug, PartialEq, Eq, Structural)]
pub struct ProcessError {
    pub tick: usize,
    pub component: usize,
}

impl ProcessError {
    /// The status code of the failure: the base code plus the component id.
    pub fn code(&self) -> (r: i32)
        requires
            self.component < SKETCH_COMPONENT_MAX_LENGTH,
        ensures
            r == RETURN_CODE_INFINITE_LOOP_DETECTED + self.component,
    {
        infinite_loop_code(self.component)
    }
}

/// Records the outputs of tapped components after each tick into one buffer
/// laid out tap by tap: the samples of the `j`-th tap fill the `j`-th run of
/// `n_samples` entries.
pub struct Sampler<V> {
    n_samples: usize,
    taps: Vec<usize>,
    buffer: Vec<V>,
    recorded: usize,
    history: Ghost<Seq<Seq<V>>>,
}

impl<V> Sampler<V> {
    /// Samples per tap.
    pub closed spec fn n_samples(&self) -> nat {
        self.n_samples as nat
    }

    /// The tapped components, in order.
    pub closed spec fn taps(&self) -> Seq<usize> {
        self.taps@
    }

    /// The whole buffer.
    pub closed spec fn buffer(&self) -> Seq<V> {
        self.buffer@
    }

    /// The number of ticks recorded so far.
    pub closed spec fn recorded(&self) -> nat {
        self.recorded as nat
    }

    /// What each recording saw: for each recorded tick, the outputs of the
    /// taps, in tap order.
    pub closed spec fn history(&self) -> Seq<Seq<V>> {
        self.history@
    }

    /// The buffer entry of tap `j` for tick `k`.
    pub open spec fn entry(&self, j: int, k: int) -> V {
        self.buffer()[j * self.n_samples() + k]
    }

    /// The run of the buffer that belongs to tap `j`.
    pub open spec fn region(&self, j: int) -> Seq<V> {
        self.buffer().subrange(j * self.n_samples(), j * self.n_samples() + self.n_samples())
    }

    pub closed spec fn wf(&self) -> bool {
        &&& self.buffer@.len() == self.n_samples * self.taps@.len()
        &&& self.recorded <= self.n_samples
        &&& self.history@.len() == self.recorded
        &&& forall|k: int| 0 <= k < self.recorded ==> (#[trigger] self.history@[k]).len()
            == self.taps@.len()
        &&& forall|j: int, k: int|
            0 <= j < self.taps@.len() && 0 <= k < self.recorded ==> #[trigger] self.entry(j, k)
                == self.history@[k][j]
    }
}

proof fn lemma_entry_in_bounds(j: int, k: int, n: int, t: int)
    requires
        0 <= j < t,
        0 <= k < n,
    ensures
        0 <= j * n + k < n * t,
        j * n <= j * n + k < j * n + n,
{
    assert(j * n + k < n * t) by (nonlinear_arith)
        requires
            0 <= j < t,
            0 <= k < n,
    ;
    assert(0 <= j * n) by (nonlinear_arith)
        requires
            0 <= j,
            0 <= n,
    ;
}

proof fn lemma_entries_distinct(j1: int, k1: int, j2: int, k2: int, n: int)
    requires
        0 <= j1,
        0 <= j2,
        0 <= k1 < n,
        0 <= k2 < n,
        j1 * n + k1 == j2 * n + k2,
    ensures
        j1 == j2 && k1 == k2,
{
    if j1 < j2 {
        assert(j1 * n + n <= j2 * n) by (nonlinear_arith)
            requires
                j1 < j2,
                0 <= n,
        ;
    } else if j2 < j1 {
        assert(j2 * n + n <= j1 * n) by (nonlinear_arith)
            requires
                j2 < j1,
                0 <= n,
        ;
    }
}

impl<V: Copy> Sampler<V> {
    /// A sampler for `n_samples` ticks of the given taps of `sketch`, its
    /// buffer filled with the sketch's rest value. It is rejected when a tap
    /// names no component (the first such tap is reported) or when the
    /// buffer's length does not fit in `usize`.
    pub fn new(n_samples: usize, taps: Vec<usize>, sketch: &Sketch<V>) -> (r: Result<
        Sampler<V>,
        SketchError,
    >)
        requires
            sketch.wf(),
        ensures
            match first_unknown_tap(sketch.len(), taps@) {
                Some(t) => r == Err::<Sampler<V>, SketchError>(SketchError::UnknownComponent(t)),
                None => if n_samples * taps@.len() > usize::MAX {
                    r == Err::<Sampler<V>, SketchError>(SketchError::BufferTooLarge)
                } else {
                    &&& r is Ok
                    &&& r->Ok_0.wf()
                    &&& r->Ok_0.n_samples() == n_samples
                    &&& r->Ok_0.taps() == taps@
                    &&& r->Ok_0.recorded() == 0
                    &&& r->Ok_0.buffer() == Seq::new(
                        (n_samples * taps@.len()) as nat,
                        |i: int| sketch.rest(),
                    )
                },
            },
    {
        let n = sketch.component_count();
        let mut i: usize = 0;
        while i < taps.len()
            invariant
                i <= taps@.len(),
                n == sketch.len(),
                first_unknown_tap(n as nat, taps@.take(i as int)) is None,
            decreases taps@.len() - i,
        {
            assert(taps@.take(i + 1).drop_last() =~= taps@.take(i as int));
            if taps[i] >= n {
                proof { lemma_first_unknown_extends(n as nat, taps@, i as int); }
                return Err(SketchError::UnknownComponent(taps[i]));
            }
            i += 1;
        }
        assert(taps@.take(taps@.len() as int) =~= taps@);
        let total = match n_samples.checked_mul(taps.len()) {
            Some(total) => total,
            None => {
                return Err(SketchError::BufferTooLarge);
            },
        };
        let rest = sketch.rest_value();
        let mut buffer: Vec<V> = Vec::new();
        let mut b: usize = 0;
        while b < total
            invariant
                b <= total,
                buffer@.len() == b,
                forall|x: int| 0 <= x < b ==> buffer@[x] == rest,
            decreases total - b,
        {
            buffer.push(rest);
            b += 1;
        }
        assert(buffer@ =~= Seq::new((n_samples * taps@.len()) as nat, |x: int| sketch.rest()));
        Ok(Sampler { n_samples, taps, buffer, recorded: 0, history: Ghost(Seq::empty()) })
    }

    /// Whether every tick has been recorded.
    pub fn is_complete(&self) -> (r: bool)
        requires
            self.wf(),
        ensures
            r == (self.recorded() == self.n_samples()),
    {
        self.recorded == self.n_samples
    }

    /// The number of ticks recorded so far.
    pub fn ticks_recorded(&self) -> (r: usize)
        ensures
            r == self.recorded(),
    {
        self.recorded
    }

    /// Appends the current output of every tap, each to its own run.
    pub fn record(&mut self, sketch: &Sketch<V>)
        requires
            old(self).wf(),
            sketch.wf(),
            old(self).recorded() < old(self).n_samples(),
            forall|j: int| 0 <= j < old(self).taps().len() ==> #[trigger] old(self).taps()[j] < sketch.len(),
        ensures
            final(self).wf(),
            final(self).n_samples() == old(self).n_samples(),
            final(self).taps() == old(self).taps(),
            final(self).recorded() == old(self).recorded() + 1,
            final(self).history() == old(self).history().push(
                Seq::new(old(self).taps().len(), |j: int| sketch.output(old(self).taps()[j] as int)),
            ),
            final(self).buffer().len() == old(self).buffer().len(),
            forall|j: int, k: int|
                0 <= j < old(self).taps().len() && 0 <= k < old(self).n_samples() ==> #[trigger] final(self).entry(j, k) == if k == old(self).recorded() {
                    sketch.output(old(self).taps()[j] as int)
                } else {
                    old(self).entry(j, k)
                },
    {
        let ghost row = Seq::new(self.taps@.len(), |j: int| sketch.output(self.taps@[j] as int));
        let k = self.recorded;
        let n = self.n_samples;
        let t = self.taps.len();
        let total = self.buffer.len();
        self.recorded = k + 1;
        self.history = Ghost(self.history@.push(row));
        assert(forall|x: int| 0 <= x < t ==> #[trigger] self.taps@[x] < sketch.len()) by {
            assert(forall|x: int| 0 <= x < t ==> old(self).taps()[x] == self.taps@[x]);
        }
        let mut j: usize = 0;
        while j < t
            invariant
                j <= t,
                t == self.taps@.len(),
                n == self.n_samples,
                k + 1 == self.recorded,
                k == old(self).recorded,
                k < n,
                self.taps@ == old(self).taps@,
                self.n_samples == old(self).n_samples,
                self.history@ == old(self).history@.push(row),
                old(self).wf(),
                sketch.wf(),
                self.buffer@.len() == old(self).buffer@.len(),
                total == self.buffer@.len(),
                total == n * t,
                row == Seq::new(self.taps@.len(), |j: int| sketch.output(self.taps@[j] as int)),
                forall|x: int| 0 <= x < t ==> #[trigger] self.taps@[x] < sketch.len(),
                forall|a: int, b: int|
                    0 <= a < t && 0 <= b < n ==> #[trigger] self.entry(a, b) == if b == k && a < j {
                        row[a]
                    } else {
                        old(self).entry(a, b)
                    },
            decreases t - j,
        {
            proof {
                lemma_entry_in_bounds(j as int, k as int, n as int, t as int);
            }
            let index = j * n + k;
            let value = sketch.get_output_value(self.taps[j]);
            let ghost pre = *self;
            self.buffer.set(index, value);
            proof {
                assert forall|a: int, b: int|
                    0 <= a < t && 0 <= b < n implies #[trigger] self.entry(a, b) == if b == k && a
                        < j + 1 {
                        row[a]
                    } else {
                        old(self).entry(a, b)
                    } by {
                    lemma_entry_in_bounds(a, b, n as int, t as int);
                    if a * n + b == index {
                        lemma_entries_distinct(a, b, j as int, k as int, n as int);
                    }
                    assert(pre.entry(a, b) == if b == k && a < j {
                        row[a]
                    } else {
                        old(self).entry(a, b)
                    });
                }
            }
            j += 1;
        }
        proof {
            assert forall|a: int, b: int|
                0 <= a < t && 0 <= b < self.recorded implies #[trigger] self.entry(a, b)
                    == self.history@[b][a] by {
                assert(self.entry(a, b) == if b == k {
                    row[a]
                } else {
                    old(self).entry(a, b)
                });
                if b < k {
                    assert(old(self).entry(a, b) == old(self).history@[b][a]);
                }
            }
        }
    }

    /// The buffer, laid out tap by tap.
    pub fn buffer_values(&self) -> (r: &Vec<V>)
        ensures
            r@ == self.buffer(),
    {
        &self.buffer
    }

    /// The failure of the tick being recorded, caused by `component`.
    pub fn failure(&self, component: usize) -> (r: ProcessError)
        ensures
            r == (ProcessError { tick: self.recorded() as usize, component }),
    {
        ProcessError { tick: self.recorded, component }
    }
}

/// The run of tap `j` holds, tick by tick, the output that the tap had when
/// each tick was recorded: reading the buffer equals reading the tap after
/// every tick.
pub proof fn lemma_region_replays_history<V>(s: &Sampler<V>, j: int)
    requires
        s.wf(),
        0 <= j < s.taps().len(),
    ensures
        s.region(j).len() == s.n_samples(),
        s.region(j).take(s.recorded() as int) == Seq::new(
            s.recorded(),
            |k: int| s.history()[k][j],
        ),
{
    let n = s.n_samples() as int;
    let t = s.taps().len() as int;
    lemma_entry_in_bounds(j, 0, n + 1, t);
    assert(j * n + n <= n * t) by (nonlinear_arith)
        requires
            0 <= j < t,
            0 <= n,
    ;
    assert(0 <= j * n) by (nonlinear_arith)
        requires
            0 <= j,
            0 <= n,
    ;
    assert forall|k: int| 0 <= k < s.recorded() implies #[trigger] s.region(j).take(
        s.recorded() as int,
    )[k] == s.history()[k][j] by {
        assert(s.entry(j, k) == s.history()[k][j]);
    }
    assert(s.region(j).take(s.recorded() as int) =~= Seq::new(
        s.recorded(),
        |k: int| s.history()[k][j],
    ));
}

proof fn lemma_first_unknown_extends(len: nat, taps: Seq<usize>, i: int)
    requires
        0 <= i < taps.len(),
        first_unknown_tap(len, taps.take(i)) is None,
        taps[i] >= len,
    ensures
        first_unknown_tap(len, taps) == Some(taps[i]),
    decreases taps.len(),
{
    if i < taps.len() - 1 {
        assert(taps.drop_last().take(i) =~= taps.take(i));
        lemma_first_unknown_extends(len, taps.drop_last(), i);
    } else {
        assert(taps.drop_last() =~= taps.take(i));
    }
}

} // verus!
