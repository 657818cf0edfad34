use synthesizer_core::{
    infinite_loop_code, Component, ComponentType, Phase, ProcessError, Sampler, Sketch, SketchError, Step,
    MAX_LOOP_COUNT, RETURN_CODE_INFINITE_LOOP_DETECTED, SKETCH_COMPONENT_MAX_LENGTH,
};

const SAMPLE_RATE: f64 = 44100.0;

/// Evaluates the few component types these tests use, as a host would.
fn evaluate(sketch: &mut Sketch<f64>, id: usize) -> f64 {
    let c: &Component<f64> = sketch.component(id);
    let dt = c.input_values[0];
    match c.component_type {
        ComponentType::Mixer => c.input_values[1] + c.input_values[2],
        ComponentType::Amplifier => c.input_values[1] * c.input_values[2],
        ComponentType::Distributor => c.input_values[1],
        ComponentType::Buffer => {
            let held = c.output_value;
            let input = c.input_values[1];
            sketch.set_register(id, 0, input);
            if dt == 0.0 {
                held
            } else {
                input
            }
        }
        ComponentType::Integrator => {
            let value = if c.input_values[2] < 0.5 {
                c.registers[0] + c.input_values[1] * dt
            } else {
                0.0
            };
            sketch.set_register(id, 0, value);
            value
        }
        ComponentType::Sine => {
            let two_pi = 2.0 * std::f64::consts::PI;
            let phase = (c.registers[0] + two_pi * c.input_values[1] * dt) % two_pi;
            sketch.set_register(id, 0, phase);
            phase.sin()
        }
        _ => c.output_value,
    }
}

/// Runs the propagation under way to its end; on success, the number of
/// evaluations it took.
fn settle(sketch: &mut Sketch<f64>) -> Result<usize, usize> {
    let mut evaluations = 0;
    loop {
        match sketch.next_step() {
            Step::Evaluate(id) => {
                let previous = sketch.get_output_value(id);
                let next = evaluate(sketch, id);
                let changed = (previous - next).abs() >= f64::EPSILON;
                sketch.finish_evaluation(next, changed);
                evaluations += 1;
            }
            Step::Settled => return Ok(evaluations),
            Step::InfiniteLoopDetected(id) => return Err(id),
        }
    }
}

fn tick(sketch: &mut Sketch<f64>) -> Result<usize, usize> {
    sketch.next_tick(1.0 / SAMPLE_RATE);
    settle(sketch)
}

fn inject(sketch: &mut Sketch<f64>, inputs: Vec<((usize, usize), f64)>) -> Result<usize, usize> {
    sketch.input_values(inputs).unwrap();
    settle(sketch)
}

#[test]
fn create_component_assigns_sequential_ids() {
    let mut sketch = Sketch::new(0.0);
    assert_eq!(sketch.create_component(ComponentType::Sine), Ok(0));
    assert_eq!(sketch.create_component(ComponentType::Mixer), Ok(1));
    assert_eq!(sketch.create_component(ComponentType::Noise), Ok(2));
    assert_eq!(sketch.component_count(), 3);
    let c = sketch.component(1);
    assert_eq!(c.component_type, ComponentType::Mixer);
    assert!(c.input_values.iter().all(|v| *v == 0.0));
    assert!(c.registers.iter().all(|v| *v == 0.0));
    assert_eq!(c.output_value, 0.0);
    assert!(c.output_destinations.is_empty());
}

#[test]
fn create_component_rejects_beyond_capacity() {
    let mut sketch = Sketch::new(0.0);
    for i in 0..SKETCH_COMPONENT_MAX_LENGTH {
        assert_eq!(sketch.create_component(ComponentType::Distributor), Ok(i));
    }
    assert_eq!(
        sketch.create_component(ComponentType::Distributor),
        Err(SketchError::CapacityExceeded)
    );
    assert_eq!(sketch.component_count(), SKETCH_COMPONENT_MAX_LENGTH);
}

#[test]
fn init_removes_every_component() {
    let mut sketch = Sketch::new(0.0);
    sketch.create_component(ComponentType::Sine).unwrap();
    sketch.init();
    assert_eq!(sketch.component_count(), 0);
    assert_eq!(sketch.create_component(ComponentType::Saw), Ok(0));
}

#[test]
fn connect_appends_edges_in_order() {
    let mut sketch = Sketch::new(0.0);
    let a = sketch.create_component(ComponentType::Distributor).unwrap();
    let b = sketch.create_component(ComponentType::Mixer).unwrap();
    assert_eq!(sketch.connect((b, 1), a), Ok(()));
    assert_eq!(sketch.connect((b, 2), a), Ok(()));
    assert_eq!(sketch.connect((b, 1), a), Ok(()));
    assert_eq!(sketch.component(a).output_destinations, vec![(b, 1), (b, 2), (b, 1)]);
    assert!(sketch.component(b).output_destinations.is_empty());
}

#[test]
fn connect_rejects_bad_edges() {
    let mut sketch = Sketch::new(0.0);
    let a = sketch.create_component(ComponentType::Distributor).unwrap();
    assert_eq!(sketch.connect((a, 1), 5), Err(SketchError::UnknownComponent(5)));
    assert_eq!(sketch.connect((7, 1), a), Err(SketchError::UnknownComponent(7)));
    assert_eq!(sketch.connect((a, 8), a), Err(SketchError::SlotOutOfRange(8)));
    assert_eq!(sketch.connect((a, 0), a), Err(SketchError::ReservedSlot));
    assert!(sketch.component(a).output_destinations.is_empty());
}

#[test]
fn input_values_rejects_first_bad_destination_and_changes_nothing() {
    let mut sketch = Sketch::new(0.0);
    let a = sketch.create_component(ComponentType::Mixer).unwrap();
    let r = sketch.input_values(vec![((a, 1), 2.0), ((a, 9), 1.0), ((4, 1), 1.0)]);
    assert_eq!(r, Err(SketchError::SlotOutOfRange(9)));
    assert_eq!(sketch.component(a).input_values[1], 0.0);
    assert_eq!(sketch.current_phase(), Phase::Idle);
    let r = sketch.input_values(vec![((3, 1), 2.0)]);
    assert_eq!(r, Err(SketchError::UnknownComponent(3)));
    let r = sketch.input_values(vec![((a, 0), 2.0)]);
    assert_eq!(r, Err(SketchError::ReservedSlot));
}

#[test]
fn input_values_last_write_wins_and_schedules_each_component_once() {
    let mut sketch = Sketch::new(0.0);
    let a = sketch.create_component(ComponentType::Mixer).unwrap();
    sketch.input_values(vec![((a, 1), 2.0), ((a, 2), 3.0), ((a, 1), 4.0)]).unwrap();
    assert_eq!(sketch.current_phase(), Phase::Running);
    assert_eq!(sketch.component(a).input_values[1], 4.0);
    assert_eq!(sketch.component(a).input_values[2], 3.0);
    assert_eq!(settle(&mut sketch), Ok(1));
    assert_eq!(sketch.get_output_value(a), 7.0);
    assert_eq!(sketch.current_phase(), Phase::Idle);
}

#[test]
fn mixer_outputs_sum_upon_injection() {
    let mut sketch = Sketch::new(0.0);
    let mixer = sketch.create_component(ComponentType::Mixer).unwrap();
    assert_eq!(inject(&mut sketch, vec![((mixer, 1), 2.0), ((mixer, 2), 3.0)]), Ok(1));
    assert_eq!(sketch.get_output_value(mixer), 5.0);
}

#[test]
fn sine_feedback_advances_phase_by_one_tick() {
    let mut sketch = Sketch::new(0.0);
    let sine_1 = sketch.create_component(ComponentType::Sine).unwrap();
    let sine_2 = sketch.create_component(ComponentType::Sine).unwrap();
    sketch.connect((sine_1, 1), sine_2).unwrap();
    inject(&mut sketch, vec![((sine_1, 1), 440.0)]).unwrap();
    assert_eq!(sketch.get_output_value(sine_1), 0.0);
    tick(&mut sketch).unwrap();
    let phase = sketch.component(sine_1).registers[0];
    assert!((phase - 2.0 * std::f64::consts::PI * 440.0 / 44100.0).abs() < 1e-12);
    assert!((phase - 0.06267).abs() < 1e-4);
    assert!((sketch.get_output_value(sine_1) - phase.sin()).abs() < 1e-15);
    assert!((sketch.get_output_value(sine_1) - 0.06261).abs() < 1e-4);
    assert_eq!(sketch.get_output_value(sine_2), 0.0);
}

#[test]
fn self_feedback_mixer_reports_infinite_loop() {
    let mut sketch = Sketch::new(0.0);
    let _other = sketch.create_component(ComponentType::Distributor).unwrap();
    let mixer = sketch.create_component(ComponentType::Mixer).unwrap();
    sketch.connect((mixer, 1), mixer).unwrap();
    sketch.input_values(vec![((mixer, 2), 1.0)]).unwrap();
    let mut evaluations = 0;
    let failing = loop {
        match sketch.next_step() {
            Step::Evaluate(id) => {
                assert_eq!(id, mixer);
                let previous = sketch.get_output_value(id);
                let next = evaluate(&mut sketch, id);
                sketch.finish_evaluation(next, (previous - next).abs() >= f64::EPSILON);
                evaluations += 1;
            }
            Step::Settled => panic!("a growing feedback loop settled"),
            Step::InfiniteLoopDetected(id) => break id,
        }
    };
    assert_eq!(failing, mixer);
    assert_eq!(evaluations, MAX_LOOP_COUNT as usize);
    assert_eq!(sketch.current_phase(), Phase::Idle);
    let error = ProcessError { tick: 0, component: failing };
    assert_eq!(error.code(), RETURN_CODE_INFINITE_LOOP_DETECTED + 1);
}

#[test]
fn self_feedback_mixer_fails_processing_at_first_tick() {
    let mut sketch = Sketch::new(0.0);
    let mixer = sketch.create_component(ComponentType::Mixer).unwrap();
    sketch.connect((mixer, 1), mixer).unwrap();
    sketch.input_values(vec![((mixer, 2), 1.0)]).unwrap();
    assert_eq!(settle(&mut sketch), Err(mixer));
    let mut sampler = Sampler::new(4, vec![mixer], &sketch).unwrap();
    let failure = match tick(&mut sketch) {
        Ok(_) => None,
        Err(id) => Some(sampler.failure(id)),
    };
    assert_eq!(failure, Some(ProcessError { tick: 0, component: mixer }));
    assert_eq!(failure.unwrap().code(), 1);
    assert!(!sampler.is_complete());
    sampler.record(&sketch);
    assert_eq!(sampler.ticks_recorded(), 1);
}

#[test]
fn two_component_cycle_stops_within_bound() {
    let mut sketch = Sketch::new(0.0);
    let a = sketch.create_component(ComponentType::Mixer).unwrap();
    let b = sketch.create_component(ComponentType::Distributor).unwrap();
    sketch.connect((b, 1), a).unwrap();
    sketch.connect((a, 1), b).unwrap();
    sketch.input_values(vec![((a, 2), 1.0)]).unwrap();
    let mut evaluations = 0;
    let failing = loop {
        match sketch.next_step() {
            Step::Evaluate(id) => {
                let previous = sketch.get_output_value(id);
                let next = evaluate(&mut sketch, id);
                sketch.finish_evaluation(next, (previous - next).abs() >= f64::EPSILON);
                evaluations += 1;
                assert!(evaluations <= MAX_LOOP_COUNT as usize * 2);
            }
            Step::Settled => panic!("a growing feedback loop settled"),
            Step::InfiniteLoopDetected(id) => break id,
        }
    };
    assert_eq!(failing, a);
    assert_eq!(evaluations, 2 * MAX_LOOP_COUNT as usize);
}

#[test]
fn unchanged_output_does_not_propagate() {
    let mut sketch = Sketch::new(0.0);
    let a = sketch.create_component(ComponentType::Amplifier).unwrap();
    let b = sketch.create_component(ComponentType::Distributor).unwrap();
    sketch.connect((b, 1), a).unwrap();
    assert_eq!(inject(&mut sketch, vec![((a, 1), 3.0)]), Ok(1));
    assert_eq!(sketch.get_output_value(a), 0.0);
    assert_eq!(sketch.component(b).input_values[1], 0.0);
    assert_eq!(inject(&mut sketch, vec![((a, 2), 2.0)]), Ok(2));
    assert_eq!(sketch.get_output_value(b), 6.0);
}

#[test]
fn wave_schedules_a_shared_target_once() {
    let mut sketch = Sketch::new(0.0);
    let a = sketch.create_component(ComponentType::Distributor).unwrap();
    let b = sketch.create_component(ComponentType::Distributor).unwrap();
    let m = sketch.create_component(ComponentType::Mixer).unwrap();
    sketch.connect((m, 1), a).unwrap();
    sketch.connect((m, 2), b).unwrap();
    sketch.connect((m, 2), b).unwrap();
    assert_eq!(inject(&mut sketch, vec![((a, 1), 1.0), ((b, 1), 2.0)]), Ok(3));
    assert_eq!(sketch.get_output_value(m), 3.0);
}

#[test]
fn tick_resets_time_step_after_each_evaluation() {
    let mut sketch = Sketch::new(0.0);
    let buffer = sketch.create_component(ComponentType::Buffer).unwrap();
    let source = sketch.create_component(ComponentType::Distributor).unwrap();
    sketch.connect((buffer, 1), source).unwrap();
    sketch.input_values(vec![((source, 1), 0.5)]).unwrap();
    sketch.next_tick(1.0 / SAMPLE_RATE);
    assert_eq!(sketch.component(buffer).input_values[0], 1.0 / SAMPLE_RATE);
    assert_eq!(settle(&mut sketch), Ok(3));
    assert_eq!(sketch.component(buffer).input_values[0], 0.0);
    assert_eq!(sketch.component(source).input_values[0], 0.0);
    // The buffer sampled 0.0 in the first wave; the new input reached it in
    // the second wave, with the time step at rest, so it holds.
    assert_eq!(sketch.get_output_value(buffer), 0.0);
    assert_eq!(sketch.component(buffer).registers[0], 0.5);
    tick(&mut sketch).unwrap();
    assert_eq!(sketch.get_output_value(buffer), 0.5);
}

#[test]
fn integrator_accumulates_over_ticks() {
    let mut sketch = Sketch::new(0.0);
    let integrator = sketch.create_component(ComponentType::Integrator).unwrap();
    inject(&mut sketch, vec![((integrator, 1), 2.0)]).unwrap();
    for _ in 0..100 {
        tick(&mut sketch).unwrap();
    }
    let expected = 2.0 * (1.0 / SAMPLE_RATE) * 100.0;
    assert!((sketch.get_output_value(integrator) - expected).abs() < 1e-12);
}

fn integrator_graph() -> (Sketch<f64>, usize, usize) {
    let mut sketch = Sketch::new(0.0);
    let sine = sketch.create_component(ComponentType::Sine).unwrap();
    let integrator = sketch.create_component(ComponentType::Integrator).unwrap();
    sketch.connect((integrator, 1), sine).unwrap();
    inject(&mut sketch, vec![((sine, 1), 1000.0)]).unwrap();
    (sketch, sine, integrator)
}

#[test]
fn sampler_matches_sequential_ticks() {
    let n = 64;
    let (mut sampled, sine, integrator) = integrator_graph();
    let mut sampler = Sampler::new(n, vec![integrator, sine], &sampled).unwrap();
    while !sampler.is_complete() {
        tick(&mut sampled).unwrap();
        sampler.record(&sampled);
    }
    let buffer = sampler.buffer_values();
    assert_eq!(buffer.len(), 2 * n);

    let (mut stepped, _, _) = integrator_graph();
    for k in 0..n {
        tick(&mut stepped).unwrap();
        assert_eq!(buffer[k], stepped.get_output_value(integrator));
        assert_eq!(buffer[n + k], stepped.get_output_value(sine));
    }
    assert!(buffer[n] != 0.0);
}

#[test]
fn sampler_rejects_unknown_tap_and_oversized_buffer() {
    let mut sketch = Sketch::new(0.0);
    let a = sketch.create_component(ComponentType::Sine).unwrap();
    assert!(matches!(
        Sampler::new(8, vec![a, 3, 5], &sketch),
        Err(SketchError::UnknownComponent(3))
    ));
    assert!(matches!(
        Sampler::new(usize::MAX, vec![a, a], &sketch),
        Err(SketchError::BufferTooLarge)
    ));
    let sampler = Sampler::new(3, vec![a, a], &sketch).unwrap();
    assert_eq!(sampler.buffer_values(), &vec![0.0; 6]);
    assert_eq!(sampler.ticks_recorded(), 0);
}

#[test]
fn empty_sketch_settles_at_once() {
    let mut sketch: Sketch<f64> = Sketch::new(0.0);
    sketch.next_tick(1.0);
    assert_eq!(sketch.next_step(), Step::Settled);
}

#[test]
fn input_value_writes_one_slot_and_settles() {
    let mut sketch = Sketch::new(0.0);
    let a = sketch.create_component(ComponentType::Mixer).unwrap();
    let b = sketch.create_component(ComponentType::Distributor).unwrap();
    sketch.connect((b, 1), a).unwrap();
    assert_eq!(sketch.input_value((a, 2), 1.5), Ok(()));
    assert_eq!(sketch.component(a).input_values[2], 1.5);
    assert_eq!(sketch.current_phase(), Phase::Running);
    assert_eq!(settle(&mut sketch), Ok(2));
    assert_eq!(sketch.get_output_value(b), 1.5);
    assert_eq!(sketch.input_value((a, 0), 1.0), Err(SketchError::ReservedSlot));
    assert_eq!(sketch.input_value((2, 1), 1.0), Err(SketchError::UnknownComponent(2)));
}

#[test]
fn status_codes() {
    assert_eq!(RETURN_CODE_INFINITE_LOOP_DETECTED, 1);
    assert_eq!(ProcessError { tick: 9, component: 0 }.code(), 1);
    assert_eq!(ProcessError { tick: 0, component: 41 }.code(), 42);
    assert_eq!(infinite_loop_code(7), 8);
    assert_eq!(SketchError::CapacityExceeded.code(), -1);
    assert_eq!(SketchError::UnknownComponent(3).code(), -2);
    assert_eq!(SketchError::SlotOutOfRange(8).code(), -3);
    assert_eq!(SketchError::ReservedSlot.code(), -4);
    assert_eq!(SketchError::BufferTooLarge.code(), -5);
}

#[test]
fn zero_frequency_oscillator_stays_constant() {
    let mut sketch = Sketch::new(0.0);
    let sine = sketch.create_component(ComponentType::Sine).unwrap();
    for _ in 0..10 {
        tick(&mut sketch).unwrap();
        assert_eq!(sketch.get_output_value(sine), 0.0);
        assert_eq!(sketch.component(sine).registers[0], 0.0);
    }
}

#[test]
fn sampler_records_each_tap_in_its_own_run() {
    let mut sketch = Sketch::new(0.0);
    let a = sketch.create_component(ComponentType::Distributor).unwrap();
    let b = sketch.create_component(ComponentType::Distributor).unwrap();
    let mut sampler = Sampler::new(3, vec![b, a], &sketch).unwrap();
    for k in 0..3 {
        inject(&mut sketch, vec![((a, 1), k as f64 + 1.0), ((b, 1), -(k as f64) - 1.0)]).unwrap();
        sampler.record(&sketch);
    }
    assert!(sampler.is_complete());
    assert_eq!(sampler.buffer_values(), &vec![-1.0, -2.0, -3.0, 1.0, 2.0, 3.0]);
}
