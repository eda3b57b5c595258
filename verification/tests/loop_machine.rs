//! The control loop machine: cycle sequencing, read-failure tolerance,
//! pause/resume, and the end-to-end ramp.
use illuminanced::LightConvertor;
use illuminanced::LightPoint;
use illuminanced::control::ControlLoop;
use illuminanced::control::LoopAction;
use illuminanced::control::LoopEvent;
use illuminanced::discrete_value::DiscreteValue;
use illuminanced::kalman::Kalman;
use illuminanced::main_loop;

fn point(illuminance: u32, light: u32) -> LightPoint {
    LightPoint { illuminance, light }
}

fn controller() -> ControlLoop {
    ControlLoop::new(
        Kalman::new(1000, 2000, 5000),
        LightConvertor::new(vec![point(0, 0), point(1000, 255)]),
        DiscreteValue::new(10, 100, 9, 300),
        60,
    )
}

fn is_outside_io(a: &LoopAction) -> bool {
    matches!(a, LoopAction::ReadSensor | LoopAction::WriteThenWait(_, _))
}

#[test]
fn first_cycle_samples_filters_and_writes() {
    let mut l = controller();
    let act = l.step(LoopEvent::Sample(Some(500)));
    // The first sample always seeds the quantizer, so a write is requested,
    // followed by the cadence wait.
    match act {
        LoopAction::WriteThenWait(level, timeout) => {
            assert!((10..=100).contains(&level));
            assert_eq!(timeout, 60);
        }
        other => panic!("expected a write, got {:?}", other),
    }
    assert_eq!(l.step(LoopEvent::Poll(false)), LoopAction::ReadSensor);
}

#[test]
fn read_failure_skips_cycle_but_not_loop() {
    let mut l = controller();
    let events = vec![
        LoopEvent::Sample(None),
        LoopEvent::Poll(false),
        LoopEvent::Sample(Some(500)),
        LoopEvent::Poll(false),
    ];
    let acts = main_loop(&mut l, &events);
    assert_eq!(acts.len(), 4);
    // The failed read only waits out the cycle...
    assert_eq!(acts[0], LoopAction::Wait(60));
    // ...and the next cycle still attempts a read.
    assert_eq!(acts[1], LoopAction::ReadSensor);
    assert!(matches!(acts[2], LoopAction::WriteThenWait(_, 60)));
    assert_eq!(acts[3], LoopAction::ReadSensor);
    // Exactly the two reads were requested: the failure cost no cycle.
    let reads = acts.iter().filter(|a| matches!(a, LoopAction::ReadSensor)).count();
    assert_eq!(reads, 2);
}

#[test]
fn pause_suspends_sampling_until_resume() {
    let mut l = controller();
    let events = vec![
        LoopEvent::Sample(Some(500)),
        LoopEvent::Poll(true),  // pause observed during the cadence wait
        LoopEvent::Poll(false), // nothing for an hour
        LoopEvent::Poll(false), // still nothing
        LoopEvent::Poll(true),  // resume
        LoopEvent::Sample(Some(500)),
    ];
    let acts = main_loop(&mut l, &events);
    assert_eq!(acts.len(), 6);
    // Between the pause event and the resume event no sensor or actuator
    // work is requested: the loop only keeps polling the switch.
    assert_eq!(acts[1], LoopAction::Wait(3600));
    assert_eq!(acts[2], LoopAction::Wait(3600));
    assert_eq!(acts[3], LoopAction::Wait(3600));
    assert!(!is_outside_io(&acts[1]));
    assert!(!is_outside_io(&acts[2]));
    assert!(!is_outside_io(&acts[3]));
    // The resume event makes the loop sample again.
    assert_eq!(acts[4], LoopAction::ReadSensor);
}

#[test]
fn increasing_ramp_yields_monotone_levels_in_range() {
    let mut l = controller();
    let mut last_level: u32 = 0;
    let mut emitted: usize = 0;
    let mut z: u32 = 0;
    while z <= 1000 {
        let act = l.step(LoopEvent::Sample(Some(z)));
        if let LoopAction::WriteThenWait(level, _) = act {
            assert!((10..=100).contains(&level));
            assert!(level >= last_level);
            last_level = level;
            emitted += 1;
        }
        assert_eq!(l.step(LoopEvent::Poll(false)), LoopAction::ReadSensor);
        z += 50;
    }
    assert!(emitted >= 2);
    assert_eq!(last_level, 100);
}
