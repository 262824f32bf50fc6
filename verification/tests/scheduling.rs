use sysbar::collect::DEVICE;
use sysbar::readings::{ClockReading, DiskReading, NetworkReading, Readings};
use sysbar::schedule::{
    event_fits, phase, sampling_plan, step, Action, Event, Phase, Probe, Stage, INTERVAL,
};
use sysbar::snapshot::assemble;
use sysbar::stream::{render, HEADER};

fn sample(minute: u32) -> Readings {
    Readings {
        os: Some("Fedora Linux 40".to_string()),
        cpu_load: 3.25f32.to_bits(),
        memory_used: 1_234_567,
        memory_total: 16_000_000,
        disks: vec![DiskReading::new(DEVICE.to_string(), 1_000_000_000_000, 1_000_000_000).unwrap()],
        interfaces: vec![NetworkReading { received: 10, transmitted: 20 }],
        clock: ClockReading { day: 1, month: 2, year: 2025, pm: true, hour: 11, minute },
    }
}

/// Runs the loop for `cycles` cycles and gives back the actions asked for.
fn run(cycles: u32) -> Vec<Action> {
    let mut actions = Vec::new();
    let mut stage = Stage::Priming;
    let mut event = Event::Done;
    let mut slept = 0;
    let mut minute = 0;
    while slept < cycles {
        assert!(event_fits(&event, DEVICE));
        let (next, action) = step(stage, event, DEVICE);
        stage = next;
        event = match &action {
            Action::Sample => {
                minute += 1;
                Event::Sampled(sample(minute))
            }
            Action::Sleep(_) => {
                slept += 1;
                Event::Done
            }
            _ => Event::Done,
        };
        actions.push(action);
    }
    actions
}

fn written(actions: &[Action]) -> Vec<String> {
    let mut texts = Vec::new();
    for action in actions {
        if let Action::Write(text) = action {
            texts.push(text.clone());
        }
    }
    texts
}

#[test]
fn loop_primes_opens_and_then_cycles() {
    let actions = run(2);
    assert_eq!(actions.len(), 8);
    assert_eq!(actions[0], Action::Prime);
    assert_eq!(actions[1], Action::Write(HEADER.to_string()));
    assert_eq!(actions[2], Action::Sample);
    assert_eq!(actions[3], Action::Write(render(&assemble(sample(1), DEVICE))));
    assert_eq!(actions[4], Action::Sleep(2));
    assert_eq!(actions[5], Action::Sample);
    assert_eq!(actions[6], Action::Write(render(&assemble(sample(2), DEVICE))));
    assert_eq!(actions[7], Action::Sleep(INTERVAL));
}

#[test]
fn stream_begins_with_the_header_written_once() {
    let texts = written(&run(25));
    assert_eq!(texts.len(), 26);
    assert_eq!(texts[0], "{\"version\": 1}[");
    let stream: String = texts.concat();
    assert!(stream.starts_with("{\"version\": 1}[["));
    assert_eq!(stream.matches("version").count(), 1);
    assert_eq!(texts.iter().filter(|text| text.as_str() == HEADER).count(), 1);
}

#[test]
fn consecutive_lines_end_with_a_comma_and_the_array_stays_open() {
    let texts = written(&run(2));
    assert_eq!(texts.len(), 3);
    let first = &texts[1];
    let second = &texts[2];
    assert!(first.ends_with(",\n"));
    assert!(second.ends_with(",\n"));
    assert_eq!(first.strip_suffix('\n').unwrap().chars().last(), Some(','));
    assert_eq!(second.strip_suffix('\n').unwrap().chars().last(), Some(','));
    assert_ne!(first, second);
    let stream: String = texts.concat();
    let second_at = stream.len() - second.len();
    let first_at = second_at - first.len();
    assert_eq!(&stream[first_at - 1..first_at], "[");
    assert_eq!(&stream[second_at - 1..second_at], "\n");
    assert_ne!(&stream[first_at - 1..first_at], "]");
    assert_ne!(&stream[second_at - 1..second_at], "]");
    assert_eq!(stream.lines().count(), 2);
    assert!(!stream.trim_end().ends_with(']'));
}

#[test]
fn each_line_is_one_element_of_the_array() {
    let texts = written(&run(3));
    let mut closed = String::from("[");
    closed.push_str(&texts[1..].concat());
    let closed = closed.trim_end().trim_end_matches(',').to_string() + "]";
    let parsed: serde_json::Value = serde_json::from_str(&closed).unwrap();
    let elements = parsed.as_array().unwrap();
    assert_eq!(elements.len(), 3);
    for element in elements {
        assert_eq!(element.as_array().unwrap().len(), 6);
    }
}

#[test]
fn phase_is_priming_at_the_start_only() {
    assert_eq!(phase(Stage::Priming), Phase::Priming);
    assert_eq!(phase(Stage::Opening), Phase::Running);
    assert_eq!(phase(Stage::Sampling), Phase::Running);
    assert_eq!(phase(Stage::Emitting), Phase::Running);
    assert_eq!(phase(Stage::Sleeping), Phase::Running);
    let stages = [Stage::Priming, Stage::Opening, Stage::Sampling, Stage::Emitting, Stage::Sleeping];
    for stage in stages {
        assert_eq!(phase(step(stage, Event::Done, DEVICE).0), Phase::Running);
        assert_eq!(phase(step(stage, Event::Sampled(sample(0)), DEVICE).0), Phase::Running);
    }
}

#[test]
fn readings_are_waited_for() {
    let (stage, action) = step(Stage::Emitting, Event::Done, DEVICE);
    assert_eq!(stage, Stage::Emitting);
    assert_eq!(action, Action::Sample);
    let (stage, action) = step(Stage::Emitting, Event::Sampled(sample(5)), DEVICE);
    assert_eq!(stage, Stage::Sleeping);
    assert_eq!(action, Action::Write(render(&assemble(sample(5), DEVICE))));
}

#[test]
fn readings_that_come_unasked_are_dropped() {
    assert_eq!(step(Stage::Priming, Event::Sampled(sample(1)), DEVICE), (Stage::Opening, Action::Prime));
    assert_eq!(
        step(Stage::Opening, Event::Sampled(sample(1)), DEVICE),
        (Stage::Sampling, Action::Write(HEADER.to_string()))
    );
    assert_eq!(step(Stage::Sampling, Event::Sampled(sample(1)), DEVICE), (Stage::Emitting, Action::Sample));
    assert_eq!(step(Stage::Sleeping, Event::Sampled(sample(1)), DEVICE), (Stage::Sampling, Action::Sleep(2)));
}

#[test]
fn readings_with_a_broken_volume_do_not_fit() {
    let mut readings = sample(1);
    readings.disks.push(DiskReading {
        name: DEVICE.to_string(),
        total_space: 5,
        available_space: 6,
    });
    assert!(!event_fits(&Event::Sampled(readings.clone()), DEVICE));
    assert!(event_fits(&Event::Sampled(readings), "/dev/other"));
    assert!(event_fits(&Event::Done, DEVICE));
}

#[test]
fn sampling_refreshes_each_part_just_before_it_is_read() {
    let plan = sampling_plan();
    assert_eq!(
        plan,
        vec![
            Probe::ReadOs,
            Probe::RefreshCpu,
            Probe::RefreshCpu,
            Probe::ReadCpu,
            Probe::RefreshMemory,
            Probe::ReadMemory,
            Probe::RefreshDisks,
            Probe::ReadDisks,
            Probe::RefreshNetworks,
            Probe::ReadNetworks,
            Probe::ReadClock,
        ]
    );
    let pairs = [
        (Probe::ReadCpu, Probe::RefreshCpu),
        (Probe::ReadMemory, Probe::RefreshMemory),
        (Probe::ReadDisks, Probe::RefreshDisks),
        (Probe::ReadNetworks, Probe::RefreshNetworks),
    ];
    for (read, refresh) in pairs {
        let at = plan.iter().position(|probe| *probe == read).unwrap();
        assert_eq!(plan[at - 1], refresh);
    }
}
