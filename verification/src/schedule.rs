//! The scheduler: what the sampling loop does next. The loop itself, which
//! reads the system, writes to the output and sleeps, is the caller's; the
//! order of those steps and the text that is written are decided here.

use vstd::prelude::*;
use crate::grammar::{lemma_line_parses, objects_of, parses_as};
use crate::readings::{volumes_fit, volumes_wf, Readings};
use crate::segment::StatusLineView;
use crate::snapshot::{assemble, snapshot};
use crate::stream::{line, render, HEADER};

verus! {

/// The seconds of sleep between two cycles.
pub const INTERVAL: u64 = 2;

/// Where the loop stands: which step is due.
#[derive(Clone, Copy, Debug, PartialEq, Eq, Structural)]
pub enum Stage {
    /// Nothing was done yet: the system is to be read once in full.
    Priming,
    /// The system was primed: the stream is to be opened.
    Opening,
    /// A cycle begins: the system is to be read.
    Sampling,
    /// The system is being read: its readings are to be written.
    Emitting,
    /// A line was written: the loop is to sleep.
    Sleeping,
}

/// The two phases of the loop's life.
#[derive(Clone, Copy, Debug, PartialEq, Eq, Structural)]
pub enum Phase {
    Priming,
    Running,
}

/// What the caller reports of the step that it was asked to make.
#[derive(Clone, Debug, PartialEq, Eq)]
pub enum Event {
    /// The step was made; there is nothing to hand back.
    Done,
    /// The system was read; these are its readings.
    Sampled(Readings),
}

/// What the caller is asked to do.
#[derive(Clone, Debug, PartialEq, Eq)]
pub enum Action {
    /// Read every part of the system once, so that later readings that go by
    /// the change since the last one have one to go by.
    Prime,
    /// Write this text to the output, whole, before anything else is done.
    Write(String),
    /// Read the system by the steps of `sampling_plan`, and hand the readings
    /// back as `Event::Sampled`.
    Sample,
    /// Sleep for this many seconds.
    Sleep(u64),
}

/// One step of reading the system: to refresh what the system knows of one of
/// its parts, or to read one part as it was last refreshed.
#[derive(Clone, Copy, Debug, PartialEq, Eq, Structural)]
pub enum Probe {
    ReadOs,
    RefreshCpu,
    ReadCpu,
    RefreshMemory,
    ReadMemory,
    RefreshDisks,
    ReadDisks,
    RefreshNetworks,
    ReadNetworks,
    ReadClock,
}

/// The steps of one sampling: the parts are read in the order of their
/// segments, each refreshed just before it is read and no sooner, the
/// processor twice, because its load is the change from one refresh to the
/// next. The operating system's version and the clock need no refresh.
pub open spec fn sampling_order() -> Seq<Probe> {
    seq![
        Probe::ReadOs,
        Probe::RefreshCpu,
        Probe::RefreshCpu,
        Probe::ReadCpu,
        Probe::RefreshMemory,
        Probe::ReadMemory,
        Probe::RefreshDisks,
        Probe::ReadDisks,
        Probe::RefreshNetworks,
        Probe::ReadNetworks,
        Probe::ReadClock,
    ]
}

/// The step that refreshes what `probe` reads; none where `probe` reads
/// nothing or reads what needs no refresh.
pub open spec fn refresh_of(probe: Probe) -> Option<Probe> {
    match probe {
        Probe::ReadCpu => Some(Probe::RefreshCpu),
        Probe::ReadMemory => Some(Probe::RefreshMemory),
        Probe::ReadDisks => Some(Probe::RefreshDisks),
        Probe::ReadNetworks => Some(Probe::RefreshNetworks),
        _ => None,
    }
}

/// The steps of one sampling, in their order.
pub fn sampling_plan() -> (plan: Vec<Probe>)
    ensures
        plan@ == sampling_order(),
{
    let mut plan: Vec<Probe> = Vec::new();
    plan.push(Probe::ReadOs);
    plan.push(Probe::RefreshCpu);
    plan.push(Probe::RefreshCpu);
    plan.push(Probe::ReadCpu);
    plan.push(Probe::RefreshMemory);
    plan.push(Probe::ReadMemory);
    plan.push(Probe::RefreshDisks);
    plan.push(Probe::ReadDisks);
    plan.push(Probe::RefreshNetworks);
    plan.push(Probe::ReadNetworks);
    plan.push(Probe::ReadClock);
    assert(plan@ =~= sampling_order());
    plan
}

/// In one sampling, every part that needs a refresh is refreshed by the step
/// just before the one that reads it.
pub proof fn lemma_refreshed_before_read()
    ensures
        forall|i: int|
            0 <= i < sampling_order().len() ==> match refresh_of(#[trigger] sampling_order()[i]) {
                Some(refresh) => i > 0 && sampling_order()[i - 1] == refresh,
                None => true,
            },
{
}

/// An action over mathematical values.
pub enum ActionView {
    Prime,
    Write(Seq<char>),
    Sample,
    Sleep(u64),
}

impl View for Action {
    type V = ActionView;

    open spec fn view(&self) -> ActionView {
        match self {
            Action::Prime => ActionView::Prime,
            Action::Write(text) => ActionView::Write(text@),
            Action::Sample => ActionView::Sample,
            Action::Sleep(seconds) => ActionView::Sleep(*seconds),
        }
    }
}

/// The phase that a stage belongs to.
pub open spec fn phase_of(stage: Stage) -> Phase {
    if stage == Stage::Priming {
        Phase::Priming
    } else {
        Phase::Running
    }
}

/// The stage that follows `stage` once `event` is reported. Readings are
/// waited for until they come; every other stage is left at once.
pub open spec fn next_stage(stage: Stage, event: Event) -> Stage {
    match stage {
        Stage::Priming => Stage::Opening,
        Stage::Opening => Stage::Sampling,
        Stage::Sampling => Stage::Emitting,
        Stage::Emitting => if event is Sampled {
            Stage::Sleeping
        } else {
            Stage::Emitting
        },
        Stage::Sleeping => Stage::Sampling,
    }
}

/// What is asked of the caller at `stage` once `event` is reported: to prime,
/// then to write the header, then in turn to read the system, to write the
/// line of what was read, and to sleep.
pub open spec fn action_at(stage: Stage, event: Event, device: Seq<char>) -> ActionView {
    match stage {
        Stage::Priming => ActionView::Prime,
        Stage::Opening => ActionView::Write(HEADER@),
        Stage::Sampling => ActionView::Sample,
        Stage::Emitting => match event {
            Event::Sampled(readings) => ActionView::Write(line(snapshot(readings, device))),
            Event::Done => ActionView::Sample,
        },
        Stage::Sleeping => ActionView::Sleep(INTERVAL),
    }
}

/// Whether the readings that an event carries can be shown: whether the
/// volumes with the device path `device` are well formed.
pub open spec fn event_wf(event: Event, device: Seq<char>) -> bool {
    event matches Event::Sampled(readings) ==> volumes_wf(readings.disks@, device)
}

/// Tells whether the readings that an event carries can be shown.
pub fn event_fits(event: &Event, device: &str) -> (fit: bool)
    ensures
        fit == event_wf(*event, device@),
{
    match event {
        Event::Sampled(readings) => volumes_fit(&readings.disks, device),
        Event::Done => true,
    }
}

/// The phase that `stage` belongs to.
pub fn phase(stage: Stage) -> (phase: Phase)
    ensures
        phase == phase_of(stage),
{
    match stage {
        Stage::Priming => Phase::Priming,
        _ => Phase::Running,
    }
}

/// Decides the next step: the stage to go to and the action to take, given
/// the stage the loop stands at and what the caller reports of the last step.
/// The volumes shown are those whose device path is `device`. Readings are
/// looked at only where they are waited for.
pub fn step(stage: Stage, event: Event, device: &str) -> (next: (Stage, Action))
    requires
        stage == Stage::Emitting ==> event_wf(event, device@),
    ensures
        next.0 == next_stage(stage, event),
        next.1@ == action_at(stage, event, device@),
        phase_of(next.0) == Phase::Running,
{
    match stage {
        Stage::Priming => (Stage::Opening, Action::Prime),
        Stage::Opening => (Stage::Sampling, Action::Write(String::from_str(HEADER))),
        Stage::Sampling => (Stage::Emitting, Action::Sample),
        Stage::Emitting => match event {
            Event::Sampled(readings) => {
                let lines = assemble(readings, device);
                (Stage::Sleeping, Action::Write(render(&lines)))
            },
            Event::Done => (Stage::Emitting, Action::Sample),
        },
        Stage::Sleeping => (Stage::Sampling, Action::Sleep(INTERVAL)),
    }
}

/// The texts that are written, in their order, when the loop starts at
/// `stage` and `events` are reported one after the other.
pub open spec fn written(stage: Stage, events: Seq<Event>, device: Seq<char>) -> Seq<Seq<char>>
    decreases events.len(),
{
    if events.len() == 0 {
        seq![]
    } else {
        let rest = written(next_stage(stage, events[0]), events.skip(1), device);
        match action_at(stage, events[0], device) {
            ActionView::Write(text) => seq![text] + rest,
            _ => rest,
        }
    }
}

/// Whether `text` is the line of the snapshot of some readings.
pub open spec fn is_line(text: Seq<char>, device: Seq<char>) -> bool {
    exists|readings: Readings| text == line(#[trigger] snapshot(readings, device))
}

/// A line begins with the bracket that opens its array and ends with a comma
/// and a line feed; it is not the header, and it does not end with a bracket
/// that would close the array of the stream.
pub proof fn lemma_line_shape(segments: Seq<StatusLineView>)
    ensures
        line(segments).len() >= 4,
        line(segments).first() == '[',
        line(segments)[line(segments).len() - 2] == ',',
        line(segments).last() == '\n',
        line(segments) != HEADER@,
        HEADER@.len() == 15,
        HEADER@.first() == '{',
        HEADER@.last() == '[',
{
    reveal_strlit("[");
    reveal_strlit("]");
    reveal_strlit(",\n");
    reveal_strlit("{\"version\": 1}[");
}

/// From any stage on, whatever is reported: the header is written at most
/// once, as the first text and only where the stream was not opened yet, and
/// every other text written is the line of a snapshot.
pub proof fn lemma_written_from(stage: Stage, events: Seq<Event>, device: Seq<char>)
    ensures
        ({
            let texts = written(stage, events, device);
            let opened = stage != Stage::Priming && stage != Stage::Opening;
            &&& !opened && texts.len() > 0 ==> texts[0] == HEADER@
            &&& forall|i: int|
                (if opened {
                    0
                } else {
                    1int
                }) <= i < texts.len() ==> is_line(#[trigger] texts[i], device)
        }),
    decreases events.len(),
{
    if events.len() > 0 {
        let next = next_stage(stage, events[0]);
        let rest = written(next, events.skip(1), device);
        lemma_written_from(next, events.skip(1), device);
        match action_at(stage, events[0], device) {
            ActionView::Write(text) => {
                let texts = seq![text] + rest;
                if stage == Stage::Emitting {
                    let readings = events[0]->Sampled_0;
                    assert(text == line(snapshot(readings, device)));
                    assert(is_line(text, device));
                }
                assert forall|i: int| 1 <= i < texts.len() implies is_line(
                    #[trigger] texts[i],
                    device,
                ) by {
                    assert(texts[i] == rest[i - 1]);
                }
            },
            _ => {},
        }
    }
}

/// Over the whole life of the loop, whatever is reported: where anything is
/// written, the first text written is the header; the header is written once
/// only; and every other text written is the line of the snapshot of some
/// readings, which ends with a comma and a line feed.
pub proof fn lemma_header_once(events: Seq<Event>, device: Seq<char>)
    ensures
        ({
            let texts = written(Stage::Priming, events, device);
            &&& texts.len() > 0 ==> texts[0] == HEADER@
            &&& forall|i: int|
                1 <= i < texts.len() ==> {
                    let text = #[trigger] texts[i];
                    &&& is_line(text, device)
                    &&& text != HEADER@
                    &&& text.first() == '['
                    &&& text[text.len() - 2] == ','
                    &&& text.last() == '\n'
                }
        }),
{
    lemma_written_from(Stage::Priming, events, device);
    let texts = written(Stage::Priming, events, device);
    assert forall|i: int| 1 <= i < texts.len() implies {
        let text = #[trigger] texts[i];
        &&& is_line(text, device)
        &&& text != HEADER@
        &&& text.first() == '['
        &&& text[text.len() - 2] == ','
        &&& text.last() == '\n'
    } by {
        let text = texts[i];
        assert(is_line(text, device));
        let readings = choose|readings: Readings| text == line(snapshot(readings, device));
        lemma_line_shape(snapshot(readings, device));
    }
}

/// Whether `text` is the line of the snapshot of some readings and, without
/// the comma and the line feed at its end, parses as the JSON array of the
/// objects of that snapshot.
pub open spec fn is_parsed_line(text: Seq<char>, device: Seq<char>) -> bool {
    exists|readings: Readings|
        text == line(#[trigger] snapshot(readings, device)) && text.len() >= 2 && parses_as(
            text.subrange(0, text.len() - 2),
            objects_of(snapshot(readings, device)),
        )
}

/// Over the whole life of the loop, whatever is reported: every text written
/// after the header parses, without the comma and the line feed at its end, as
/// the JSON array of the objects of a snapshot.
pub proof fn lemma_written_lines_parse(events: Seq<Event>, device: Seq<char>)
    ensures
        forall|i: int|
            1 <= i < written(Stage::Priming, events, device).len() ==> is_parsed_line(
                #[trigger] written(Stage::Priming, events, device)[i],
                device,
            ),
{
    lemma_header_once(events, device);
    let texts = written(Stage::Priming, events, device);
    assert forall|i: int| 1 <= i < texts.len() implies is_parsed_line(
        #[trigger] texts[i],
        device,
    ) by {
        let text = texts[i];
        assert(is_line(text, device));
        let readings = choose|readings: Readings| text == line(snapshot(readings, device));
        lemma_line_parses(snapshot(readings, device));
        assert(parses_as(
            text.subrange(0, text.len() - 2),
            objects_of(snapshot(readings, device)),
        ));
    }
}


} // verus!
