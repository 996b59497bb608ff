use notetaker::editor_core::command::EditorCommand;
use notetaker::editor_core::event::EditorEvent;
use notetaker::editor_core::event_bus::{
    BusHandlers, CommandLog, CommandWriter, EventBus, EventLog, EventWriter,
};

#[derive(Default)]
struct Recorder {
    log: Vec<String>,
}

impl BusHandlers for Recorder {
    // the history is a spec value, which exists only for verification
    fn commands_handled(&self) -> CommandLog {
        unreachable!()
    }

    fn events_handled(&self) -> EventLog {
        unreachable!()
    }

    fn events_emitted(&self) -> EventLog {
        unreachable!()
    }

    fn commands_emitted(&self) -> CommandLog {
        unreachable!()
    }

    fn on_command(&mut self, cmd: &EditorCommand, events: &mut EventWriter) {
        self.log.push(format!("cmd {:?}", cmd));
        if *cmd == EditorCommand::Quit {
            events.push(EditorEvent::RedrawRequested);
        }
    }

    fn on_event(&mut self, event: &EditorEvent, commands: &mut CommandWriter) {
        self.log.push(format!("event {:?}", event));
        if matches!(event, EditorEvent::RedrawRequested) {
            commands.push(EditorCommand::Undo);
        }
    }
}

#[test]
fn commands_run_before_events_and_their_events_follow() {
    let mut bus = EventBus::new();
    let mut rec = Recorder::default();
    bus.push_event(EditorEvent::RedrawRequested);
    bus.push_command(EditorCommand::Quit);
    bus.push_command(EditorCommand::Redo);
    bus.update(&mut rec);
    assert_eq!(
        rec.log,
        vec!["cmd Quit", "cmd Redo", "event RedrawRequested", "event RedrawRequested"]
    );
}

#[test]
fn commands_from_events_wait_for_next_update() {
    let mut bus = EventBus::new();
    let mut rec = Recorder::default();
    bus.push_event(EditorEvent::RedrawRequested);
    bus.update(&mut rec);
    assert_eq!(rec.log, vec!["event RedrawRequested"]);
    bus.update(&mut rec);
    assert_eq!(rec.log, vec!["event RedrawRequested", "cmd Undo"]);
    bus.update(&mut rec);
    assert_eq!(rec.log.len(), 2);
}

#[test]
fn empty_bus_update_does_nothing() {
    let mut bus = EventBus::new();
    let mut rec = Recorder::default();
    bus.update(&mut rec);
    assert!(rec.log.is_empty());
}

#[derive(Default)]
struct Counter {
    commands: u32,
    events: u32,
}

impl BusHandlers for Counter {
    // the history is a spec value, which exists only for verification
    fn commands_handled(&self) -> CommandLog {
        unreachable!()
    }

    fn events_handled(&self) -> EventLog {
        unreachable!()
    }

    fn events_emitted(&self) -> EventLog {
        unreachable!()
    }

    fn commands_emitted(&self) -> CommandLog {
        unreachable!()
    }

    fn on_command(&mut self, _cmd: &EditorCommand, events: &mut EventWriter) {
        self.commands += 1;
        events.push(EditorEvent::RedrawRequested);
    }

    fn on_event(&mut self, _event: &EditorEvent, commands: &mut CommandWriter) {
        self.events += 1;
        commands.push(EditorCommand::Undo);
    }
}

#[test]
fn each_handler_runs_once_and_emitted_command_waits() {
    let mut bus = EventBus::new();
    let mut counter = Counter::default();
    bus.push_command(EditorCommand::Redo);
    bus.update(&mut counter);
    assert_eq!(counter.commands, 1);
    assert_eq!(counter.events, 1);
    // the command the event handler pushed is the one waiting
    let mut rec = Recorder::default();
    bus.update(&mut rec);
    assert_eq!(rec.log, vec!["cmd Undo"]);
}
