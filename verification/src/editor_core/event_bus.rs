//! The editor's event bus: commands and events wait in two queues; commands
//! are handled first and may emit events, which are then handled in the same
//! update and may emit commands for the next one.
use crate::editor_core::command::EditorCommand;
use crate::editor_core::event::EditorEvent;
use std::collections::VecDeque;
use vstd::prelude::*;

verus! {

/// Lets an event handler emit commands.
#[derive(Debug)]
pub struct CommandWriter {
    queue: VecDeque<EditorCommand>,
}

impl CommandWriter {
    /// The commands waiting, in order.
    pub closed spec fn queued(&self) -> Seq<EditorCommand> {
        self.queue@
    }

    /// Queues `cmd` after the waiting commands.
    pub fn push(&mut self, cmd: EditorCommand)
        ensures
            final(self).queued() == old(self).queued().push(cmd),
    {
        self.queue.push_back(cmd);
    }
}

/// Lets a command handler emit events.
#[derive(Debug)]
pub struct EventWriter {
    queue: VecDeque<EditorEvent>,
}

impl EventWriter {
    /// The events waiting, in order.
    pub closed spec fn queued(&self) -> Seq<EditorEvent> {
        self.queue@
    }

    /// Queues `event` after the waiting events.
    pub fn push(&mut self, event: EditorEvent)
        ensures
            final(self).queued() == old(self).queued().push(event),
    {
        self.queue.push_back(event);
    }
}

/// A history of commands, as a spec value.
pub type CommandLog = Seq<EditorCommand>;

/// A history of events, as a spec value.
pub type EventLog = Seq<EditorEvent>;

/// The handlers subscribed to the bus. Their history is kept as spec
/// values: what was handed to them and what they emitted, in order. A
/// handler can only emit through the writer it is given, which only appends.
pub trait BusHandlers {
    /// The commands handed to the command handlers so far, in order.
    spec fn commands_handled(&self) -> CommandLog;

    /// The events handed to the event handlers so far, in order.
    spec fn events_handled(&self) -> EventLog;

    /// The events that command handlers emitted so far, in order.
    spec fn events_emitted(&self) -> EventLog;

    /// The commands that event handlers emitted so far, in order.
    spec fn commands_emitted(&self) -> CommandLog;

    /// Hands a command to every command handler, in subscription order.
    fn on_command(&mut self, cmd: &EditorCommand, events: &mut EventWriter)
        ensures
            final(self).commands_handled() == old(self).commands_handled().push(*cmd),
            final(self).events_handled() == old(self).events_handled(),
            final(self).commands_emitted() == old(self).commands_emitted(),
            final(self).events_emitted().take(old(self).events_emitted().len() as int) == old(self).events_emitted(),
            old(self).events_emitted().len() <= final(self).events_emitted().len(),
            final(events).queued() == old(events).queued() + final(self).events_emitted().skip(
                old(self).events_emitted().len() as int,
            ),
    ;

    /// Hands an event to every event handler, in subscription order.
    fn on_event(&mut self, event: &EditorEvent, commands: &mut CommandWriter)
        ensures
            final(self).events_handled() == old(self).events_handled().push(*event),
            final(self).commands_handled() == old(self).commands_handled(),
            final(self).events_emitted() == old(self).events_emitted(),
            final(self).commands_emitted().take(old(self).commands_emitted().len() as int) == old(self).commands_emitted(),
            old(self).commands_emitted().len() <= final(self).commands_emitted().len(),
            final(commands).queued() == old(commands).queued() + final(self).commands_emitted().skip(old(self).commands_emitted().len() as int),
    ;
}

/// The queues of waiting commands and events.
pub struct BusView {
    pub commands: Seq<EditorCommand>,
    pub events: Seq<EditorEvent>,
}

#[derive(Default)]
pub struct EventBus {
    cmd_queue: VecDeque<EditorCommand>,
    event_queue: VecDeque<EditorEvent>,
}

impl View for EventBus {
    type V = BusView;

    closed spec fn view(&self) -> BusView {
        BusView { commands: self.cmd_queue@, events: self.event_queue@ }
    }
}

impl EventBus {
    /// A bus with nothing waiting.
    pub fn new() -> (b: Self)
        ensures
            b@.commands == Seq::<EditorCommand>::empty(),
            b@.events == Seq::<EditorEvent>::empty(),
    {
        EventBus { cmd_queue: VecDeque::new(), event_queue: VecDeque::new() }
    }

    /// Queues `cmd` after the waiting commands.
    pub fn push_command(&mut self, cmd: EditorCommand)
        ensures
            final(self)@.commands == old(self)@.commands.push(cmd),
            final(self)@.events == old(self)@.events,
    {
        self.cmd_queue.push_back(cmd);
    }

    /// Queues `event` after the waiting events.
    pub fn push_event(&mut self, event: EditorEvent)
        ensures
            final(self)@.commands == old(self)@.commands,
            final(self)@.events == old(self)@.events.push(event),
    {
        self.event_queue.push_back(event);
    }

    /// Hands every waiting command to the handlers, in order; the events
    /// they emit are handled right away, after the waiting events. Commands
    /// that event handlers emit wait for the next update.
    pub fn update<H: BusHandlers>(&mut self, handlers: &mut H)
        ensures
            final(handlers).commands_handled() == old(handlers).commands_handled() + old(self)@.commands,
            old(handlers).events_emitted().len() <= final(handlers).events_emitted().len(),
            final(handlers).events_emitted().take(old(handlers).events_emitted().len() as int)
                == old(handlers).events_emitted(),
            final(handlers).events_handled() == old(handlers).events_handled() + old(self)@.events
                + final(handlers).events_emitted().skip(
                old(handlers).events_emitted().len() as int,
            ),
            old(handlers).commands_emitted().len() <= final(handlers).commands_emitted().len(),
            final(handlers).commands_emitted().take(old(handlers).commands_emitted().len() as int)
                == old(handlers).commands_emitted(),
            final(self)@.commands == final(handlers).commands_emitted().skip(
                old(handlers).commands_emitted().len() as int,
            ),
            final(self)@.events == Seq::<EditorEvent>::empty(),
    {
        let ghost c0 = self.cmd_queue@;
        let ghost e0 = self.event_queue@;
        let ghost h0 = *handlers;
        // events emmited by commands are immediatly acted upon
        while self.cmd_queue.len() > 0
            invariant
                c0 == c0.take(c0.len() - self.cmd_queue@.len()) + self.cmd_queue@,
                self.cmd_queue@.len() <= c0.len(),
                handlers.commands_handled() == h0.commands_handled() + c0.take(
                    c0.len() - self.cmd_queue@.len(),
                ),
                handlers.events_handled() == h0.events_handled(),
                handlers.commands_emitted() == h0.commands_emitted(),
                h0.events_emitted().len() <= handlers.events_emitted().len(),
                handlers.events_emitted().take(h0.events_emitted().len() as int)
                    == h0.events_emitted(),
                self.event_queue@ == e0 + handlers.events_emitted().skip(
                    h0.events_emitted().len() as int,
                ),
            decreases self.cmd_queue@.len(),
        {
            let ghost before = *handlers;
            let ghost q = self.cmd_queue@;
            let ghost done = c0.take(c0.len() - q.len());
            let cmd = self.cmd_queue.pop_front().unwrap();
            // the handlers write to the event queue through a writer
            let mut queue = VecDeque::new();
            std::mem::swap(&mut queue, &mut self.event_queue);
            let mut event_writer = EventWriter { queue };
            handlers.on_command(&cmd, &mut event_writer);
            self.event_queue = event_writer.queue;
            proof {
                let em = handlers.events_emitted();
                let em0 = h0.events_emitted();
                let emb = before.events_emitted();
                assert(c0.take(c0.len() - self.cmd_queue@.len()) =~= done.push(cmd)) by {
                    assert(c0 =~= done + q);
                }
                assert(c0 =~= c0.take(c0.len() - self.cmd_queue@.len()) + self.cmd_queue@);
                assert(em.take(em0.len() as int) =~= em0) by {
                    assert(em.take(emb.len() as int).take(em0.len() as int) =~= em.take(
                        em0.len() as int,
                    ));
                }
                assert(e0 + em.skip(em0.len() as int) =~= (e0 + emb.skip(em0.len() as int))
                    + em.skip(emb.len() as int)) by {
                    assert(em.skip(em0.len() as int) =~= emb.skip(em0.len() as int) + em.skip(
                        emb.len() as int,
                    )) by {
                        assert(em.take(emb.len() as int) =~= emb);
                    }
                }
                assert(handlers.commands_handled() =~= h0.commands_handled() + c0.take(
                    c0.len() - self.cmd_queue@.len(),
                ));
            }
        }
        let ghost h1 = *handlers;
        let ghost all = self.event_queue@;
        proof {
            assert(self.cmd_queue@ =~= h1.commands_emitted().skip(h0.commands_emitted().len() as int));
            assert(c0.take(c0.len() as int) =~= c0);
        }
        // commands emmited by events are stored for the next iteration
        while self.event_queue.len() > 0
            invariant
                all == all.take(all.len() - self.event_queue@.len()) + self.event_queue@,
                self.event_queue@.len() <= all.len(),
                handlers.events_handled() == h1.events_handled() + all.take(
                    all.len() - self.event_queue@.len(),
                ),
                handlers.commands_handled() == h1.commands_handled(),
                handlers.events_emitted() == h1.events_emitted(),
                h0.commands_emitted().len() <= handlers.commands_emitted().len(),
                handlers.commands_emitted().take(h0.commands_emitted().len() as int)
                    == h0.commands_emitted(),
                self.cmd_queue@ == handlers.commands_emitted().skip(
                    h0.commands_emitted().len() as int,
                ),
            decreases self.event_queue@.len(),
        {
            let ghost before = *handlers;
            let ghost q = self.event_queue@;
            let ghost done = all.take(all.len() - q.len());
            let event = self.event_queue.pop_front().unwrap();
            // the handlers write to the command queue through a writer
            let mut queue = VecDeque::new();
            std::mem::swap(&mut queue, &mut self.cmd_queue);
            let mut cmd_writer = CommandWriter { queue };
            handlers.on_event(&event, &mut cmd_writer);
            self.cmd_queue = cmd_writer.queue;
            proof {
                let cm = handlers.commands_emitted();
                let cm0 = h0.commands_emitted();
                let cmb = before.commands_emitted();
                assert(all.take(all.len() - self.event_queue@.len()) =~= done.push(event)) by {
                    assert(all =~= done + q);
                }
                assert(all =~= all.take(all.len() - self.event_queue@.len()) + self.event_queue@);
                assert(cm.take(cm0.len() as int) =~= cm0) by {
                    assert(cm.take(cmb.len() as int).take(cm0.len() as int) =~= cm.take(
                        cm0.len() as int,
                    ));
                }
                assert(cm.skip(cm0.len() as int) =~= cmb.skip(cm0.len() as int) + cm.skip(
                    cmb.len() as int,
                )) by {
                    assert(cm.take(cmb.len() as int) =~= cmb);
                }
                assert(handlers.events_handled() =~= h1.events_handled() + all.take(
                    all.len() - self.event_queue@.len(),
                ));
            }
        }
        proof {
            assert(all.take(all.len() as int) =~= all);
            assert(handlers.events_handled() =~= h0.events_handled() + e0 + handlers.events_emitted().skip(
                h0.events_emitted().len() as int,
            ));
        }
    }
}

} // verus!
