//! The per-connection session: a state machine from events to actions.
//!
//! The program that owns the connection feeds the session every event it
//! observes (the handshake's outcome, each decoded inbound frame, each line
//! read from the running command, the end of each output stream) and performs
//! the actions that come back, in order: spawn a command, send a frame, or
//! close the connection.
use vstd::prelude::*;
use crate::frame::{error_frame, line_frame, sentinel, sentinel_frame, err_prefix, Origin, OutputLine};

verus! {

/// One decoded inbound request: the shell expression to run, verbatim.
#[derive(Debug)]
pub struct CommandRequest {
    pub command: String,
}

impl CommandRequest {
    pub fn new(command: String) -> (r: CommandRequest)
        ensures
            r.command@ == command@,
    {
        CommandRequest { command }
    }
}

/// What the session has observed.
pub enum Event {
    /// The transport handshake completed.
    HandshakeDone,
    /// The transport handshake failed.
    HandshakeFailed,
    /// An inbound text frame decoded into a request.
    Command(CommandRequest),
    /// An inbound frame that is not a request: not text, not JSON, or JSON
    /// without a string `command` member; or a failed read.
    Malformed,
    /// The inbound stream ended.
    InboundClosed,
    /// The running command produced a line.
    Line(OutputLine),
    /// One output stream of the running command reached its end.
    StreamEnded(Origin),
    /// The running command could not be started; the text says why.
    SpawnFailed(String),
    /// A frame could not be written to the client.
    SendFailed,
}

/// What the session asks its owner to do.
#[derive(Debug)]
pub enum Action {
    /// Start the given shell expression as the running command.
    Spawn(String),
    /// Write one text frame to the client.
    Send(String),
    /// Close the connection; the session has ended.
    Close,
}

pub enum EventView {
    HandshakeDone,
    HandshakeFailed,
    Command(Seq<char>),
    Malformed,
    InboundClosed,
    Line(Origin, Seq<char>),
    StreamEnded(Origin),
    SpawnFailed(Seq<char>),
    SendFailed,
}

pub enum ActionView {
    Spawn(Seq<char>),
    Send(Seq<char>),
    Close,
}

impl View for Event {
    type V = EventView;

    open spec fn view(&self) -> EventView {
        match self {
            Event::HandshakeDone => EventView::HandshakeDone,
            Event::HandshakeFailed => EventView::HandshakeFailed,
            Event::Command(req) => EventView::Command(req.command@),
            Event::Malformed => EventView::Malformed,
            Event::InboundClosed => EventView::InboundClosed,
            Event::Line(line) => EventView::Line(line.origin, line.text@),
            Event::StreamEnded(o) => EventView::StreamEnded(*o),
            Event::SpawnFailed(msg) => EventView::SpawnFailed(msg@),
            Event::SendFailed => EventView::SendFailed,
        }
    }
}

impl View for Action {
    type V = ActionView;

    open spec fn view(&self) -> ActionView {
        match self {
            Action::Spawn(c) => ActionView::Spawn(c@),
            Action::Send(f) => ActionView::Send(f@),
            Action::Close => ActionView::Close,
        }
    }
}

/// The views of a list of actions.
pub open spec fn actions_view(v: Seq<Action>) -> Seq<ActionView> {
    v.map_values(|a: Action| a@)
}

/// Where a session stands.
#[derive(Clone, Copy, Debug, PartialEq, Eq, Structural)]
pub enum Phase {
    Handshaking,
    AwaitingCommand,
    Executing,
    Closed,
}

pub struct SessionView {
    pub phase: Phase,
    /// While executing: the running command's standard output has not ended.
    pub stdout_open: bool,
    /// While executing: the running command's standard error has not ended.
    pub stderr_open: bool,
    /// Requests that arrived while a command was running, oldest first.
    pub pending: Seq<Seq<char>>,
    /// While executing: the inbound stream has ended (closed, or a frame
    /// that is not a request came), so no further request is taken and the
    /// session closes once the running and queued commands are done.
    pub inbound_done: bool,
}

/// The session's state outside execution: nothing running, nothing queued.
pub open spec fn at(phase: Phase) -> SessionView {
    SessionView { phase, stdout_open: true, stderr_open: true, pending: Seq::empty(), inbound_done: false }
}

/// The state in which a command has just been started.
pub open spec fn started(pending: Seq<Seq<char>>, inbound_done: bool) -> SessionView {
    SessionView { phase: Phase::Executing, stdout_open: true, stderr_open: true, pending, inbound_done }
}

impl SessionView {
    pub open spec fn wf(self) -> bool {
        if self.phase == Phase::Executing {
            self.stdout_open || self.stderr_open
        } else {
            self == at(self.phase)
        }
    }

    pub open spec fn is_open(self, o: Origin) -> bool {
        match o {
            Origin::Stdout => self.stdout_open,
            Origin::Stderr => self.stderr_open,
        }
    }

    pub open spec fn end_stream(self, o: Origin) -> SessionView {
        match o {
            Origin::Stdout => SessionView { stdout_open: false, ..self },
            Origin::Stderr => SessionView { stderr_open: false, ..self },
        }
    }
}

/// The events after which the connection is of no more use: it closes at
/// once.
pub open spec fn ends_session(e: EventView) -> bool {
    ||| e is HandshakeFailed
    ||| e is SendFailed
}

/// The events that end the inbound stream: no request comes after them.
/// The session closes once no command runs or waits.
pub open spec fn ends_inbound(e: EventView) -> bool {
    ||| e is Malformed
    ||| e is InboundClosed
}

/// The end of the running command: `done` is what is sent before the
/// sentinel; then the oldest queued request, if any, is started; else, if
/// the inbound stream has ended, the connection is closed.
pub open spec fn finish(s: SessionView, done: Seq<ActionView>) -> (SessionView, Seq<ActionView>) {
    let sent = done.push(ActionView::Send(sentinel()));
    if s.pending.len() > 0 {
        (started(s.pending.drop_first(), s.inbound_done), sent.push(ActionView::Spawn(s.pending[0])))
    } else if s.inbound_done {
        (at(Phase::Closed), sent.push(ActionView::Close))
    } else {
        (at(Phase::AwaitingCommand), sent)
    }
}

/// One transition of the session.
pub open spec fn step_spec(s: SessionView, e: EventView) -> (SessionView, Seq<ActionView>) {
    if s.phase == Phase::Closed {
        (s, Seq::empty())
    } else if ends_session(e) {
        (at(Phase::Closed), seq![ActionView::Close])
    } else if ends_inbound(e) {
        if s.phase == Phase::Executing {
            (SessionView { inbound_done: true, ..s }, Seq::empty())
        } else {
            (at(Phase::Closed), seq![ActionView::Close])
        }
    } else {
        match s.phase {
            Phase::Handshaking => match e {
                EventView::HandshakeDone => (at(Phase::AwaitingCommand), Seq::empty()),
                _ => (s, Seq::empty()),
            },
            Phase::AwaitingCommand => match e {
                EventView::Command(c) => (started(Seq::empty(), false), seq![ActionView::Spawn(c)]),
                _ => (s, Seq::empty()),
            },
            _ => match e {
                EventView::Command(c) => if s.inbound_done {
                    (s, Seq::empty())
                } else {
                    (SessionView { pending: s.pending.push(c), ..s }, Seq::empty())
                },
                EventView::Line(o, t) => if s.is_open(o) {
                    (s, seq![ActionView::Send(line_frame(o, t))])
                } else {
                    (s, Seq::empty())
                },
                EventView::StreamEnded(o) => if !s.is_open(o) {
                    (s, Seq::empty())
                } else if s.end_stream(o).stdout_open || s.end_stream(o).stderr_open {
                    (s.end_stream(o), Seq::empty())
                } else {
                    finish(s, Seq::empty())
                },
                EventView::SpawnFailed(m) => finish(s, seq![ActionView::Send(err_prefix() + m)]),
                _ => (s, Seq::empty()),
            },
        }
    }
}

/// The state reached and the actions taken, in order, when the events are
/// fed to a session one by one.
pub open spec fn run(s: SessionView, evs: Seq<EventView>) -> (SessionView, Seq<ActionView>)
    decreases evs.len(),
{
    if evs.len() == 0 {
        (s, Seq::empty())
    } else {
        let prev = run(s, evs.drop_last());
        let next = step_spec(prev.0, evs.last());
        (next.0, prev.1 + next.1)
    }
}

/// The views of a list of events.
pub open spec fn events_view(v: Seq<Event>) -> Seq<EventView> {
    v.map_values(|e: Event| e@)
}

/// One connection's session.
pub struct Session {
    phase: Phase,
    stdout_open: bool,
    stderr_open: bool,
    pending: Vec<String>,
    inbound_done: bool,
}

impl View for Session {
    type V = SessionView;

    closed spec fn view(&self) -> SessionView {
        SessionView {
            phase: self.phase,
            stdout_open: self.stdout_open,
            stderr_open: self.stderr_open,
            pending: self.pending@.map_values(|c: String| c@),
            inbound_done: self.inbound_done,
        }
    }
}

impl Session {
    pub open spec fn wf(&self) -> bool {
        self@.wf()
    }

    /// A session whose transport handshake is still under way.
    pub fn new() -> (r: Session)
        ensures
            r.wf(),
            r@ == at(Phase::Handshaking),
    {
        let r = Session {
            phase: Phase::Handshaking,
            stdout_open: true,
            stderr_open: true,
            pending: Vec::new(),
            inbound_done: false,
        };
        assert(r@.pending =~= Seq::empty());
        r
    }

    pub fn phase(&self) -> (r: Phase)
        ensures
            r == self@.phase,
    {
        self.phase
    }

    /// Whether the session has ended; it then takes no further action.
    pub fn is_closed(&self) -> (r: bool)
        ensures
            r == (self@.phase == Phase::Closed),
    {
        self.phase == Phase::Closed
    }

    /// Whether the session still takes inbound frames: it has not ended and
    /// its inbound stream has not ended.
    pub fn reads_inbound(&self) -> (r: bool)
        ensures
            r == (self@.phase != Phase::Closed && !self@.inbound_done),
    {
        self.phase != Phase::Closed && !self.inbound_done
    }

    fn close(&mut self) -> (r: Vec<Action>)
        ensures
            final(self)@ == at(Phase::Closed),
            actions_view(r@) == seq![ActionView::Close],
    {
        self.phase = Phase::Closed;
        self.stdout_open = true;
        self.stderr_open = true;
        self.pending = Vec::new();
        self.inbound_done = false;
        let r = vec![Action::Close];
        proof {
            assert(final(self)@.pending =~= Seq::empty());
            assert(actions_view(r@) =~= seq![ActionView::Close]);
        }
        r
    }

    fn finish(&mut self, acts: &mut Vec<Action>)
        requires
            old(self).phase == Phase::Executing,
        ensures
            final(self).wf(),
            (final(self)@, actions_view(final(acts)@)) == finish(old(self)@, actions_view(old(acts)@)),
    {
        acts.push(Action::Send(sentinel_frame()));
        self.stdout_open = true;
        self.stderr_open = true;
        if self.pending.len() > 0 {
            let next = self.pending.remove(0);
            acts.push(Action::Spawn(next));
            proof {
                assert(self@.pending =~= old(self)@.pending.drop_first());
                assert(actions_view(acts@) =~= finish(old(self)@, actions_view(old(acts)@)).1);
            }
        } else if self.inbound_done {
            self.phase = Phase::Closed;
            self.inbound_done = false;
            acts.push(Action::Close);
            proof {
                assert(self@.pending =~= Seq::empty());
                assert(actions_view(acts@) =~= finish(old(self)@, actions_view(old(acts)@)).1);
            }
        } else {
            self.phase = Phase::AwaitingCommand;
            proof {
                assert(self@.pending =~= Seq::empty());
                assert(actions_view(acts@) =~= finish(old(self)@, actions_view(old(acts)@)).1);
            }
        }
    }

    /// Takes one event and returns the actions to perform, in order.
    pub fn step(&mut self, event: Event) -> (actions: Vec<Action>)
        requires
            old(self).wf(),
        ensures
            final(self).wf(),
            (final(self)@, actions_view(actions@)) == step_spec(old(self)@, event@),
    {
        if self.phase == Phase::Closed {
            return Vec::new();
        }
        let ends = match &event {
            Event::HandshakeFailed | Event::SendFailed => true,
            _ => false,
        };
        if ends {
            return self.close();
        }
        let inbound_ends = match &event {
            Event::Malformed | Event::InboundClosed => true,
            _ => false,
        };
        if inbound_ends {
            if self.phase == Phase::Executing {
                self.inbound_done = true;
                return Vec::new();
            }
            return self.close();
        }
        match self.phase {
            Phase::Handshaking => {
                if let Event::HandshakeDone = event {
                    self.phase = Phase::AwaitingCommand;
                }
                Vec::new()
            },
            Phase::AwaitingCommand => {
                if let Event::Command(req) = event {
                    self.phase = Phase::Executing;
                    let r = vec![Action::Spawn(req.command)];
                    proof {
                        assert(self@.pending =~= Seq::empty());
                        assert(actions_view(r@) =~= step_spec(old(self)@, event@).1);
                    }
                    r
                } else {
                    Vec::new()
                }
            },
            _ => match event {
                Event::Command(req) => {
                    if self.inbound_done {
                        return Vec::new();
                    }
                    self.pending.push(req.command);
                    proof {
                        assert(self@.pending =~= old(self)@.pending.push(req.command@));
                    }
                    Vec::new()
                },
                Event::Line(line) => {
                    let open = match line.origin {
                        Origin::Stdout => self.stdout_open,
                        Origin::Stderr => self.stderr_open,
                    };
                    if open {
                        let r = vec![Action::Send(line.frame())];
                        proof {
                            assert(actions_view(r@) =~= step_spec(old(self)@, event@).1);
                        }
                        r
                    } else {
                        Vec::new()
                    }
                },
                Event::StreamEnded(o) => {
                    let open = match o {
                        Origin::Stdout => self.stdout_open,
                        Origin::Stderr => self.stderr_open,
                    };
                    if !open {
                        return Vec::new();
                    }
                    match o {
                        Origin::Stdout => self.stdout_open = false,
                        Origin::Stderr => self.stderr_open = false,
                    }
                    let mut acts: Vec<Action> = Vec::new();
                    if !self.stdout_open && !self.stderr_open {
                        proof {
                            assert(actions_view(acts@) =~= Seq::empty());
                        }
                        self.finish(&mut acts);
                    }
                    acts
                },
                Event::SpawnFailed(msg) => {
                    let mut acts = vec![Action::Send(error_frame(msg.as_str()))];
                    proof {
                        assert(actions_view(acts@) =~= seq![ActionView::Send(err_prefix() + msg@)]);
                    }
                    self.finish(&mut acts);
                    acts
                },
                _ => Vec::new(),
            },
        }
    }

    /// Takes the events in order and returns all the actions they call for,
    /// in order.
    pub fn feed(&mut self, events: Vec<Event>) -> (actions: Vec<Action>)
        requires
            old(self).wf(),
        ensures
            final(self).wf(),
            (final(self)@, actions_view(actions@)) == run(old(self)@, events_view(events@)),
    {
        let ghost all = events_view(events@);
        let ghost start = self@;
        let mut events = events;
        let mut actions: Vec<Action> = Vec::new();
        let mut k: usize = 0;
        let n = events.len();
        proof {
            assert(all.subrange(0, 0) =~= Seq::<EventView>::empty());
            assert(actions_view(actions@) =~= Seq::<ActionView>::empty());
        }
        while events.len() > 0
            invariant
                self.wf(),
                k + events@.len() == n,
                n == all.len(),
                events_view(events@) =~= all.subrange(k as int, n as int),
                (self@, actions_view(actions@)) == run(start, all.subrange(0, k as int)),
            decreases events@.len(),
        {
            let ghost prev = events@;
            let e = events.remove(0);
            let ghost before = actions_view(actions@);
            proof {
                assert(events_view(prev)[0] == all.subrange(k as int, n as int)[0]);
                assert(events@ =~= prev.subrange(1, prev.len() as int));
                assert(e@ == all[k as int]);
                assert forall|i: int| 0 <= i < events@.len() implies #[trigger] events_view(events@)[i]
                    == all.subrange(k + 1, n as int)[i] by {
                    assert(events_view(events@)[i] == events_view(prev)[i + 1]);
                    assert(events_view(prev)[i + 1] == all.subrange(k as int, n as int)[i + 1]);
                }
                assert(events_view(events@) =~= all.subrange(k + 1, n as int));
                assert(all.subrange(0, k + 1).drop_last() =~= all.subrange(0, k as int));
                assert(all.subrange(0, k + 1).last() == all[k as int]);
            }
            let mut step_actions = self.step(e);
            let ghost added = actions_view(step_actions@);
            actions.append(&mut step_actions);
            k = k + 1;
            proof {
                assert(actions_view(actions@) =~= before + added);
            }
        }
        proof {
            assert(all.subrange(0, n as int) =~= all);
        }
        actions
    }
}

} // verus!
