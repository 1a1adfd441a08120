//! What holds of a session over whole sequences of events.
use vstd::prelude::*;
use crate::frame::{err_prefix, lemma_prefixed_is_not_sentinel, line_frame, sentinel, Origin};
use crate::session::{at, ends_inbound, ends_session, finish, run, started, step_spec, ActionView, EventView, Phase, SessionView};

verus! {

/// Line events for the given lines.
pub open spec fn line_events(lines: Seq<(Origin, Seq<char>)>) -> Seq<EventView> {
    lines.map_values(|l: (Origin, Seq<char>)| EventView::Line(l.0, l.1))
}

/// The frames sent for the given lines, one each, in the same order.
pub open spec fn line_sends(lines: Seq<(Origin, Seq<char>)>) -> Seq<ActionView> {
    lines.map_values(|l: (Origin, Seq<char>)| ActionView::Send(line_frame(l.0, l.1)))
}

/// The stream that is not `o`.
pub open spec fn other(o: Origin) -> Origin {
    match o {
        Origin::Stdout => Origin::Stderr,
        Origin::Stderr => Origin::Stdout,
    }
}

/// Events that only a running command produces.
pub open spec fn from_runner(e: EventView) -> bool {
    ||| e is Line
    ||| e is StreamEnded
    ||| e is SpawnFailed
}

/// No standard-output line in the events reads as the sentinel.
pub open spec fn no_sentinel_lines(evs: Seq<EventView>) -> bool {
    forall|i: int| 0 <= i < evs.len() ==> evs[i] != EventView::Line(Origin::Stdout, sentinel())
}

/// Whether the actions keep commands apart, starting with a command running
/// (`busy`) or not: a command is spawned only when none runs, a frame is sent
/// only while one runs, and the sentinel ends it. `None` when broken, else
/// whether a command runs after the last action.
pub open spec fn serial_after(acts: Seq<ActionView>, busy: bool) -> Option<bool>
    decreases acts.len(),
{
    if acts.len() == 0 {
        Some(busy)
    } else {
        match serial_after(acts.drop_last(), busy) {
            None => None,
            Some(b) => match acts.last() {
                ActionView::Spawn(_) => if b { None } else { Some(true) },
                ActionView::Send(f) => if !b { None } else if f == sentinel() { Some(false) } else { Some(true) },
                ActionView::Close => Some(false),
            },
        }
    }
}

pub proof fn lemma_step_wf(s: SessionView, e: EventView)
    requires
        s.wf(),
    ensures
        step_spec(s, e).0.wf(),
{
}

pub proof fn lemma_run_wf(s: SessionView, evs: Seq<EventView>)
    requires
        s.wf(),
    ensures
        run(s, evs).0.wf(),
    decreases evs.len(),
{
    if evs.len() > 0 {
        lemma_run_wf(s, evs.drop_last());
        lemma_step_wf(run(s, evs.drop_last()).0, evs.last());
    }
}

/// Feeding two sequences of events one after the other is feeding their
/// concatenation.
pub proof fn lemma_run_append(s: SessionView, a: Seq<EventView>, b: Seq<EventView>)
    ensures
        run(s, a + b) == (run(run(s, a).0, b).0, run(s, a).1 + run(run(s, a).0, b).1),
    decreases b.len(),
{
    if b.len() == 0 {
        assert(a + b =~= a);
        assert(run(s, a).1 + Seq::<ActionView>::empty() =~= run(s, a).1);
    } else {
        lemma_run_append(s, a, b.drop_last());
        assert((a + b).drop_last() =~= a + b.drop_last());
        assert((a + b).last() == b.last());
        let mid = run(s, a);
        let r = run(mid.0, b.drop_last());
        let n = step_spec(r.0, b.last());
        assert(mid.1 + r.1 + n.1 =~= mid.1 + (r.1 + n.1));
    }
}

pub proof fn lemma_run_one(s: SessionView, e: EventView)
    ensures
        run(s, seq![e]) == step_spec(s, e),
{
    assert(seq![e].drop_last() =~= Seq::<EventView>::empty());
    assert(run(s, seq![e].drop_last()) == (s, Seq::<ActionView>::empty()));
    assert(seq![e].last() == e);
    assert(Seq::<ActionView>::empty() + step_spec(s, e).1 =~= step_spec(s, e).1);
}

/// A closed session stays closed and does nothing more.
pub proof fn lemma_closed_is_final(evs: Seq<EventView>)
    ensures
        run(at(Phase::Closed), evs) == (at(Phase::Closed), Seq::<ActionView>::empty()),
    decreases evs.len(),
{
    if evs.len() > 0 {
        lemma_closed_is_final(evs.drop_last());
        assert(Seq::<ActionView>::empty() + Seq::<ActionView>::empty() =~= Seq::<ActionView>::empty());
    }
}

/// A session waiting for a request ignores what a command would produce:
/// output that arrives after a command's sentinel reaches no one.
pub proof fn lemma_idle_ignores_runner(evs: Seq<EventView>)
    requires
        forall|i: int| 0 <= i < evs.len() ==> from_runner(#[trigger] evs[i]),
    ensures
        run(at(Phase::AwaitingCommand), evs) == (at(Phase::AwaitingCommand), Seq::<ActionView>::empty()),
    decreases evs.len(),
{
    if evs.len() > 0 {
        lemma_idle_ignores_runner(evs.drop_last());
        assert(from_runner(evs[evs.len() - 1]));
        assert(Seq::<ActionView>::empty() + Seq::<ActionView>::empty() =~= Seq::<ActionView>::empty());
    }
}

/// While a command runs, each line of a stream that has not ended is sent as
/// one frame, in the order the lines arrive; so within each stream the
/// order of the lines is kept.
pub proof fn lemma_lines_in_order(s: SessionView, lines: Seq<(Origin, Seq<char>)>)
    requires
        s.wf(),
        s.phase == Phase::Executing,
        forall|i: int| 0 <= i < lines.len() ==> s.is_open(#[trigger] lines[i].0),
    ensures
        run(s, line_events(lines)) == (s, line_sends(lines)),
    decreases lines.len(),
{
    if lines.len() > 0 {
        let evs = line_events(lines);
        assert(evs.drop_last() =~= line_events(lines.drop_last()));
        lemma_lines_in_order(s, lines.drop_last());
        let l = lines[lines.len() - 1];
        assert(s.is_open(l.0));
        assert(evs.last() == EventView::Line(l.0, l.1));
        assert(line_sends(lines) =~= line_sends(lines.drop_last()) + seq![ActionView::Send(line_frame(l.0, l.1))]);
    }
}

/// The events of a command that runs to the end: `lines`, then the end of
/// the stream `first`, then `rest`, then the end of the other stream.
pub open spec fn command_output(
    lines: Seq<(Origin, Seq<char>)>,
    first: Origin,
    rest: Seq<(Origin, Seq<char>)>,
) -> Seq<EventView> {
    line_events(lines) + seq![EventView::StreamEnded(first)] + line_events(rest)
        + seq![EventView::StreamEnded(other(first))]
}

/// The frames of a command that runs to the end: one per line, then the
/// sentinel.
pub open spec fn command_frames(lines: Seq<(Origin, Seq<char>)>, rest: Seq<(Origin, Seq<char>)>) -> Seq<ActionView> {
    line_sends(lines) + line_sends(rest) + seq![ActionView::Send(sentinel())]
}

proof fn lemma_output_runs_to_end(
    lines: Seq<(Origin, Seq<char>)>,
    first: Origin,
    rest: Seq<(Origin, Seq<char>)>,
)
    requires
        forall|i: int| 0 <= i < rest.len() ==> (#[trigger] rest[i]).0 == other(first),
    ensures
        run(started(Seq::empty(), false), command_output(lines, first, rest))
            == (at(Phase::AwaitingCommand), command_frames(lines, rest)),
{
    let s1 = started(Seq::empty(), false);
    let s2 = s1.end_stream(first);
    let e1 = line_events(lines);
    let e2 = seq![EventView::StreamEnded(first)];
    let e3 = line_events(rest);
    let e4 = seq![EventView::StreamEnded(other(first))];
    lemma_lines_in_order(s1, lines);
    lemma_run_one(s1, EventView::StreamEnded(first));
    lemma_run_append(s1, e1, e2);
    lemma_lines_in_order(s2, rest);
    lemma_run_append(s1, e1 + e2, e3);
    lemma_run_one(s2, EventView::StreamEnded(other(first)));
    lemma_run_append(s1, e1 + e2 + e3, e4);
    assert(line_sends(lines) + Seq::<ActionView>::empty() + line_sends(rest)
        + seq![ActionView::Send(sentinel())] =~= command_frames(lines, rest));
}

/// A request run to completion: the session spawns it, sends one frame per
/// line (a standard-error line behind `ERR: `, a standard-output line as it
/// is) in arrival order, and, once both streams have ended, the sentinel as
/// its last frame; it then waits for the next request, and output arriving
/// later sends nothing. `first` is the stream that ends first; the lines in
/// `rest` come after it ended, so all from the other stream.
pub proof fn lemma_command_round(
    c: Seq<char>,
    lines: Seq<(Origin, Seq<char>)>,
    first: Origin,
    rest: Seq<(Origin, Seq<char>)>,
    late: Seq<EventView>,
)
    requires
        forall|i: int| 0 <= i < rest.len() ==> (#[trigger] rest[i]).0 == other(first),
        forall|i: int| 0 <= i < late.len() ==> from_runner(#[trigger] late[i]),
    ensures
        run(
            at(Phase::AwaitingCommand),
            seq![EventView::Command(c)] + line_events(lines) + seq![EventView::StreamEnded(first)]
                + line_events(rest) + seq![EventView::StreamEnded(other(first))] + late,
        ) == (
            at(Phase::AwaitingCommand),
            seq![ActionView::Spawn(c)] + line_sends(lines) + line_sends(rest) + seq![ActionView::Send(sentinel())],
        ),
{
    let s0 = at(Phase::AwaitingCommand);
    let e0 = seq![EventView::Command(c)];
    let out = command_output(lines, first, rest);
    lemma_run_one(s0, EventView::Command(c));
    lemma_output_runs_to_end(lines, first, rest);
    lemma_run_append(s0, e0, out);
    lemma_idle_ignores_runner(late);
    lemma_run_append(s0, e0 + out, late);
    assert(seq![EventView::Command(c)] + line_events(lines) + seq![EventView::StreamEnded(first)]
        + line_events(rest) + seq![EventView::StreamEnded(other(first))] + late =~= e0 + out + late);
    assert(seq![ActionView::Spawn(c)] + command_frames(lines, rest) + Seq::<ActionView>::empty()
        =~= seq![ActionView::Spawn(c)] + line_sends(lines) + line_sends(rest) + seq![ActionView::Send(sentinel())]);
}

/// The state of a running command once the inbound stream has ended.
pub open spec fn inbound_ended(s: SessionView) -> SessionView {
    SessionView { inbound_done: true, ..s }
}

/// A fresh command's state under its own output: still running with
/// nothing queued, or done.
pub open spec fn alone(s: SessionView) -> bool {
    ||| s == at(Phase::AwaitingCommand)
    ||| (s.wf() && s.phase == Phase::Executing && s.pending.len() == 0 && !s.inbound_done)
}

/// Once the inbound stream has ended, a command that runs alone sends the
/// same frames as before, and the connection closes right after its
/// sentinel.
proof fn lemma_output_after_inbound_end(s: SessionView, evs: Seq<EventView>)
    requires
        alone(s),
        s.phase == Phase::Executing,
        forall|i: int| 0 <= i < evs.len() ==> from_runner(#[trigger] evs[i]),
    ensures
        alone(run(s, evs).0),
        run(s, evs).0.phase == Phase::Executing ==> run(inbound_ended(s), evs)
            == (inbound_ended(run(s, evs).0), run(s, evs).1),
        run(s, evs).0.phase != Phase::Executing ==> run(inbound_ended(s), evs)
            == (at(Phase::Closed), run(s, evs).1.push(ActionView::Close)),
    decreases evs.len(),
{
    if evs.len() > 0 {
        let prev = evs.drop_last();
        let e = evs.last();
        assert(from_runner(evs[evs.len() - 1]));
        lemma_output_after_inbound_end(s, prev);
        let p = run(s, prev);
        let q = step_spec(p.0, e);
        if p.0.phase == Phase::Executing {
            let mp = inbound_ended(p.0);
            let mq = step_spec(mp, e);
            match e {
                EventView::StreamEnded(o) => {
                    assert(mp.end_stream(o) == inbound_ended(p.0.end_stream(o)));
                },
                _ => {},
            }
            if q.0.phase == Phase::Executing {
                assert(mq == (inbound_ended(q.0), q.1));
            } else {
                assert(mq == (at(Phase::Closed), q.1.push(ActionView::Close)));
                assert(p.1 + q.1.push(ActionView::Close) =~= (p.1 + q.1).push(ActionView::Close));
            }
        } else {
            assert(q == (at(Phase::AwaitingCommand), Seq::<ActionView>::empty()));
            assert(p.1.push(ActionView::Close) + Seq::<ActionView>::empty() =~= (p.1 + q.1).push(ActionView::Close));
        }
    }
}

/// The inbound stream ending after a request, wherever that falls among the
/// request's output, does not cut the request short: the session spawns it,
/// sends every line's frame and the sentinel, and then closes the
/// connection. `stop` is the end of the inbound stream, or a frame that is
/// not a request.
pub proof fn lemma_inbound_end_after_request(
    c: Seq<char>,
    lines: Seq<(Origin, Seq<char>)>,
    first: Origin,
    rest: Seq<(Origin, Seq<char>)>,
    stop: EventView,
    before: Seq<EventView>,
    after: Seq<EventView>,
)
    requires
        forall|i: int| 0 <= i < rest.len() ==> (#[trigger] rest[i]).0 == other(first),
        ends_inbound(stop),
        before + after == command_output(lines, first, rest),
    ensures
        run(at(Phase::AwaitingCommand), seq![EventView::Command(c)] + before + seq![stop] + after) == (
            at(Phase::Closed),
            (seq![ActionView::Spawn(c)] + command_frames(lines, rest)).push(ActionView::Close),
        ),
{
    let s0 = at(Phase::AwaitingCommand);
    let s1 = started(Seq::empty(), false);
    let e0 = seq![EventView::Command(c)];
    let out = command_output(lines, first, rest);
    assert forall|i: int| 0 <= i < out.len() implies from_runner(#[trigger] out[i]) by {
        if i < lines.len() {
            assert(out[i] == line_events(lines)[i]);
        } else if lines.len() + 1 <= i < lines.len() + 1 + rest.len() {
            assert(out[i] == line_events(rest)[i - lines.len() - 1]);
        }
    }
    assert forall|i: int| 0 <= i < before.len() implies from_runner(#[trigger] before[i]) by {
        assert(before[i] == (before + after)[i]);
    }
    assert forall|i: int| 0 <= i < after.len() implies from_runner(#[trigger] after[i]) by {
        assert(after[i] == (before + after)[i + before.len()]);
    }
    lemma_output_runs_to_end(lines, first, rest);
    lemma_run_append(s1, before, after);
    lemma_output_after_inbound_end(s1, before);
    let p = run(s1, before);
    lemma_run_one(s0, EventView::Command(c));
    lemma_run_append(s0, e0, before);
    lemma_run_one(p.0, stop);
    lemma_run_append(s0, e0 + before, seq![stop]);
    lemma_run_append(s0, e0 + before + seq![stop], after);
    let full = seq![ActionView::Spawn(c)] + command_frames(lines, rest);
    if p.0.phase == Phase::Executing {
        lemma_output_after_inbound_end(p.0, after);
        assert(step_spec(p.0, stop) == (inbound_ended(p.0), Seq::<ActionView>::empty()));
        assert(seq![ActionView::Spawn(c)] + p.1 + Seq::<ActionView>::empty() + run(p.0, after).1.push(ActionView::Close)
            =~= full.push(ActionView::Close));
    } else {
        lemma_idle_ignores_runner(after);
        lemma_closed_is_final(after);
        assert(seq![ActionView::Spawn(c)] + p.1 + seq![ActionView::Close] + Seq::<ActionView>::empty()
            =~= full.push(ActionView::Close));
    }
}

/// The sentinel is sent exactly once for a request run to completion, as
/// its last frame, provided no standard-output line reads as the sentinel
/// (a command printing `---END---` would otherwise send a frame that a client
/// cannot tell from it).
pub proof fn lemma_one_sentinel_per_command(
    c: Seq<char>,
    lines: Seq<(Origin, Seq<char>)>,
    first: Origin,
    rest: Seq<(Origin, Seq<char>)>,
)
    requires
        forall|i: int| 0 <= i < rest.len() ==> (#[trigger] rest[i]).0 == other(first),
        forall|i: int| 0 <= i < lines.len() ==> #[trigger] lines[i] != (Origin::Stdout, sentinel()),
        forall|i: int| 0 <= i < rest.len() ==> #[trigger] rest[i] != (Origin::Stdout, sentinel()),
    ensures
        ({
            let out = run(
                at(Phase::AwaitingCommand),
                seq![EventView::Command(c)] + line_events(lines) + seq![EventView::StreamEnded(first)]
                    + line_events(rest) + seq![EventView::StreamEnded(other(first))],
            ).1;
            &&& out.last() == ActionView::Send(sentinel())
            &&& forall|i: int| 0 <= i < out.len() - 1 ==> #[trigger] out[i] != ActionView::Send(sentinel())
        }),
{
    let late = Seq::<EventView>::empty();
    lemma_command_round(c, lines, first, rest, late);
    let evs = seq![EventView::Command(c)] + line_events(lines) + seq![EventView::StreamEnded(first)]
        + line_events(rest) + seq![EventView::StreamEnded(other(first))];
    assert(evs + late =~= evs);
    let body = line_sends(lines) + line_sends(rest);
    let out = seq![ActionView::Spawn(c)] + body + seq![ActionView::Send(sentinel())];
    assert(seq![ActionView::Spawn(c)] + line_sends(lines) + line_sends(rest) + seq![ActionView::Send(sentinel())] =~= out);
    assert forall|i: int| 0 <= i < out.len() - 1 implies #[trigger] out[i] != ActionView::Send(sentinel()) by {
        if i > 0 {
            let j = i - 1;
            assert(out[i] == body[j]);
            let l = if j < lines.len() { lines[j] } else { rest[j - lines.len()] };
            assert(body[j] == ActionView::Send(line_frame(l.0, l.1)));
            if l.0 == Origin::Stderr {
                lemma_prefixed_is_not_sentinel(l.1);
            }
        }
    }
}

/// Commands never overlap: from any state, whatever the events, a command is
/// spawned only after the sentinel of the one before it, and every frame
/// falls between a spawn and the sentinel that ends it; so nothing of a
/// later command is sent before an earlier one's sentinel. This needs that
/// no standard-output line reads as the sentinel.
pub proof fn lemma_commands_never_overlap(s: SessionView, evs: Seq<EventView>)
    requires
        s.wf(),
        no_sentinel_lines(evs),
    ensures
        serial_after(run(s, evs).1, s.phase == Phase::Executing) == Some(run(s, evs).0.phase == Phase::Executing),
    decreases evs.len(),
{
    if evs.len() > 0 {
        let busy = s.phase == Phase::Executing;
        assert(no_sentinel_lines(evs.drop_last()));
        lemma_commands_never_overlap(s, evs.drop_last());
        let prev = run(s, evs.drop_last());
        lemma_run_wf(s, evs.drop_last());
        let e = evs.last();
        assert(e != EventView::Line(Origin::Stdout, sentinel()));
        lemma_step_serial(prev.0, e);
        lemma_serial_append(prev.1, step_spec(prev.0, e).1, busy);
    }
}

proof fn lemma_serial_append(a: Seq<ActionView>, b: Seq<ActionView>, busy: bool)
    ensures
        serial_after(a + b, busy) == match serial_after(a, busy) {
            None => None,
            Some(x) => serial_after(b, x),
        },
    decreases b.len(),
{
    if b.len() == 0 {
        assert(a + b =~= a);
    } else {
        lemma_serial_append(a, b.drop_last(), busy);
        assert((a + b).drop_last() =~= a + b.drop_last());
        assert((a + b).last() == b.last());
    }
}

proof fn lemma_serial_one(x: ActionView, busy: bool)
    ensures
        serial_after(seq![x], busy) == match x {
            ActionView::Spawn(_) => if busy { None } else { Some(true) },
            ActionView::Send(f) => if !busy { None } else if f == sentinel() { Some(false) } else { Some(true) },
            ActionView::Close => Some(false),
        },
{
    assert(seq![x].drop_last() =~= Seq::<ActionView>::empty());
    assert(serial_after(seq![x].drop_last(), busy) == Some(busy));
    assert(seq![x].last() == x);
}

/// Ending a running command keeps commands apart, given that what is sent
/// before the sentinel does.
proof fn lemma_finish_serial(s: SessionView, done: Seq<ActionView>)
    requires
        serial_after(done, true) == Some(true),
    ensures
        serial_after(finish(s, done).1, true) == Some(finish(s, done).0.phase == Phase::Executing),
{
    let end = ActionView::Send(sentinel());
    let sent = done.push(end);
    assert(sent =~= done + seq![end]);
    lemma_serial_one(end, true);
    lemma_serial_append(done, seq![end], true);
    if s.pending.len() > 0 {
        let sp = ActionView::Spawn(s.pending[0]);
        assert(sent.push(sp) =~= sent + seq![sp]);
        lemma_serial_one(sp, false);
        lemma_serial_append(sent, seq![sp], true);
    } else if s.inbound_done {
        assert(sent.push(ActionView::Close) =~= sent + seq![ActionView::Close]);
        lemma_serial_one(ActionView::Close, false);
        lemma_serial_append(sent, seq![ActionView::Close], true);
    }
}

proof fn lemma_step_serial(s: SessionView, e: EventView)
    requires
        s.wf(),
        e != EventView::Line(Origin::Stdout, sentinel()),
    ensures
        serial_after(step_spec(s, e).1, s.phase == Phase::Executing) == Some(step_spec(s, e).0.phase == Phase::Executing),
{
    let busy = s.phase == Phase::Executing;
    if s.phase == Phase::Closed {
    } else if ends_session(e) {
        lemma_serial_one(ActionView::Close, busy);
    } else if ends_inbound(e) {
        if !busy {
            lemma_serial_one(ActionView::Close, busy);
        }
    } else if s.phase == Phase::Handshaking {
    } else if s.phase == Phase::AwaitingCommand {
        if let EventView::Command(c) = e {
            lemma_serial_one(ActionView::Spawn(c), busy);
        }
    } else {
        match e {
            EventView::Line(o, t) => {
                if s.is_open(o) {
                    if o == Origin::Stderr {
                        lemma_prefixed_is_not_sentinel(t);
                    }
                    lemma_serial_one(ActionView::Send(line_frame(o, t)), busy);
                }
            },
            EventView::StreamEnded(o) => {
                if s.is_open(o) && !(s.end_stream(o).stdout_open || s.end_stream(o).stderr_open) {
                    lemma_finish_serial(s, Seq::empty());
                }
            },
            EventView::SpawnFailed(m) => {
                let err = ActionView::Send(err_prefix() + m);
                lemma_prefixed_is_not_sentinel(m);
                lemma_serial_one(err, true);
                lemma_finish_serial(s, seq![err]);
            },
            _ => {},
        }
    }
}

/// A frame that is not a request, while no command runs, ends the session:
/// the connection is closed, no sentinel is sent, and nothing after it is
/// acted on. (While a command runs, see `lemma_inbound_end_after_request`.)
pub proof fn lemma_malformed_ends(s: SessionView, rest: Seq<EventView>)
    requires
        s.wf(),
        s.phase != Phase::Closed,
        s.phase != Phase::Executing,
    ensures
        run(s, seq![EventView::Malformed] + rest) == (at(Phase::Closed), seq![ActionView::Close]),
{
    lemma_run_one(s, EventView::Malformed);
    lemma_run_append(s, seq![EventView::Malformed], rest);
    lemma_closed_is_final(rest);
    assert(seq![ActionView::Close] + Seq::<ActionView>::empty() =~= seq![ActionView::Close]);
}

} // verus!
