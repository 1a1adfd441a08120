use shell_bridge::frame::{Origin, OutputLine};
use shell_bridge::session::{Action, CommandRequest, Event, Phase, Session};

fn cmd(c: &str) -> Event {
    Event::Command(CommandRequest::new(c.to_string()))
}

fn out(t: &str) -> Event {
    Event::Line(OutputLine::new(Origin::Stdout, t.to_string()))
}

fn err(t: &str) -> Event {
    Event::Line(OutputLine::new(Origin::Stderr, t.to_string()))
}

fn show(actions: Vec<Action>) -> Vec<String> {
    actions
        .into_iter()
        .map(|a| match a {
            Action::Spawn(c) => format!("spawn {}", c),
            Action::Send(f) => format!("send {}", f),
            Action::Close => "close".to_string(),
        })
        .collect()
}

fn ready() -> Session {
    let mut s = Session::new();
    assert!(s.step(Event::HandshakeDone).is_empty());
    assert_eq!(s.phase(), Phase::AwaitingCommand);
    s
}

#[test]
fn echo_hi() {
    let mut s = ready();
    let acts = s.feed(vec![
        cmd("echo hi"),
        out("hi"),
        Event::StreamEnded(Origin::Stdout),
        Event::StreamEnded(Origin::Stderr),
    ]);
    assert_eq!(show(acts), vec!["spawn echo hi", "send hi", "send ---END---"]);
    assert_eq!(s.phase(), Phase::AwaitingCommand);
}

#[test]
fn echo_to_stderr() {
    let mut s = ready();
    let acts = s.feed(vec![
        cmd("echo err 1>&2"),
        Event::StreamEnded(Origin::Stdout),
        err("err"),
        Event::StreamEnded(Origin::Stderr),
    ]);
    assert_eq!(show(acts), vec!["spawn echo err 1>&2", "send ERR: err", "send ---END---"]);
}

#[test]
fn both_streams_either_order() {
    let mut s = ready();
    let acts = s.feed(vec![
        cmd("echo a; echo b 1>&2"),
        out("a"),
        err("b"),
        Event::StreamEnded(Origin::Stderr),
        Event::StreamEnded(Origin::Stdout),
    ]);
    assert_eq!(show(acts), vec!["spawn echo a; echo b 1>&2", "send a", "send ERR: b", "send ---END---"]);

    let mut s = ready();
    let acts = s.feed(vec![
        cmd("echo a; echo b 1>&2"),
        err("b"),
        out("a"),
        Event::StreamEnded(Origin::Stdout),
        Event::StreamEnded(Origin::Stderr),
    ]);
    assert_eq!(show(acts), vec!["spawn echo a; echo b 1>&2", "send ERR: b", "send a", "send ---END---"]);
}

#[test]
fn non_json_frame_closes() {
    let mut s = ready();
    let acts = s.feed(vec![Event::Malformed, cmd("echo hi"), out("hi")]);
    assert_eq!(show(acts), vec!["close"]);
    assert!(s.is_closed());
}

#[test]
fn malformed_while_running_closes_without_sentinel() {
    let mut s = ready();
    let acts = s.feed(vec![
        cmd("sleep 5"),
        out("x"),
        Event::Malformed,
        out("y"),
        Event::StreamEnded(Origin::Stdout),
        Event::StreamEnded(Origin::Stderr),
    ]);
    assert_eq!(show(acts), vec!["spawn sleep 5", "send x", "send y", "send ---END---", "close"]);
    assert!(s.is_closed());
}

#[test]
fn inbound_close_while_running_finishes_command() {
    let mut s = ready();
    let acts = s.feed(vec![
        cmd("echo hi"),
        Event::InboundClosed,
        out("hi"),
        Event::StreamEnded(Origin::Stdout),
        Event::StreamEnded(Origin::Stderr),
    ]);
    assert_eq!(show(acts), vec!["spawn echo hi", "send hi", "send ---END---", "close"]);
    assert!(s.is_closed());
}

#[test]
fn inbound_close_runs_queued_commands_first() {
    let mut s = ready();
    let acts = s.feed(vec![
        cmd("echo one"),
        cmd("echo two"),
        Event::InboundClosed,
        cmd("echo three"),
        out("one"),
        Event::StreamEnded(Origin::Stdout),
        Event::StreamEnded(Origin::Stderr),
        err("two"),
        Event::StreamEnded(Origin::Stderr),
        Event::StreamEnded(Origin::Stdout),
    ]);
    assert_eq!(
        show(acts),
        vec!["spawn echo one", "send one", "send ---END---", "spawn echo two", "send ERR: two", "send ---END---", "close"]
    );
}

#[test]
fn reads_inbound_until_inbound_ends() {
    let mut s = ready();
    assert!(s.reads_inbound());
    s.step(cmd("c"));
    assert!(s.reads_inbound());
    s.step(Event::InboundClosed);
    assert!(!s.reads_inbound());
    assert!(!s.is_closed());
}

#[test]
fn two_commands_back_to_back() {
    let mut s = ready();
    let acts = s.feed(vec![
        cmd("echo one"),
        cmd("echo two"),
        out("one"),
        Event::StreamEnded(Origin::Stdout),
        Event::StreamEnded(Origin::Stderr),
        out("two"),
        Event::StreamEnded(Origin::Stderr),
        Event::StreamEnded(Origin::Stdout),
    ]);
    assert_eq!(
        show(acts),
        vec!["spawn echo one", "send one", "send ---END---", "spawn echo two", "send two", "send ---END---"]
    );
    assert_eq!(s.phase(), Phase::AwaitingCommand);
}

#[test]
fn queued_commands_run_oldest_first() {
    let mut s = ready();
    let acts = s.feed(vec![
        cmd("a"),
        cmd("b"),
        cmd("c"),
        Event::StreamEnded(Origin::Stdout),
        Event::StreamEnded(Origin::Stderr),
        Event::StreamEnded(Origin::Stdout),
        Event::StreamEnded(Origin::Stderr),
    ]);
    assert_eq!(
        show(acts),
        vec!["spawn a", "send ---END---", "spawn b", "send ---END---", "spawn c"]
    );
    assert_eq!(s.phase(), Phase::Executing);
}

#[test]
fn spawn_failure_reports_and_continues() {
    let mut s = ready();
    let acts = s.feed(vec![cmd("x"), Event::SpawnFailed("no shell".to_string()), cmd("echo ok")]);
    assert_eq!(show(acts), vec!["spawn x", "send ERR: no shell", "send ---END---", "spawn echo ok"]);
}

#[test]
fn late_output_after_sentinel_is_ignored() {
    let mut s = ready();
    let acts = s.feed(vec![
        cmd("true"),
        Event::StreamEnded(Origin::Stdout),
        Event::StreamEnded(Origin::Stderr),
        out("late"),
        Event::StreamEnded(Origin::Stdout),
    ]);
    assert_eq!(show(acts), vec!["spawn true", "send ---END---"]);
}

#[test]
fn line_after_its_stream_ended_is_dropped() {
    let mut s = ready();
    let acts = s.feed(vec![cmd("c"), Event::StreamEnded(Origin::Stdout), out("stray"), err("e")]);
    assert_eq!(show(acts), vec!["spawn c", "send ERR: e"]);
}

#[test]
fn stream_order_kept() {
    let mut s = ready();
    let acts = s.feed(vec![cmd("c"), out("1"), err("x"), out("2"), err("y"), out("3")]);
    assert_eq!(show(acts), vec!["spawn c", "send 1", "send ERR: x", "send 2", "send ERR: y", "send 3"]);
}

#[test]
fn handshake_failure_closes() {
    let mut s = Session::new();
    assert_eq!(s.phase(), Phase::Handshaking);
    assert_eq!(show(s.step(Event::HandshakeFailed)), vec!["close"]);
    assert!(s.is_closed());
    assert!(s.step(Event::HandshakeDone).is_empty());
}

#[test]
fn inbound_close_and_send_failure_end_session() {
    let mut s = ready();
    assert_eq!(show(s.step(Event::InboundClosed)), vec!["close"]);
    let mut s = ready();
    assert_eq!(show(s.feed(vec![cmd("c"), Event::SendFailed, out("z")])), vec!["spawn c", "close"]);
}

#[test]
fn empty_feed_does_nothing() {
    let mut s = ready();
    assert!(s.feed(Vec::new()).is_empty());
    assert_eq!(s.phase(), Phase::AwaitingCommand);
}
