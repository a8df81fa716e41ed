use wmux::actor::{check_name, one_command, Actor, End, Message, Move, MsgId, Sender, WorkMode};
use wmux::time::Time;

fn at() -> Time {
    Time { ms: 1_790_000_000_000, offset: 0 }
}

fn msg(id: MsgId, via: WorkMode) -> Message {
    Message {
        id,
        task: id,
        from: Sender::Pane { id: 7, address: "$1:@3.%7".into(), name: Some("builder".into()), mode: WorkMode::Ai },
        to: "$1:@4.%9".into(),
        via,
        hop: 0,
        re: None,
        text: format!("text {id}"),
        at: at(),
    }
}

fn actor(mode: WorkMode) -> Actor {
    Actor { mode, ..Default::default() }
}

#[test]
fn the_envelope_is_fixed_and_leaves_out_what_is_absent() {
    let mut m = msg(12, WorkMode::Shell);
    m.hop = 1;
    m.re = Some(9);
    m.task = 3;
    assert_eq!(
        m.envelope(),
        r#"{"keepane":1,"id":12,"task":3,"from":"$1:@3.%7","name":"builder","mode":"ai","to":"$1:@4.%9","via":"shell","hop":1,"re":9}"#
    );
    m.from = Sender::User;
    m.re = None;
    assert_eq!(
        m.envelope(),
        r#"{"keepane":1,"id":12,"task":3,"from":"user","to":"$1:@4.%9","via":"shell","hop":1}"#
    );
    // The same message, the same bytes, every time.
    assert_eq!(m.envelope(), m.clone().envelope());
}

#[test]
fn each_mode_wraps_the_same_envelope_its_own_way() {
    let m = msg(5, WorkMode::Shell);
    assert_eq!(m.wrapped(), format!("<# {} #> text 5", m.envelope()));
    let m = msg(5, WorkMode::Ai);
    assert_eq!(m.wrapped(), format!("{}\ntext 5\n{{\"keepane\":1,\"end\":5}}", m.envelope()));
}

#[test]
fn a_shell_command_of_several_lines_goes_in_as_one() {
    assert_eq!(one_command("Get-Date"), "Get-Date");
    assert_eq!(one_command("Get-Date\r\n"), "Get-Date", "a trailing line end is not a second line");
    let two = one_command("$a = 'x'\r\nWrite-Output $a ‘q’");
    assert!(
        two.starts_with("$__keepane_e = $Error[0]; . ([scriptblock]::Create(('$a = ''x''', 'Write-Output $a ‘‘q’’') -join \"`n\")); "),
        "{two}"
    );
    assert!(two.ends_with("Write-Error \"a line above failed\" -ErrorAction SilentlyContinue }"), "{two}");
    let mut m = msg(3, WorkMode::Shell);
    m.text = "a\nb".into();
    assert!(
        m.wrapped().contains("#> $__keepane_e = $Error[0]; . ([scriptblock]::Create(('a', 'b')"),
        "{}",
        m.wrapped()
    );
    assert!(!m.wrapped().contains('\n'), "one line");
}

#[test]
fn a_shell_pane_is_free_at_keepanes_prompt_only() {
    let mut a = actor(WorkMode::Shell);
    assert!(!a.idle(), "busy until the first prompt");
    a.enqueue(msg(1, WorkMode::Shell), 10).unwrap();
    assert_eq!(a.next_delivery(), None);
    // The agent's word does not count in a shell pane.
    assert_eq!(a.ready(), (false, None));
    assert!(!a.idle());
    assert_eq!(a.prompt(), None);
    assert!(a.idle());
    // Typing at the prompt makes it busy again.
    a.input();
    assert_eq!(a.next_delivery(), None);
    a.prompt();
    assert_eq!(a.next_delivery().map(|m| m.id), Some(1));
    assert!(!a.idle(), "busy with what it was given");
    // Its prompt coming back ends that command.
    assert_eq!(a.prompt().map(|(m, e)| (m.id, e)), Some((1, End::Done)));
    assert_eq!(a.current, None);
}

#[test]
fn typing_right_after_the_prompt_mark_keeps_the_pane_busy() {
    let mut a = actor(WorkMode::Shell);
    a.prompt_seen();
    a.input();
    assert_eq!(a.command_over(), None);
    assert!(!a.idle(), "typed after the marker: busy, whatever comes after");
}

#[test]
fn typing_while_its_command_runs_keeps_a_shell_pane_busy_after_it() {
    let mut a = actor(WorkMode::Shell);
    a.enqueue(msg(1, WorkMode::Shell), 10).unwrap();
    a.enqueue(msg(2, WorkMode::Shell), 10).unwrap();
    a.prompt();
    a.next_delivery().unwrap();
    // Typed while #1 runs: the prompt that ends it shows that text.
    a.input();
    assert_eq!(a.prompt().map(|(m, _)| m.id), Some(1));
    assert!(!a.idle(), "#2 is not typed after what is on the line");
    // The person's own Enter brings a clean prompt: free again.
    a.input();
    a.prompt();
    assert_eq!(a.next_delivery().map(|m| m.id), Some(2));
    // Nothing typed while #2 runs: free at its end.
    a.prompt();
    assert!(a.idle());
}

#[test]
fn an_agents_pane_is_free_when_the_agent_says_so() {
    let mut a = actor(WorkMode::Ai);
    a.enqueue(msg(1, WorkMode::Ai), 10).unwrap();
    a.prompt();
    assert!(!a.idle(), "a shell prompt is not the agent being ready");
    assert_eq!(a.ready(), (true, None));
    assert_eq!(a.next_delivery().map(|m| m.id), Some(1));
    assert!(!a.idle());
    let (taken, done) = a.ready();
    assert!(taken);
    assert_eq!(done.map(|(m, e)| (m.id, e)), Some((1, End::Done)));
    // Ready, then the agent exits: its pane shows the shell's prompt,
    // and nothing is typed into that shell.
    a.enqueue(msg(2, WorkMode::Ai), 10).unwrap();
    a.prompt();
    assert_eq!(a.next_delivery(), None);
}

#[test]
fn an_agent_that_exits_mid_task_abandons_it() {
    let mut a = actor(WorkMode::Ai);
    a.enqueue(msg(1, WorkMode::Ai), 10).unwrap();
    a.ready();
    a.next_delivery().unwrap();
    assert_eq!(a.prompt().map(|(m, e)| (m.id, e)), Some((1, End::Abandoned)));
}

#[test]
fn a_normal_pane_takes_nothing_on_its_own() {
    let mut a = actor(WorkMode::Normal);
    a.enqueue(msg(1, WorkMode::Normal), 10).unwrap();
    a.enqueue(msg(2, WorkMode::Normal), 10).unwrap();
    a.prompt();
    assert_eq!(a.ready(), (false, None));
    a.force_idle();
    assert_eq!(a.next_delivery(), None);
    assert_eq!(a.read().map(|m| m.id), Some(1));
    // Taken is done with: it is not worked on, only answerable.
    assert_eq!(a.current, None);
    assert_eq!(a.answering().map(|m| m.id), Some(1));
    assert_eq!(a.carry(false), None, "something new starts a new chain");
    assert_eq!(a.carry(true), Some((1, 1)), "an answer carries its chain on");
    assert_eq!(a.read().map(|m| m.id), Some(2));
    assert_eq!(a.answering().map(|m| m.id), Some(2));
    assert_eq!(a.read(), None);
}

#[test]
fn an_agent_taking_an_answer_keeps_working_on_its_own_message() {
    let mut a = actor(WorkMode::Ai);
    a.enqueue(msg(1, WorkMode::Ai), 10).unwrap();
    a.ready();
    a.next_delivery().unwrap();
    // An answer arrives while it works, and it takes it (wait_message).
    let mut answer = msg(9, WorkMode::Ai);
    answer.task = 1;
    a.enqueue(answer, 10).unwrap();
    assert_eq!(a.read().map(|m| m.id), Some(9));
    assert_eq!(a.current.as_ref().map(|m| m.id), Some(1), "still on its own message");
    assert_eq!(a.answering().map(|m| m.id), Some(1), "-r answers who gave it the work");
}

#[test]
fn a_message_is_delivered_only_in_the_mode_it_was_sent_for() {
    let mut a = actor(WorkMode::Ai);
    a.enqueue(msg(1, WorkMode::Ai), 10).unwrap();
    a.enqueue(msg(2, WorkMode::Shell), 10).unwrap();
    a.mode = WorkMode::Shell;
    a.prompt();
    // Text written for the agent is not run as a command.
    assert_eq!(a.next_delivery().map(|m| m.id), Some(2));
    a.prompt();
    assert_eq!(a.next_delivery(), None);
    assert_eq!(a.inbox.len(), 1);
}

#[test]
fn switching_mode_keeps_what_was_seen() {
    // A shell sitting at its prompt takes a message as soon as its pane
    // is switched to shell mode, without waiting for another prompt.
    let mut a = actor(WorkMode::Normal);
    a.prompt();
    a.mode = WorkMode::Shell;
    assert!(a.idle());
}

#[test]
fn force_idle_unsticks_a_busy_pane() {
    let mut a = actor(WorkMode::Ai);
    a.input();
    assert!(!a.idle());
    a.force_idle();
    assert!(a.idle());
}

#[test]
fn a_full_inbox_refuses() {
    let mut a = actor(WorkMode::Normal);
    assert_eq!(a.enqueue(msg(1, WorkMode::Normal), 2), Ok(0));
    assert_eq!(a.enqueue(msg(2, WorkMode::Normal), 2), Ok(1));
    assert!(a.enqueue(msg(3, WorkMode::Normal), 2).is_err());
}

#[test]
fn what_a_pane_sends_while_working_carries_the_chain_on() {
    let mut a = actor(WorkMode::Ai);
    assert_eq!(a.carry(false), None);
    let mut m = msg(4, WorkMode::Ai);
    m.task = 2;
    m.hop = 3;
    a.enqueue(m, 10).unwrap();
    a.ready();
    a.next_delivery();
    assert_eq!(a.carry(false), Some((2, 4)));
    a.ready();
    assert_eq!(a.carry(false), None, "done with it: a new chain starts");
}

#[test]
fn queued_messages_move_and_come_back() {
    let mut a = actor(WorkMode::Normal);
    for i in 1..=4 {
        a.enqueue(msg(i, WorkMode::Normal), 10).unwrap();
    }
    let ids = |a: &Actor| a.inbox.iter().map(|m| m.id).collect::<Vec<_>>();
    assert_eq!(a.move_message(3, Move::Top), Some((2, 0)));
    assert_eq!(ids(&a), [3, 1, 2, 4]);
    assert_eq!(a.move_message(3, Move::Up), Some((0, 0)));
    assert_eq!(a.move_message(4, Move::Down), Some((3, 3)));
    assert_eq!(a.move_message(1, Move::Down), Some((1, 2)));
    assert_eq!(ids(&a), [3, 2, 1, 4]);
    assert_eq!(a.move_message(9, Move::Top), None);
    let m = a.remove(2).unwrap();
    assert_eq!(ids(&a), [3, 1, 4]);
    a.restore(m, 1);
    assert_eq!(ids(&a), [3, 2, 1, 4]);
    let m = a.remove(4).unwrap();
    a.inbox.clear();
    a.restore(m, 3);
    assert_eq!(ids(&a), [4]);
}

#[test]
fn names_are_what_a_target_can_tell_from_an_id() {
    assert!(check_name("builder").is_ok());
    assert!(check_name("test-2_b").is_ok());
    assert!(check_name("12").is_err());
    assert!(check_name("").is_err());
    assert!(check_name("a b").is_err());
    assert!(check_name("x#>y").is_err());
    assert!(check_name(&"a".repeat(65)).is_err());
}
