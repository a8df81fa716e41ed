//! A pane as an actor: its name, its work mode, its inbox, and whether it
//! is free to take the next message. Pure state and no IO: the server
//! tells it what happened (keepane's prompt came back, a key was typed,
//! the agent said `pane-ready`) and asks it what to deliver.
use std::collections::VecDeque;
use vstd::prelude::*;
use crate::json::{json_string, lemma_json_line, to_json};
use crate::layout::PaneId;
use crate::time::Time;
use crate::text::{chars_of, decimal, is_digit, lemma_decimal, part_of, push_decimal, same_text, string_of};

verus! {

pub type MsgId = u64;

/// The envelope's version (`"keepane":1`). Adding a field does not change
/// it, since readers skip fields they do not know; changing what a field
/// means does.
pub const ENVELOPE_VERSION: u32 = 1;

/// How a pane takes its messages.
#[derive(Clone, Copy, Debug, PartialEq, Eq, Structural)]
pub enum WorkMode {
    /// Nothing is delivered: the program takes messages with `read-message`.
    Normal,
    /// Delivered as a command when keepane's own prompt hook says the
    /// shell is back at its prompt.
    Shell,
    /// Delivered as a prompt when the agent says `pane-ready`.
    Ai,
}

impl Default for WorkMode {
    fn default() -> (m: WorkMode)
        ensures
            m == WorkMode::Normal,
    {
        WorkMode::Normal
    }
}

/// The name of a work mode.
pub open spec fn mode_name(m: WorkMode) -> Seq<char> {
    match m {
        WorkMode::Normal => "normal"@,
        WorkMode::Shell => "shell"@,
        WorkMode::Ai => "ai"@,
    }
}

/// The mode of a name.
pub open spec fn named_mode(s: Seq<char>) -> Option<WorkMode> {
    if s == "normal"@ {
        Some(WorkMode::Normal)
    } else if s == "shell"@ {
        Some(WorkMode::Shell)
    } else if s == "ai"@ {
        Some(WorkMode::Ai)
    } else {
        None
    }
}

impl WorkMode {
    pub fn as_str(self) -> (s: &'static str)
        ensures
            s@ == mode_name(self),
    {
        match self {
            WorkMode::Normal => "normal",
            WorkMode::Shell => "shell",
            WorkMode::Ai => "ai",
        }
    }

    pub fn parse(s: &str) -> (m: Option<WorkMode>)
        ensures
            m == named_mode(s@),
    {
        if same_text(s, "normal") {
            Some(WorkMode::Normal)
        } else if same_text(s, "shell") {
            Some(WorkMode::Shell)
        } else if same_text(s, "ai") {
            Some(WorkMode::Ai)
        } else {
            None
        }
    }
}

/// A mode's name reads back as the mode, and only its name does.
pub proof fn lemma_mode_names(m: WorkMode, s: Seq<char>)
    ensures
        named_mode(s) == Some(m) <==> s == mode_name(m),
{
    reveal_strlit("normal");
    reveal_strlit("shell");
    reveal_strlit("ai");
    assert("normal"@.len() == 6 && "shell"@.len() == 5 && "ai"@.len() == 2);
}

/// Who sent a message: a pane, as it was when it sent it, or someone
/// outside every pane (a terminal, a key binding).
#[derive(Debug, PartialEq, Eq)]
pub enum Sender {
    User,
    Pane { id: PaneId, address: String, name: Option<String>, mode: WorkMode },
}

impl Clone for Sender {
    fn clone(&self) -> (out: Sender)
        ensures
            out == *self,
    {
        match self {
            Sender::User => Sender::User,
            Sender::Pane { id, address, name, mode } => Sender::Pane {
                id: *id,
                address: address.clone(),
                name: match name {
                    Some(n) => Some(n.clone()),
                    None => None,
                },
                mode: *mode,
            },
        }
    }
}

#[derive(Debug, PartialEq, Eq)]
pub struct Message {
    pub id: MsgId,
    /// The message that started the chain this one belongs to.
    pub task: MsgId,
    pub from: Sender,
    /// The recipient's full address when it was sent.
    pub to: String,
    /// The recipient's work mode when it was sent. The message is
    /// delivered only in that mode: text written for an agent is never
    /// run as a command because the pane was switched to `shell` meanwhile.
    pub via: WorkMode,
    pub hop: u32,
    /// The message this one answers.
    pub re: Option<MsgId>,
    pub text: String,
    /// When it was sent. Not part of the envelope, so the envelope reads
    /// the same wherever it is shown.
    pub at: Time,
}

impl Clone for Message {
    fn clone(&self) -> (out: Message)
        ensures
            out == *self,
    {
        Message {
            id: self.id,
            task: self.task,
            from: self.from.clone(),
            to: self.to.clone(),
            via: self.via,
            hop: self.hop,
            re: self.re,
            text: self.text.clone(),
            at: self.at,
        }
    }
}

/// Who sent a message, as mathematics.
pub ghost enum Origin {
    User,
    Pane { id: PaneId, address: Seq<char>, name: Option<Seq<char>>, mode: WorkMode },
}

impl View for Sender {
    type V = Origin;

    open spec fn view(&self) -> Origin {
        match *self {
            Sender::User => Origin::User,
            Sender::Pane { id, address, name, mode } => Origin::Pane {
                id,
                address: address@,
                name: match name {
                    Some(n) => Some(n@),
                    None => None,
                },
                mode,
            },
        }
    }
}

/// A message as mathematics.
pub ghost struct Mail {
    pub id: MsgId,
    pub task: MsgId,
    pub from: Origin,
    pub to: Seq<char>,
    pub via: WorkMode,
    pub hop: u32,
    pub re: Option<MsgId>,
    pub text: Seq<char>,
    pub at: Time,
}

impl View for Message {
    type V = Mail;

    open spec fn view(&self) -> Mail {
        Mail {
            id: self.id,
            task: self.task,
            from: self.from@,
            to: self.to@,
            via: self.via,
            hop: self.hop,
            re: self.re,
            text: self.text@,
            at: self.at,
        }
    }
}

/// A field of the envelope that holds text.
pub open spec fn text_field(key: Seq<char>, value: Seq<char>) -> Seq<char> {
    ",\""@ + key + "\":"@ + json_string(value)
}

/// What the envelope says of a sender.
pub open spec fn sender_fields(from: Origin) -> Seq<char> {
    match from {
        Origin::User => text_field("from"@, "user"@),
        Origin::Pane { address, name, mode, .. } => text_field("from"@, address) + (match name {
            Some(n) => text_field("name"@, n),
            None => Seq::empty(),
        }) + text_field("mode"@, mode_name(mode)),
    }
}

/// The one-line JSON header of a message.
pub open spec fn envelope_text(m: Mail) -> Seq<char> {
    "{\"keepane\":"@ + decimal(ENVELOPE_VERSION as nat) + ",\"id\":"@ + decimal(m.id as nat) + ",\"task\":"@ + decimal(
        m.task as nat,
    ) + sender_fields(m.from) + text_field("to"@, m.to) + text_field("via"@, mode_name(m.via)) + ",\"hop\":"@
        + decimal(m.hop as nat) + (match m.re {
        Some(re) => ",\"re\":"@ + decimal(re as nat),
        None => Seq::empty(),
    }) + "}"@
}

/// The line after the text of a message given to an agent.
pub open spec fn end_text(m: Mail) -> Seq<char> {
    "{\"keepane\":"@ + decimal(ENVELOPE_VERSION as nat) + ",\"end\":"@ + decimal(m.id as nat) + "}"@
}

/// What is typed into a pane to deliver a message.
pub open spec fn wrapped_text(m: Mail) -> Seq<char> {
    match m.via {
        WorkMode::Shell => "<# "@ + envelope_text(m) + " #> "@ + command_text(m.text),
        WorkMode::Ai | WorkMode::Normal => envelope_text(m) + "\n"@ + m.text + "\n"@ + end_text(m),
    }
}

fn push_str_field(s: &mut String, key: &str, value: &str)
    ensures
        final(s)@ == old(s)@ + text_field(key@, value@),
{
    s.push_str(",\"");
    s.push_str(key);
    s.push_str("\":");
    s.push_str(to_json(value).as_str());
    assert(s@ =~= old(s)@ + text_field(key@, value@));
}

impl Message {
    /// The one-line JSON header, the same bytes everywhere the message is
    /// shown: fixed field order, no spaces, absent fields left out.
    pub fn envelope(&self) -> (out: String)
        ensures
            out@ == envelope_text(self@),
    {
        let mut s = "{\"keepane\":".to_owned();
        push_decimal(&mut s, ENVELOPE_VERSION as u64);
        s.push_str(",\"id\":");
        push_decimal(&mut s, self.id);
        s.push_str(",\"task\":");
        push_decimal(&mut s, self.task);
        let ghost head = s@;
        match &self.from {
            Sender::User => push_str_field(&mut s, "from", "user"),
            Sender::Pane { address, name, mode, .. } => {
                push_str_field(&mut s, "from", address.as_str());
                if let Some(n) = name {
                    push_str_field(&mut s, "name", n.as_str());
                }
                push_str_field(&mut s, "mode", mode.as_str());
            },
        }
        assert(s@ =~= head + sender_fields(self.from@));
        push_str_field(&mut s, "to", self.to.as_str());
        push_str_field(&mut s, "via", self.via.as_str());
        s.push_str(",\"hop\":");
        push_decimal(&mut s, self.hop as u64);
        let ghost most = s@;
        if let Some(re) = self.re {
            s.push_str(",\"re\":");
            push_decimal(&mut s, re);
        }
        assert(s@ =~= most + (match self.re {
            Some(re) => ",\"re\":"@ + decimal(re as nat),
            None => Seq::empty(),
        }));
        s.push_str("}");
        s
    }

    /// The line after the text of a message given to an agent: a header
    /// forged inside the text shows up between the real header and this.
    pub fn end_line(&self) -> (out: String)
        ensures
            out@ == end_text(self@),
    {
        let mut s = "{\"keepane\":".to_owned();
        push_decimal(&mut s, ENVELOPE_VERSION as u64);
        s.push_str(",\"end\":");
        push_decimal(&mut s, self.id);
        s.push_str("}");
        s
    }

    /// What is typed into the pane to deliver it (Enter follows). A shell
    /// gets the envelope as a PowerShell inline comment before the
    /// command, so it runs nothing and stays in the history; an agent gets
    /// the envelope, the text, and the end line.
    pub fn wrapped(&self) -> (out: String)
        ensures
            out@ == wrapped_text(self@),
    {
        match self.via {
            WorkMode::Shell => {
                let mut s = "<# ".to_owned();
                s.push_str(self.envelope().as_str());
                s.push_str(" #> ");
                s.push_str(one_command(self.text.as_str()).as_str());
                s
            },
            WorkMode::Ai | WorkMode::Normal => {
                let mut s = self.envelope();
                s.push_str("\n");
                s.push_str(self.text.as_str());
                s.push_str("\n");
                s.push_str(self.end_line().as_str());
                s
            },
        }
    }

    /// The pane that sent it, if a pane did.
    pub fn sender_pane(&self) -> (id: Option<PaneId>)
        ensures
            match self.from {
                Sender::Pane { id: p, .. } => id == Some(p),
                Sender::User => id is None,
            },
    {
        match &self.from {
            Sender::Pane { id, .. } => Some(*id),
            Sender::User => None,
        }
    }
}

/// `s` without the line ends behind it.
pub open spec fn without_line_ends(s: Seq<char>) -> Seq<char>
    decreases s.len(),
{
    if s.len() > 0 && (s.last() == '\r' || s.last() == '\n') {
        without_line_ends(s.drop_last())
    } else {
        s
    }
}

/// `s` without the carriage returns behind it.
pub open spec fn without_returns(s: Seq<char>) -> Seq<char>
    decreases s.len(),
{
    if s.len() > 0 && s.last() == '\r' {
        without_returns(s.drop_last())
    } else {
        s
    }
}

/// PowerShell reads the character as a single quote.
pub open spec fn is_quote(c: char) -> bool {
    c == '\'' || c == '\u{2018}' || c == '\u{2019}' || c == '\u{201A}' || c == '\u{201B}'
}

/// `s` with every quote doubled.
pub open spec fn doubled(s: Seq<char>) -> Seq<char>
    decreases s.len(),
{
    if s.len() == 0 {
        Seq::empty()
    } else if is_quote(s.last()) {
        doubled(s.drop_last()) + seq![s.last(), s.last()]
    } else {
        doubled(s.drop_last()).push(s.last())
    }
}

/// A line in single quotes.
pub open spec fn quoted_line(line: Seq<char>) -> Seq<char> {
    "'"@ + doubled(without_returns(line)) + "'"@
}

/// Where the line that `i` is on ends.
pub open spec fn next_break(s: Seq<char>, i: int) -> int
    decreases s.len() - i,
{
    if i < 0 || i >= s.len() {
        s.len() as int
    } else if s[i] == '\n' {
        i
    } else {
        next_break(s, i + 1)
    }
}

/// The lines of `s` from `i` on, each in quotes, with commas between.
pub open spec fn quoted_lines(s: Seq<char>, i: int) -> Seq<char>
    decreases s.len() - i,
{
    let e = next_break(s, i);
    if i < 0 || i > s.len() || e < i {
        Seq::empty()
    } else if e >= s.len() {
        quoted_line(s.subrange(i, s.len() as int))
    } else {
        quoted_line(s.subrange(i, e)) + ", "@ + quoted_lines(s, e + 1)
    }
}

/// A PowerShell command of one line, or the one line that runs several.
pub open spec fn command_text(text: Seq<char>) -> Seq<char> {
    let t = without_line_ends(text);
    if next_break(t, 0) >= t.len() {
        t
    } else {
        "$__keepane_e = $Error[0]; . ([scriptblock]::Create(("@ + quoted_lines(t, 0)
            + ") -join \"`n\")); if (-not [object]::ReferenceEquals($Error[0], $__keepane_e)) { Write-Error \"a line above failed\" -ErrorAction SilentlyContinue }"@
    }
}

fn find_break(s: &Vec<char>, i: usize) -> (e: usize)
    requires
        i <= s@.len(),
    ensures
        e == next_break(s@, i as int),
        i <= e <= s@.len(),
{
    let mut e: usize = i;
    while e < s.len() && s[e] != '\n'
        invariant
            i <= e <= s@.len(),
            next_break(s@, i as int) == next_break(s@, e as int),
        decreases s.len() - e,
    {
        e = e + 1;
    }
    e
}

fn push_quoted(out: &mut String, s: &Vec<char>, from: usize, to: usize)
    requires
        from <= to <= s@.len(),
    ensures
        final(out)@ == old(out)@ + quoted_line(s@.subrange(from as int, to as int)),
{
    let ghost line = s@.subrange(from as int, to as int);
    let mut e: usize = to;
    while e > from && s[e - 1] == '\r'
        invariant
            from <= e <= to <= s@.len(),
            line == s@.subrange(from as int, to as int),
            without_returns(line) == without_returns(s@.subrange(from as int, e as int)),
        decreases e,
    {
        let ghost part = s@.subrange(from as int, e as int);
        assert(part.last() == s@[e - 1]);
        assert(part.drop_last() =~= s@.subrange(from as int, e - 1));
        e = e - 1;
    }
    let ghost body = s@.subrange(from as int, e as int);
    proof {
        if e > from {
            assert(body.last() == s@[e - 1]);
        }
        assert(without_returns(line) == body);
    }
    out.push_str("'");
    let ghost head = out@;
    let mut i: usize = from;
    assert(body.take(0) =~= Seq::<char>::empty());
    assert(out@ =~= head + doubled(body.take(0)));
    while i < e
        invariant
            from <= i <= e <= s@.len(),
            body == s@.subrange(from as int, e as int),
            out@ == head + doubled(body.take(i - from)),
        decreases e - i,
    {
        let c: char = s[i];
        let ghost before = body.take(i - from);
        let ghost after = body.take(i - from + 1);
        assert(after.drop_last() =~= before);
        assert(after.last() == c);
        if c == '\'' || c == '\u{2018}' || c == '\u{2019}' || c == '\u{201A}' || c == '\u{201B}' {
            out.push(c);
        }
        out.push(c);
        assert(out@ =~= head + doubled(after));
        i = i + 1;
    }
    assert(body.take(e - from) =~= body);
    out.push_str("'");
    assert(out@ =~= old(out)@ + quoted_line(line));
}

/// A PowerShell command of several lines as one line that runs them as
/// one command, in the shell's own scope (`.`), as typed by hand. Typed
/// as they are, each line would run on its own at its Enter (PSReadLine
/// asks for no bracketed paste, and ConPTY drops the Shift of a
/// Shift+Enter), and the message would be over at the first prompt. Each
/// line goes in single quotes, the quote marks PowerShell reads as single
/// quotes doubled; whether it failed is reported as for any command. One
/// line is left as it is.
pub fn one_command(text: &str) -> (out: String)
    ensures
        out@ == command_text(text@),
{
    let all = chars_of(text);
    let mut n: usize = all.len();
    assert(all@.take(n as int) =~= all@);
    while n > 0 && (all[n - 1] == '\r' || all[n - 1] == '\n')
        invariant
            n <= all@.len(),
            all@ == text@,
            without_line_ends(text@) == without_line_ends(all@.take(n as int)),
        decreases n,
    {
        let ghost part = all@.take(n as int);
        assert(part.last() == all@[n - 1]);
        assert(part.drop_last() =~= all@.take(n - 1));
        n = n - 1;
    }
    let t = part_of(&all, 0, n);
    proof {
        assert(t@ =~= all@.take(n as int));
        if n > 0 {
            assert(t@.last() == all@[n - 1]);
        }
        assert(t@ == without_line_ends(text@));
    }
    if find_break(&t, 0) >= t.len() {
        let out = string_of(&t, 0, t.len());
        assert(out@ =~= t@);
        return out;
    }
    // `$?` after it is the block's call, true whatever failed inside: the
    // last part makes it false when an error was recorded meanwhile ($Error[0]
    // compared as an object, since a full $Error keeps its count).
    let mut out = "$__keepane_e = $Error[0]; . ([scriptblock]::Create((".to_owned();
    let ghost head = out@;
    let mut i: usize = 0;
    let mut more: bool = true;
    while more
        invariant
            i <= t@.len(),
            more ==> out@ + quoted_lines(t@, i as int) == head + quoted_lines(t@, 0),
            !more ==> out@ == head + quoted_lines(t@, 0),
        decreases t@.len() - i + if more { 1int } else { 0int },
    {
        let e: usize = find_break(&t, i);
        let ghost before = out@;
        push_quoted(&mut out, &t, i, e);
        if e < t.len() {
            out.push_str(", ");
            assert(out@ + quoted_lines(t@, e + 1) =~= before + quoted_lines(t@, i as int));
            i = e + 1;
        } else {
            assert(out@ =~= before + quoted_lines(t@, i as int));
            more = false;
        }
    }
    out.push_str(
        ") -join \"`n\")); if (-not [object]::ReferenceEquals($Error[0], $__keepane_e)) { Write-Error \"a line above failed\" -ErrorAction SilentlyContinue }",
    );
    assert(out@ =~= command_text(text@));
    out
}

/// How the message a pane was working on came to an end.
#[derive(Clone, Copy, Debug, PartialEq, Eq, Structural)]
pub enum End {
    /// The shell's prompt came back, or the agent said it was ready, or
    /// the program took its next message.
    Done,
    /// An agent's pane showed a shell prompt: the agent is gone, and the
    /// work went with it.
    Abandoned,
}

/// Where to move a queued message.
#[derive(Clone, Copy, Debug, PartialEq, Eq, Structural)]
pub enum Move {
    Up,
    Down,
    Top,
}

#[derive(Debug)]
pub struct Actor {
    pub name: Option<String>,
    pub mode: WorkMode,
    /// The pane that created this one (through a command run in it, or
    /// MCP), for what a pane may change and how many it may create.
    pub creator: Option<PaneId>,
    pub inbox: VecDeque<Message>,
    /// The message this pane was given last and is still working on.
    pub current: Option<Message>,
    /// The message it took last with `read-message`, for answering it.
    pub last_read: Option<Message>,
    /// What the pane last said it is doing (`pane-status`), and when.
    pub status: Option<(String, Time)>,
    /// keepane's own prompt is on the screen, and nothing was typed since.
    pub at_prompt: bool,
    /// The agent said it is ready, and nothing was typed (and no shell
    /// prompt came back) since.
    pub ready: bool,
    /// Someone typed while the command keepane gave the pane was running:
    /// answering it, or typing ahead, which the shell shows at its next
    /// prompt. That prompt does not make the pane free, so no message is
    /// typed after what is on its line.
    pub typed_while_working: bool,
}

impl Default for Actor {
    fn default() -> (a: Actor)
        ensures
            a@ == (ActorState {
                name: None,
                mode: WorkMode::Normal,
                creator: None,
                inbox: Seq::empty(),
                current: None,
                last_read: None,
                status: None,
                at_prompt: false,
                ready: false,
                typed: false,
            }),
    {
        let a = Actor {
            name: None,
            mode: WorkMode::Normal,
            creator: None,
            inbox: VecDeque::new(),
            current: None,
            last_read: None,
            status: None,
            at_prompt: false,
            ready: false,
            typed_while_working: false,
        };
        assert(a@.inbox =~= Seq::empty());
        a
    }
}

/// An actor as mathematics.
pub ghost struct ActorState {
    pub name: Option<String>,
    pub mode: WorkMode,
    pub creator: Option<PaneId>,
    pub inbox: Seq<Message>,
    pub current: Option<Message>,
    pub last_read: Option<Message>,
    pub status: Option<(String, Time)>,
    pub at_prompt: bool,
    pub ready: bool,
    pub typed: bool,
}

impl View for Actor {
    type V = ActorState;

    open spec fn view(&self) -> ActorState {
        ActorState {
            name: self.name,
            mode: self.mode,
            creator: self.creator,
            inbox: self.inbox@,
            current: self.current,
            last_read: self.last_read,
            status: self.status,
            at_prompt: self.at_prompt,
            ready: self.ready,
            typed: self.typed_while_working,
        }
    }
}

impl ActorState {
    /// Free to take the next message, by the one signal the mode trusts.
    pub open spec fn is_idle(self) -> bool {
        match self.mode {
            WorkMode::Normal => false,
            WorkMode::Shell => self.at_prompt,
            WorkMode::Ai => self.ready,
        }
    }

    /// A prompt on the screen: free from now on, unless something was typed
    /// while its command ran.
    pub open spec fn after_prompt(self) -> ActorState {
        if self.current is Some {
            ActorState { at_prompt: !self.typed, ready: false, typed: false, ..self }
        } else {
            ActorState { at_prompt: true, ready: false, ..self }
        }
    }

    /// What ends when the shell is back at its prompt.
    pub open spec fn ending(self) -> Option<(Message, End)> {
        match (self.mode, self.current) {
            (WorkMode::Shell, Some(m)) => Some((m, End::Done)),
            (WorkMode::Ai, Some(m)) => Some((m, End::Abandoned)),
            _ => None,
        }
    }

    pub open spec fn after_command(self) -> ActorState {
        if self.mode is Normal {
            self
        } else {
            ActorState { current: None, ..self }
        }
    }

    /// The first message of the inbox from `i` on that was addressed to the
    /// mode the pane is in.
    pub open spec fn next_for(self, i: int) -> Option<int>
        decreases self.inbox.len() - i,
    {
        if i < 0 || i >= self.inbox.len() {
            None
        } else if self.inbox[i].via == self.mode {
            Some(i)
        } else {
            self.next_for(i + 1)
        }
    }

    /// The place of message `id` in the inbox, from `i` on.
    pub open spec fn place_of(self, id: MsgId, i: int) -> Option<int>
        decreases self.inbox.len() - i,
    {
        if i < 0 || i >= self.inbox.len() {
            None
        } else if self.inbox[i].id == id {
            Some(i)
        } else {
            self.place_of(id, i + 1)
        }
    }

    /// What an answer answers.
    pub open spec fn answers(self) -> Option<Message> {
        if self.current is Some {
            self.current
        } else {
            self.last_read
        }
    }
}

/// Where a message at `i` of `n` goes.
pub open spec fn moved_to(i: int, n: int, to: Move) -> int {
    match to {
        Move::Up => if i > 0 {
            i - 1
        } else {
            0
        },
        Move::Down => if i + 1 < n {
            i + 1
        } else {
            n - 1
        },
        Move::Top => 0,
    }
}

impl Actor {
    /// Free to take the next message, by the one signal this mode trusts.
    pub fn idle(&self) -> (b: bool)
        ensures
            b == self@.is_idle(),
    {
        match self.mode {
            WorkMode::Normal => false,
            WorkMode::Shell => self.at_prompt,
            WorkMode::Ai => self.ready,
        }
    }

    /// keepane's prompt hook said the shell is at its prompt. In a shell
    /// pane that ends the command it was given; in an agent's pane it
    /// means the agent has exited, and its work ends unfinished.
    pub fn prompt(&mut self) -> (over: Option<(Message, End)>)
        ensures
            over == old(self)@.ending(),
            final(self)@ == old(self)@.after_prompt().after_command(),
    {
        self.prompt_seen();
        self.command_over()
    }

    /// The first half of `prompt`, at the marker itself: the pane is at its
    /// prompt from now on, unless someone types (in order, after this).
    pub fn prompt_seen(&mut self)
        ensures
            final(self)@ == old(self)@.after_prompt(),
    {
        if self.current.is_some() {
            self.at_prompt = !self.typed_while_working;
            self.typed_while_working = false;
        } else {
            self.at_prompt = true;
        }
        self.ready = false;
    }

    /// The second half, once what the command printed is on the screen:
    /// the message it was working on ends.
    pub fn command_over(&mut self) -> (over: Option<(Message, End)>)
        ensures
            over == old(self)@.ending(),
            final(self)@ == old(self)@.after_command(),
    {
        match self.mode {
            WorkMode::Shell => match self.current.take() {
                Some(m) => Some((m, End::Done)),
                None => None,
            },
            WorkMode::Ai => match self.current.take() {
                Some(m) => Some((m, End::Abandoned)),
                None => None,
            },
            WorkMode::Normal => None,
        }
    }

    /// The program in the pane said `pane-ready`. Only an agent's word
    /// counts: a shell pane's idleness is keepane's to judge, and a normal
    /// pane takes nothing on its own. Returns whether it was taken.
    pub fn ready(&mut self) -> (r: (bool, Option<(Message, End)>))
        ensures
            r.0 == (old(self).mode is Ai),
            r.1 == match (old(self).mode, old(self).current) {
                (WorkMode::Ai, Some(m)) => Some((m, End::Done)),
                _ => None,
            },
            final(self)@ == if old(self).mode is Ai {
                ActorState { ready: true, current: None, ..old(self)@ }
            } else {
                old(self)@
            },
    {
        if self.mode != WorkMode::Ai {
            return (false, None);
        }
        self.ready = true;
        match self.current.take() {
            Some(m) => (true, Some((m, End::Done))),
            None => (true, None),
        }
    }

    /// Someone typed, pasted or sent keys into the pane: it is busy until
    /// the next signal, so a message does not land in a line being typed.
    pub fn input(&mut self)
        ensures
            final(self)@ == (ActorState {
                at_prompt: false,
                ready: false,
                typed: old(self)@.typed || old(self)@.current is Some,
                ..old(self)@
            }),
    {
        self.at_prompt = false;
        self.ready = false;
        if self.current.is_some() {
            self.typed_while_working = true;
        }
    }

    /// A person unsticks a pane that stays busy (text typed and deleted
    /// again, a prompt that was not redrawn).
    pub fn force_idle(&mut self)
        ensures
            final(self)@ == match old(self).mode {
                WorkMode::Shell => ActorState { at_prompt: true, ..old(self)@ },
                WorkMode::Ai => ActorState { ready: true, ..old(self)@ },
                WorkMode::Normal => old(self)@,
            },
    {
        match self.mode {
            WorkMode::Shell => {
                self.at_prompt = true;
            },
            WorkMode::Ai => {
                self.ready = true;
            },
            WorkMode::Normal => {},
        }
    }

    /// The next message to deliver now, if the pane is free and one was
    /// addressed to it in the mode it is in. Taking it makes the pane busy
    /// and the message its current one.
    pub fn next_delivery(&mut self) -> (given: Option<Message>)
        ensures
            ({
                let before = old(self)@;
                match before.next_for(0) {
                    Some(i) if before.is_idle() => {
                        &&& given == Some(before.inbox[i])
                        &&& final(self)@ == (ActorState {
                            inbox: before.inbox.remove(i),
                            current: given,
                            at_prompt: false,
                            ready: false,
                            typed: false,
                            ..before
                        })
                    },
                    _ => given is None && final(self)@ == before,
                }
            }),
    {
        if !self.idle() {
            return None;
        }
        let ghost before = self@;
        let mut i: usize = 0;
        while i < self.inbox.len() && self.inbox[i].via != self.mode
            invariant
                i <= self.inbox@.len(),
                self@ == before,
                before.next_for(0) == before.next_for(i as int),
            decreases self.inbox.len() - i,
        {
            i = i + 1;
        }
        if i >= self.inbox.len() {
            return None;
        }
        match self.inbox.remove(i) {
            Some(m) => {
                self.at_prompt = false;
                self.ready = false;
                self.typed_while_working = false;
                self.current = Some(m.clone());
                Some(m)
            },
            None => None,
        }
    }

    /// `read-message`: the program takes the oldest message itself. It is
    /// done with once taken, so it is not what the pane works on: an agent
    /// taking an answer inside its turn keeps working on its own message,
    /// and a person reading one and then asking something new starts a
    /// new chain. It is only remembered, for `send-message -r`.
    pub fn read(&mut self) -> (taken: Option<Message>)
        ensures
            if old(self)@.inbox.len() > 0 {
                &&& taken == Some(old(self)@.inbox[0])
                &&& final(self)@ == (ActorState {
                    inbox: old(self)@.inbox.remove(0),
                    last_read: taken,
                    ..old(self)@
                })
            } else {
                taken is None && final(self)@ == old(self)@
            },
    {
        let ghost before = self@;
        match self.inbox.pop_front() {
            Some(m) => {
                self.last_read = Some(m.clone());
                assert(self@.inbox =~= before.inbox.remove(0));
                Some(m)
            },
            None => None,
        }
    }

    /// What `send-message -r` answers: the message being worked on, else
    /// the one read last.
    pub fn answering(&self) -> (m: Option<&Message>)
        ensures
            match m {
                Some(a) => self@.answers() == Some(*a),
                None => self@.answers() is None,
            },
    {
        match &self.current {
            Some(m) => Some(m),
            None => match &self.last_read {
                Some(m) => Some(m),
                None => None,
            },
        }
    }

    /// Queue a message; how many are ahead of it.
    pub fn enqueue(&mut self, m: Message, limit: usize) -> (r: Result<usize, String>)
        ensures
            if old(self)@.inbox.len() >= limit {
                &&& r is Err
                &&& r->Err_0@ == "inbox is full (message-inbox-limit is "@ + decimal(limit as nat) + ")"@
                &&& final(self)@ == old(self)@
            } else {
                &&& r is Ok
                &&& r->Ok_0 == old(self)@.inbox.len()
                &&& final(self)@ == (ActorState { inbox: old(self)@.inbox.push(m), ..old(self)@ })
            },
    {
        let n: usize = self.inbox.len();
        if n >= limit {
            let mut e = "inbox is full (message-inbox-limit is ".to_owned();
            push_decimal(&mut e, limit as u64);
            e.push_str(")");
            return Err(e);
        }
        self.inbox.push_back(m);
        Ok(n)
    }

    /// Task and hop for one this pane sends now: sent while working on a
    /// message, it carries that chain on; an answer carries on the chain of
    /// what it answers.
    pub fn carry(&self, reply: bool) -> (r: Option<(MsgId, u32)>)
        requires
            self@.answers() is Some ==> self@.answers()->0.hop < u32::MAX,
        ensures
            r == match (
                if reply {
                    self@.answers()
                } else {
                    self@.current
                }
            ) {
                Some(m) => Some((m.task, (m.hop + 1) as u32)),
                None => None,
            },
    {
        let from: Option<&Message> = if reply { self.answering() } else { self.current.as_ref() };
        match from {
            Some(m) => Some((m.task, m.hop + 1)),
            None => None,
        }
    }

    pub fn find(&self, id: MsgId) -> (at: Option<usize>)
        ensures
            match at {
                Some(i) => self@.place_of(id, 0) == Some(i as int) && i < self@.inbox.len()
                    && self@.inbox[i as int].id == id,
                None => self@.place_of(id, 0) is None,
            },
    {
        let mut i: usize = 0;
        while i < self.inbox.len()
            invariant
                i <= self.inbox@.len(),
                self@.place_of(id, 0) == self@.place_of(id, i as int),
            decreases self.inbox.len() - i,
        {
            if self.inbox[i].id == id {
                return Some(i);
            }
            i = i + 1;
        }
        None
    }

    pub fn remove(&mut self, id: MsgId) -> (m: Option<Message>)
        ensures
            match old(self)@.place_of(id, 0) {
                Some(i) => m == Some(old(self)@.inbox[i]) && final(self)@ == (ActorState {
                    inbox: old(self)@.inbox.remove(i),
                    ..old(self)@
                }),
                None => m is None && final(self)@ == old(self)@,
            },
    {
        match self.find(id) {
            Some(i) => self.inbox.remove(i),
            None => None,
        }
    }

    /// Move a queued message; its old and new places.
    pub fn move_message(&mut self, id: MsgId, to: Move) -> (places: Option<(usize, usize)>)
        ensures
            match old(self)@.place_of(id, 0) {
                Some(i) => {
                    let j = moved_to(i, old(self)@.inbox.len() as int, to);
                    &&& places == Some((i as usize, j as usize))
                    &&& final(self)@ == (ActorState {
                        inbox: old(self)@.inbox.remove(i).insert(j, old(self)@.inbox[i]),
                        ..old(self)@
                    })
                },
                None => places is None && final(self)@ == old(self)@,
            },
    {
        match self.find(id) {
            Some(i) => {
                let n: usize = self.inbox.len();
                let j: usize = match to {
                    Move::Up => if i > 0 {
                        i - 1
                    } else {
                        0
                    },
                    Move::Down => if i + 1 < n {
                        i + 1
                    } else {
                        n - 1
                    },
                    Move::Top => 0,
                };
                if let Some(m) = self.inbox.remove(i) {
                    self.inbox.insert(j, m);
                }
                Some((i, j))
            },
            None => None,
        }
    }

    /// Put a deleted message back where it was (or last, if the inbox is
    /// shorter now).
    pub fn restore(&mut self, m: Message, at: usize)
        ensures
            final(self)@ == (ActorState {
                inbox: old(self)@.inbox.insert(
                    if at < old(self)@.inbox.len() {
                        at as int
                    } else {
                        old(self)@.inbox.len() as int
                    },
                    m,
                ),
                ..old(self)@
            }),
    {
        let n: usize = self.inbox.len();
        let i: usize = if at < n { at } else { n };
        self.inbox.insert(i, m);
    }
}

proof fn lemma_next_for(a: ActorState, i: int)
    requires
        0 <= i,
    ensures
        match a.next_for(i) {
            Some(k) => i <= k < a.inbox.len() && a.inbox[k].via == a.mode && forall|j: int|
                i <= j < k ==> (#[trigger] a.inbox[j]).via != a.mode,
            None => forall|j: int| i <= j < a.inbox.len() ==> (#[trigger] a.inbox[j]).via != a.mode,
        },
    decreases a.inbox.len() - i,
{
    if i < a.inbox.len() && a.inbox[i].via != a.mode {
        lemma_next_for(a, i + 1);
    }
}

/// A message is delivered only in the mode it was sent for, the oldest such
/// one first, and a pane that was given one is busy.
pub proof fn lemma_delivery(before: ActorState, after: ActorState, i: int)
    requires
        before.is_idle(),
        before.next_for(0) == Some(i),
        after == (ActorState {
            inbox: before.inbox.remove(i),
            current: Some(before.inbox[i]),
            at_prompt: false,
            ready: false,
            typed: false,
            ..before
        }),
    ensures
        before.inbox[i].via == before.mode,
        !(before.mode is Normal),
        forall|j: int| 0 <= j < i ==> (#[trigger] before.inbox[j]).via != before.mode,
        !after.is_idle(),
{
    lemma_next_for(before, 0);
}

/// Typing keeps a pane busy through the prompt that ends the command it was
/// given; a prompt with nothing typed frees a shell pane.
pub proof fn lemma_typing_keeps_busy(a: ActorState)
    requires
        a.mode is Shell,
    ensures
        a.current is Some && a.typed ==> !a.after_prompt().after_command().is_idle(),
        a.current is Some && !a.typed ==> a.after_prompt().after_command().is_idle(),
        a.current is None ==> a.after_prompt().after_command().is_idle(),
        a.after_prompt().after_command().current is None,
{
}

/// A shell prompt never frees an agent's pane, and nothing frees a normal
/// one.
pub proof fn lemma_prompt_frees_shells_only(a: ActorState)
    ensures
        !(a.mode is Shell) ==> !a.after_prompt().after_command().is_idle(),
        a.mode is Normal ==> !a.is_idle(),
{
}

pub proof fn lemma_place_of(a: ActorState, id: MsgId, i: int)
    requires
        0 <= i,
    ensures
        match a.place_of(id, i) {
            Some(k) => i <= k < a.inbox.len() && a.inbox[k].id == id,
            None => forall|j: int| i <= j < a.inbox.len() ==> (#[trigger] a.inbox[j]).id != id,
        },
    decreases a.inbox.len() - i,
{
    if i < a.inbox.len() && a.inbox[i].id != id {
        lemma_place_of(a, id, i + 1);
    }
}

/// A message taken out and put back where it was leaves the inbox as it was.
pub proof fn lemma_remove_restore(a: ActorState, id: MsgId, i: int)
    requires
        a.place_of(id, 0) == Some(i),
    ensures
        a.inbox.remove(i).insert(i, a.inbox[i]) == a.inbox,
{
    lemma_place_of(a, id, 0);
    assert(a.inbox.remove(i).insert(i, a.inbox[i]) =~= a.inbox);
}

/// Moving a message loses none and adds none.
pub proof fn lemma_move_keeps_messages(inbox: Seq<Message>, i: int, to: Move)
    requires
        0 <= i < inbox.len(),
    ensures
        ({
            let j = moved_to(i, inbox.len() as int, to);
            &&& 0 <= j < inbox.len()
            &&& inbox.remove(i).insert(j, inbox[i]).to_multiset() == inbox.to_multiset()
        }),
{
    let j = moved_to(i, inbox.len() as int, to);
    let rest = inbox.remove(i);
    broadcast use vstd::seq_lib::group_to_multiset_ensures;
    assert(rest.insert(j, inbox[i]).to_multiset() =~= rest.to_multiset().insert(inbox[i]));
    assert(rest.to_multiset().insert(inbox[i]) =~= inbox.to_multiset());
}

proof fn lemma_no_break_concat(a: Seq<char>, b: Seq<char>)
    ensures
        (a + b).contains('\n') <==> a.contains('\n') || b.contains('\n'),
{
    if (a + b).contains('\n') {
        let i = choose|i: int| 0 <= i < (a + b).len() && (a + b)[i] == '\n';
        if i < a.len() {
            assert(a[i] == '\n');
        } else {
            assert(b[i - a.len()] == '\n');
        }
    }
    if a.contains('\n') {
        let i = choose|i: int| 0 <= i < a.len() && a[i] == '\n';
        assert((a + b)[i] == '\n');
    }
    if b.contains('\n') {
        let i = choose|i: int| 0 <= i < b.len() && b[i] == '\n';
        assert((a + b)[a.len() + i] == '\n');
    }
}

proof fn lemma_decimal_no_break(n: nat)
    ensures
        !decimal(n).contains('\n'),
{
    lemma_decimal(n);
}

proof fn lemma_field_no_break(key: Seq<char>, value: Seq<char>)
    requires
        !key.contains('\n'),
    ensures
        !text_field(key, value).contains('\n'),
{
    reveal_strlit(",\"");
    reveal_strlit("\":");
    lemma_json_line(value);
    lemma_no_break_concat(",\""@, key);
    lemma_no_break_concat(",\""@ + key, "\":"@);
    lemma_no_break_concat(",\""@ + key + "\":"@, json_string(value));
}

proof fn lemma_doubled_no_break(s: Seq<char>)
    requires
        !s.contains('\n'),
    ensures
        !doubled(s).contains('\n'),
    decreases s.len(),
{
    if s.len() > 0 {
        assert(s[s.len() - 1] != '\n');
        assert(!s.drop_last().contains('\n')) by {
            if s.drop_last().contains('\n') {
                let i = choose|i: int| 0 <= i < s.len() - 1 && s.drop_last()[i] == '\n';
                assert(s[i] == '\n');
            }
        }
        lemma_doubled_no_break(s.drop_last());
        let head = doubled(s.drop_last());
        lemma_no_break_concat(head, seq![s.last(), s.last()]);
        lemma_no_break_concat(head, seq![s.last()]);
        assert(head.push(s.last()) =~= head + seq![s.last()]);
    }
}

proof fn lemma_returns_part(s: Seq<char>)
    ensures
        without_returns(s).len() <= s.len(),
        without_returns(s) == s.take(without_returns(s).len() as int),
    decreases s.len(),
{
    if s.len() > 0 && s.last() == '\r' {
        lemma_returns_part(s.drop_last());
        assert(s.drop_last().take(without_returns(s).len() as int) =~= s.take(without_returns(s).len() as int));
    } else {
        assert(s.take(s.len() as int) =~= s);
    }
}

proof fn lemma_quoted_no_break(line: Seq<char>)
    requires
        !line.contains('\n'),
    ensures
        !quoted_line(line).contains('\n'),
{
    reveal_strlit("'");
    lemma_returns_part(line);
    let body = without_returns(line);
    assert(!body.contains('\n')) by {
        if body.contains('\n') {
            let i = choose|i: int| 0 <= i < body.len() && body[i] == '\n';
            assert(line[i] == '\n');
        }
    }
    lemma_doubled_no_break(body);
    lemma_no_break_concat("'"@, doubled(body));
    lemma_no_break_concat("'"@ + doubled(body), "'"@);
}

proof fn lemma_next_break(s: Seq<char>, i: int)
    requires
        0 <= i <= s.len(),
    ensures
        i <= next_break(s, i) <= s.len(),
        forall|j: int| i <= j < next_break(s, i) ==> s[j] != '\n',
    decreases s.len() - i,
{
    if i < s.len() && s[i] != '\n' {
        lemma_next_break(s, i + 1);
    }
}

proof fn lemma_quoted_lines_no_break(s: Seq<char>, i: int)
    requires
        0 <= i <= s.len(),
    ensures
        !quoted_lines(s, i).contains('\n'),
    decreases s.len() - i,
{
    lemma_next_break(s, i);
    let e = next_break(s, i);
    let line = s.subrange(i, e);
    assert(!line.contains('\n'));
    lemma_quoted_no_break(line);
    if e < s.len() {
        reveal_strlit(", ");
        lemma_quoted_lines_no_break(s, e + 1);
        lemma_no_break_concat(quoted_line(line), ", "@);
        lemma_no_break_concat(quoted_line(line) + ", "@, quoted_lines(s, e + 1));
    }
}

/// A command for a shell is one line, whatever it was.
pub proof fn lemma_command_is_one_line(text: Seq<char>)
    ensures
        !command_text(text).contains('\n'),
{
    let t = without_line_ends(text);
    lemma_next_break(t, 0);
    if next_break(t, 0) < t.len() {
        let a = "$__keepane_e = $Error[0]; . ([scriptblock]::Create(("@;
        let b = ") -join \"`n\")); if (-not [object]::ReferenceEquals($Error[0], $__keepane_e)) { Write-Error \"a line above failed\" -ErrorAction SilentlyContinue }"@;
        reveal_strlit("$__keepane_e = $Error[0]; . ([scriptblock]::Create((");
        reveal_strlit(
            ") -join \"`n\")); if (-not [object]::ReferenceEquals($Error[0], $__keepane_e)) { Write-Error \"a line above failed\" -ErrorAction SilentlyContinue }",
        );
        lemma_quoted_lines_no_break(t, 0);
        lemma_no_break_concat(a, quoted_lines(t, 0));
        lemma_no_break_concat(a + quoted_lines(t, 0), b);
    }
}

/// The envelope is one line, whatever is in the message.
pub proof fn lemma_envelope_is_one_line(m: Mail)
    ensures
        !envelope_text(m).contains('\n'),
{
    reveal_strlit("{\"keepane\":");
    reveal_strlit(",\"id\":");
    reveal_strlit(",\"task\":");
    reveal_strlit(",\"hop\":");
    reveal_strlit(",\"re\":");
    reveal_strlit("}");
    reveal_strlit("to");
    reveal_strlit("via");
    lemma_sender_no_break(m.from);
    lemma_field_no_break("to"@, m.to);
    lemma_field_no_break("via"@, mode_name(m.via));
    lemma_decimal_no_break(ENVELOPE_VERSION as nat);
    lemma_decimal_no_break(m.id as nat);
    lemma_decimal_no_break(m.task as nat);
    lemma_decimal_no_break(m.hop as nat);
    let s1 = "{\"keepane\":"@ + decimal(ENVELOPE_VERSION as nat);
    lemma_no_break_concat("{\"keepane\":"@, decimal(ENVELOPE_VERSION as nat));
    lemma_no_break_concat(s1, ",\"id\":"@);
    let s2 = s1 + ",\"id\":"@;
    lemma_no_break_concat(s2, decimal(m.id as nat));
    let s3 = s2 + decimal(m.id as nat);
    lemma_no_break_concat(s3, ",\"task\":"@);
    let s4 = s3 + ",\"task\":"@;
    lemma_no_break_concat(s4, decimal(m.task as nat));
    let s5 = s4 + decimal(m.task as nat);
    lemma_no_break_concat(s5, sender_fields(m.from));
    let s6 = s5 + sender_fields(m.from);
    lemma_no_break_concat(s6, text_field("to"@, m.to));
    let s7 = s6 + text_field("to"@, m.to);
    lemma_no_break_concat(s7, text_field("via"@, mode_name(m.via)));
    let s8 = s7 + text_field("via"@, mode_name(m.via));
    lemma_no_break_concat(s8, ",\"hop\":"@);
    let s9 = s8 + ",\"hop\":"@;
    lemma_no_break_concat(s9, decimal(m.hop as nat));
    let s10 = s9 + decimal(m.hop as nat);
    let re = match m.re {
        Some(re) => ",\"re\":"@ + decimal(re as nat),
        None => Seq::empty(),
    };
    if let Some(r) = m.re {
        lemma_decimal_no_break(r as nat);
        lemma_no_break_concat(",\"re\":"@, decimal(r as nat));
    }
    lemma_no_break_concat(s10, re);
    lemma_no_break_concat(s10 + re, "}"@);
}

proof fn lemma_sender_no_break(from: Origin)
    ensures
        !sender_fields(from).contains('\n'),
{
    reveal_strlit("from");
    reveal_strlit("name");
    reveal_strlit("mode");
    match from {
        Origin::User => {
            lemma_field_no_break("from"@, "user"@);
        },
        Origin::Pane { id, address, name, mode } => {
            let a = text_field("from"@, address);
            let b = match name {
                Some(n) => text_field("name"@, n),
                None => Seq::empty(),
            };
            let c = text_field("mode"@, mode_name(mode));
            lemma_field_no_break("from"@, address);
            if let Some(n) = name {
                lemma_field_no_break("name"@, n);
            }
            lemma_field_no_break("mode"@, mode_name(mode));
            lemma_no_break_concat(a, b);
            lemma_no_break_concat(a + b, c);
        },
    }
}

/// A message for a shell is delivered as one line: it runs at its own Enter
/// and at no other.
pub proof fn lemma_shell_delivery_is_one_line(m: Mail)
    requires
        m.via is Shell,
    ensures
        !wrapped_text(m).contains('\n'),
{
    reveal_strlit("<# ");
    reveal_strlit(" #> ");
    lemma_envelope_is_one_line(m);
    lemma_command_is_one_line(m.text);
    lemma_no_break_concat("<# "@, envelope_text(m));
    lemma_no_break_concat("<# "@ + envelope_text(m), " #> "@);
    lemma_no_break_concat("<# "@ + envelope_text(m) + " #> "@, command_text(m.text));
}

pub open spec fn is_name_char(c: char) -> bool {
    is_digit(c) || 'a' <= c <= 'z' || 'A' <= c <= 'Z' || c == '-' || c == '_'
}

/// What is wrong with a pane name, if anything is.
pub open spec fn name_fault(name: Seq<char>) -> Option<Seq<char>> {
    let head = "bad pane name '"@ + name;
    let bytes = vstd::utf8::encode_utf8(name).len() as usize;
    if name.len() == 0 || bytes > 64 {
        Some(head + "' (1 to 64 characters)"@)
    } else if exists|i: int| 0 <= i < name.len() && !is_name_char(#[trigger] name[i]) {
        Some(head + "' (letters, digits, - and _ only)"@)
    } else if forall|i: int| 0 <= i < name.len() ==> is_digit(#[trigger] name[i]) {
        Some(head + "' (all digits would read as a pane id)"@)
    } else {
        None
    }
}

fn bad_name(name: &str, why: &str) -> (e: String)
    ensures
        e@ == "bad pane name '"@ + name@ + why@,
{
    let mut e = "bad pane name '".to_owned();
    e.push_str(name);
    e.push_str(why);
    e
}

/// A pane name: what `%name` finds. Letters, digits, `-` and `_`, so it can
/// never end the comment a shell envelope sits in, and never all digits,
/// which would read as a pane id.
pub fn check_name(name: &str) -> (r: Result<(), String>)
    ensures
        match (r, name_fault(name@)) {
            (Ok(_), None) => true,
            (Err(e), Some(why)) => e@ == why,
            _ => false,
        },
{
    if name.is_empty() || name.len() > 64 {
        return Err(bad_name(name, "' (1 to 64 characters)"));
    }
    let chars = chars_of(name);
    let mut digits: bool = true;
    let mut i: usize = 0;
    while i < chars.len()
        invariant
            i <= chars@.len(),
            chars@ == name@,
            !(name@.len() == 0 || vstd::utf8::encode_utf8(name@).len() as usize > 64),
            forall|j: int| 0 <= j < i ==> is_name_char(#[trigger] name@[j]),
            digits == forall|j: int| 0 <= j < i ==> is_digit(#[trigger] name@[j]),
        decreases chars.len() - i,
    {
        let c: char = chars[i];
        let digit: bool = '0' <= c && c <= '9';
        if !(digit || ('a' <= c && c <= 'z') || ('A' <= c && c <= 'Z') || c == '-' || c == '_') {
            assert(!is_name_char(name@[i as int]));
            return Err(bad_name(name, "' (letters, digits, - and _ only)"));
        }
        if !digit {
            assert(!is_digit(name@[i as int]));
            digits = false;
        }
        i = i + 1;
    }
    if digits {
        return Err(bad_name(name, "' (all digits would read as a pane id)"));
    }
    Ok(())
}

/// A good name cannot end the comment that an envelope sits in.
pub proof fn lemma_names_stay_in_the_comment(name: Seq<char>)
    requires
        name_fault(name) is None,
    ensures
        !name.contains('#'),
        !name.contains('>'),
        exists|i: int| 0 <= i < name.len() && !is_digit(#[trigger] name[i]),
{
    assert forall|i: int| 0 <= i < name.len() implies is_name_char(#[trigger] name[i]) by {}
    if name.contains('#') {
        let i = choose|i: int| 0 <= i < name.len() && name[i] == '#';
        assert(is_name_char(name[i]));
    }
    if name.contains('>') {
        let i = choose|i: int| 0 <= i < name.len() && name[i] == '>';
        assert(is_name_char(name[i]));
    }
}

} // verus!
