//! The pipe that commands come through, and the program that sends them.

use vstd::prelude::*;

use crate::events::{command, command_of, parse_command, CommandView, WmEvent};
use crate::json::{
    escape, escaped, is_control, is_single_entry, law_escape_read_back, lemma_escaped_join,
    lemma_escaped_plain,
};
use crate::text::{
    append, chars_of, contains, has_part, is_space, is_text, join, joined, law_spaces_are_trimmed,
    string_of, strings, trim, trimmed,
};
use crate::ws::{text_of_bytes, utf8_lossy};

verus! {

/// How often the sender tries to open the pipe.
pub const OPEN_ATTEMPTS: u32 = 10;

/// What a client of the pipe asks for.
#[derive(Debug)]
pub enum PipeRequest {
    /// The state now and at every change.
    Subscribe,
    /// The state once.
    State,
    /// A command to carry out.
    Command(WmEvent),
    /// A text that is none of these.
    Unknown(String),
}

/// What the sender does with its arguments.
#[derive(Debug, Clone, Copy, PartialEq, Eq, Structural)]
pub enum Errand {
    /// It explains itself.
    Usage,
    /// It sends the command and shows what comes until the pipe closes.
    Subscribe,
    /// It sends the command and shows the reply.
    Send,
}

// ---------------------------------------------------------------------------
// Model
// ---------------------------------------------------------------------------

/// What a client of the pipe asks for.
pub enum PipeRequestView {
    Subscribe,
    State,
    Command(CommandView),
    Unknown(Seq<char>),
}

/// The request stands for this one.
pub open spec fn stands_for(r: PipeRequest, v: PipeRequestView) -> bool {
    match r {
        PipeRequest::Subscribe => v is Subscribe,
        PipeRequest::State => v is State,
        PipeRequest::Command(e) => command_of(e) is Some && v == PipeRequestView::Command(
            command_of(e)->0,
        ),
        PipeRequest::Unknown(t) => v == PipeRequestView::Unknown(t@),
    }
}

/// What a text asks for, without the spaces round it.
pub open spec fn requested(text: Seq<char>) -> PipeRequestView {
    let cmd = trimmed(text);
    if cmd == "subscribe"@ {
        PipeRequestView::Subscribe
    } else if cmd == "state"@ {
        PipeRequestView::State
    } else {
        match command(cmd) {
            Some(c) => PipeRequestView::Command(c),
            None => PipeRequestView::Unknown(cmd),
        }
    }
}

/// The reply to a text that asks for nothing known: an object with the error,
/// the text in it escaped.
pub open spec fn unknown(cmd: Seq<char>) -> Seq<char> {
    "{\"error\":\"unknown command: "@ + escaped(cmd) + "\"}"@
}

/// What the sender does with a command.
pub open spec fn errand_of(cmd: Seq<char>) -> Errand {
    if cmd.len() == 0 || cmd == "--help"@ || cmd == "-h"@ {
        Errand::Usage
    } else if cmd == "subscribe"@ {
        Errand::Subscribe
    } else {
        Errand::Send
    }
}

// ---------------------------------------------------------------------------
// Operations
// ---------------------------------------------------------------------------

/// What a text asks for.
pub fn request_of(text: &str) -> (r: PipeRequest)
    ensures
        stands_for(r, requested(text@)),
{
    let cmd = trim(&chars_of(text));
    if is_text(&cmd, "subscribe") {
        return PipeRequest::Subscribe;
    }
    if is_text(&cmd, "state") {
        return PipeRequest::State;
    }
    let line = string_of(&cmd);
    match parse_command(line.as_str()) {
        Some(ev) => PipeRequest::Command(ev),
        None => PipeRequest::Unknown(line),
    }
}

/// What the bytes that came through the pipe ask for.
pub fn read_request(bytes: &[u8]) -> (r: PipeRequest)
    ensures
        stands_for(r, requested(utf8_lossy(bytes@))),
{
    let text = text_of_bytes(bytes);
    request_of(text.as_str())
}

/// The reply to a command that is carried out.
pub fn ok_reply() -> (r: String)
    ensures
        r@ == "{\"ok\":true}"@,
{
    string_of(&chars_of("{\"ok\":true}"))
}

/// The reply to a text that asks for nothing known.
pub fn unknown_reply(cmd: &str) -> (r: String)
    ensures
        r@ == unknown(cmd@),
{
    let mut out = String::new();
    append(&mut out, "{\"error\":\"unknown command: ");
    append(&mut out, escape(cmd).as_str());
    append(&mut out, "\"}");
    assert(out@ =~= unknown(cmd@));
    out
}

/// The reply where the window manager no longer takes events.
pub fn gone_reply() -> (r: String)
    ensures
        r@ == "{\"error\":\"wm is shutting down\"}"@,
{
    string_of(&chars_of("{\"error\":\"wm is shutting down\"}"))
}

/// The reply to a request for the state: what the window manager sent in time,
/// `taken` telling whether it took the request at all.
pub fn state_reply(taken: bool, state: Option<String>) -> (r: String)
    ensures
        r@ == if !taken {
            "{\"error\":\"wm is shutting down\"}"@
        } else {
            match state {
                Some(s) => s@,
                None => "{\"error\":\"timeout\"}"@,
            }
        },
{
    if !taken {
        return gone_reply();
    }
    match state {
        Some(s) => s,
        None => string_of(&chars_of("{\"error\":\"timeout\"}")),
    }
}

/// A state as one line of a subscription.
pub fn subscription_line(state: String) -> (r: String)
    ensures
        r@ == state@.push('\n'),
{
    let mut line = state;
    line.push('\n');
    line
}

/// The command that the sender's arguments make.
pub fn command_line(args: &Vec<String>) -> (r: String)
    ensures
        r@ == joined(strings(args@), " "@, args.len() as int),
{
    join(args, " ")
}

/// What the sender does with a command.
pub fn errand(cmd: &str) -> (r: Errand)
    ensures
        r == errand_of(cmd@),
{
    let v = chars_of(cmd);
    if v.len() == 0 || is_text(&v, "--help") || is_text(&v, "-h") {
        Errand::Usage
    } else if is_text(&v, "subscribe") {
        Errand::Subscribe
    } else {
        Errand::Send
    }
}

/// The pipe is tried again after as many failed attempts.
pub fn tries_again(attempts: u32) -> (r: bool)
    ensures
        r == (attempts < OPEN_ATTEMPTS),
{
    attempts < OPEN_ATTEMPTS
}

/// The reply tells of an error.
pub fn is_error_reply(reply: &str) -> (r: bool)
    ensures
        r == has_part(reply@, "\"error\""@),
{
    contains(reply, "\"error\"")
}

// ---------------------------------------------------------------------------
// Laws
// ---------------------------------------------------------------------------

/// A text that asks for nothing known is answered with an error: the sender
/// takes its reply for one.
pub proof fn law_unknown_is_error(cmd: Seq<char>)
    ensures
        has_part(unknown(cmd), "\"error\""@),
{
    reveal_strlit("{\"error\":\"unknown command: ");
    reveal_strlit("\"error\"");
    let s = unknown(cmd);
    assert(s.subrange(1, 8) =~= "\"error\""@);
    assert(crate::text::stands_at(s, "\"error\""@, 1));
}

/// The reply to a text that asks for nothing known is a line of JSON, an object
/// with one entry, `error`, that ends in the text, whatever the text holds.
pub proof fn law_unknown_is_json(cmd: Seq<char>)
    ensures
        is_single_entry(unknown(cmd), "error"@, "unknown command: "@ + cmd),
        forall|i: int| 0 <= i < unknown(cmd).len() ==> !is_control(#[trigger] unknown(cmd)[i]),
{
    let head = "unknown command: "@;
    let body = escaped(head + cmd);
    reveal_strlit("{\"error\":\"unknown command: ");
    reveal_strlit("unknown command: ");
    reveal_strlit("error");
    reveal_strlit("{\"");
    reveal_strlit("\":\"");
    reveal_strlit("\"}");
    law_escape_read_back(head + cmd);
    law_escape_read_back(cmd);
    lemma_escaped_join(head, cmd);
    lemma_escaped_plain(head);
    assert("{\"error\":\"unknown command: "@ =~= "{\""@ + "error"@ + "\":\""@ + head);
    assert(unknown(cmd) =~= "{\""@ + "error"@ + "\":\""@ + body + "\"}"@);
}

/// Spaces round a request do not matter.
pub proof fn law_spaces_round_requests(text: Seq<char>, before: Seq<char>, behind: Seq<char>)
    requires
        forall|i: int| 0 <= i < before.len() ==> is_space(#[trigger] before[i]),
        forall|i: int| 0 <= i < behind.len() ==> is_space(#[trigger] behind[i]),
    ensures
        requested(before + text + behind) == requested(text),
{
    law_spaces_are_trimmed(text, before, behind);
}

} // verus!
