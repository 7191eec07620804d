//! The TeamSpeak server-query commands the bot sends, built with the `ts3`
//! crate's `CommandBuilder`.
use vstd::prelude::*;

use ts3::CommandBuilder;

use crate::decimal::decimal;

verus! {

#[verifier::external_type_specification]
#[verifier::external_body]
pub struct ExCommandBuilder(ts3::CommandBuilder);

/// The command text that a `ts3::CommandBuilder` has accumulated (the
/// `String` buffer it holds).
pub uninterp spec fn command_text(b: CommandBuilder) -> Seq<char>;

/// A string value as the query protocol writes it: backslash, slash, space,
/// pipe and the control characters BEL, BS, FF, LF, CR, TAB and VT are
/// written as two-character escapes, every other character as itself.
pub open spec fn query_escape(s: Seq<char>) -> Seq<char>
    decreases s.len(),
{
    if s.len() == 0 {
        Seq::<char>::empty()
    } else {
        query_escape(s.drop_last()) + escape_char(s.last())
    }
}

/// The query-protocol spelling of one character.
pub open spec fn escape_char(c: char) -> Seq<char> {
    if c == '\\' {
        seq!['\\', '\\']
    } else if c == '/' {
        seq!['\\', '/']
    } else if c == ' ' {
        seq!['\\', 's']
    } else if c == '|' {
        seq!['\\', 'p']
    } else if c == '\x07' {
        seq!['\\', 'a']
    } else if c == '\x08' {
        seq!['\\', 'b']
    } else if c == '\x0c' {
        seq!['\\', 'f']
    } else if c == '\n' {
        seq!['\\', 'n']
    } else if c == '\r' {
        seq!['\\', 'r']
    } else if c == '\t' {
        seq!['\\', 't']
    } else if c == '\x0b' {
        seq!['\\', 'v']
    } else {
        seq![c]
    }
}

/// `ts3::CommandBuilder::new`: a builder whose text is the command name.
#[verifier::external_body]
fn command_new(name: &str) -> (b: CommandBuilder)
    ensures
        command_text(b) == name@,
{
    CommandBuilder::new(name)
}

/// `ts3::CommandBuilder::arg` with a string value: appends a space, the key,
/// `=` and the value in the protocol's escaped spelling.
#[verifier::external_body]
fn command_arg_str(b: CommandBuilder, key: &str, value: &str) -> (r: CommandBuilder)
    ensures
        command_text(r) == command_text(b) + seq![' '] + key@ + seq!['='] + query_escape(value@),
{
    b.arg(key, value)
}

/// `ts3::CommandBuilder::arg` with a `u64` value: appends a space, the key,
/// `=` and the value in decimal (its `Display`).
#[verifier::external_body]
fn command_arg_u64(b: CommandBuilder, key: &str, value: u64) -> (r: CommandBuilder)
    ensures
        command_text(r) == command_text(b) + seq![' '] + key@ + seq!['='] + decimal(value as nat),
{
    b.arg(key, value)
}

/// `ts3::CommandBuilder::into_inner`: the accumulated command text.
#[verifier::external_body]
fn command_finish(b: CommandBuilder) -> (s: String)
    ensures
        s@ == command_text(b),
{
    b.into_inner()
}

/// The query that lists every connected client with its extended details
/// and connection times: `clientlist -info= -times=`.
pub fn clientlist_command() -> (cmd: String)
    ensures
        cmd@ == "clientlist -info= -times="@,
{
    let b = command_new("clientlist");
    let b = command_arg_str(b, "-info", "");
    let b = command_arg_str(b, "-times", "");
    let cmd = command_finish(b);
    proof {
        reveal_strlit("clientlist");
        reveal_strlit("-info");
        reveal_strlit("-times");
        reveal_strlit("");
        reveal_strlit("clientlist -info= -times=");
        assert(query_escape(""@) =~= Seq::<char>::empty());
    }
    assert(cmd@ =~= "clientlist -info= -times="@);
    cmd
}

/// The query that lists every channel: `channellist`.
pub fn channellist_command() -> (cmd: String)
    ensures
        cmd@ == "channellist"@,
{
    let b = command_new("channellist");
    command_finish(b)
}

/// The query for the details of client `clid`: `clientinfo clid=CLID`.
pub fn clientinfo_command(clid: u64) -> (cmd: String)
    ensures
        cmd@ == "clientinfo clid="@ + decimal(clid as nat),
{
    let b = command_new("clientinfo");
    let b = command_arg_u64(b, "clid", clid);
    let cmd = command_finish(b);
    proof {
        reveal_strlit("clientinfo");
        reveal_strlit("clid");
        reveal_strlit("clientinfo clid=");
    }
    assert(cmd@ =~= "clientinfo clid="@ + decimal(clid as nat));
    cmd
}

} // verus!
