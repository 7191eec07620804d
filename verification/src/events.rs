//! What the bot does with each gateway event it receives.
use vstd::prelude::*;

verus! {

/// A gateway event, as far as the bot tells events apart.
pub enum GatewayEvent {
    /// The connection is ready; the bot's own user name.
    Ready { bot_name: String },
    /// A message was posted.
    Message,
    /// Any other event, by its snake-case name.
    Other { name: String },
}

/// What to do about an event.
pub enum EventAction {
    /// Write a line to the log.
    Log(String),
    /// Check the message for links to rewrite.
    RewriteLinks,
}

/// The log line for a ready connection: `NAME is connected!`.
pub open spec fn ready_text(bot_name: Seq<char>) -> Seq<char> {
    bot_name + seq![' ', 'i', 's', ' ', 'c', 'o', 'n', 'n', 'e', 'c', 't', 'e', 'd', '!']
}

/// The log line for a ready connection.
pub fn ready_line(bot_name: &str) -> (line: String)
    ensures
        line@ == ready_text(bot_name@),
{
    let mut out = String::new();
    out.append(bot_name);
    out.append(" is connected!");
    proof {
        reveal_strlit(" is connected!");
    }
    assert(out@ =~= ready_text(bot_name@));
    out
}

/// The action for an event: a ready connection is logged with the bot's
/// name, a message is checked for links, and any other event is logged by
/// its name.
pub fn event_action(event: GatewayEvent) -> (action: EventAction)
    ensures
        match event {
            GatewayEvent::Ready { bot_name } => action matches EventAction::Log(line) && line@
                == ready_text(bot_name@),
            GatewayEvent::Message => action is RewriteLinks,
            GatewayEvent::Other { name } => action matches EventAction::Log(line) && line@
                == name@,
        },
{
    match event {
        GatewayEvent::Ready { bot_name } => EventAction::Log(ready_line(bot_name.as_str())),
        GatewayEvent::Message => EventAction::RewriteLinks,
        GatewayEvent::Other { name } => EventAction::Log(name),
    }
}

} // verus!
