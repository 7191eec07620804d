//! The reply of the "Leet" message command: the moment a Discord message was
//! created, as a Discord timestamp tag.
use vstd::prelude::*;

use crate::decimal::{decimal, push_decimal};

verus! {

/// Milliseconds from the Unix epoch to the Discord epoch (2015-01-01).
pub const DISCORD_EPOCH_MS: u64 = 1420070400000;

/// A snowflake keeps its creation time above its 22 low bits.
pub const SNOWFLAKE_TIME_DIVISOR: u64 = 4194304;

/// Unix seconds at which the snowflake `id` was created.
pub open spec fn snowflake_seconds(id: u64) -> nat {
    ((id / SNOWFLAKE_TIME_DIVISOR + DISCORD_EPOCH_MS) / 1000) as nat
}

/// Unix seconds at which the message with snowflake `message_id` was created.
pub fn snowflake_unix_seconds(message_id: u64) -> (secs: u64)
    ensures
        secs == snowflake_seconds(message_id),
{
    (message_id / SNOWFLAKE_TIME_DIVISOR + DISCORD_EPOCH_MS) / 1000
}

/// The text of the reply: `<t:SECONDS>`, which Discord renders as a date.
pub fn leet_reply(message_id: u64) -> (reply: String)
    ensures
        reply@ == seq!['<', 't', ':'] + decimal(snowflake_seconds(message_id)) + seq!['>'],
{
    let secs = snowflake_unix_seconds(message_id);
    let mut out = String::new();
    out.append("<t:");
    push_decimal(&mut out, secs);
    out.append(">");
    proof {
        reveal_strlit("<t:");
        reveal_strlit(">");
    }
    assert(out@ =~= seq!['<', 't', ':'] + decimal(snowflake_seconds(message_id)) + seq!['>']);
    out
}

} // verus!
