//! Rewriting twitter.com links to the vxtwitter.com mirror, whose embeds
//! Discord renders, and choosing the webhook that reposts the message.
use vstd::prelude::*;

use crate::pattern::{
    char_fits, compile_pattern, first_match_from, lemma_first_match_is_leftmost, matches_at, pattern_is_match, pattern_replace, plain_pattern,
    regex_accepts, regex_is_match, regex_replace, replace_first_plain, LinkPattern,
};

verus! {

/// The regex pattern a message is searched with. Its `.` matches any
/// character but a line feed.
pub open spec fn twitter_pattern() -> Seq<char> {
    seq!['h', 't', 't', 'p', 's', ':', '/', '/', 't', 'w', 'i', 't', 't', 'e', 'r', '.', 'c', 'o', 'm']
}

/// The text that replaces the first match.
pub open spec fn mirror_prefix() -> Seq<char> {
    seq![
        'h', 't', 't', 'p', 's', ':', '/', '/', 'v', 'x', 't', 'w', 'i', 't', 't', 'e', 'r', '.',
        'c', 'o', 'm'
    ]
}

/// The message text holds a twitter.com link in the sense of the pattern.
pub open spec fn has_twitter_link(content: Seq<char>) -> bool {
    exists|i: int| matches_at(twitter_pattern(), content, i)
}

/// What the bot reposts in place of a message: nothing for bots or messages
/// without a link; otherwise the text with its first link pointed at the
/// mirror.
pub open spec fn rewritten_message(author_is_bot: bool, content: Seq<char>) -> Option<Seq<char>> {
    if !author_is_bot && has_twitter_link(content) {
        Some(replace_first_plain(twitter_pattern(), content, mirror_prefix()))
    } else {
        None
    }
}

/// Why no rewrite could be computed.
#[derive(Debug, PartialEq, Eq)]
pub enum LinkError {
    /// The regex engine refused the link pattern.
    PatternRejected,
}

proof fn lemma_twitter_pattern_plain()
    ensures
        plain_pattern(twitter_pattern()),
{
    let p = twitter_pattern();
    assert forall|j: int| 0 <= j < p.len() implies crate::pattern::plain_pattern_char(
        #[trigger] p[j],
    ) by {
        assert(p[0] == 'h' && p[1] == 't' && p[2] == 't' && p[3] == 'p' && p[4] == 's');
        assert(p[5] == ':' && p[6] == '/' && p[7] == '/' && p[8] == 't' && p[9] == 'w');
        assert(p[10] == 'i' && p[11] == 't' && p[12] == 't' && p[13] == 'e' && p[14] == 'r');
        assert(p[15] == '.' && p[16] == 'c' && p[17] == 'o' && p[18] == 'm');
    }
}

/// The text of a message to repost, given the compiled link pattern: `None`
/// for a bot author or a message the pattern does not match, else the
/// message with its leftmost match replaced by the mirror prefix.
pub fn rewrite_with(pattern: &LinkPattern, author_is_bot: bool, content: &str) -> (r: Option<String>)
    requires
        pattern@ == twitter_pattern(),
    ensures
        r is Some <==> !author_is_bot && regex_is_match(pattern@, content@),
        r matches Some(s) ==> s@ == regex_replace(pattern@, content@, mirror_prefix()),
        match r {
            Some(s) => rewritten_message(author_is_bot, content@) == Some(s@),
            None => rewritten_message(author_is_bot, content@) is None,
        },
{
    proof {
        lemma_twitter_pattern_plain();
    }
    if author_is_bot {
        return None;
    }
    if !pattern_is_match(pattern, content) {
        return None;
    }
    let mirror = "https://vxtwitter.com";
    proof {
        reveal_strlit("https://vxtwitter.com");
        assert(mirror@ =~= mirror_prefix());
        assert(!mirror@.contains('$')) by {
            if mirror@.contains('$') {
                let k = choose|k: int| 0 <= k < mirror@.len() && mirror@[k] == '$';
                assert(mirror_prefix()[k] != '$');
            }
        }
    }
    let s = pattern_replace(pattern, content, mirror);
    Some(s)
}

/// The text of a message to repost: compiles the link pattern and applies
/// `rewrite_with`. `Err` only when the regex engine refuses the pattern.
pub fn rewrite_twitter_links(author_is_bot: bool, content: &str) -> (r: Result<Option<String>, LinkError>)
    ensures
        r is Err <==> !regex_accepts(twitter_pattern()),
        r matches Ok(out) ==> match out {
            Some(s) => rewritten_message(author_is_bot, content@) == Some(s@),
            None => rewritten_message(author_is_bot, content@) is None,
        },
{
    let source = String::from_str("https://twitter.com");
    proof {
        reveal_strlit("https://twitter.com");
        assert(source@ =~= twitter_pattern());
    }
    match compile_pattern(source) {
        Ok(pattern) => Ok(rewrite_with(&pattern, author_is_bot, content)),
        Err(_) => Err(LinkError::PatternRejected),
    }
}

/// The first of the channel's webhooks: the index of the first entry of
/// `hook_channels` (the channel each webhook posts to, if any) that is
/// `Some(channel)`, or `None` when no webhook posts there.
pub fn matching_webhook(hook_channels: &Vec<Option<u64>>, channel: u64) -> (r: Option<usize>)
    ensures
        r matches Some(i) ==> i < hook_channels@.len() && hook_channels@[i as int] == Some(
            channel,
        ) && forall|j: int| 0 <= j < i ==> hook_channels@[j] != Some(channel),
        r is None ==> forall|j: int| 0 <= j < hook_channels@.len() ==> hook_channels@[j] != Some(
            channel,
        ),
{
    let mut i: usize = 0;
    while i < hook_channels.len()
        invariant
            0 <= i <= hook_channels.len(),
            forall|j: int| 0 <= j < i ==> hook_channels@[j] != Some(channel),
        decreases hook_channels.len() - i,
    {
        match hook_channels[i] {
            Some(c) => {
                if c == channel {
                    return Some(i);
                }
            },
            None => {},
        }
        i = i + 1;
    }
    None
}

proof fn lemma_link_at(c: Seq<char>, j: int)
    ensures
        matches_at(twitter_pattern(), c, j) <==> (0 <= j && j + 19 <= c.len() && c.subrange(j, j + 15) == seq![
            'h', 't', 't', 'p', 's', ':', '/', '/', 't', 'w', 'i', 't', 't', 'e', 'r'
        ] && c[j + 15] != '\n' && c.subrange(j + 16, j + 19) == seq!['c', 'o', 'm']),
{
    let p = twitter_pattern();
    let lit = seq!['h', 't', 't', 'p', 's', ':', '/', '/', 't', 'w', 'i', 't', 't', 'e', 'r'];
    let com = seq!['c', 'o', 'm'];
    if matches_at(p, c, j) {
        assert forall|k: int| 0 <= k < 15 implies c.subrange(j, j + 15)[k] == lit[k] by {
            assert(char_fits(p[k], c[j + k]));
        }
        assert(c.subrange(j, j + 15) =~= lit);
        assert(char_fits(p[15], c[j + 15]));
        assert forall|k: int| 0 <= k < 3 implies c.subrange(j + 16, j + 19)[k] == com[k] by {
            let t = 16 + k;
            assert(char_fits(p[t], c[j + t]));
            assert(c.subrange(j + 16, j + 19)[k] == c[j + t]);
        }
        assert(c.subrange(j + 16, j + 19) =~= com);
    }
    if 0 <= j && j + 19 <= c.len() && c.subrange(j, j + 15) == seq![
            'h', 't', 't', 'p', 's', ':', '/', '/', 't', 'w', 'i', 't', 't', 'e', 'r'
        ] && c[j + 15] != '\n' && c.subrange(j + 16, j + 19) == seq!['c', 'o', 'm'] {
        assert forall|k: int| 0 <= k < p.len() implies #[trigger] char_fits(p[k], c[j + k]) by {
            if k < 15 {
                assert(c.subrange(j, j + 15)[k] == lit[k]);
            } else if k > 15 {
                assert(c.subrange(j + 16, j + 19)[k - 16] == com[k - 16]);
            }
        }
    }
}

/// A message from a bot is never reposted.
pub proof fn law_bot_messages_not_reposted(c: Seq<char>)
    ensures
        rewritten_message(true, c) is None,
{
}

/// A message that nowhere holds `https://twitter`, one character other than
/// a line feed, and `com` is not reposted; in particular a message that only
/// links to `https://vxtwitter.com` is left alone.
pub proof fn law_no_twitter_link_no_repost(author_is_bot: bool, c: Seq<char>)
    requires
        forall|j: int|
            !(0 <= j && j + 19 <= c.len() && #[trigger] c.subrange(j, j + 15) == seq![
            'h', 't', 't', 'p', 's', ':', '/', '/', 't', 'w', 'i', 't', 't', 'e', 'r'
        ] && c[j + 15] != '\n' && c.subrange(j + 16, j + 19) == seq!['c', 'o', 'm']),
    ensures
        rewritten_message(author_is_bot, c) is None,
{
    if has_twitter_link(c) {
        let j = choose|j: int| matches_at(twitter_pattern(), c, j);
        lemma_link_at(c, j);
    }
}

/// A message from a person whose first twitter.com link starts at `i` is
/// reposted with exactly those 19 characters replaced by
/// `https://vxtwitter.com` and everything else kept.
pub proof fn law_first_twitter_link_mirrored(c: Seq<char>, i: int)
    requires
        0 <= i && i + 19 <= c.len() && c.subrange(i, i + 15) == seq![
            'h', 't', 't', 'p', 's', ':', '/', '/', 't', 'w', 'i', 't', 't', 'e', 'r'
        ] && c[i + 15] != '\n' && c.subrange(i + 16, i + 19) == seq!['c', 'o', 'm'],
        forall|j: int|
            0 <= j < i ==> !(0 <= j && j + 19 <= c.len() && #[trigger] c.subrange(j, j + 15) == seq![
            'h', 't', 't', 'p', 's', ':', '/', '/', 't', 'w', 'i', 't', 't', 'e', 'r'
        ] && c[j + 15] != '\n' && c.subrange(j + 16, j + 19) == seq!['c', 'o', 'm']),
    ensures
        rewritten_message(false, c) == Some(
            c.take(i) + seq![
                'h', 't', 't', 'p', 's', ':', '/', '/', 'v', 'x', 't', 'w', 'i', 't', 't', 'e',
                'r', '.', 'c', 'o', 'm'
            ] + c.skip(i + 19),
        ),
{
    lemma_link_at(c, i);
    assert forall|j: int| 0 <= j < i implies !matches_at(twitter_pattern(), c, j) by {
        lemma_link_at(c, j);
    }
    lemma_first_match_is_leftmost(twitter_pattern(), c, 0, i);
    assert(mirror_prefix() =~= seq![
        'h', 't', 't', 'p', 's', ':', '/', '/', 'v', 'x', 't', 'w', 'i', 't', 't', 'e', 'r', '.',
        'c', 'o', 'm'
    ]);
}

} // verus!
