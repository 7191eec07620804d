//! TeamSpeak presence: the users and channels the query client has seen,
//! the announcements the bot posts when someone joins, and the user listing.
use vstd::prelude::*;

use std::collections::HashMap;
use vstd::std_specs::iter::IteratorSpec;

use crate::decimal::{i64_of, parse_i64};
use crate::text::{join, join_strings, string_views};

verus! {

/// A client as the TeamSpeak query interface describes it.
#[derive(Default, Debug, Clone)]
pub struct TSUser {
    pub client_database_id: u32,
    pub client_lastconnected: String,
    pub client_nickname: String,
    pub client_idle_time: String,
    pub client_platform: String,
    pub client_type: String,
    pub cid: u16,
    pub clid: usize,
}

/// A channel as the TeamSpeak query interface describes it.
#[derive(Default, Debug)]
pub struct TSChannel {
    pub cid: u16,
    pub channel_name: String,
    pub total_clients: u16,
}

/// A user who connected less than this many seconds ago counts as new.
pub const NEW_USER_WINDOW_SECS: i64 = 3000;

/// The moment the user last connected, in Unix seconds, when the record holds
/// a readable one.
pub open spec fn last_connected(user: TSUser) -> Option<i64> {
    i64_of(user.client_lastconnected@)
}

/// Whether a user who last connected at `since` is new at time `now`.
pub open spec fn new_at(since: i64, now: i64) -> bool {
    now - since < NEW_USER_WINDOW_SECS
}

/// The time `now` lies close enough to `since` that their difference fits
/// an `i64`.
pub open spec fn difference_fits(since: i64, now: i64) -> bool {
    i64::MIN <= now - since <= i64::MAX
}

impl TSUser {
    /// Whether the user connected less than `NEW_USER_WINDOW_SECS` before
    /// `now`. The record's last-connected stamp must be an `i64` numeral and
    /// the difference `now - since` must fit an `i64`.
    pub fn is_new_user_at(&self, now: i64) -> (r: bool)
        requires
            last_connected(*self) is Some,
            difference_fits(last_connected(*self).unwrap(), now),
        ensures
            r == new_at(last_connected(*self).unwrap(), now),
    {
        let since = match parse_i64(self.client_lastconnected.as_str()) {
            Some(v) => v,
            None => 0,
        };
        now - since < NEW_USER_WINDOW_SECS
    }

    /// Whether the user connected less than `NEW_USER_WINDOW_SECS` before
    /// the clock reading `now`: `Some` with the answer when `now - since`
    /// fits an `i64`, `None` when it does not.
    pub fn is_new_user(&self, now: i64) -> (r: Option<bool>)
        requires
            last_connected(*self) is Some,
        ensures
            r == (if difference_fits(last_connected(*self).unwrap(), now) {
                Some(new_at(last_connected(*self).unwrap(), now))
            } else {
                None::<bool>
            }),
    {
        let since = match parse_i64(self.client_lastconnected.as_str()) {
            Some(v) => v,
            None => 0,
        };
        let fits = if since >= 0 {
            now >= i64::MIN + since
        } else {
            now <= i64::MAX + since
        };
        if fits {
            Some(self.is_new_user_at(now))
        } else {
            None
        }
    }
}

/// The users the bot knows, keyed by their client id.
pub struct UserDirectory {
    users: HashMap<usize, TSUser>,
}

/// The map after recording each user of `users` in turn; a later record for
/// the same client id replaces an earlier one.
pub open spec fn record_users(m: Map<usize, TSUser>, users: Seq<TSUser>) -> Map<usize, TSUser>
    decreases users.len(),
{
    if users.len() == 0 {
        m
    } else {
        record_users(m, users.drop_last()).insert(users.last().clid, users.last())
    }
}

impl View for UserDirectory {
    type V = Map<usize, TSUser>;

    closed spec fn view(&self) -> Map<usize, TSUser> {
        self.users@
    }
}

impl UserDirectory {
    /// An empty directory.
    pub fn new() -> (d: UserDirectory)
        ensures
            d@ == Map::<usize, TSUser>::empty(),
    {
        broadcast use vstd::std_specs::hash::group_hash_axioms;

        UserDirectory { users: HashMap::new() }
    }

    /// Records `user` under its client id, replacing any earlier record.
    pub fn record(&mut self, user: TSUser)
        ensures
            final(self)@ == old(self)@.insert(user.clid, user),
    {
        broadcast use vstd::std_specs::hash::group_hash_axioms;

        let key = user.clid;
        self.users.insert(key, user);
    }

    /// Records every user of `users`, in order.
    pub fn record_all(&mut self, users: Vec<TSUser>)
        ensures
            final(self)@ == record_users(old(self)@, users@),
    {
        let ghost start = self@;
        let ghost all = users@;
        for user in it: users
            invariant
                it.seq() == all,
                self@ == record_users(start, all.take(it.index() as int)),
        {
            let ghost k = it.index() as int;
            proof {
                assert(all.take(k + 1).drop_last() =~= all.take(k));
                assert(all.take(k + 1).last() == user);
            }
            self.record(user);
        }
        assert(all.take(all.len() as int) =~= all);
    }

    /// The record of client `clid`, if there is one.
    pub fn get(&self, clid: usize) -> (r: Option<&TSUser>)
        ensures
            r matches Some(u) ==> self@.contains_key(clid) && *u == self@[clid],
            r is None ==> !self@.contains_key(clid),
    {
        broadcast use vstd::std_specs::hash::group_hash_axioms;

        self.users.get(&clid)
    }

    /// The number of users recorded.
    pub fn len(&self) -> (n: usize)
        ensures
            n == self@.len(),
    {
        broadcast use vstd::std_specs::hash::group_hash_axioms;

        self.users.len()
    }

    /// The nicknames of all recorded users joined with `", "`, in the
    /// directory's own order, each user once.
    pub fn nickname_list(&self) -> (r: String)
        ensures
            exists|keys: Seq<usize>|
                {
                    &&& keys.no_duplicates()
                    &&& keys.to_set() == self@.dom()
                    &&& r@ == join(nicknames_of(self@, keys), ", "@)
                },
    {
        broadcast use vstd::std_specs::hash::group_hash_axioms;

        let mut names: Vec<String> = Vec::new();
        let ghost m = self@;
        let ghost mut keys: Seq<usize> = Seq::empty();
        let iter = self.users.iter();
        let ghost pairs = iter.remaining();
        assert(pairs.len() == m.dom().len());
        for entry in it: iter
            invariant
                m == self.users@,
                it.seq() == pairs,
                pairs.no_duplicates(),
                keys.len() == it.index(),
                forall|i: int| 0 <= i < keys.len() ==> keys[i] == *pairs[i].0,
                string_views(names@) == nicknames_of(m, keys),
                forall|i: int| #![trigger pairs[i]] 0 <= i < pairs.len() ==> m.contains_key(*pairs[i].0)
                    && m[*pairs[i].0] == *pairs[i].1,
        {
            let (k, u) = entry;
            let ghost before = names@;
            proof {
                assert(entry == pairs[it.index() as int]);
                assert(*u == m[*k]);
            }
            let nick = u.client_nickname.clone();
            assert(nick@ == m[*k].client_nickname@);
            names.push(nick);
            proof {
                let old_keys = keys;
                keys = keys.push(*k);
                assert(names@.drop_last() == before);
                assert(string_views(before).len() == before.len());
                assert(nicknames_of(m, old_keys).len() == old_keys.len());
                assert(before.len() == old_keys.len());
                assert(string_views(names@).len() == nicknames_of(m, keys).len());
                assert forall|i: int| 0 <= i < keys.len() implies string_views(names@)[i]
                    == nicknames_of(m, keys)[i] by {
                    if i < keys.len() - 1 {
                        assert(string_views(before)[i] == nicknames_of(m, old_keys)[i]);
                        assert(names@[i] == before[i]);
                        assert(keys[i] == old_keys[i]);
                    }
                }
                assert(string_views(names@) =~= nicknames_of(m, keys));
            }
        }
        proof {
            assert(keys.len() == pairs.len());
            assert forall|i: int, j: int| 0 <= i < keys.len() && 0 <= j < keys.len() && i != j
                implies keys[i] != keys[j] by {
                if keys[i] == keys[j] {
                    assert(pairs[i] == pairs[j]);
                }
            }
            assert forall|x: usize| keys.to_set().contains(x) <==> m.dom().contains(x) by {
                if m.dom().contains(x) {
                    assert(pairs.contains((&x, &m[x])));
                    let i = choose|i: int| 0 <= i < pairs.len() && pairs[i] == (&x, &m[x]);
                    assert(keys[i] == x);
                }
                if keys.to_set().contains(x) {
                    let i = choose|i: int| 0 <= i < keys.len() && keys[i] == x;
                    assert(m.dom().contains(*pairs[i].0));
                }
            }
            assert(keys.to_set() =~= m.dom());
        }
        let r = join_strings(&names, ", ");
        r
    }
}

/// The nicknames of the users under `keys`, in that order.
pub open spec fn nicknames_of(m: Map<usize, TSUser>, keys: Seq<usize>) -> Seq<Seq<char>> {
    keys.map_values(|k: usize| m[k].client_nickname@)
}

/// The channels the bot knows, keyed by their channel id.
pub struct ChannelDirectory {
    channels: HashMap<u16, TSChannel>,
}

/// The map after recording each channel of `channels` in turn; a later
/// record for the same channel id replaces an earlier one.
pub open spec fn record_channels(m: Map<u16, TSChannel>, channels: Seq<TSChannel>) -> Map<
    u16,
    TSChannel,
>
    decreases channels.len(),
{
    if channels.len() == 0 {
        m
    } else {
        record_channels(m, channels.drop_last()).insert(channels.last().cid, channels.last())
    }
}

impl View for ChannelDirectory {
    type V = Map<u16, TSChannel>;

    closed spec fn view(&self) -> Map<u16, TSChannel> {
        self.channels@
    }
}

impl ChannelDirectory {
    /// An empty directory.
    pub fn new() -> (d: ChannelDirectory)
        ensures
            d@ == Map::<u16, TSChannel>::empty(),
    {
        broadcast use vstd::std_specs::hash::group_hash_axioms;

        ChannelDirectory { channels: HashMap::new() }
    }

    /// Records `channel` under its channel id, replacing any earlier record.
    pub fn record(&mut self, channel: TSChannel)
        ensures
            final(self)@ == old(self)@.insert(channel.cid, channel),
    {
        broadcast use vstd::std_specs::hash::group_hash_axioms;

        let key = channel.cid;
        self.channels.insert(key, channel);
    }

    /// Records every channel of `channels`, in order.
    pub fn record_all(&mut self, channels: Vec<TSChannel>)
        ensures
            final(self)@ == record_channels(old(self)@, channels@),
    {
        let ghost start = self@;
        let ghost all = channels@;
        for channel in it: channels
            invariant
                it.seq() == all,
                self@ == record_channels(start, all.take(it.index() as int)),
        {
            let ghost k = it.index() as int;
            proof {
                assert(all.take(k + 1).drop_last() =~= all.take(k));
                assert(all.take(k + 1).last() == channel);
            }
            self.record(channel);
        }
        assert(all.take(all.len() as int) =~= all);
    }

    /// The record of channel `cid`, if there is one.
    pub fn get(&self, cid: u16) -> (r: Option<&TSChannel>)
        ensures
            r matches Some(c) ==> self@.contains_key(cid) && *c == self@[cid],
            r is None ==> !self@.contains_key(cid),
    {
        broadcast use vstd::std_specs::hash::group_hash_axioms;

        self.channels.get(&cid)
    }

    /// The number of channels recorded.
    pub fn len(&self) -> (n: usize)
        ensures
            n == self@.len(),
    {
        broadcast use vstd::std_specs::hash::group_hash_axioms;

        self.channels.len()
    }
}

/// The client type of a server query connection; query clients are not
/// announced.
pub const QUERY_CLIENT_TYPE: u8 = 1;

/// Whether a client of type `client_type` entering the server is announced.
pub fn announces_client(client_type: u8) -> (r: bool)
    ensures
        r == (client_type != QUERY_CLIENT_TYPE),
{
    client_type != QUERY_CLIENT_TYPE
}

/// The announcement text of a joining client: `:EMOJI: **NICKNAME** joined`.
pub open spec fn join_text(emoji: Seq<char>, nickname: Seq<char>) -> Seq<char> {
    seq![':'] + emoji + seq![':', ' ', '*', '*'] + nickname + seq![
        '*',
        '*',
        ' ',
        'j',
        'o',
        'i',
        'n',
        'e',
        'd',
    ]
}

/// The extra announcement text for a client new to the server:
/// `@here NICKNAME joined`.
pub open spec fn new_user_text(nickname: Seq<char>) -> Seq<char> {
    seq!['@', 'h', 'e', 'r', 'e', ' '] + nickname + seq![' ', 'j', 'o', 'i', 'n', 'e', 'd']
}

/// The announcement of a joining client: `:EMOJI: **NICKNAME** joined`.
pub fn join_announcement(emoji: &str, nickname: &str) -> (r: String)
    ensures
        r@ == join_text(emoji@, nickname@),
{
    let mut out = String::new();
    out.append(":");
    out.append(emoji);
    out.append(": **");
    out.append(nickname);
    out.append("** joined");
    proof {
        reveal_strlit(":");
        reveal_strlit(": **");
        reveal_strlit("** joined");
    }
    assert(out@ =~= join_text(emoji@, nickname@));
    out
}

/// The extra announcement for a client new to the server:
/// `@here NICKNAME joined`.
pub fn new_user_announcement(nickname: &str) -> (r: String)
    ensures
        r@ == new_user_text(nickname@),
{
    let mut out = String::new();
    out.append("@here ");
    out.append(nickname);
    out.append(" joined");
    proof {
        reveal_strlit("@here ");
        reveal_strlit(" joined");
    }
    assert(out@ =~= new_user_text(nickname@));
    out
}

/// The messages to post for a client entering the server, in order, given
/// the clock reading `now`: none for a query client; otherwise the join
/// announcement, followed by the `@here` announcement when `user` is new.
/// `None` when the client is announced but `now` lies so far from the
/// user's last-connected stamp that their difference does not fit an `i64`.
pub fn join_messages(client_type: u8, emoji: &str, nickname: &str, user: &TSUser, now: i64) -> (r:
    Option<Vec<String>>)
    requires
        client_type != QUERY_CLIENT_TYPE ==> last_connected(*user) is Some,
    ensures
        client_type == QUERY_CLIENT_TYPE ==> (r matches Some(v) && v@.len() == 0),
        client_type != QUERY_CLIENT_TYPE ==> match r {
            None => !difference_fits(last_connected(*user).unwrap(), now),
            Some(v) => difference_fits(last_connected(*user).unwrap(), now) && string_views(v@)
                == (if new_at(last_connected(*user).unwrap(), now) {
                seq![join_text(emoji@, nickname@), new_user_text(nickname@)]
            } else {
                seq![join_text(emoji@, nickname@)]
            }),
        },
{
    let mut messages: Vec<String> = Vec::new();
    if !announces_client(client_type) {
        return Some(messages);
    }
    match user.is_new_user(now) {
        None => None,
        Some(is_new) => {
            messages.push(join_announcement(emoji, nickname));
            if is_new {
                messages.push(new_user_announcement(nickname));
            }
            proof {
                let expected = if is_new {
                    seq![join_text(emoji@, nickname@), new_user_text(nickname@)]
                } else {
                    seq![join_text(emoji@, nickname@)]
                };
                assert(string_views(messages@) =~= expected);
            }
            Some(messages)
        },
    }
}

/// Recording a list of users: afterwards a client id is known exactly when it
/// was known before or some user of the list has it.
pub proof fn lemma_record_users_known(m: Map<usize, TSUser>, users: Seq<TSUser>, k: usize)
    ensures
        record_users(m, users).contains_key(k) <==> (m.contains_key(k) || exists|i: int|
            0 <= i < users.len() && #[trigger] users[i].clid == k),
    decreases users.len(),
{
    if users.len() > 0 {
        let init = users.drop_last();
        let n = users.len() - 1;
        lemma_record_users_known(m, init, k);
        if exists|i: int| 0 <= i < users.len() && #[trigger] users[i].clid == k {
            let i = choose|i: int| 0 <= i < users.len() && #[trigger] users[i].clid == k;
            if i < n {
                assert(init[i].clid == k);
            }
        }
        if exists|i: int| 0 <= i < init.len() && #[trigger] init[i].clid == k {
            let i = choose|i: int| 0 <= i < init.len() && #[trigger] init[i].clid == k;
            assert(users[i].clid == k);
        }
    }
}

/// Recording a list of users: a client id of the list maps to the last user
/// of the list that has it.
pub proof fn lemma_record_users_last_wins(m: Map<usize, TSUser>, users: Seq<TSUser>, i: int)
    requires
        0 <= i < users.len(),
        forall|j: int| i < j < users.len() ==> #[trigger] users[j].clid != users[i].clid,
    ensures
        record_users(m, users).contains_key(users[i].clid),
        record_users(m, users)[users[i].clid] == users[i],
    decreases users.len(),
{
    let init = users.drop_last();
    let n = users.len() - 1;
    if i < n {
        assert(users[n].clid != users[i].clid);
        assert(init[i] == users[i]);
        assert forall|j: int| i < j < init.len() implies #[trigger] init[j].clid != init[i].clid by {
            assert(init[j] == users[j]);
        }
        lemma_record_users_last_wins(m, init, i);
    }
}

/// Recording a list of users leaves the record of a client id that no user
/// of the list has as it was.
pub proof fn lemma_record_users_untouched(m: Map<usize, TSUser>, users: Seq<TSUser>, k: usize)
    requires
        forall|i: int| 0 <= i < users.len() ==> #[trigger] users[i].clid != k,
    ensures
        record_users(m, users).contains_key(k) == m.contains_key(k),
        m.contains_key(k) ==> record_users(m, users)[k] == m[k],
    decreases users.len(),
{
    if users.len() > 0 {
        let init = users.drop_last();
        assert(users[users.len() - 1].clid != k);
        assert forall|i: int| 0 <= i < init.len() implies #[trigger] init[i].clid != k by {
            assert(init[i] == users[i]);
        }
        lemma_record_users_untouched(m, init, k);
    }
}

/// Recording a list of channels: afterwards a channel id is known exactly when it
/// was known before or some channel of the list has it.
pub proof fn lemma_record_channels_known(m: Map<u16, TSChannel>, channels: Seq<TSChannel>, k: u16)
    ensures
        record_channels(m, channels).contains_key(k) <==> (m.contains_key(k) || exists|i: int|
            0 <= i < channels.len() && #[trigger] channels[i].cid == k),
    decreases channels.len(),
{
    if channels.len() > 0 {
        let init = channels.drop_last();
        let n = channels.len() - 1;
        lemma_record_channels_known(m, init, k);
        if exists|i: int| 0 <= i < channels.len() && #[trigger] channels[i].cid == k {
            let i = choose|i: int| 0 <= i < channels.len() && #[trigger] channels[i].cid == k;
            if i < n {
                assert(init[i].cid == k);
            }
        }
        if exists|i: int| 0 <= i < init.len() && #[trigger] init[i].cid == k {
            let i = choose|i: int| 0 <= i < init.len() && #[trigger] init[i].cid == k;
            assert(channels[i].cid == k);
        }
    }
}

/// Recording a list of channels: a channel id of the list maps to the last channel
/// of the list that has it.
pub proof fn lemma_record_channels_last_wins(m: Map<u16, TSChannel>, channels: Seq<TSChannel>, i: int)
    requires
        0 <= i < channels.len(),
        forall|j: int| i < j < channels.len() ==> #[trigger] channels[j].cid != channels[i].cid,
    ensures
        record_channels(m, channels).contains_key(channels[i].cid),
        record_channels(m, channels)[channels[i].cid] == channels[i],
    decreases channels.len(),
{
    let init = channels.drop_last();
    let n = channels.len() - 1;
    if i < n {
        assert(channels[n].cid != channels[i].cid);
        assert(init[i] == channels[i]);
        assert forall|j: int| i < j < init.len() implies #[trigger] init[j].cid != init[i].cid by {
            assert(init[j] == channels[j]);
        }
        lemma_record_channels_last_wins(m, init, i);
    }
}

/// Recording a list of channels leaves the record of a channel id that no channel
/// of the list has as it was.
pub proof fn lemma_record_channels_untouched(m: Map<u16, TSChannel>, channels: Seq<TSChannel>, k: u16)
    requires
        forall|i: int| 0 <= i < channels.len() ==> #[trigger] channels[i].cid != k,
    ensures
        record_channels(m, channels).contains_key(k) == m.contains_key(k),
        m.contains_key(k) ==> record_channels(m, channels)[k] == m[k],
    decreases channels.len(),
{
    if channels.len() > 0 {
        let init = channels.drop_last();
        assert(channels[channels.len() - 1].cid != k);
        assert forall|i: int| 0 <= i < init.len() implies #[trigger] init[i].cid != k by {
            assert(init[i] == channels[i]);
        }
        lemma_record_channels_untouched(m, init, k);
    }
}

} // verus!
