use guildbot::query::{channellist_command, clientinfo_command, clientlist_command};
use guildbot::teamspeak::{
    announces_client, join_announcement, join_messages, new_user_announcement, ChannelDirectory,
    TSChannel,
    TSUser, UserDirectory,
};

fn user(clid: usize, nickname: &str, lastconnected: &str) -> TSUser {
    TSUser {
        client_nickname: nickname.to_string(),
        client_lastconnected: lastconnected.to_string(),
        clid,
        ..Default::default()
    }
}

#[test]
fn new_user_window_is_three_thousand_seconds() {
    let u = user(1, "a", "1000");
    assert!(u.is_new_user_at(1000));
    assert!(u.is_new_user_at(3999));
    assert!(!u.is_new_user_at(4000));
    assert!(u.is_new_user_at(0));
}

#[test]
fn new_user_with_negative_stamp() {
    let u = user(1, "a", "-5");
    assert!(u.is_new_user_at(2994));
    assert!(!u.is_new_user_at(2995));
}

#[test]
fn new_user_at_a_clock_reading() {
    let u = user(1, "a", "1000");
    assert_eq!(u.is_new_user(3999), Some(true));
    assert_eq!(u.is_new_user(4000), Some(false));
    assert_eq!(u.is_new_user(i64::MIN), None);
    assert_eq!(u.is_new_user(i64::MIN + 1000), Some(true));
    let far = user(2, "b", "-10");
    assert_eq!(far.is_new_user(i64::MAX), None);
    let late = user(3, "c", "10");
    assert_eq!(late.is_new_user(i64::MIN), None);
    assert_eq!(late.is_new_user(i64::MAX), Some(false));
}

#[test]
fn user_directory_read_after_write() {
    let mut d = UserDirectory::new();
    assert_eq!(d.len(), 0);
    assert!(d.get(7).is_none());
    d.record(user(7, "seven", "1"));
    assert_eq!(d.len(), 1);
    assert_eq!(d.get(7).map(|u| u.client_nickname.clone()), Some("seven".to_string()));
    d.record(user(7, "renamed", "2"));
    assert_eq!(d.len(), 1);
    assert_eq!(d.get(7).map(|u| u.client_nickname.clone()), Some("renamed".to_string()));
}

#[test]
fn user_directory_record_all_last_wins() {
    let mut d = UserDirectory::new();
    d.record(user(9, "nine", "1"));
    d.record_all(vec![user(1, "a", "1"), user(2, "b", "1"), user(1, "c", "1")]);
    assert_eq!(d.len(), 3);
    assert_eq!(d.get(1).unwrap().client_nickname, "c");
    assert_eq!(d.get(2).unwrap().client_nickname, "b");
    assert_eq!(d.get(9).unwrap().client_nickname, "nine");
}

#[test]
fn nickname_list_joins_every_user_once() {
    let mut d = UserDirectory::new();
    assert_eq!(d.nickname_list(), "");
    d.record(user(1, "alice", "1"));
    assert_eq!(d.nickname_list(), "alice");
    d.record(user(2, "bob", "1"));
    let list = d.nickname_list();
    assert!(list == "alice, bob" || list == "bob, alice", "{}", list);
}

#[test]
fn channel_directory_record_all_last_wins() {
    let mut d = ChannelDirectory::new();
    d.record_all(vec![
        TSChannel { cid: 1, channel_name: "Lobby".to_string(), total_clients: 0 },
        TSChannel { cid: 2, channel_name: "AFK".to_string(), total_clients: 3 },
        TSChannel { cid: 1, channel_name: "Lounge".to_string(), total_clients: 1 },
    ]);
    assert_eq!(d.len(), 2);
    assert_eq!(d.get(1).unwrap().channel_name, "Lounge");
    assert_eq!(d.get(2).unwrap().total_clients, 3);
    assert!(d.get(3).is_none());
}

#[test]
fn announcements() {
    assert!(announces_client(0));
    assert!(!announces_client(1));
    assert!(announces_client(2));
    assert_eq!(join_announcement("wave", "alice"), ":wave: **alice** joined");
    assert_eq!(new_user_announcement("alice"), "@here alice joined");
}

#[test]
fn query_commands() {
    assert_eq!(clientlist_command(), "clientlist -info= -times=");
    assert_eq!(channellist_command(), "channellist");
    assert_eq!(clientinfo_command(42), "clientinfo clid=42");
    assert_eq!(clientinfo_command(0), "clientinfo clid=0");
}

#[test]
fn join_messages_for_each_kind_of_client() {
    let fresh = user(1, "alice", "1000");
    assert_eq!(join_messages(1, "wave", "alice", &fresh, 2000), Some(vec![]));
    assert_eq!(
        join_messages(0, "wave", "alice", &fresh, 2000),
        Some(vec![":wave: **alice** joined".to_string(), "@here alice joined".to_string()])
    );
    assert_eq!(
        join_messages(0, "wave", "alice", &fresh, 4000),
        Some(vec![":wave: **alice** joined".to_string()])
    );
    assert_eq!(join_messages(0, "wave", "alice", &fresh, i64::MIN), None);
    let unreadable = user(2, "bob", "never");
    assert_eq!(join_messages(1, "wave", "bob", &unreadable, 0), Some(vec![]));
}
