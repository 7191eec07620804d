use guildbot::events::{event_action, ready_line, EventAction, GatewayEvent};
use guildbot::offtopic::{
    channel_overwrites, order_channels, plan_channel, sort_category, ChannelPosition,
    ChannelRequest, GuildChannelEntry, RoleOverwrite,
};
use guildbot::twitter::{matching_webhook, rewrite_twitter_links, LinkError};

#[test]
fn plan_uses_channel_name_for_missing_role() {
    let plan = plan_channel(ChannelRequest {
        channel_name: "r6-siege".to_string(),
        role_name: None,
        description: None,
    });
    assert_eq!(plan.channel_name, "r6-siege");
    assert_eq!(plan.role_name, "r6-siege");
    assert_eq!(plan.topic, "");
}

#[test]
fn plan_keeps_given_role_and_description() {
    let plan = plan_channel(ChannelRequest {
        channel_name: "r6-siege".to_string(),
        role_name: Some("R6Siege".to_string()),
        description: Some("Cool Channel".to_string()),
    });
    assert_eq!(plan.role_name, "R6Siege");
    assert_eq!(plan.topic, "Cool Channel");
}

#[test]
fn overwrites_hide_channel_from_everyone_else() {
    assert_eq!(
        channel_overwrites(11, 22),
        vec![
            RoleOverwrite { role_id: 11, allow: 1 << 10, deny: 0 },
            RoleOverwrite { role_id: 22, allow: 0, deny: 1 << 10 },
        ]
    );
}

fn entry(id: u64, parent: Option<u64>, name: &str) -> GuildChannelEntry {
    GuildChannelEntry { id, parent_id: parent, name: name.to_string() }
}

#[test]
fn order_sorts_category_by_name() {
    let channels = vec![
        entry(1, Some(5), "zeta"),
        entry(2, Some(6), "alpha"),
        entry(3, Some(5), "beta"),
        entry(4, None, "aaa"),
        entry(5, Some(5), "Gamma"),
    ];
    assert_eq!(
        order_channels(&channels, 5),
        vec![
            ChannelPosition { id: 5, position: 0 },
            ChannelPosition { id: 3, position: 1 },
            ChannelPosition { id: 1, position: 2 },
        ]
    );
}

#[test]
fn order_is_stable_for_equal_names() {
    let channels = vec![
        entry(10, Some(1), "b"),
        entry(11, Some(1), "a"),
        entry(12, Some(1), "b"),
        entry(13, Some(1), "a"),
    ];
    assert_eq!(sort_category(&channels, 1), vec![1, 3, 0, 2]);
}

#[test]
fn order_compares_like_string_ord() {
    let names = ["b", "ab", "a", "", "é", "z", "Z", "aa"];
    let channels: Vec<GuildChannelEntry> =
        names.iter().enumerate().map(|(i, n)| entry(i as u64, Some(0), n)).collect();
    let order = sort_category(&channels, 0);
    let got: Vec<&str> = order.iter().map(|&i| names[i]).collect();
    let mut expected = names.to_vec();
    expected.sort();
    assert_eq!(got, expected);
}

#[test]
fn order_of_empty_category() {
    let channels = vec![entry(1, Some(2), "x")];
    assert!(order_channels(&channels, 3).is_empty());
    assert!(order_channels(&Vec::new(), 3).is_empty());
}

#[test]
fn rewrite_points_first_link_at_mirror() {
    assert_eq!(
        rewrite_twitter_links(false, "look https://twitter.com/user/status/1 nice"),
        Ok(Some("look https://vxtwitter.com/user/status/1 nice".to_string()))
    );
}

#[test]
fn rewrite_replaces_only_the_first_link() {
    assert_eq!(
        rewrite_twitter_links(false, "https://twitter.com/a https://twitter.com/b"),
        Ok(Some("https://vxtwitter.com/a https://twitter.com/b".to_string()))
    );
}

#[test]
fn rewrite_ignores_bots_and_plain_messages() {
    assert_eq!(rewrite_twitter_links(true, "https://twitter.com/a"), Ok(None));
    assert_eq!(rewrite_twitter_links(false, "no links here"), Ok(None));
    assert_eq!(rewrite_twitter_links(false, "https://x.com/a"), Ok(None));
    assert_eq!(rewrite_twitter_links(false, ""), Ok(None));
}

#[test]
fn rewrite_dot_matches_any_character_but_newline() {
    assert_eq!(
        rewrite_twitter_links(false, "https://twitterXcom/a"),
        Ok(Some("https://vxtwitter.com/a".to_string()))
    );
    assert_eq!(rewrite_twitter_links(false, "https://twitter\ncom/a"), Ok(None));
}

#[test]
fn link_error_is_distinct() {
    assert_ne!(rewrite_twitter_links(false, "x"), Err(LinkError::PatternRejected));
}

#[test]
fn webhook_choice_takes_first_of_channel() {
    assert_eq!(matching_webhook(&vec![None, Some(3), Some(7), Some(7)], 7), Some(2));
    assert_eq!(matching_webhook(&vec![None, Some(3)], 7), None);
    assert_eq!(matching_webhook(&vec![], 7), None);
}

#[test]
fn events_are_routed() {
    match event_action(GatewayEvent::Ready { bot_name: "Bot".to_string() }) {
        EventAction::Log(line) => assert_eq!(line, "Bot is connected!"),
        EventAction::RewriteLinks => panic!("ready must be logged"),
    }
    assert!(matches!(event_action(GatewayEvent::Message), EventAction::RewriteLinks));
    match event_action(GatewayEvent::Other { name: "typing_start".to_string() }) {
        EventAction::Log(line) => assert_eq!(line, "typing_start"),
        EventAction::RewriteLinks => panic!("other events must be logged"),
    }
    assert_eq!(ready_line(""), " is connected!");
}

#[test]
fn ordering_twice_gives_same_positions() {
    let first = vec![
        entry(1, Some(5), "zeta"),
        entry(2, Some(5), "alpha"),
        entry(3, None, "misc"),
        entry(4, Some(5), "mu"),
    ];
    let again = vec![
        entry(4, Some(5), "mu"),
        entry(3, None, "misc"),
        entry(1, Some(5), "zeta"),
        entry(2, Some(5), "alpha"),
    ];
    assert_eq!(order_channels(&first, 5), order_channels(&again, 5));
}

#[test]
fn order_moves_every_channel_of_the_category() {
    let channels = vec![
        entry(1, Some(5), "b"),
        entry(2, Some(6), "a"),
        entry(3, Some(5), "a"),
        entry(4, Some(5), "c"),
    ];
    assert_eq!(order_channels(&channels, 5).len(), 3);
}
