use mailboxqtt::client::{ClientCommand, ClientHandle};
use mailboxqtt::message_queue::{split_levels, MessageQueue, TopicTree};
use tokio::sync::mpsc;

/// Create a mock ClientHandle for testing
/// The receiver is dropped, so messages sent to this handle go nowhere
fn create_mock_client(id: &str) -> ClientHandle {
    let (tx, _rx) = mpsc::unbounded_channel::<ClientCommand>();
    ClientHandle::new(id.to_string(), tx)
}

#[test]
fn test_exact_topic_subscribe() {
    let mut tree = TopicTree::new();
    let client1 = create_mock_client("client1");
    let client2 = create_mock_client("client2");

    // Subscribe to exact topics
    tree.subscribe(client1.clone(), &["sensor", "temperature"]);
    tree.subscribe(client2.clone(), &["sensor", "humidity"]);

    // Check that clients are in the right place
    assert_eq!(tree.children.len(), 1);
    assert!(tree.children.contains_key("sensor"));

    let sensor_node = tree.children.get("sensor").unwrap();
    assert_eq!(sensor_node.children.len(), 2);
    assert!(sensor_node.children.contains_key("temperature"));
    assert!(sensor_node.children.contains_key("humidity"));

    // Test get_subscribers
    let mut subscribers = Vec::new();
    tree.get_subscribers(&["sensor", "temperature"], &mut subscribers);
    assert_eq!(subscribers.len(), 1);
    assert_eq!(subscribers[0].client_id, "client1");

    let mut subscribers = Vec::new();
    tree.get_subscribers(&["sensor", "humidity"], &mut subscribers);
    assert_eq!(subscribers.len(), 1);
    assert_eq!(subscribers[0].client_id, "client2");

    // Non-existent topic should return empty
    let mut subscribers = Vec::new();
    tree.get_subscribers(&["sensor", "pressure"], &mut subscribers);
    assert_eq!(subscribers.len(), 0);
}

#[test]
fn test_multi_level_wildcard_subscribe() {
    let mut tree = TopicTree::new();
    let client = create_mock_client("wildcard_client");

    // Subscribe to sensor/#
    tree.subscribe(client.clone(), &["sensor", "#"]);

    // Check structure
    assert_eq!(tree.children.len(), 1);
    let sensor_node = tree.children.get("sensor").unwrap();
    assert_eq!(sensor_node.subscribers_multi_wildcard.len(), 1);
    assert_eq!(sensor_node.subscribers_multi_wildcard[0].client_id, "wildcard_client");

    // Test get_subscribers - should match any topic under sensor/
    let mut subscribers = Vec::new();
    tree.get_subscribers(&["sensor", "temperature"], &mut subscribers);
    assert_eq!(subscribers.len(), 1);
    assert_eq!(subscribers[0].client_id, "wildcard_client");

    let mut subscribers = Vec::new();
    tree.get_subscribers(&["sensor", "humidity", "living"], &mut subscribers);
    assert_eq!(subscribers.len(), 1);
    assert_eq!(subscribers[0].client_id, "wildcard_client");

    // Should NOT match topics not under sensor/
    let mut subscribers = Vec::new();
    tree.get_subscribers(&["home", "temperature"], &mut subscribers);
    assert_eq!(subscribers.len(), 0);
}

#[test]
fn test_single_level_wildcard_subscribe() {
    let mut tree = TopicTree::new();
    let client = create_mock_client("plus_client");

    // Subscribe to sensor/+/temperature
    tree.subscribe(client.clone(), &["sensor", "+", "temperature"]);

    // Check structure
    assert_eq!(tree.children.len(), 1);
    let sensor_node = tree.children.get("sensor").unwrap();
    assert_eq!(sensor_node.subscribers_single_wildcard.len(), 1);
    assert_eq!(sensor_node.subscribers_single_wildcard[0].0.client_id, "plus_client");
    assert_eq!(sensor_node.subscribers_single_wildcard[0].1, vec!["temperature"]);

    // Test get_subscribers - should match sensor/<anything>/temperature
    let mut subscribers = Vec::new();
    tree.get_subscribers(&["sensor", "bedroom", "temperature"], &mut subscribers);
    assert_eq!(subscribers.len(), 1);
    assert_eq!(subscribers[0].client_id, "plus_client");

    let mut subscribers = Vec::new();
    tree.get_subscribers(&["sensor", "kitchen", "temperature"], &mut subscribers);
    assert_eq!(subscribers.len(), 1);
    assert_eq!(subscribers[0].client_id, "plus_client");

    // Should NOT match wrong depth
    let mut subscribers = Vec::new();
    tree.get_subscribers(&["sensor", "temperature"], &mut subscribers);
    assert_eq!(subscribers.len(), 0);

    // Should NOT match wrong ending
    let mut subscribers = Vec::new();
    tree.get_subscribers(&["sensor", "bedroom", "humidity"], &mut subscribers);
    assert_eq!(subscribers.len(), 0);
}

#[test]
fn test_mixed_subscriptions() {
    let mut tree = TopicTree::new();
    let exact_client = create_mock_client("exact");
    let wildcard_client = create_mock_client("wildcard");
    let plus_client = create_mock_client("plus");

    // Various subscription patterns
    tree.subscribe(exact_client.clone(), &["home", "living", "temp"]);
    tree.subscribe(wildcard_client.clone(), &["home", "#"]);
    tree.subscribe(plus_client.clone(), &["home", "+", "temp"]);

    // Check root level
    assert_eq!(tree.children.len(), 1);
    let home_node = tree.children.get("home").unwrap();

    // home/# subscriber should be at home level
    assert_eq!(home_node.subscribers_multi_wildcard.len(), 1);
    assert_eq!(home_node.subscribers_multi_wildcard[0].client_id, "wildcard");

    // home/+/temp subscriber should be at home level
    assert_eq!(home_node.subscribers_single_wildcard.len(), 1);
    assert_eq!(home_node.subscribers_single_wildcard[0].0.client_id, "plus");

    // Test get_subscribers
    // Exact match should get exact client + wildcard (home/#) + plus (home/+/temp)
    let mut subscribers = Vec::new();
    tree.get_subscribers(&["home", "living", "temp"], &mut subscribers);
    assert_eq!(subscribers.len(), 3); // exact + wildcard + plus
    let client_ids: Vec<&str> = subscribers.iter().map(|c| c.client_id.as_str()).collect();
    assert!(client_ids.contains(&"exact"));
    assert!(client_ids.contains(&"wildcard"));
    assert!(client_ids.contains(&"plus"));

    // Test + wildcard with new topic (that didn't exist at subscribe time)
    let mut subscribers = Vec::new();
    tree.get_subscribers(&["home", "bedroom", "temp"], &mut subscribers);
    assert_eq!(subscribers.len(), 2); // wildcard + plus (but NOT exact)
    let client_ids: Vec<&str> = subscribers.iter().map(|c| c.client_id.as_str()).collect();
    assert!(client_ids.contains(&"wildcard"));
    assert!(client_ids.contains(&"plus"));

    // Different topic (not matching +/temp pattern) should only get wildcard
    let mut subscribers = Vec::new();
    tree.get_subscribers(&["home", "bedroom", "humidity"], &mut subscribers);
    assert_eq!(subscribers.len(), 1);
    assert_eq!(subscribers[0].client_id, "wildcard");
}

#[test]
fn test_multiple_clients_same_topic() {
    let mut tree = TopicTree::new();
    let client1 = create_mock_client("client1");
    let client2 = create_mock_client("client2");
    let client3 = create_mock_client("client3");

    // All subscribe to the same topic
    tree.subscribe(client1.clone(), &["l1", "l2"]);
    tree.subscribe(client2.clone(), &["l1", "l2"]);
    tree.subscribe(client3.clone(), &["l1", "l2"]);

    // Navigate to the topic node
    let test_node = tree.children.get("l1").unwrap();
    let topic_node = test_node.children.get("l2").unwrap();

    // All three should be subscribers
    assert_eq!(topic_node.subscribers_exact.len(), 3);

    // Test get_subscribers - all three should be returned
    let mut subscribers = Vec::new();
    tree.get_subscribers(&["l1", "l2"], &mut subscribers);
    assert_eq!(subscribers.len(), 3);
    let client_ids: Vec<&str> = subscribers.iter().map(|c| c.client_id.as_str()).collect();
    assert!(client_ids.contains(&"client1"));
    assert!(client_ids.contains(&"client2"));
    assert!(client_ids.contains(&"client3"));
}

#[test]
fn test_root_level_wildcard() {
    let mut tree = TopicTree::new();
    let client = create_mock_client("catch_all");

    // Subscribe to # (catches everything)
    tree.subscribe(client.clone(), &["#"]);

    // Should be at root level
    assert_eq!(tree.subscribers_multi_wildcard.len(), 1);
    assert_eq!(tree.subscribers_multi_wildcard[0].client_id, "catch_all");

    // Test get_subscribers - should match any topic
    let mut subscribers = Vec::new();
    tree.get_subscribers(&["sensor", "temperature"], &mut subscribers);
    assert_eq!(subscribers.len(), 1);
    assert_eq!(subscribers[0].client_id, "catch_all");

    let mut subscribers = Vec::new();
    tree.get_subscribers(&["home", "living", "humidity"], &mut subscribers);
    assert_eq!(subscribers.len(), 1);
    assert_eq!(subscribers[0].client_id, "catch_all");

    let mut subscribers = Vec::new();
    tree.get_subscribers(&["anything"], &mut subscribers);
    assert_eq!(subscribers.len(), 1);
    assert_eq!(subscribers[0].client_id, "catch_all");
}

#[test]
fn test_complex_wildcard_combinations() {
    let mut tree = TopicTree::new();
    let exact = create_mock_client("exact");
    let single = create_mock_client("single");
    let multi = create_mock_client("multi");
    let root_catch_all = create_mock_client("root_catch_all");
    let nested_multi = create_mock_client("nested_multi");

    // Complex subscription patterns
    tree.subscribe(exact.clone(), &["home", "bedroom", "temperature", "sensor1"]);
    tree.subscribe(single.clone(), &["home", "+", "temperature", "sensor1"]);
    tree.subscribe(multi.clone(), &["home", "bedroom", "#"]);
    tree.subscribe(root_catch_all.clone(), &["#"]);
    tree.subscribe(nested_multi.clone(), &["home", "#"]);

    // Test exact match: should match exact, single (+), multi (bedroom/#), nested_multi (home/#), root_catch_all (#)
    let mut subscribers = Vec::new();
    tree.get_subscribers(&["home", "bedroom", "temperature", "sensor1"], &mut subscribers);
    assert_eq!(subscribers.len(), 5);
    let ids: Vec<&str> = subscribers.iter().map(|c| c.client_id.as_str()).collect();
    assert!(ids.contains(&"exact"));
    assert!(ids.contains(&"single"));
    assert!(ids.contains(&"multi"));
    assert!(ids.contains(&"nested_multi"));
    assert!(ids.contains(&"root_catch_all"));

    // Test different room: should match single (+), nested_multi (home/#), root_catch_all (#)
    let mut subscribers = Vec::new();
    tree.get_subscribers(&["home", "kitchen", "temperature", "sensor1"], &mut subscribers);
    assert_eq!(subscribers.len(), 3);
    let ids: Vec<&str> = subscribers.iter().map(|c| c.client_id.as_str()).collect();
    assert!(ids.contains(&"single"));
    assert!(ids.contains(&"nested_multi"));
    assert!(ids.contains(&"root_catch_all"));

    // Test different metric in bedroom: should match multi (bedroom/#), nested_multi (home/#), root_catch_all (#)
    let mut subscribers = Vec::new();
    tree.get_subscribers(&["home", "bedroom", "humidity"], &mut subscribers);
    assert_eq!(subscribers.len(), 3);
    let ids: Vec<&str> = subscribers.iter().map(|c| c.client_id.as_str()).collect();
    assert!(ids.contains(&"multi"));
    assert!(ids.contains(&"nested_multi"));
    assert!(ids.contains(&"root_catch_all"));

    // Test completely different topic: should only match root_catch_all (#)
    let mut subscribers = Vec::new();
    tree.get_subscribers(&["office", "desk", "light"], &mut subscribers);
    assert_eq!(subscribers.len(), 1);
    assert_eq!(subscribers[0].client_id, "root_catch_all");
}

#[test]
fn multi_level_wildcard_matches_its_own_level() {
    // "sensor/#" also matches "sensor" itself
    let mut tree = TopicTree::new();
    tree.subscribe(create_mock_client("below"), &["sensor", "#"]);
    let mut subscribers = Vec::new();
    tree.get_subscribers(&["sensor"], &mut subscribers);
    assert_eq!(subscribers.len(), 1);
}

#[test]
fn wildcards_after_single_level_wildcard() {
    let mut tree = TopicTree::new();
    tree.subscribe(create_mock_client("plus_hash"), &["a", "+", "#"]);
    tree.subscribe(create_mock_client("plus_plus"), &["a", "+", "+"]);
    tree.subscribe(create_mock_client("exact"), &["a", "b", "c"]);

    let mut subscribers = Vec::new();
    tree.get_subscribers(&["a", "b", "c"], &mut subscribers);
    let ids: Vec<&str> = subscribers.iter().map(|c| c.client_id.as_str()).collect();
    assert_eq!(ids.len(), 3);
    assert!(ids.contains(&"plus_hash"));
    assert!(ids.contains(&"plus_plus"));
    assert!(ids.contains(&"exact"));

    // the exact child "b" exists, but "a/b/c/d" is only reached by "a/+/#"
    let mut subscribers = Vec::new();
    tree.get_subscribers(&["a", "b", "c", "d"], &mut subscribers);
    assert_eq!(subscribers.len(), 1);
    assert_eq!(subscribers[0].client_id, "plus_hash");

    // "a/x" has one level too few for "a/+/+"
    let mut subscribers = Vec::new();
    tree.get_subscribers(&["a", "x"], &mut subscribers);
    assert_eq!(subscribers.len(), 1);
    assert_eq!(subscribers[0].client_id, "plus_hash");
}

#[test]
fn duplicate_subscription_is_delivered_twice() {
    let mut tree = TopicTree::new();
    let client = create_mock_client("twice");
    tree.subscribe(client.clone(), &["x"]);
    tree.subscribe(client.clone(), &["+"]);
    let mut subscribers = Vec::new();
    tree.get_subscribers(&["x"], &mut subscribers);
    assert_eq!(subscribers.len(), 2);
}

#[test]
fn message_queue_splits_topics_at_slashes() {
    let mut queue = MessageQueue::new();
    queue.handle_subscribe(create_mock_client("plus"), "home/+/temp".to_string());
    queue.handle_subscribe(create_mock_client("empty_level"), "home//temp".to_string());
    queue.handle_subscribe(create_mock_client("all"), "#".to_string());

    let ids = |topic: &str| -> Vec<String> {
        queue.get_subscribers(topic).iter().map(|c| c.client_id.clone()).collect()
    };
    let living = ids("home/living/temp");
    assert_eq!(living.len(), 2);
    assert!(living.contains(&"plus".to_string()));
    assert!(living.contains(&"all".to_string()));

    let empty = ids("home//temp");
    assert_eq!(empty.len(), 3);

    let other = ids("home/temp");
    assert_eq!(other, vec!["all".to_string()]);
}

#[test]
fn message_queue_delivers_publish_commands() {
    let (tx, mut rx) = mpsc::unbounded_channel::<ClientCommand>();
    let subscriber = ClientHandle::new("sub".to_string(), tx);
    let publisher = create_mock_client("pub");
    let mut queue = MessageQueue::new();
    queue.handle_subscribe(subscriber, "news".to_string());
    let packet = mailboxqtt::protocol::publish::PublishPacket {
        topic: "news".to_string(),
        payload: b"hi".to_vec(),
        qos: 0,
        retain: false,
        dup: false,
        packet_id: None,
    };
    let deliveries = queue.handle_publish("news".to_string(), packet, publisher);
    assert_eq!(deliveries.len(), 1);
    for (subscriber, packet, publisher) in deliveries {
        assert_eq!(subscriber.client_id, "sub");
        assert!(subscriber.publish(packet, publisher).is_ok());
    }
    match rx.try_recv() {
        Ok(ClientCommand::Publish((p, sender))) => {
            assert_eq!(p.payload, b"hi".to_vec());
            assert_eq!(sender.client_id, "pub");
        }
        _ => panic!("expected a PUBLISH command"),
    }
    assert!(rx.try_recv().is_err());
}

#[test]
fn topic_levels_are_split_at_every_slash() {
    assert_eq!(split_levels("a/b/c"), vec!["a", "b", "c"]);
    assert_eq!(split_levels(""), vec![""]);
    assert_eq!(split_levels("/"), vec!["", ""]);
    assert_eq!(split_levels("a//b/"), vec!["a", "", "b", ""]);
    assert_eq!(split_levels("\u{e4}/\u{f6}"), vec!["\u{e4}", "\u{f6}"]);
}

#[test]
fn publish_reaches_only_matching_subscribers() {
    let mut queue = MessageQueue::new();
    queue.handle_subscribe(create_mock_client("a"), "x/+".to_string());
    queue.handle_subscribe(create_mock_client("b"), "y".to_string());
    queue.handle_subscribe(create_mock_client("c"), "#".to_string());
    let packet = mailboxqtt::protocol::publish::PublishPacket {
        topic: "x/1".to_string(),
        payload: b"p".to_vec(),
        qos: 1,
        retain: false,
        dup: false,
        packet_id: Some(2),
    };
    let deliveries = queue.handle_publish("x/1".to_string(), packet, create_mock_client("pub"));
    let ids: Vec<&str> = deliveries.iter().map(|d| d.0.client_id.as_str()).collect();
    assert_eq!(ids, vec!["c", "a"]);
    for (_, packet, publisher) in &deliveries {
        assert_eq!(packet.payload, b"p".to_vec());
        assert_eq!(packet.packet_id, Some(2));
        assert_eq!(publisher.client_id, "pub");
    }
}
