use socialnetwork::network::SocialNetwork;

#[test]
fn lib_test_new_network() {
    let network = SocialNetwork::new();
    assert_eq!(network.current_version(), 0);
    assert_eq!(network.follower_count(1), 0);
    assert_eq!(network.followee_count(1), 0);
}

#[test]
fn lib_test_follow() {
    let mut network = SocialNetwork::new();

    // Test successful follow
    assert!(network.follow(1, 2).is_ok());
    assert!(network.is_following(1, 2, None));
    assert_eq!(network.follower_count(2), 1);
    assert_eq!(network.followee_count(1), 1);

    // Test self-follow prevention
    assert!(network.follow(1, 1).is_err());
}

#[test]
fn lib_test_multiple_relationships() {
    let mut network = SocialNetwork::new();

    // User 1 follows multiple users
    network.follow(1, 2).unwrap();
    network.follow(1, 3).unwrap();
    network.follow(1, 4).unwrap();

    assert_eq!(network.followee_count(1), 3);
    assert_eq!(network.follower_count(2), 1);
    assert_eq!(network.follower_count(3), 1);
    assert_eq!(network.follower_count(4), 1);

    // Multiple users follow user 1
    network.follow(2, 1).unwrap();
    network.follow(3, 1).unwrap();

    assert_eq!(network.follower_count(1), 2);
    assert_eq!(network.followee_count(2), 1);
    assert_eq!(network.followee_count(3), 1);
}

#[test]
fn lib_test_get_followers_and_followees() {
    let mut network = SocialNetwork::new();

    // Setup relationships
    network.follow(1, 2).unwrap();
    network.follow(1, 3).unwrap();
    network.follow(2, 1).unwrap();
    network.follow(4, 1).unwrap();

    // Test get_followers
    let user1_followers = network.get_followers(1);
    assert_eq!(user1_followers.len(), 2);
    assert!(user1_followers.contains(&2));
    assert!(user1_followers.contains(&4));

    // Test get_followees
    let user1_followees = network.get_followees(1);
    assert_eq!(user1_followees.len(), 2);
    assert!(user1_followees.contains(&2));
    assert!(user1_followees.contains(&3));
}

#[test]
fn lib_test_nonexistent_version() {
    let mut network = SocialNetwork::new();
    network.follow(1, 2).unwrap();
    network.commit();

    // Check nonexistent version
    assert_eq!(network.is_following(1, 2, Some(999)), false);
}
