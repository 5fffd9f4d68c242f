use socialnetwork::network::SocialNetwork;

#[test]
fn snlib_test_new_network() {
    let network = SocialNetwork::new();
    assert_eq!(network.current_version(), 0);
}

#[test]
fn snlib_test_follow() {
    let mut network = SocialNetwork::new();

    // Test successful follow
    assert!(network.follow(1, 2).is_ok());
    assert!(network.is_following(1, 2, None));

    // Test self-follow prevention
    assert!(network.follow(1, 1).is_err());
}

#[test]
fn snlib_test_unfollow() {
    let mut network = SocialNetwork::new();

    // Setup: user 1 follows user 2
    network.follow(1, 2).unwrap();
    assert!(network.is_following(1, 2, None));

    // Test successful unfollow
    assert!(network.unfollow(1, 2).unwrap());
    // Commit to advance version so the unfollow takes effect
    network.commit();
    assert!(!network.is_following(1, 2, None));

    // Test unfollowing when not following
    assert!(!network.unfollow(1, 2).unwrap());

    // Test self-unfollow prevention
    assert!(network.unfollow(1, 1).is_err());
}

#[test]
fn snlib_test_versioning() {
    let mut network = SocialNetwork::new();

    // Follow at version 0
    network.follow(1, 2).unwrap();
    assert_eq!(network.current_version(), 0);
    assert!(network.is_following(1, 2, Some(0)));

    // Commit to version 1
    let version = network.commit();
    assert_eq!(version, 1);
    assert_eq!(network.current_version(), 1);
    assert!(network.is_following(1, 2, Some(1)));

    // Unfollow at version 1 (interval ends at version 1)
    network.unfollow(1, 2).unwrap();
    // At version 1, they are still following (interval [0,1] is active at version 1)
    assert!(network.is_following(1, 2, Some(1)));

    // Commit to version 2
    network.commit();
    // At version 2, they are no longer following (interval [0,1] is not active at version 2)
    assert!(!network.is_following(1, 2, Some(2)));

    // Check historical versions
    assert!(network.is_following(1, 2, Some(0))); // Was following at version 0
    assert!(network.is_following(1, 2, Some(1))); // Was still following at version 1
    assert!(!network.is_following(1, 2, Some(2))); // Stopped following at version 2
}

#[test]
fn snlib_test_multiple_relationships() {
    let mut network = SocialNetwork::new();

    // User 1 follows users 2, 3, 4
    network.follow(1, 2).unwrap();
    network.follow(1, 3).unwrap();
    network.follow(1, 4).unwrap();

    // User 2 follows user 1
    network.follow(2, 1).unwrap();

    let followees = network.get_followees(1);
    assert_eq!(followees.len(), 3);
    assert!(followees.contains(&2));
    assert!(followees.contains(&3));
    assert!(followees.contains(&4));

    let followers = network.get_followers(1);
    assert_eq!(followers.len(), 1);
    assert!(followers.contains(&2));
}

#[test]
fn snlib_test_get_followers_and_followees() {
    let mut network = SocialNetwork::new();

    // Setup multiple relationships
    network.follow(1, 2).unwrap();
    network.follow(1, 3).unwrap();
    network.follow(2, 1).unwrap();
    network.follow(4, 1).unwrap();

    let followers = network.get_followers(1);
    assert_eq!(followers.len(), 2);
    assert!(followers.contains(&2));
    assert!(followers.contains(&4));

    let followees = network.get_followees(1);
    assert_eq!(followees.len(), 2);
    assert!(followees.contains(&2));
    assert!(followees.contains(&3));

    // Test non-existent user
    assert_eq!(network.get_followers(999).len(), 0);
    assert_eq!(network.get_followees(999).len(), 0);
}

#[test]
fn snlib_test_nonexistent_version() {
    let mut network = SocialNetwork::new();
    network.follow(1, 2).unwrap();

    // Should return false for versions beyond current
    assert!(!network.is_following(1, 2, Some(999)));
}

#[test]
fn snlib_test_refollow() {
    let mut network = SocialNetwork::new();

    // Follow, unfollow, then follow again
    network.follow(1, 2).unwrap();
    network.commit();
    network.unfollow(1, 2).unwrap();
    network.commit();

    // Refollow should work
    assert!(network.follow(1, 2).unwrap());
    assert!(network.is_following(1, 2, None));
}
