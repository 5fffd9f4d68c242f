use socialnetwork::gate::SocialNetworkServer;
use socialnetwork::interval::FollowInterval;
use socialnetwork::network::{NetworkError, SocialNetwork};

#[test]
fn follow_then_is_following_now() {
    let mut network = SocialNetwork::new();
    assert_eq!(network.follow(1, 2), Ok(true));
    assert!(network.is_following(1, 2, None));

    network.commit();
    assert_eq!(network.follow(7, 40), Ok(true));
    assert!(network.is_following(7, 40, None));

    assert_eq!(network.follow(40, 7), Ok(true));
    assert!(network.is_following(40, 7, None));
}

#[test]
fn self_relation_is_refused() {
    let mut network = SocialNetwork::new();
    assert_eq!(network.follow(5, 5), Err(NetworkError::SelfRelation));
    assert_eq!(network.unfollow(5, 5), Err(NetworkError::SelfRelation));

    // Even for a user with history, and the graph is untouched
    network.follow(5, 6).unwrap();
    assert_eq!(network.follow(5, 5), Err(NetworkError::SelfRelation));
    assert_eq!(network.unfollow(5, 5), Err(NetworkError::SelfRelation));
    assert!(network.is_following(5, 6, None));
}

#[test]
fn double_follow_before_commit() {
    let mut network = SocialNetwork::new();
    assert_eq!(network.follow(1, 2), Ok(true));
    assert_eq!(network.follow(1, 2), Ok(false));
    assert!(network.is_following(1, 2, None));
}

#[test]
fn future_versions_are_unknown() {
    let mut network = SocialNetwork::new();
    // Regardless of edge history
    network.follow(1, 2).unwrap();
    network.commit();
    network.unfollow(1, 2).unwrap();
    network.commit();
    network.follow(1, 2).unwrap();

    let current = network.current_version();
    assert!(!network.is_following(1, 2, Some(current + 1)));
    assert!(!network.is_following(1, 2, Some(u64::MAX)));
    // The current version itself is known
    assert!(network.is_following(1, 2, Some(current)));
}

#[test]
fn adjacency_matches_open_intervals() {
    let mut network = SocialNetwork::new();
    network.follow(1, 2).unwrap();
    network.follow(3, 2).unwrap();
    network.follow(2, 1).unwrap();
    network.commit();
    network.unfollow(1, 2).unwrap();

    // (1,2) is closed now; (3,2) and (2,1) stay open
    let followers_of_2 = network.get_followers(2);
    assert_eq!(followers_of_2, vec![3]);
    assert_eq!(network.follower_count(2), 1);
    assert_eq!(network.followee_count(1), 0);

    // Never the queried user itself
    let followers_of_1 = network.get_followers(1);
    assert!(followers_of_1.contains(&2));
    assert!(!followers_of_1.contains(&1));
    let followees_of_2 = network.get_followees(2);
    assert!(followees_of_2.contains(&1));
    assert!(!followees_of_2.contains(&2));
}

#[test]
fn end_to_end_history() {
    let mut network = SocialNetwork::new();

    assert_eq!(network.follow(1, 2), Ok(true));
    assert_eq!(network.commit(), 1);
    assert!(network.is_following(1, 2, Some(0)));
    assert!(network.is_following(1, 2, Some(1)));

    assert_eq!(network.unfollow(1, 2), Ok(true));
    // The closed interval still covers the version it was closed at
    assert!(network.is_following(1, 2, Some(1)));
    assert_eq!(network.commit(), 2);
    assert!(!network.is_following(1, 2, Some(2)));

    assert_eq!(network.follow(1, 2), Ok(true));
    assert_eq!(network.commit(), 3);
    assert!(network.is_following(1, 2, Some(0)));
    assert!(network.is_following(1, 2, Some(1)));
    assert!(network.is_following(1, 2, Some(3)));
}

#[test]
fn toggle_within_one_version_collapses() {
    let mut network = SocialNetwork::new();
    network.follow(1, 2).unwrap();
    network.commit();

    // Unfollow then follow again within the same uncommitted window:
    // the second follow reopens the same interval, nothing new is created
    assert_eq!(network.unfollow(1, 2), Ok(true));
    assert_eq!(network.follow(1, 2), Ok(false));
    assert!(network.is_following(1, 2, Some(1)));
    network.commit();
    // The reopened interval is continuous across the window
    assert!(network.is_following(1, 2, Some(2)));
}

#[test]
fn toggle_on_fresh_edge_within_version_zero() {
    let mut network = SocialNetwork::new();
    assert_eq!(network.follow(8, 9), Ok(true));
    assert_eq!(network.unfollow(8, 9), Ok(true));
    assert_eq!(network.follow(8, 9), Ok(false));
    assert!(network.is_following(8, 9, None));
    assert_eq!(network.get_followees(8), vec![9]);
}

#[test]
fn unfollow_without_open_edge_changes_nothing() {
    let mut network = SocialNetwork::new();
    assert_eq!(network.unfollow(1, 2), Ok(false));

    network.follow(1, 2).unwrap();
    network.unfollow(1, 2).unwrap();
    // Already closed: a second unfollow is a no-op
    assert_eq!(network.unfollow(1, 2), Ok(false));
}

#[test]
fn interval_coverage_is_inclusive() {
    let open = FollowInterval::new(3);
    assert!(!open.is_active(2));
    assert!(open.is_active(3));
    assert!(open.is_active(u64::MAX));
}

#[test]
fn gate_serializes_the_six_operations() {
    let server = SocialNetworkServer::new();
    assert_eq!(server.get_current_version(), 0);

    assert_eq!(server.follow(1, 2), Ok(true));
    assert_eq!(server.follow(1, 2), Ok(false));
    assert!(server.is_following(1, 2, None));
    assert_eq!(server.commit(), 1);

    assert_eq!(server.get_followers(2), vec![1]);
    assert_eq!(server.get_followees(1), vec![2]);

    assert_eq!(server.unfollow(1, 2), Ok(true));
    assert!(server.get_followers(2).is_empty());
    assert_eq!(server.commit(), 2);
    assert!(!server.is_following(1, 2, None));
    assert!(server.is_following(1, 2, Some(1)));

    assert_eq!(server.follow(9, 9), Err(NetworkError::SelfRelation));
    assert_eq!(server.unfollow(9, 9), Err(NetworkError::SelfRelation));
    assert!(!server.is_following(9, 9, None));
    assert!(!server.is_following(1, 1, Some(0)));
    assert_eq!(server.get_current_version(), 2);
}
