use format_tools::sessions::{
    age_order, build_session_dir, cleanup_old_sessions, sessions_dir, sessions_to_remove,
};

#[test]
fn sessions_are_ordered_newest_first() {
    assert_eq!(age_order(&vec![10, 50, 20, 40, 30, 60, 5]), vec![5, 1, 3, 4, 2, 0, 6]);
    assert_eq!(age_order(&vec![]), Vec::<usize>::new());
    assert_eq!(age_order(&vec![7]), vec![0]);
}

#[test]
fn sessions_of_one_age_keep_their_order() {
    assert_eq!(age_order(&vec![3, 3, 9, 3, 9]), vec![2, 4, 0, 1, 3]);
}

#[test]
fn five_newest_sessions_stay() {
    assert_eq!(cleanup_old_sessions(&vec![10, 50, 20, 40, 30, 60, 5]), vec![0, 6]);
}

#[test]
fn nothing_goes_while_there_are_five_or_fewer() {
    assert!(cleanup_old_sessions(&vec![]).is_empty());
    assert!(cleanup_old_sessions(&vec![1, 2, 3, 4, 5]).is_empty());
    assert_eq!(cleanup_old_sessions(&vec![1, 2, 3, 4, 5, 6]), vec![0]);
}

#[test]
fn ties_are_broken_by_position() {
    assert_eq!(cleanup_old_sessions(&vec![1, 1, 1, 1, 1, 1, 1]), vec![5, 6]);
}

#[test]
fn any_number_can_be_retained() {
    assert_eq!(sessions_to_remove(&vec![4, 8, 6], 0), vec![1, 2, 0]);
    assert_eq!(sessions_to_remove(&vec![4, 8, 6], 1), vec![2, 0]);
    assert_eq!(sessions_to_remove(&vec![4, 8, 6], 3), Vec::<usize>::new());
    assert_eq!(sessions_to_remove(&vec![4, 8, 6], 9), Vec::<usize>::new());
}

#[test]
fn retained_sessions_are_the_most_recent() {
    let times: Vec<u128> = vec![17, 3, 99, 42, 42, 8, 61, 0, 25, 77, 13];
    for retain in 0..13usize {
        let removed = sessions_to_remove(&times, retain);
        assert_eq!(times.len() - removed.len(), retain.min(times.len()));
        for i in 0..times.len() {
            if !removed.contains(&i) {
                for r in &removed {
                    assert!(times[i] >= times[*r]);
                }
            }
        }
    }
}

#[test]
fn session_directory_is_named_by_its_time() {
    assert_eq!(build_session_dir("/cache", 1700000000000), "/cache/format-tools/sessions/session-1700000000000");
    assert_eq!(build_session_dir("/cache", 0), "/cache/format-tools/sessions/session-0");
    assert_eq!(
        build_session_dir("/c", u128::MAX),
        "/c/format-tools/sessions/session-340282366920938463463374607431768211455"
    );
    assert_eq!(sessions_dir("/cache"), "/cache/format-tools/sessions");
}
