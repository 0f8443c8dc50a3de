use collab_store::records::{ContactSource, Entry, Receipt, RoomState, WorktreeMetadata};
use collab_store::store::{alloc_replica_id, Store, StoreError};
use collab_store::tables::IdSet;

fn receipt(sender_id: u64, request_id: u64) -> Receipt {
    Receipt { sender_id, request_id }
}

fn entry(id: u64, path: &str) -> Entry {
    Entry { id, path: path.to_string(), is_dir: false, is_ignored: false }
}

/// Builds the store of the shared scenario: user 10 on connection 1 hosts
/// online project 100; user 20 on connection 2 was accepted as a guest.
fn two_users_one_project() -> Store {
    let mut store = Store::new();
    store.add_connection(1, 10, false);
    store.add_connection(2, 20, false);
    store.register_project(1, 100, true).unwrap();
    store.request_join_project(20, 100, receipt(2, 7)).unwrap();
    let pairs = store.accept_join_project_request(1, 20, 100).unwrap();
    assert_eq!(pairs.len(), 1);
    assert_eq!(pairs[0].0, receipt(2, 7));
    assert_eq!(pairs[0].1, 1);
    store
}

#[test]
fn accept_assigns_first_replica_id() {
    let store = two_users_one_project();
    let project = store.project(100).unwrap();
    assert!(project.active_replica_ids.contains(1));
    assert_eq!(project.active_replica_ids.len(), 1);
    let guest = project.guests.get(2).unwrap();
    assert_eq!(guest.user_id, 20);
    assert_eq!(guest.replica_id, 1);
    assert!(!guest.admin);
    assert!(guest.last_activity.is_some());
    let mut ids = store.project_connection_ids(100, 1).unwrap();
    ids.sort();
    assert_eq!(ids, vec![1, 2]);
    assert!(store.check_invariants());
}

#[test]
fn host_disconnect_unwinds_project() {
    let mut store = two_users_one_project();
    let removed = store.remove_connection(1).unwrap();
    assert_eq!(removed.user_id, 10);
    assert!(removed.hosted_projects.contains_key(100));
    assert_eq!(removed.hosted_projects.len(), 1);
    assert_eq!(removed.guest_project_ids.len(), 0);
    assert_eq!(removed.contact_ids.len(), 0);
    assert!(store.project(100).is_err());
    let projects = store.connection_projects(2).unwrap();
    assert!(!projects.contains(&100));
    assert!(store.check_invariants());
}

#[test]
fn guest_disconnect_leaves_project() {
    let mut store = two_users_one_project();
    let removed = store.remove_connection(2).unwrap();
    assert_eq!(removed.user_id, 20);
    assert_eq!(removed.hosted_projects.len(), 0);
    assert!(removed.guest_project_ids.contains(100));
    let project = store.project(100).unwrap();
    assert_eq!(project.guests.len(), 0);
    assert_eq!(project.active_replica_ids.len(), 0);
    assert!(store.check_invariants());
}

#[test]
fn room_invite_lifecycle() {
    let mut store = two_users_one_project();
    let room_id = store.create_room(1).unwrap();
    assert_eq!(room_id, 0);
    assert_eq!(store.user_room_state(10), Some(Some(RoomState::Joined)));
    let (from_user, to_connections, room) = store.call(0, 1, 20).unwrap();
    assert_eq!(from_user, 10);
    assert_eq!(to_connections, vec![2]);
    assert_eq!(room.pending_user_ids, vec![20]);
    assert_eq!(
        store.user_room_state(20),
        Some(Some(RoomState::Calling { room_id: 0 }))
    );
    let (room, recipients) = store.call_declined(2).unwrap();
    assert!(room.pending_user_ids.is_empty());
    assert!(recipients.contains(&2));
    assert_eq!(store.user_room_state(20), Some(None));
    assert!(store.check_invariants());
}

#[test]
fn duplicate_invite_rejected() {
    let mut store = two_users_one_project();
    store.create_room(1).unwrap();
    store.call(0, 1, 20).unwrap();
    // While the invite is in flight the recipient counts as busy.
    assert!(matches!(store.call(0, 1, 20), Err(StoreError::RecipientBusy)));
    // Once the recipient's call state is gone (the last connection dropped
    // and a new one arrived) the stale pending entry still blocks a second
    // invite: the same user cannot be called twice.
    store.remove_connection(2).unwrap();
    store.add_connection(4, 20, false);
    assert!(matches!(store.call(0, 1, 20), Err(StoreError::DuplicateInvite)));
}

#[test]
fn call_busy_recipient_rejected() {
    let mut store = two_users_one_project();
    store.add_connection(3, 30, false);
    store.create_room(1).unwrap();
    store.call(0, 1, 20).unwrap();
    let room_id = store.create_room(3).unwrap();
    assert_eq!(room_id, 1);
    assert!(matches!(store.call(1, 3, 20), Err(StoreError::RecipientBusy)));
}

#[test]
fn join_room_moves_pending_user_in() {
    let mut store = two_users_one_project();
    store.create_room(1).unwrap();
    store.call(0, 1, 20).unwrap();
    let (room, recipients) = store.join_room(0, 2).unwrap();
    assert!(room.pending_user_ids.is_empty());
    assert_eq!(room.participants.len(), 2);
    assert_eq!(room.participants[1].user_id, 20);
    assert_eq!(room.participants[1].peer_id, 2);
    assert_eq!(recipients, vec![2]);
    assert_eq!(store.user_room_state(20), Some(Some(RoomState::Joined)));
    assert!(store.check_invariants());
}

#[test]
fn call_failed_clears_state() {
    let mut store = two_users_one_project();
    store.create_room(1).unwrap();
    store.call(0, 1, 20).unwrap();
    let room = store.call_failed(0, 20).unwrap();
    assert!(room.pending_user_ids.is_empty());
    assert_eq!(store.user_room_state(20), Some(None));
    assert!(matches!(store.call_failed(0, 20), Err(StoreError::NotBeingCalled)));
}

#[test]
fn create_room_twice_rejected() {
    let mut store = two_users_one_project();
    store.create_room(1).unwrap();
    assert_eq!(store.create_room(1).unwrap_err(), StoreError::AlreadyInRoom);
}

#[test]
fn call_declined_without_invite_rejected() {
    let mut store = two_users_one_project();
    assert!(matches!(store.call_declined(2), Err(StoreError::NotBeingCalled)));
}

#[test]
fn project_goes_offline() {
    let mut store = two_users_one_project();
    let unshared = store.update_project(100, &vec![], false, 1).unwrap().unwrap();
    assert!(unshared.guests.contains_key(2));
    assert_eq!(unshared.pending_join_requests.len(), 0);
    let project = store.project(100).unwrap();
    assert!(!project.online);
    assert_eq!(project.active_replica_ids.len(), 0);
    assert_eq!(project.guests.len(), 0);
    let projects = store.connection_projects(2).unwrap();
    assert!(!projects.contains(&100));
    assert!(store.check_invariants());
}

#[test]
fn update_project_keeps_and_creates_worktrees() {
    let mut store = two_users_one_project();
    store
        .update_worktree(1, 100, 1, &"root".to_string(), &vec![], &vec![entry(5, "a")], 1, true)
        .unwrap();
    let metas = vec![
        WorktreeMetadata { id: 1, root_name: "other".to_string(), visible: true },
        WorktreeMetadata { id: 2, root_name: "fresh".to_string(), visible: false },
    ];
    let unshared = store.update_project(100, &metas, true, 1).unwrap();
    assert!(unshared.is_none());
    let project = store.project(100).unwrap();
    // A kept worktree keeps its record, root name included.
    let kept = project.worktrees.get(1).unwrap();
    assert_eq!(kept.root_name, "root");
    assert_eq!(kept.entries.len(), 1);
    let fresh = project.worktrees.get(2).unwrap();
    assert_eq!(fresh.root_name, "fresh");
    assert_eq!(fresh.entries.len(), 0);
    assert!(project.worktrees.get(3).is_none());
    assert!(store.check_invariants());
}

#[test]
fn worktree_entry_uniqueness_violation_is_detected() {
    let mut store = two_users_one_project();
    let (recipients, metadata_changed) = store
        .update_worktree(
            1,
            100,
            1,
            &"root".to_string(),
            &vec![],
            &vec![entry(5, "a"), entry(6, "a")],
            1,
            true,
        )
        .unwrap();
    assert!(metadata_changed);
    let mut sorted = recipients.clone();
    sorted.sort();
    assert_eq!(sorted, vec![1, 2]);
    // Both entries are stored; the store does not dedup.
    let project = store.project(100).unwrap();
    let worktree = project.worktrees.get(1).unwrap();
    assert_eq!(worktree.entries.len(), 2);
    assert_eq!(worktree.entries.get(5).unwrap().path, "a");
    assert_eq!(worktree.entries.get(6).unwrap().path, "a");
    // The invariant checker must catch the duplicate path.
    assert!(!store.check_invariants());
}

#[test]
fn update_worktree_removes_and_upserts() {
    let mut store = two_users_one_project();
    store
        .update_worktree(
            1,
            100,
            1,
            &"root".to_string(),
            &vec![],
            &vec![entry(5, "a"), entry(6, "b")],
            1,
            false,
        )
        .unwrap();
    let (_, metadata_changed) = store
        .update_worktree(
            1,
            100,
            1,
            &"root".to_string(),
            &vec![5],
            &vec![entry(6, "c"), entry(7, "d")],
            2,
            true,
        )
        .unwrap();
    assert!(!metadata_changed);
    let project = store.project(100).unwrap();
    let worktree = project.worktrees.get(1).unwrap();
    assert!(worktree.entries.get(5).is_none());
    assert_eq!(worktree.entries.get(6).unwrap().path, "c");
    assert_eq!(worktree.entries.get(7).unwrap().path, "d");
    assert_eq!(worktree.scan_id, 2);
    assert!(worktree.is_complete);
    assert!(store.check_invariants());
}

#[test]
fn update_worktree_offline_rejected() {
    let mut store = two_users_one_project();
    store.update_project(100, &vec![], false, 1).unwrap();
    assert_eq!(
        store
            .update_worktree(1, 100, 1, &"root".to_string(), &vec![], &vec![], 1, true)
            .unwrap_err(),
        StoreError::ProjectOffline
    );
}

#[test]
fn channel_membership_round_trip() {
    let mut store = Store::new();
    store.add_connection(1, 10, false);
    store.join_channel(1, 5);
    store.join_channel(1, 5);
    assert_eq!(store.channel_connection_ids(5).unwrap(), vec![1]);
    store.add_connection(2, 20, false);
    store.join_channel(2, 5);
    let mut members = store.channel_connection_ids(5).unwrap();
    members.sort();
    assert_eq!(members, vec![1, 2]);
    store.leave_channel(1, 5);
    assert_eq!(store.channel_connection_ids(5).unwrap(), vec![2]);
    store.leave_channel(2, 5);
    // The channel row is dropped with its last member.
    assert!(store.channel(5).is_none());
    assert_eq!(store.channel_connection_ids(5).unwrap_err(), StoreError::UnknownChannel);
    assert!(store.check_invariants());
}

#[test]
fn add_then_remove_connection_round_trip() {
    let mut store = Store::new();
    store.add_connection(1, 10, false);
    store.add_connection(3, 10, false);
    let removed = store.remove_connection(3).unwrap();
    assert_eq!(removed.user_id, 10);
    assert_eq!(store.connection_ids_for_user(10), vec![1]);
    assert!(store.is_user_online(10));
    let removed = store.remove_connection(1).unwrap();
    assert_eq!(removed.user_id, 10);
    assert!(!store.is_user_online(10));
    assert_eq!(store.connection_ids_for_user(10), Vec::<u64>::new());
    assert!(store.check_invariants());
}

#[test]
fn remove_unknown_connection_rejected() {
    let mut store = Store::new();
    assert!(matches!(store.remove_connection(9), Err(StoreError::UnknownConnection)));
}

#[test]
fn replica_id_allocation_picks_smallest_free() {
    let mut active = IdSet::new();
    active.insert(1);
    active.insert(2);
    active.insert(4);
    assert_eq!(alloc_replica_id(&active), 3);
    let empty = IdSet::new();
    assert_eq!(alloc_replica_id(&empty), 1);
}

#[test]
fn replica_id_reused_after_guest_leaves() {
    let mut store = two_users_one_project();
    store.add_connection(3, 30, false);
    store.request_join_project(30, 100, receipt(3, 8)).unwrap();
    let pairs = store.accept_join_project_request(1, 30, 100).unwrap();
    assert_eq!(pairs[0].1, 2);
    // Guest with replica id 1 leaves; the id becomes free again.
    let left = store.leave_project(2, 100).unwrap();
    assert!(left.remove_collaborator);
    assert!(!left.unshare);
    store.request_join_project(20, 100, receipt(2, 9)).unwrap();
    let pairs = store.accept_join_project_request(1, 20, 100).unwrap();
    assert_eq!(pairs[0].1, 1);
    assert!(store.check_invariants());
}

#[test]
fn two_connections_request_deny_answers_both() {
    let mut store = Store::new();
    store.add_connection(1, 10, false);
    store.add_connection(2, 20, false);
    store.add_connection(3, 20, false);
    store.register_project(1, 100, true).unwrap();
    store.request_join_project(20, 100, receipt(2, 7)).unwrap();
    store.request_join_project(20, 100, receipt(3, 8)).unwrap();
    let receipts = store.deny_join_project_request(1, 20, 100).unwrap();
    assert_eq!(receipts, vec![receipt(2, 7), receipt(3, 8)]);
    assert_eq!(store.connection_requested_projects(2).unwrap(), Vec::<u64>::new());
    assert_eq!(store.connection_requested_projects(3).unwrap(), Vec::<u64>::new());
    assert!(store.project(100).unwrap().join_requests.get(20).is_none());
    assert!(store.check_invariants());
}

#[test]
fn leave_by_one_connection_cancels_only_its_receipt() {
    let mut store = Store::new();
    store.add_connection(1, 10, false);
    store.add_connection(2, 20, false);
    store.add_connection(3, 20, false);
    store.register_project(1, 100, true).unwrap();
    store.request_join_project(20, 100, receipt(2, 7)).unwrap();
    store.request_join_project(20, 100, receipt(3, 8)).unwrap();
    let left = store.leave_project(2, 100).unwrap();
    assert_eq!(left.cancel_request, None);
    let remaining = store.project(100).unwrap().join_requests.get(20).unwrap().clone();
    assert_eq!(remaining, vec![receipt(3, 8)]);
    // The last receipt leaving cancels the whole request.
    let left = store.leave_project(3, 100).unwrap();
    assert_eq!(left.cancel_request, Some(20));
    assert!(store.project(100).unwrap().join_requests.get(20).is_none());
    assert!(store.check_invariants());
}

#[test]
fn request_join_offline_project_hidden() {
    let mut store = Store::new();
    store.add_connection(1, 10, false);
    store.add_connection(2, 20, false);
    store.register_project(1, 100, false).unwrap();
    assert_eq!(
        store.request_join_project(20, 100, receipt(2, 7)).unwrap_err(),
        StoreError::UnknownProject
    );
    assert_eq!(
        store.request_join_project(20, 999, receipt(2, 7)).unwrap_err(),
        StoreError::UnknownProject
    );
}

#[test]
fn read_project_hides_from_strangers() {
    let mut store = two_users_one_project();
    store.add_connection(3, 30, false);
    assert!(matches!(store.read_project(100, 3), Err(StoreError::UnknownProject)));
    assert!(matches!(store.unregister_project(100, 3), Err(StoreError::UnknownProject)));
    assert!(store.read_project(100, 2).is_ok());
}

#[test]
fn activity_window_is_strict() {
    let mut store = two_users_one_project();
    // A timestamp far past the wall-clock stamp the accept wrote, so only
    // the activity registered below decides the counts.
    let now = 4_000_000_000;
    store.register_project_activity_at(100, 1, now).unwrap();
    // Activity strictly after the window start counts.
    let metrics = store.metrics_at(now);
    assert_eq!(metrics.connections, 2);
    assert_eq!(metrics.registered_projects, 1);
    assert_eq!(metrics.active_projects, 1);
    assert_eq!(metrics.shared_projects, 1);
    // Sixty seconds later the stamp sits exactly on the edge and no longer
    // counts.
    let metrics = store.metrics_at(now + 60);
    assert_eq!(metrics.active_projects, 0);
    assert_eq!(metrics.shared_projects, 0);
    let metrics = store.metrics_at(now + 59);
    assert_eq!(metrics.active_projects, 1);
}

#[test]
fn metrics_skip_admin_connections() {
    let mut store = Store::new();
    store.add_connection(1, 10, true);
    store.add_connection(2, 20, false);
    store.register_project(1, 100, true).unwrap();
    let metrics = store.metrics_at(0);
    assert_eq!(metrics.connections, 1);
    assert_eq!(metrics.registered_projects, 0);
}

#[test]
fn contacts_update_answers_every_entry() {
    let store = two_users_one_project();
    let update = store.build_initial_contacts_update(vec![
        ContactSource::Accepted { user_id: 10, should_notify: true },
        ContactSource::Outgoing { user_id: 40 },
        ContactSource::Incoming { user_id: 50, should_notify: false },
    ]);
    assert_eq!(update.contacts.len(), 1);
    assert_eq!(update.outgoing_requests, vec![40]);
    assert_eq!(update.incoming_requests.len(), 1);
    assert_eq!(update.incoming_requests[0].requester_id, 50);
    assert!(!update.incoming_requests[0].should_notify);
    let contact = &update.contacts[0];
    assert_eq!(contact.user_id, 10);
    assert!(contact.online);
    assert!(contact.should_notify);
    assert_eq!(contact.projects.len(), 1);
    assert_eq!(contact.projects[0].id, 100);
    assert_eq!(contact.projects[0].guests, vec![20]);
}

#[test]
fn project_metadata_lists_visible_roots() {
    let mut store = two_users_one_project();
    let metas = vec![
        WorktreeMetadata { id: 1, root_name: "shown".to_string(), visible: true },
        WorktreeMetadata { id: 2, root_name: "hidden".to_string(), visible: false },
    ];
    store.update_project(100, &metas, true, 1).unwrap();
    let metadata = store.project_metadata_for_user(10);
    assert_eq!(metadata.len(), 1);
    assert_eq!(metadata[0].id, 100);
    assert_eq!(metadata[0].visible_worktree_root_names, vec!["shown".to_string()]);
    // Offline or foreign projects are not listed.
    let metadata = store.project_metadata_for_user(20);
    assert!(metadata.is_empty());
}

#[test]
fn language_server_and_diagnostics_fan_out() {
    let mut store = two_users_one_project();
    let recipients = store
        .start_language_server(
            100,
            1,
            collab_store::records::LanguageServer { id: 7, name: "ls".to_string() },
        )
        .unwrap();
    let mut sorted = recipients.clone();
    sorted.sort();
    assert_eq!(sorted, vec![1, 2]);
    assert_eq!(store.project(100).unwrap().language_servers.len(), 1);
    store
        .update_worktree(1, 100, 1, &"root".to_string(), &vec![], &vec![], 1, true)
        .unwrap();
    let summary = collab_store::records::DiagnosticSummary {
        path: "a.rs".to_string(),
        language_server_id: 7,
        error_count: 2,
        warning_count: 1,
    };
    let recipients = store.update_diagnostic_summary(100, 1, 1, summary).unwrap();
    assert_eq!(recipients.len(), 2);
    let project = store.project(100).unwrap();
    assert_eq!(project.worktrees.get(1).unwrap().diagnostic_summaries.len(), 1);
    // A summary for the same path replaces the earlier one.
    let summary = collab_store::records::DiagnosticSummary {
        path: "a.rs".to_string(),
        language_server_id: 7,
        error_count: 0,
        warning_count: 0,
    };
    store.update_diagnostic_summary(100, 1, 1, summary).unwrap();
    let project = store.project(100).unwrap();
    let summaries = &project.worktrees.get(1).unwrap().diagnostic_summaries;
    assert_eq!(summaries.len(), 1);
    assert_eq!(summaries[0].error_count, 0);
    // Only the host may report diagnostics.
    let summary = collab_store::records::DiagnosticSummary {
        path: "b.rs".to_string(),
        language_server_id: 7,
        error_count: 1,
        warning_count: 0,
    };
    assert_eq!(
        store.update_diagnostic_summary(100, 1, 2, summary).unwrap_err(),
        StoreError::UnknownWorktree
    );
}

#[test]
fn register_then_unregister_round_trip() {
    let mut store = two_users_one_project();
    store.register_project(1, 200, true).unwrap();
    let project = store.unregister_project(200, 1).unwrap();
    assert_eq!(project.host_connection_id, 1);
    assert!(store.project(200).is_err());
    let projects = store.connection_projects(1).unwrap();
    assert!(projects.contains(&100));
    assert!(!projects.contains(&200));
    assert!(store.check_invariants());
}

#[test]
fn disconnect_withdraws_pending_requests() {
    let mut store = Store::new();
    store.add_connection(1, 10, false);
    store.add_connection(2, 20, false);
    store.register_project(1, 100, true).unwrap();
    store.request_join_project(20, 100, receipt(2, 7)).unwrap();
    // The requester disconnects before the host answers: its receipt must
    // not linger in the project's pending requests.
    store.remove_connection(2).unwrap();
    let project = store.project(100).unwrap();
    assert!(project.join_requests.get(20).is_none());
    assert!(store.check_invariants());
}

#[test]
fn projects_listed_in_id_order() {
    let mut store = Store::new();
    store.add_connection(1, 10, false);
    store.register_project(1, 300, true).unwrap();
    store.register_project(1, 100, true).unwrap();
    store.register_project(1, 200, true).unwrap();
    assert_eq!(store.projects(), vec![100, 200, 300]);
}

#[test]
fn user_queries_reflect_connections() {
    let mut store = Store::new();
    store.add_connection(1, 10, false);
    store.add_connection(2, 10, false);
    assert_eq!(store.user_id_for_connection(1).unwrap(), 10);
    assert_eq!(store.user_id_for_connection(9).unwrap_err(), StoreError::UnknownConnection);
    assert_eq!(store.connection_ids_for_user(10), vec![1, 2]);
    assert!(store.is_user_online(10));
    assert!(!store.is_user_online(99));
    assert_eq!(store.projects(), Vec::<u64>::new());
}
