//! Round-trip and idempotence laws of the store, stated over the named
//! transition relations that the operations' contracts establish.

use vstd::prelude::*;

use crate::records::Receipt;
use crate::store::{
    accept_rel, add_connection_rel, conn_equiv, deny_rel, join_channel_rel, leave_channel_rel,
    lemma_promotable_receipts_push, promotable_receipts, receipt_from, register_project_rel,
    remove_connection_rel, request_join_rel, store_equiv, taken_replica, unregister_project_rel,
    user_equiv, Collaborator, Project, Store,
};
use crate::{ChannelId, ConnectionId, ProjectId, ReplicaId, UserId};

verus! {

/// Spec-level sameness of project rows up to the host's activity stamp.
pub open spec fn project_equiv_except_activity(a: Project, b: Project) -> bool {
    &&& a.online == b.online
    &&& a.host_connection_id == b.host_connection_id
    &&& a.host.replica_id == b.host.replica_id
    &&& a.host.user_id == b.host.user_id
    &&& a.host.admin == b.host.admin
    &&& a.guests == b.guests
    &&& a.active_replica_ids == b.active_replica_ids
    &&& a.worktrees == b.worktrees
    &&& a.language_servers == b.language_servers
    &&& a.join_requests@ =~= b.join_requests@
}

/// Adding a fresh connection and then removing it returns the store to a
/// state equal, table by table, to the one before: the connection row is
/// gone and, when this was the user's only connection, so is the user row.
pub proof fn add_then_remove_connection_restores(
    s0: Store,
    s1: Store,
    s2: Store,
    connection_id: ConnectionId,
    user_id: UserId,
    admin: bool,
)
    requires
        s0.wf(),
        s0.links_ok(),
        !s0.connections@.contains_key(connection_id),
        add_connection_rel(s0, s1, connection_id, user_id, admin),
        remove_connection_rel(s1, s2, connection_id),
    ensures
        store_equiv(s2, s0),
{
    let c1 = s1.connections@[connection_id];
    assert(c1.projects@ =~= Set::<u64>::empty());
    assert(c1.channels@ =~= Set::<u64>::empty());
    assert(s2.connections@.dom() =~= s0.connections@.dom());
    assert forall|c: u64| #[trigger] s2.connections@.contains_key(c) implies conn_equiv(
        s2.connections@[c],
        s0.connections@[c],
    ) by {
        assert(c != connection_id);
        assert(s1.connections@.remove(connection_id)[c] == s0.connections@[c]);
        assert(s1.connections@[c] == s0.connections@[c]);
        assert forall|p: u64|
            #[trigger] s2.connections@[c].projects@.contains(p)
                <==> s0.connections@[c].projects@.contains(p) by {
            assert(s2.connections@[c].projects@.contains(p) <==> (
            s1.connections@[c].projects@.contains(p) && !(c1.projects@.contains(p)
                && s1.projects@[p].host_connection_id == connection_id
                && s1.projects@[p].guests@.contains_key(c))));
        }
        assert forall|p: u64|
            #[trigger] s2.connections@[c].requested_projects@.contains(p)
                <==> s0.connections@[c].requested_projects@.contains(p) by {
            assert(s2.connections@[c].requested_projects@.contains(p) <==> (
            s1.connections@[c].requested_projects@.contains(p) && !(c1.projects@.contains(p)
                && s1.projects@[p].host_connection_id == connection_id
                && s1.projects@[p].join_requests@.contains_key(s1.connections@[c].user_id))));
        }
        assert(s2.connections@[c].channels@ =~= s0.connections@[c].channels@);
    }
    assert(s2.projects@ =~= s0.projects@) by {
        assert forall|p: u64|
            #[trigger] s2.projects@.contains_key(p) <==> s0.projects@.contains_key(p) by {
            assert(s2.projects@.contains_key(p) <==> (s1.projects@.contains_key(p) && !(
            c1.projects@.contains(p) && s1.projects@[p].host_connection_id == connection_id)));
        }
        assert forall|p: u64| #[trigger] s2.projects@.contains_key(p) implies s2.projects@[p]
            == s0.projects@[p] by {
            assert(!c1.projects@.contains(p));
            assert(s2.projects@[p] == s1.projects@[p]);
        }
    }
    assert forall|ch: u64|
        #[trigger] s2.channels@.contains_key(ch) <==> s0.channels@.contains_key(ch) by {
        assert(s2.channels@.contains_key(ch) <==> (s1.channels@.contains_key(ch) && !(
        c1.channels@.contains(ch) && s1.channels@[ch].connection_ids@.remove(connection_id)
            =~= Set::<u64>::empty())));
    }
    assert forall|ch: u64|
        #[trigger] s2.channels@.contains_key(ch) implies s2.channels@[ch].connection_ids@
        =~= s0.channels@[ch].connection_ids@ by {
        assert(!c1.channels@.contains(ch));
        assert(s2.channels@[ch] == s1.channels@[ch]);
    }
    let set1 = s1.connections_by_user_id@[user_id].connection_ids@;
    if s0.connections_by_user_id@.contains_key(user_id) {
        let set0 = s0.connections_by_user_id@[user_id].connection_ids@;
        assert(!set0.contains(connection_id)) by {
            if set0.contains(connection_id) {
                assert(s0.connections@.contains_key(connection_id));
            }
        }
        assert(set1.remove(connection_id) =~= set0);
        assert(!(set1.remove(connection_id) =~= Set::<u64>::empty())) by {
            let c = choose|c: u64|
                #[trigger] s0.connections_by_user_id@[user_id].connection_ids@.contains(c);
            assert(set0.contains(c));
        }
        assert(s2.connections_by_user_id@.dom() =~= s0.connections_by_user_id@.dom());
        assert forall|u: u64|
            #[trigger] s2.connections_by_user_id@.contains_key(u) implies user_equiv(
            s2.connections_by_user_id@[u],
            s0.connections_by_user_id@[u],
        ) by {
            if u != user_id {
                assert(s2.connections_by_user_id@.remove(user_id)[u]
                    == s1.connections_by_user_id@.remove(user_id)[u]);
                assert(s1.connections_by_user_id@.remove(user_id)[u]
                    == s0.connections_by_user_id@.remove(user_id)[u]);
                assert(s2.connections_by_user_id@[u] == s0.connections_by_user_id@[u]);
            } else {
                assert(s2.connections_by_user_id@[u].connection_ids@ =~= set0);
                assert(s2.connections_by_user_id@[u].room
                    == s0.connections_by_user_id@[u].room);
            }
        }
    } else {
        assert(set1 =~= Set::<u64>::empty().insert(connection_id));
        assert(set1.remove(connection_id) =~= Set::<u64>::empty());
        assert(s2.connections_by_user_id@ =~= s1.connections_by_user_id@.remove(user_id));
        assert(s2.connections_by_user_id@ =~= s0.connections_by_user_id@) by {
            assert(s1.connections_by_user_id@.remove(user_id)
                =~= s0.connections_by_user_id@.remove(user_id));
            assert(s0.connections_by_user_id@.remove(user_id) =~= s0.connections_by_user_id@);
        }
        assert forall|u: u64|
            #[trigger] s2.connections_by_user_id@.contains_key(u) implies user_equiv(
            s2.connections_by_user_id@[u],
            s0.connections_by_user_id@[u],
        ) by {
            assert(s2.connections_by_user_id@[u] == s0.connections_by_user_id@[u]);
        }
    }
    assert(s2.rooms@ =~= s0.rooms@);
}

/// Joining a channel twice is the same as joining it once.
pub proof fn join_channel_idempotent(
    s0: Store,
    s1: Store,
    s2: Store,
    connection_id: ConnectionId,
    channel_id: ChannelId,
)
    requires
        s0.wf(),
        s0.links_ok(),
        join_channel_rel(s0, s1, connection_id, channel_id),
        join_channel_rel(s1, s2, connection_id, channel_id),
    ensures
        store_equiv(s2, s1),
{
    assert forall|c: u64| #[trigger] s2.connections@.contains_key(c) implies conn_equiv(
        s2.connections@[c],
        s1.connections@[c],
    ) by {
        if c != connection_id {
            assert(s2.connections@.remove(connection_id)[c] == s1.connections@.remove(
                connection_id,
            )[c]);
            assert(s2.connections@[c] == s1.connections@[c]);
        } else {
            assert(s2.connections@[c].channels@ =~= s1.connections@[c].channels@);
        }
    }
    assert forall|ch: u64|
        #[trigger] s2.channels@.contains_key(ch) implies s2.channels@[ch].connection_ids@
        =~= s1.channels@[ch].connection_ids@ by {
        if ch != channel_id {
            assert(s2.channels@.remove(channel_id)[ch] == s1.channels@.remove(channel_id)[ch]);
            assert(s2.channels@[ch] == s1.channels@[ch]);
        } else {
            assert(s2.channels@[ch].connection_ids@ =~= s1.channels@[ch].connection_ids@.insert(
                connection_id,
            ));
            assert(s1.channels@[ch].connection_ids@.contains(connection_id));
        }
    }
    assert forall|u: u64|
        #[trigger] s2.connections_by_user_id@.contains_key(u) implies user_equiv(
        s2.connections_by_user_id@[u],
        s1.connections_by_user_id@[u],
    ) by {
        assert(s2.connections_by_user_id@[u] == s1.connections_by_user_id@[u]);
    }
    assert(s2.rooms@ =~= s1.rooms@);
    assert(s2.projects@ =~= s1.projects@);
    assert(s2.channels@.dom() =~= s1.channels@.dom());
    assert(s2.connections@.dom() =~= s1.connections@.dom());
    assert(s2.connections_by_user_id@.dom() =~= s1.connections_by_user_id@.dom());
}

/// Leaving a channel after joining it returns the channel to its
/// membership without the connection, and everything else to where it was.
pub proof fn leave_after_join_channel(
    s0: Store,
    s1: Store,
    s2: Store,
    connection_id: ConnectionId,
    channel_id: ChannelId,
)
    requires
        s0.wf(),
        s0.links_ok(),
        join_channel_rel(s0, s1, connection_id, channel_id),
        leave_channel_rel(s1, s2, connection_id, channel_id),
    ensures
        s0.channels@.contains_key(channel_id) && !(s0.channels@[channel_id].connection_ids@.remove(
            connection_id,
        ) =~= Set::<u64>::empty()) ==> s2.channels@.contains_key(channel_id)
            && s2.channels@[channel_id].connection_ids@
            =~= s0.channels@[channel_id].connection_ids@.remove(connection_id),
        (!s0.channels@.contains_key(channel_id) || s0.channels@[channel_id].connection_ids@.remove(
            connection_id,
        ) =~= Set::<u64>::empty()) ==> !s2.channels@.contains_key(channel_id),
        s2.connections@.dom() =~= s0.connections@.dom(),
        s2.connections@[connection_id].channels@ =~= s0.connections@[connection_id].channels@.remove(
            channel_id,
        ),
        forall|c: u64|
            #[trigger] s2.connections@.contains_key(c) && c != connection_id
                ==> s2.connections@[c] == s0.connections@[c],
        forall|ch: u64|
            #[trigger] s2.channels@.contains_key(ch) && ch != channel_id ==> s2.channels@[ch]
                == s0.channels@[ch],
        s2.connections_by_user_id == s0.connections_by_user_id,
        s2.rooms == s0.rooms,
        s2.projects == s0.projects,
        s2.next_room_id == s0.next_room_id,
{
    let m1 = s1.channels@[channel_id].connection_ids@;
    assert(m1.remove(connection_id) =~= (if s0.channels@.contains_key(channel_id) {
        s0.channels@[channel_id].connection_ids@.remove(connection_id)
    } else {
        Set::<u64>::empty()
    }));
    assert(s2.connections@[connection_id].channels@
        =~= s0.connections@[connection_id].channels@.remove(channel_id)) by {
        assert(s1.connections@[connection_id].channels@
            =~= s0.connections@[connection_id].channels@.insert(channel_id));
    }
    assert forall|c: u64|
        #[trigger] s2.connections@.contains_key(c) && c != connection_id implies s2.connections@[c]
        == s0.connections@[c] by {
        assert(s2.connections@.remove(connection_id)[c] == s1.connections@.remove(
            connection_id,
        )[c]);
        assert(s1.connections@.remove(connection_id)[c] == s0.connections@.remove(
            connection_id,
        )[c]);
    }
    assert forall|ch: u64|
        #[trigger] s2.channels@.contains_key(ch) && ch != channel_id implies s2.channels@[ch]
        == s0.channels@[ch] by {
        if s0.channels@.contains_key(channel_id) && !(m1.remove(connection_id) =~= Set::<
            u64,
        >::empty()) {
            assert(s2.channels@.remove(channel_id)[ch] == s1.channels@.remove(channel_id)[ch]);
            assert(s1.channels@.remove(channel_id)[ch] == s0.channels@.remove(channel_id)[ch]);
        } else {
            assert(s2.channels@[ch] == s1.channels@[ch]);
            assert(s1.channels@.remove(channel_id)[ch] == s0.channels@.remove(channel_id)[ch]);
        }
    }
}

/// Registering a fresh project and then unregistering it as its host
/// returns the store to a state equal, table by table, to the one before.
pub proof fn register_then_unregister_restores(
    s0: Store,
    s1: Store,
    s2: Store,
    host_connection_id: ConnectionId,
    project_id: ProjectId,
    online: bool,
)
    requires
        s0.wf(),
        s0.links_ok(),
        !s0.projects@.contains_key(project_id),
        register_project_rel(s0, s1, host_connection_id, project_id, online),
        unregister_project_rel(s1, s2, project_id, host_connection_id),
    ensures
        store_equiv(s2, s0),
{
    let pr1 = s1.projects@[project_id];
    assert(pr1.guests@ =~= Map::<u64, Collaborator>::empty());
    assert(s2.projects@ =~= s0.projects@) by {
        assert(s2.projects@ =~= s1.projects@.remove(project_id));
        assert(s1.projects@.remove(project_id) =~= s0.projects@);
    }
    assert(s2.connections@.dom() =~= s0.connections@.dom());
    assert forall|c: u64| #[trigger] s2.connections@.contains_key(c) implies conn_equiv(
        s2.connections@[c],
        s0.connections@[c],
    ) by {
        assert(s1.connections@.contains_key(c));
        if c != host_connection_id {
            assert(s1.connections@.remove(host_connection_id)[c] == s0.connections@.remove(
                host_connection_id,
            )[c]);
            assert(s1.connections@[c] == s0.connections@[c]);
            assert(!pr1.guests@.contains_key(c));
            assert(s2.connections@[c].projects@ =~= s1.connections@[c].projects@);
            assert(s2.connections@[c].requested_projects@
                =~= s1.connections@[c].requested_projects@) by {
                assert(!pr1.join_requests@.contains_key(s1.connections@[c].user_id));
            }
        } else {
            assert(s2.connections@[c].projects@ =~= s1.connections@[c].projects@.remove(
                project_id,
            ));
            assert(s1.connections@[c].projects@ =~= s0.connections@[c].projects@.insert(
                project_id,
            ));
            assert(!s0.connections@[c].projects@.contains(project_id)) by {
                if s0.connections@[c].projects@.contains(project_id) {
                    assert(s0.projects@.contains_key(project_id));
                }
            }
            assert(s2.connections@[c].projects@ =~= s0.connections@[c].projects@);
            assert(s2.connections@[c].requested_projects@
                =~= s0.connections@[c].requested_projects@) by {
                assert(!pr1.join_requests@.contains_key(s1.connections@[c].user_id));
                assert(s1.connections@[c].requested_projects
                    == s0.connections@[c].requested_projects);
            }
            assert(s2.connections@[c].channels == s1.connections@[c].channels);
            assert(s1.connections@[c].channels == s0.connections@[c].channels);
        }
    }
    assert forall|u: u64|
        #[trigger] s2.connections_by_user_id@.contains_key(u) implies user_equiv(
        s2.connections_by_user_id@[u],
        s0.connections_by_user_id@[u],
    ) by {
        assert(s2.connections_by_user_id@[u] == s0.connections_by_user_id@[u]);
    }
    assert(s2.connections_by_user_id@.dom() =~= s0.connections_by_user_id@.dom());
    assert(s2.rooms@ =~= s0.rooms@);
    assert(s2.channels@.dom() =~= s0.channels@.dom());
    assert forall|ch: u64|
        #[trigger] s2.channels@.contains_key(ch) implies s2.channels@[ch].connection_ids@
        =~= s0.channels@[ch].connection_ids@ by {
        assert(s2.channels@[ch] == s0.channels@[ch]);
    }
}

/// Filing a join request and then denying it cancels all the requester's
/// bookkeeping: apart from the host's refreshed activity stamp, the store
/// is back where it was, and the one receipt comes back to be answered.
pub proof fn request_then_deny_cancels(
    s0: Store,
    s1: Store,
    s2: Store,
    requester_id: UserId,
    project_id: ProjectId,
    receipt: Receipt,
    now: i64,
    receipts_out: Vec<Receipt>,
)
    requires
        s0.wf(),
        s0.links_ok(),
        s0.projects@.contains_key(project_id),
        !s0.projects@[project_id].join_requests@.contains_key(requester_id),
        !s0.connections@[receipt.sender_id].requested_projects@.contains(project_id),
        request_join_rel(s0, s1, requester_id, project_id, receipt),
        deny_rel(
            s1,
            s2,
            s0.projects@[project_id].host_connection_id,
            requester_id,
            project_id,
            now,
            Some(receipts_out),
        ),
    ensures
        receipts_out@ == Seq::<Receipt>::empty().push(receipt),
        s2.connections@.dom() =~= s0.connections@.dom(),
        forall|c: u64|
            #[trigger] s2.connections@.contains_key(c) ==> conn_equiv(
                s2.connections@[c],
                s0.connections@[c],
            ),
        s2.projects@.dom() =~= s0.projects@.dom(),
        forall|p: u64|
            #[trigger] s2.projects@.contains_key(p) && p != project_id ==> s2.projects@[p]
                == s0.projects@[p],
        project_equiv_except_activity(s2.projects@[project_id], s0.projects@[project_id]),
        s2.connections_by_user_id == s0.connections_by_user_id,
        s2.rooms == s0.rooms,
        s2.channels == s0.channels,
        s2.next_room_id == s0.next_room_id,
{
    let pr0 = s0.projects@[project_id];
    let pr1 = s1.projects@[project_id];
    let pr2 = s2.projects@[project_id];
    assert(receipts_out@ == pr1.join_requests@[requester_id]@);
    assert(receipts_out@ == Seq::<Receipt>::empty().push(receipt));
    assert(s2.connections@.dom() =~= s0.connections@.dom()) by {
        assert(s2.connections@.dom() =~= s1.connections@.dom());
    }
    assert forall|c: u64| #[trigger] s2.connections@.contains_key(c) implies conn_equiv(
        s2.connections@[c],
        s0.connections@[c],
    ) by {
        assert(s1.connections@.contains_key(c));
        if c != receipt.sender_id {
            assert(s1.connections@.remove(receipt.sender_id)[c] == s0.connections@.remove(
                receipt.sender_id,
            )[c]);
            assert(s1.connections@[c] == s0.connections@[c]);
            assert(!receipt_from(receipts_out@, c)) by {
                if receipt_from(receipts_out@, c) {
                    let j = choose|j: int|
                        0 <= j < receipts_out@.len() && (#[trigger] receipts_out@[j]).sender_id
                            == c;
                    assert(receipts_out@[j] == receipt);
                }
            }
            assert(s2.connections@[c].requested_projects@
                =~= s1.connections@[c].requested_projects@);
            assert(s2.connections@[c].projects == s1.connections@[c].projects);
        } else {
            assert(receipt_from(receipts_out@, c)) by {
                assert(receipts_out@[0].sender_id == c);
            }
            assert(s2.connections@[c].requested_projects@
                =~= s1.connections@[c].requested_projects@.remove(project_id));
            assert(s1.connections@[c].requested_projects@
                =~= s0.connections@[c].requested_projects@.insert(project_id));
            assert(s2.connections@[c].requested_projects@
                =~= s0.connections@[c].requested_projects@);
            assert(s2.connections@[c].projects == s1.connections@[c].projects);
            assert(s1.connections@[c].projects == s0.connections@[c].projects);
            assert(s2.connections@[c].channels == s0.connections@[c].channels);
        }
    }
    assert(s2.projects@.dom() =~= s0.projects@.dom());
    assert forall|p: u64|
        #[trigger] s2.projects@.contains_key(p) && p != project_id implies s2.projects@[p]
        == s0.projects@[p] by {
        assert(s2.projects@.remove(project_id)[p] == s1.projects@.remove(project_id)[p]);
        assert(s1.projects@.remove(project_id)[p] == s0.projects@.remove(project_id)[p]);
    }
    assert(project_equiv_except_activity(pr2, pr0)) by {
        assert(pr2.join_requests@ =~= pr1.join_requests@.remove(requester_id));
        assert(pr1.join_requests@.remove(requester_id) =~= pr0.join_requests@.remove(
            requester_id,
        ));
        assert(pr0.join_requests@.remove(requester_id) =~= pr0.join_requests@);
        assert(pr2.guests == pr1.guests && pr1.guests == pr0.guests);
        assert(pr2.worktrees == pr1.worktrees && pr1.worktrees == pr0.worktrees);
    }
}

/// Filing a join request and then accepting it promotes the requesting
/// connection to a guest with the smallest free positive replica id, and
/// leaves its `requested_projects` empty of the project.
pub proof fn request_then_accept_promotes(
    s0: Store,
    s1: Store,
    s2: Store,
    requester_id: UserId,
    project_id: ProjectId,
    receipt: Receipt,
    now: i64,
    pairs: Vec<(Receipt, ReplicaId)>,
)
    requires
        s0.wf(),
        s0.links_ok(),
        s0.projects@.contains_key(project_id),
        !s0.projects@[project_id].join_requests@.contains_key(requester_id),
        !s0.projects@[project_id].guests@.contains_key(receipt.sender_id),
        request_join_rel(s0, s1, requester_id, project_id, receipt),
        accept_rel(
            s1,
            s2,
            s0.projects@[project_id].host_connection_id,
            requester_id,
            project_id,
            now,
            Some(pairs),
        ),
    ensures
        pairs@.len() == 1,
        pairs@[0].0 == receipt,
        1 <= pairs@[0].1,
        !s0.projects@[project_id].active_replica_ids@.contains(pairs@[0].1 as u64),
        forall|m: u64|
            1 <= m < pairs@[0].1 as u64 ==> s0.projects@[project_id].active_replica_ids@.contains(
                m,
            ),
        s2.projects@[project_id].guests@.contains_key(receipt.sender_id),
        s2.projects@[project_id].guests@[receipt.sender_id].user_id == requester_id,
        s2.projects@[project_id].guests@[receipt.sender_id].replica_id == pairs@[0].1,
        s2.projects@[project_id].active_replica_ids@.contains(pairs@[0].1 as u64),
        !s2.connections@[receipt.sender_id].requested_projects@.contains(project_id),
        s2.connections@[receipt.sender_id].projects@.contains(project_id),
{
    let pr0 = s0.projects@[project_id];
    let pr1 = s1.projects@[project_id];
    let pr2 = s2.projects@[project_id];
    let receipts = pr1.join_requests@[requester_id]@;
    assert(receipts == Seq::<Receipt>::empty().push(receipt));
    assert(s1.connections@.contains_key(receipt.sender_id)) by {
        assert(s1.connections@.dom() =~= s0.connections@.dom());
    }
    assert(pr1.guests == pr0.guests);
    lemma_promotable_receipts_push(
        Seq::<Receipt>::empty(),
        s1.connections@,
        pr1.guests@,
        receipt,
    );
    assert(Seq::<Receipt>::empty().push(receipt) =~= receipts);
    assert(promotable_receipts(Seq::<Receipt>::empty(), s1.connections@, pr1.guests@)
        =~= Seq::<Receipt>::empty());
    assert(promotable_receipts(receipts, s1.connections@, pr1.guests@) =~= Seq::<
        Receipt,
    >::empty().push(receipt));
    assert(pairs@.len() == 1) by {
        assert(pairs@.map_values(|p: (Receipt, ReplicaId)| p.0).len() == pairs@.len());
    }
    assert(pairs@[0].0 == receipt) by {
        assert(pairs@.map_values(|p: (Receipt, ReplicaId)| p.0)[0] == pairs@[0].0);
    }
    let replica = pairs@[0].1 as u64;
    assert(1 <= pairs@[0].1 && !taken_replica(pr1.active_replica_ids@, pairs@, 0, replica)
        && (forall|m: u64| 1 <= m < replica ==> taken_replica(pr1.active_replica_ids@, pairs@, 0, m)));
    assert(pr1.active_replica_ids == pr0.active_replica_ids);
    assert(!pr0.active_replica_ids@.contains(replica));
    assert forall|m: u64| 1 <= m < replica implies pr0.active_replica_ids@.contains(m) by {
        assert(taken_replica(pr1.active_replica_ids@, pairs@, 0, m));
        if !pr1.active_replica_ids@.contains(m) {
            let j = choose|j: int| 0 <= j < 0 && (#[trigger] pairs@[j]).1 as u64 == m;
            assert(false);
        }
    }
    assert(pr2.guests@[pairs@[0].0.sender_id] == (Collaborator {
        replica_id: pairs@[0].1,
        user_id: requester_id,
        last_activity: Some(now),
        admin: s1.connections@[pairs@[0].0.sender_id].admin,
    }));
    assert(pr2.guests@.contains_key(receipt.sender_id)) by {
        assert(receipt_from(receipts, receipt.sender_id)) by {
            assert(receipts[0].sender_id == receipt.sender_id);
        }
    }
    assert(pr2.active_replica_ids@.contains(replica)) by {
        assert(pairs@[0].1 as u64 == replica);
    }
    assert(s2.connections@.contains_key(receipt.sender_id)) by {
        assert(s2.connections@.dom() =~= s1.connections@.dom());
    }
    assert(receipt_from(receipts, receipt.sender_id) && !pr1.guests@.contains_key(
        receipt.sender_id,
    )) by {
        assert(receipts[0].sender_id == receipt.sender_id);
    }
    assert(s2.connections@[receipt.sender_id].requested_projects@
        =~= s1.connections@[receipt.sender_id].requested_projects@.remove(project_id));
    assert(s2.connections@[receipt.sender_id].projects@
        =~= s1.connections@[receipt.sender_id].projects@.insert(project_id));
}

} // verus!
