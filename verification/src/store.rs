//! The session state store and its operations.
//!
//! Six cross-referenced tables record connections, users, rooms, projects and
//! channels. Every operation is a critical section: it observes the store in a
//! consistent state, applies one atomic set of changes, and returns the
//! derived records the caller needs. The consistency itself is captured by
//! [`Store::links_ok`] and [`Store::paths_ok`], which every mutating
//! operation preserves.

use vstd::prelude::*;

use crate::clock::now_unix_timestamp;
use crate::records::{
    Contact, ContactSource, DiagnosticSummary, Entry, IncomingContactRequest, LanguageServer,
    Participant, ParticipantLocation, ProjectMetadata, Receipt, Room, RoomState, UpdateContacts,
    WorktreeMetadata, copy_entry, copy_room, room_like,
};
use crate::tables::{IdSet, Table};
use crate::{ChannelId, ConnectionId, ProjectId, ReplicaId, RoomId, UserId};

verus! {

/// Why an operation was refused. Several distinct project conditions share
/// `UnknownProject` on purpose, so that unauthorized callers cannot learn
/// whether a project exists.
#[derive(Clone, Copy, PartialEq, Eq, Structural, Debug)]
pub enum StoreError {
    UnknownConnection,
    UnknownProject,
    UnknownWorktree,
    UnknownChannel,
    UnknownRoom,
    NotInRoom,
    AlreadyInRoom,
    RecipientBusy,
    DuplicateInvite,
    NotBeingCalled,
    ProjectOffline,
}

/// Per-connection state: the owning user, the admin flag, and the three
/// membership sets.
pub struct ConnectionState {
    pub user_id: UserId,
    pub admin: bool,
    pub projects: IdSet,
    pub requested_projects: IdSet,
    pub channels: IdSet,
}

impl ConnectionState {
    pub open spec fn wf(self) -> bool {
        &&& self.projects.wf()
        &&& self.requested_projects.wf()
        &&& self.channels.wf()
    }
}

/// Per-user state: the user's connections and the optional call state.
pub struct UserConnectionState {
    pub connection_ids: IdSet,
    pub room: Option<RoomState>,
}

impl UserConnectionState {
    pub open spec fn wf(self) -> bool {
        self.connection_ids.wf()
    }
}

/// One collaborator of a project. The host has replica id 0; guests get the
/// smallest unused positive replica id. `last_activity` is a Unix timestamp
/// in seconds.
#[derive(Clone, Copy, PartialEq, Eq, Debug)]
pub struct Collaborator {
    pub replica_id: ReplicaId,
    pub user_id: UserId,
    pub last_activity: Option<i64>,
    pub admin: bool,
}

/// One root directory shared inside a project.
pub struct Worktree {
    pub root_name: String,
    pub visible: bool,
    pub entries: Table<Entry>,
    pub diagnostic_summaries: Vec<DiagnosticSummary>,
    pub scan_id: u64,
    pub is_complete: bool,
}

impl Worktree {
    pub open spec fn wf(self) -> bool {
        &&& self.entries.wf()
        &&& forall|e: u64|
            self.entries@.contains_key(e) ==> (#[trigger] self.entries@[e]).id == e
    }

    /// No two entries of this worktree share a path.
    pub open spec fn paths_unique(self) -> bool {
        forall|e1: u64, e2: u64|
            self.entries@.contains_key(e1) && self.entries@.contains_key(e2) && e1 != e2
                ==> (#[trigger] self.entries@[e1]).path@ != (#[trigger] self.entries@[e2]).path@
    }
}

/// One registered project.
pub struct Project {
    pub online: bool,
    pub host_connection_id: ConnectionId,
    pub host: Collaborator,
    pub guests: Table<Collaborator>,
    pub join_requests: Table<Vec<Receipt>>,
    pub active_replica_ids: IdSet,
    pub worktrees: Table<Worktree>,
    pub language_servers: Vec<LanguageServer>,
}

impl Project {
    pub open spec fn wf(self) -> bool {
        &&& self.guests.wf()
        &&& self.join_requests.wf()
        &&& self.active_replica_ids.wf()
        &&& self.worktrees.wf()
        &&& forall|w: u64|
            self.worktrees@.contains_key(w) ==> (#[trigger] self.worktrees@[w]).wf()
        &&& forall|u: u64|
            self.join_requests@.contains_key(u) ==> (#[trigger] self.join_requests@[u])@.len()
                > 0
        &&& forall|u: u64|
            self.join_requests@.contains_key(u) ==> distinct_senders(
                (#[trigger] self.join_requests@[u])@,
            )
    }

    /// The active replica ids are exactly the guests' replica ids, one each.
    pub open spec fn replicas_ok(self) -> bool {
        &&& forall|g: u64|
            self.guests@.contains_key(g) ==> self.active_replica_ids@.contains(
                (#[trigger] self.guests@[g]).replica_id as u64,
            )
        &&& forall|r: u64|
            #[trigger] self.active_replica_ids@.contains(r) ==> exists|g: u64|
                #[trigger] self.guests@.contains_key(g) && self.guests@[g].replica_id as u64
                    == r
        &&& forall|g1: u64, g2: u64|
            self.guests@.contains_key(g1) && self.guests@.contains_key(g2) && g1 != g2 ==> (
            #[trigger] self.guests@[g1]).replica_id != (#[trigger] self.guests@[g2]).replica_id
        &&& self.active_replica_ids@.len() == self.guests@.dom().len()
    }

    /// Whether any collaborator was active strictly after `start`.
    pub open spec fn spec_active_since(self, start: i64) -> bool {
        ||| (match self.host.last_activity {
            Some(t) => t > start,
            None => false,
        })
        ||| exists|g: u64|
            #[trigger] self.guests@.contains_key(g) && (match self.guests@[g].last_activity {
                Some(t) => t > start,
                None => false,
            })
    }

    /// Whether any collaborator (host or guest) was active strictly after
    /// `start`.
    pub fn is_active_since(&self, start: i64) -> (r: bool)
        requires
            self.guests.wf(),
        ensures
            r == self.spec_active_since(start),
    {
        proof {
            self.guests.lemma_pairs();
        }
        match self.host.last_activity {
            Some(t) => {
                if t > start {
                    return true;
                }
            },
            None => {},
        }
        let n = self.guests.len();
        let mut i: usize = 0;
        while i < n
            invariant
                self.guests.wf(),
                n == self.guests.pairs().len(),
                i <= n,
                forall|j: int|
                    0 <= j < i ==> (match (#[trigger] self.guests.pairs()[j]).1.last_activity {
                        Some(t) => !(t > start),
                        None => true,
                    }),
            decreases n - i,
        {
            match self.guests.val_at(i).last_activity {
                Some(t) => {
                    if t > start {
                        proof {
                            self.guests.lemma_pairs();
                            assert(self.guests@.contains_key(self.guests.pairs()[i as int].0));
                        }
                        return true;
                    }
                },
                None => {},
            }
            i = i + 1;
        }
        proof {
            self.guests.lemma_pairs();
            if self.spec_active_since(start) {
                let g = choose|g: u64|
                    #[trigger] self.guests@.contains_key(g) && (match self
                        .guests@[g]
                        .last_activity {
                        Some(t) => t > start,
                        None => false,
                    });
                self.guests.lemma_dom();
                let j = choose|j: int|
                    0 <= j < self.guests.key_seq().len() && self.guests.key_seq()[j] == g;
                assert(self.guests.pairs()[j].0 == g);
                assert(self.guests.pairs()[j].1 == self.guests@[g]);
            }
        }
        false
    }

    /// The connection ids of all guests, in table order.
    pub fn guest_connection_ids(&self) -> (r: Vec<ConnectionId>)
        ensures
            r@ == self.guests.key_seq(),
    {
        self.guests.keys()
    }

    /// The connection ids of everyone in the project: the guests, then the
    /// host.
    pub fn connection_ids(&self) -> (r: Vec<ConnectionId>)
        ensures
            r@ == self.guests.key_seq().push(self.host_connection_id),
    {
        let mut r = self.guests.keys();
        r.push(self.host_connection_id);
        r
    }
}

/// A pub/sub channel: the set of subscribed connections. A channel row exists
/// only while this set is non-empty.
pub struct Channel {
    pub connection_ids: IdSet,
}

impl Channel {
    pub open spec fn wf(self) -> bool {
        self.connection_ids.wf()
    }

    /// The subscribed connection ids, in insertion order.
    pub fn connection_ids(&self) -> (r: Vec<ConnectionId>)
        ensures
            r@ == self.connection_ids.seq(),
    {
        self.connection_ids.to_vec()
    }
}

/// Everything that was unwound when a connection was removed.
pub struct RemovedConnectionState {
    pub user_id: UserId,
    pub hosted_projects: Table<Project>,
    pub guest_project_ids: IdSet,
    pub contact_ids: IdSet,
}

/// The outcome of one connection leaving one project.
pub struct LeftProject {
    pub host_user_id: UserId,
    pub host_connection_id: ConnectionId,
    pub connection_ids: Vec<ConnectionId>,
    pub remove_collaborator: bool,
    pub cancel_request: Option<UserId>,
    pub unshare: bool,
}

/// The displaced peers of a project whose host took it offline.
pub struct UnsharedProject {
    pub guests: Table<Collaborator>,
    pub pending_join_requests: Table<Vec<Receipt>>,
}

/// Store-level counters reported for monitoring.
#[derive(Clone, Copy, PartialEq, Eq, Structural, Debug)]
pub struct Metrics {
    pub connections: usize,
    pub registered_projects: usize,
    pub active_projects: usize,
    pub shared_projects: usize,
}

/// The session state store.
pub struct Store {
    pub connections: Table<ConnectionState>,
    pub connections_by_user_id: Table<UserConnectionState>,
    pub next_room_id: RoomId,
    pub rooms: Table<Room>,
    pub projects: Table<Project>,
    pub channels: Table<Channel>,
}

/// How many of the listed connections are not admin connections.
pub open spec fn count_non_admin(s: Seq<(u64, ConnectionState)>) -> int
    decreases s.len(),
{
    if s.len() == 0 {
        0
    } else {
        count_non_admin(s.drop_last()) + (if s.last().1.admin {
            0int
        } else {
            1int
        })
    }
}

/// Whether a project counts for metrics: its host connection is live and
/// not an admin.
pub open spec fn counted_project(pr: Project, conns: Map<u64, ConnectionState>) -> bool {
    conns.contains_key(pr.host_connection_id) && !conns[pr.host_connection_id].admin
}

/// How many listed projects have a non-admin host.
pub open spec fn count_registered(s: Seq<(u64, Project)>, conns: Map<u64, ConnectionState>) -> int
    decreases s.len(),
{
    if s.len() == 0 {
        0
    } else {
        count_registered(s.drop_last(), conns) + (if counted_project(s.last().1, conns) {
            1int
        } else {
            0int
        })
    }
}

/// How many listed projects have a non-admin host and any collaborator
/// active strictly after `start`.
pub open spec fn count_active(
    s: Seq<(u64, Project)>,
    conns: Map<u64, ConnectionState>,
    start: i64,
) -> int
    decreases s.len(),
{
    if s.len() == 0 {
        0
    } else {
        count_active(s.drop_last(), conns, start) + (if counted_project(s.last().1, conns)
            && s.last().1.spec_active_since(start) {
            1int
        } else {
            0int
        })
    }
}

/// How many listed projects are active as above and also have a guest.
pub open spec fn count_shared(
    s: Seq<(u64, Project)>,
    conns: Map<u64, ConnectionState>,
    start: i64,
) -> int
    decreases s.len(),
{
    if s.len() == 0 {
        0
    } else {
        count_shared(s.drop_last(), conns, start) + (if counted_project(s.last().1, conns)
            && s.last().1.spec_active_since(start) && s.last().1.guests.key_seq().len() > 0 {
            1int
        } else {
            0int
        })
    }
}

/// The character views of a list of strings.
pub open spec fn views_of_strings(v: Seq<String>) -> Seq<Seq<char>> {
    Seq::new(v.len(), |i: int| v[i]@)
}

/// The root names of the visible worktrees, in table order.
pub open spec fn visible_roots(s: Seq<(u64, Worktree)>) -> Seq<Seq<char>>
    decreases s.len(),
{
    if s.len() == 0 {
        Seq::empty()
    } else {
        let rest = visible_roots(s.drop_last());
        if s.last().1.visible {
            rest.push(s.last().1.root_name@)
        } else {
            rest
        }
    }
}

/// The guests' user ids, in table order.
pub open spec fn guest_user_ids(s: Seq<(u64, Collaborator)>) -> Seq<u64> {
    Seq::new(s.len(), |i: int| s[i].1.user_id)
}

fn build_project_metadata(project_id: u64, project: &Project) -> (md: ProjectMetadata)
    requires
        project.guests.wf(),
        project.worktrees.wf(),
    ensures
        md.id == project_id,
        views_of_strings(md.visible_worktree_root_names@) == visible_roots(
            project.worktrees.pairs(),
        ),
        md.guests@ == guest_user_ids(project.guests.pairs()),
{
    let wn = project.worktrees.len();
    let mut roots: Vec<String> = Vec::new();
    let mut i: usize = 0;
    proof {
        assert(project.worktrees.pairs().subrange(0, 0) =~= Seq::<(u64, Worktree)>::empty());
        assert(views_of_strings(roots@) =~= visible_roots(
            project.worktrees.pairs().subrange(0, 0),
        ));
    }
    while i < wn
        invariant
            wn == project.worktrees.pairs().len(),
            i <= wn,
            views_of_strings(roots@) == visible_roots(project.worktrees.pairs().subrange(0, i as int)),
        decreases wn - i,
    {
        proof {
            assert(project.worktrees.pairs().subrange(0, i + 1 as int).drop_last()
                =~= project.worktrees.pairs().subrange(0, i as int));
        }
        let ghost old_roots = roots@;
        let wt = project.worktrees.val_at(i);
        if wt.visible {
            roots.push(wt.root_name.clone());
            proof {
                assert(views_of_strings(roots@) =~= views_of_strings(old_roots).push(
                    wt.root_name@,
                ));
            }
        }
        proof {
            assert(views_of_strings(roots@) =~= visible_roots(
                project.worktrees.pairs().subrange(0, i + 1 as int),
            ));
        }
        i = i + 1;
    }
    proof {
        assert(project.worktrees.pairs().subrange(0, wn as int) =~= project.worktrees.pairs());
        assert(views_of_strings(roots@) =~= visible_roots(project.worktrees.pairs()));
    }
    let gn = project.guests.len();
    let mut guests: Vec<u64> = Vec::new();
    let mut k: usize = 0;
    while k < gn
        invariant
            gn == project.guests.pairs().len(),
            k <= gn,
            guests@.len() == k,
            forall|j: int|
                0 <= j < k ==> #[trigger] guests@[j] == project.guests.pairs()[j].1.user_id,
        decreases gn - k,
    {
        guests.push(project.guests.val_at(k).user_id);
        k = k + 1;
    }
    proof {
        assert(guests@ =~= guest_user_ids(project.guests.pairs()));
    }
    ProjectMetadata { id: project_id, visible_worktree_root_names: roots, guests }
}

/// Whether one user-facing project summary faithfully describes an online
/// project of this user in the store.
pub open spec fn metadata_valid(s: Store, user_id: UserId, md: ProjectMetadata) -> bool {
    &&& s.projects@.contains_key(md.id)
    &&& s.projects@[md.id].online
    &&& s.projects@[md.id].host.user_id == user_id
    &&& views_of_strings(md.visible_worktree_root_names@) == visible_roots(
        s.projects@[md.id].worktrees.pairs(),
    )
    &&& md.guests@ == guest_user_ids(s.projects@[md.id].guests.pairs())
}

/// What `project_metadata_for_user` returns: only faithful summaries of the
/// user's online projects, each project listed at most once, and one entry
/// for every project whose host connection belongs to the user.
#[verifier::opaque]
pub open spec fn metadata_list_valid(s: Store, user_id: UserId, r: Seq<ProjectMetadata>) -> bool {
    &&& forall|i: int| 0 <= i < r.len() ==> metadata_valid(s, user_id, #[trigger] r[i])
    &&& forall|i: int, j: int|
        0 <= i < j < r.len() ==> (#[trigger] r[i]).id != (#[trigger] r[j]).id
    &&& forall|p: u64|
        #[trigger] s.projects@.contains_key(p) && s.projects@[p].online
            && s.projects@[p].host.user_id == user_id && s.connections@.contains_key(
            s.projects@[p].host_connection_id,
        ) && s.connections@[s.projects@[p].host_connection_id].user_id == user_id ==> exists|
            i: int,
        | 0 <= i < r.len() && (#[trigger] r[i]).id == p
}

/// What `add_connection` does: a fresh connection row appears and the
/// user's connection set gains it (the row being created when needed).
pub open spec fn add_connection_rel(
    s0: Store,
    s1: Store,
    connection_id: ConnectionId,
    user_id: UserId,
    admin: bool,
) -> bool {
    &&& s1.connections@.dom() =~= s0.connections@.dom().insert(connection_id)
    &&& s1.connections@.remove(connection_id) =~= s0.connections@
    &&& ({
        let c = s1.connections@[connection_id];
        &&& c.user_id == user_id
        &&& c.admin == admin
        &&& c.projects@ =~= Set::<u64>::empty()
        &&& c.requested_projects@ =~= Set::<u64>::empty()
        &&& c.channels@ =~= Set::<u64>::empty()
    })
    &&& s1.connections_by_user_id@.dom() =~= s0.connections_by_user_id@.dom().insert(user_id)
    &&& s1.connections_by_user_id@.remove(user_id) =~= s0.connections_by_user_id@.remove(
        user_id,
    )
    &&& ({
        let u1 = s1.connections_by_user_id@[user_id];
        if s0.connections_by_user_id@.contains_key(user_id) {
            let u0 = s0.connections_by_user_id@[user_id];
            u1.connection_ids@ =~= u0.connection_ids@.insert(connection_id) && u1.room
                == u0.room
        } else {
            u1.connection_ids@ =~= Set::<u64>::empty().insert(connection_id) && u1.room is None
        }
    })
    &&& s1.rooms == s0.rooms
    &&& s1.projects == s0.projects
    &&& s1.channels == s0.channels
    &&& s1.next_room_id == s0.next_room_id
}

/// What a successful `remove_connection` does to the store (the returned
/// record aside).
pub open spec fn remove_connection_rel(s0: Store, s1: Store, connection_id: ConnectionId) -> bool {
    let c0 = s0.connections@[connection_id];
    let uid = c0.user_id;
    &&& s0.connections@.contains_key(connection_id)
    &&& s1.connections@.dom() =~= s0.connections@.dom().remove(connection_id)
    &&& forall|c: u64|
        #[trigger] s1.connections@.contains_key(c) ==> {
            let cc0 = s0.connections@[c];
            let cc1 = s1.connections@[c];
            &&& cc1.user_id == cc0.user_id
            &&& cc1.admin == cc0.admin
            &&& cc1.channels == cc0.channels
        }
    &&& forall|c: u64, p: u64|
        s1.connections@.contains_key(c) ==> ((
        #[trigger] s1.connections@[c].projects@.contains(p)) <==> (
        s0.connections@[c].projects@.contains(p) && !(c0.projects@.contains(p)
            && s0.projects@[p].host_connection_id == connection_id
            && s0.projects@[p].guests@.contains_key(c))))
    &&& forall|c: u64, p: u64|
        s1.connections@.contains_key(c) ==> ((
        #[trigger] s1.connections@[c].requested_projects@.contains(p)) <==> (
        s0.connections@[c].requested_projects@.contains(p) && !(c0.projects@.contains(p)
            && s0.projects@[p].host_connection_id == connection_id
            && s0.projects@[p].join_requests@.contains_key(s0.connections@[c].user_id))))
    &&& forall|p: u64|
        #[trigger] s1.projects@.contains_key(p) <==> (s0.projects@.contains_key(p) && !(
        c0.projects@.contains(p) && s0.projects@[p].host_connection_id == connection_id))
    &&& forall|p: u64|
        #[trigger] s1.projects@.contains_key(p) ==> (if c0.projects@.contains(p) {
            left_project_effect(s0.projects@[p], s1.projects@[p], connection_id, uid)
        } else if c0.requested_projects@.contains(p) {
            scrubbed_join_requests(s0.projects@[p], s1.projects@[p], connection_id)
        } else {
            s1.projects@[p] == s0.projects@[p]
        })
    &&& forall|ch: u64|
        #[trigger] s1.channels@.contains_key(ch) <==> (s0.channels@.contains_key(ch) && !(
        c0.channels@.contains(ch) && s0.channels@[ch].connection_ids@.remove(connection_id)
            =~= Set::<u64>::empty()))
    &&& forall|ch: u64|
        #[trigger] s1.channels@.contains_key(ch) ==> (if c0.channels@.contains(ch) {
            s1.channels@[ch].connection_ids@ =~= s0.channels@[ch].connection_ids@.remove(
                connection_id,
            )
        } else {
            s1.channels@[ch] == s0.channels@[ch]
        })
    &&& ({
        let set0 = s0.connections_by_user_id@[uid].connection_ids@;
        if set0.remove(connection_id) =~= Set::<u64>::empty() {
            s1.connections_by_user_id@ =~= s0.connections_by_user_id@.remove(uid)
        } else {
            &&& s1.connections_by_user_id@.dom() =~= s0.connections_by_user_id@.dom()
            &&& s1.connections_by_user_id@.remove(uid) =~= s0.connections_by_user_id@.remove(
                uid,
            )
            &&& s1.connections_by_user_id@[uid].connection_ids@ =~= set0.remove(connection_id)
            &&& s1.connections_by_user_id@[uid].room == s0.connections_by_user_id@[uid].room
        }
    })
    &&& s1.rooms == s0.rooms
    &&& s1.next_room_id == s0.next_room_id
}

/// What `join_channel` does when the connection exists.
pub open spec fn join_channel_rel(
    s0: Store,
    s1: Store,
    connection_id: ConnectionId,
    channel_id: ChannelId,
) -> bool {
    let c0 = s0.connections@[connection_id];
    let c1 = s1.connections@[connection_id];
    &&& s0.connections@.contains_key(connection_id)
    &&& s1.connections@.dom() =~= s0.connections@.dom()
    &&& s1.connections@.remove(connection_id) =~= s0.connections@.remove(connection_id)
    &&& c1.user_id == c0.user_id
    &&& c1.admin == c0.admin
    &&& c1.projects == c0.projects
    &&& c1.requested_projects == c0.requested_projects
    &&& c1.channels@ =~= c0.channels@.insert(channel_id)
    &&& s1.channels@.dom() =~= s0.channels@.dom().insert(channel_id)
    &&& s1.channels@.remove(channel_id) =~= s0.channels@.remove(channel_id)
    &&& s1.channels@[channel_id].connection_ids@ =~= (if s0.channels@.contains_key(channel_id) {
        s0.channels@[channel_id].connection_ids@.insert(connection_id)
    } else {
        Set::<u64>::empty().insert(connection_id)
    })
    &&& s1.connections_by_user_id == s0.connections_by_user_id
    &&& s1.rooms == s0.rooms
    &&& s1.projects == s0.projects
    &&& s1.next_room_id == s0.next_room_id
}

/// What `leave_channel` does when the connection exists.
pub open spec fn leave_channel_rel(
    s0: Store,
    s1: Store,
    connection_id: ConnectionId,
    channel_id: ChannelId,
) -> bool {
    let c0 = s0.connections@[connection_id];
    let c1 = s1.connections@[connection_id];
    &&& s0.connections@.contains_key(connection_id)
    &&& s1.connections@.dom() =~= s0.connections@.dom()
    &&& s1.connections@.remove(connection_id) =~= s0.connections@.remove(connection_id)
    &&& c1.user_id == c0.user_id
    &&& c1.admin == c0.admin
    &&& c1.projects == c0.projects
    &&& c1.requested_projects == c0.requested_projects
    &&& c1.channels@ =~= c0.channels@.remove(channel_id)
    &&& (if !s0.channels@.contains_key(channel_id) {
        s1.channels == s0.channels
    } else {
        let m = s0.channels@[channel_id].connection_ids@.remove(connection_id);
        if m =~= Set::<u64>::empty() {
            s1.channels@ =~= s0.channels@.remove(channel_id)
        } else {
            &&& s1.channels@.dom() =~= s0.channels@.dom()
            &&& s1.channels@.remove(channel_id) =~= s0.channels@.remove(channel_id)
            &&& s1.channels@[channel_id].connection_ids@ =~= m
        }
    })
    &&& s1.connections_by_user_id == s0.connections_by_user_id
    &&& s1.rooms == s0.rooms
    &&& s1.projects == s0.projects
    &&& s1.next_room_id == s0.next_room_id
}

/// What a successful `register_project` does.
pub open spec fn register_project_rel(
    s0: Store,
    s1: Store,
    host_connection_id: ConnectionId,
    project_id: ProjectId,
    online: bool,
) -> bool {
    let c0 = s0.connections@[host_connection_id];
    let c1 = s1.connections@[host_connection_id];
    let pr = s1.projects@[project_id];
    &&& s0.connections@.contains_key(host_connection_id)
    &&& s1.connections@.dom() =~= s0.connections@.dom()
    &&& s1.connections@.remove(host_connection_id) =~= s0.connections@.remove(
        host_connection_id,
    )
    &&& c1.user_id == c0.user_id
    &&& c1.admin == c0.admin
    &&& c1.projects@ =~= c0.projects@.insert(project_id)
    &&& c1.requested_projects == c0.requested_projects
    &&& c1.channels == c0.channels
    &&& s1.projects@.dom() =~= s0.projects@.dom().insert(project_id)
    &&& s1.projects@.remove(project_id) =~= s0.projects@
    &&& pr.online == online
    &&& pr.host_connection_id == host_connection_id
    &&& pr.host.replica_id == 0
    &&& pr.host.user_id == c0.user_id
    &&& pr.host.last_activity is None
    &&& pr.host.admin == c0.admin
    &&& pr.guests@ =~= Map::<u64, Collaborator>::empty()
    &&& pr.join_requests@ =~= Map::<u64, Vec<Receipt>>::empty()
    &&& pr.active_replica_ids@ =~= Set::<u64>::empty()
    &&& pr.worktrees@ =~= Map::<u64, Worktree>::empty()
    &&& pr.language_servers@ == Seq::<LanguageServer>::empty()
    &&& s1.connections_by_user_id == s0.connections_by_user_id
    &&& s1.rooms == s0.rooms
    &&& s1.channels == s0.channels
    &&& s1.next_room_id == s0.next_room_id
}

/// What a successful `unregister_project` does.
pub open spec fn unregister_project_rel(
    s0: Store,
    s1: Store,
    project_id: ProjectId,
    connection_id: ConnectionId,
) -> bool {
    let pr0 = s0.projects@[project_id];
    &&& s0.projects@.contains_key(project_id)
    &&& pr0.host_connection_id == connection_id
    &&& s1.projects@ =~= s0.projects@.remove(project_id)
    &&& s1.connections@.dom() =~= s0.connections@.dom()
    &&& forall|c: u64|
        #[trigger] s1.connections@.contains_key(c) ==> {
            let c0 = s0.connections@[c];
            let c1 = s1.connections@[c];
            &&& c1.user_id == c0.user_id
            &&& c1.admin == c0.admin
            &&& c1.channels == c0.channels
            &&& c1.projects@ =~= (if c == connection_id || pr0.guests@.contains_key(c) {
                c0.projects@.remove(project_id)
            } else {
                c0.projects@
            })
            &&& c1.requested_projects@ =~= (if pr0.join_requests@.contains_key(c0.user_id) {
                c0.requested_projects@.remove(project_id)
            } else {
                c0.requested_projects@
            })
        }
    &&& s1.connections_by_user_id == s0.connections_by_user_id
    &&& s1.rooms == s0.rooms
    &&& s1.channels == s0.channels
    &&& s1.next_room_id == s0.next_room_id
}

/// What a successful `request_join_project` does.
pub open spec fn request_join_rel(
    s0: Store,
    s1: Store,
    requester_id: UserId,
    project_id: ProjectId,
    receipt: Receipt,
) -> bool {
    let c0 = s0.connections@[receipt.sender_id];
    let c1 = s1.connections@[receipt.sender_id];
    let pr0 = s0.projects@[project_id];
    let pr1 = s1.projects@[project_id];
    let had = pr0.join_requests@.contains_key(requester_id);
    &&& s0.connections@.contains_key(receipt.sender_id)
    &&& s0.projects@.contains_key(project_id)
    &&& pr0.online
    &&& s1.connections@.dom() =~= s0.connections@.dom()
    &&& s1.connections@.remove(receipt.sender_id) =~= s0.connections@.remove(receipt.sender_id)
    &&& c1.user_id == c0.user_id
    &&& c1.admin == c0.admin
    &&& c1.projects == c0.projects
    &&& c1.channels == c0.channels
    &&& c1.requested_projects@ =~= c0.requested_projects@.insert(project_id)
    &&& s1.projects@.dom() =~= s0.projects@.dom()
    &&& s1.projects@.remove(project_id) =~= s0.projects@.remove(project_id)
    &&& pr1.online == pr0.online
    &&& pr1.host_connection_id == pr0.host_connection_id
    &&& pr1.host == pr0.host
    &&& pr1.guests == pr0.guests
    &&& pr1.active_replica_ids == pr0.active_replica_ids
    &&& pr1.worktrees == pr0.worktrees
    &&& pr1.language_servers == pr0.language_servers
    &&& pr1.join_requests@.dom() =~= pr0.join_requests@.dom().insert(requester_id)
    &&& pr1.join_requests@.remove(requester_id) =~= pr0.join_requests@.remove(requester_id)
    &&& (if had && receipt_from(pr0.join_requests@[requester_id]@, receipt.sender_id) {
        pr1.join_requests@[requester_id]@ == pr0.join_requests@[requester_id]@
    } else if had {
        pr1.join_requests@[requester_id]@ == pr0.join_requests@[requester_id]@.push(receipt)
    } else {
        pr1.join_requests@[requester_id]@ == Seq::<Receipt>::empty().push(receipt)
    })
    &&& s1.connections_by_user_id == s0.connections_by_user_id
    &&& s1.rooms == s0.rooms
    &&& s1.channels == s0.channels
    &&& s1.next_room_id == s0.next_room_id
}

/// Spec-level sameness of connection rows: every field agrees, the sets by
/// their contents.
pub open spec fn conn_equiv(a: ConnectionState, b: ConnectionState) -> bool {
    &&& a.user_id == b.user_id
    &&& a.admin == b.admin
    &&& a.projects@ =~= b.projects@
    &&& a.requested_projects@ =~= b.requested_projects@
    &&& a.channels@ =~= b.channels@
}

/// Spec-level sameness of user rows.
pub open spec fn user_equiv(a: UserConnectionState, b: UserConnectionState) -> bool {
    a.connection_ids@ =~= b.connection_ids@ && a.room == b.room
}

/// Spec-level sameness of stores: the same rows everywhere, sets compared by
/// contents, project and room rows by value.
pub open spec fn store_equiv(a: Store, b: Store) -> bool {
    &&& a.connections@.dom() =~= b.connections@.dom()
    &&& forall|c: u64|
        #[trigger] a.connections@.contains_key(c) ==> conn_equiv(
            a.connections@[c],
            b.connections@[c],
        )
    &&& a.connections_by_user_id@.dom() =~= b.connections_by_user_id@.dom()
    &&& forall|u: u64|
        #[trigger] a.connections_by_user_id@.contains_key(u) ==> user_equiv(
            a.connections_by_user_id@[u],
            b.connections_by_user_id@[u],
        )
    &&& a.rooms@ =~= b.rooms@
    &&& a.projects@ =~= b.projects@
    &&& a.channels@.dom() =~= b.channels@.dom()
    &&& forall|ch: u64|
        #[trigger] a.channels@.contains_key(ch) ==> a.channels@[ch].connection_ids@
            =~= b.channels@[ch].connection_ids@
    &&& a.next_room_id == b.next_room_id
}

/// How `register_project_activity` changes the store for a given activity
/// stamp `now`: the matching collaborator's stamp is refreshed and nothing
/// else moves; `UnknownProject` comes exactly when the caller is neither
/// host nor guest of an existing project.
pub open spec fn register_activity_rel(
    s0: Store,
    s1: Store,
    project_id: ProjectId,
    connection_id: ConnectionId,
    now: i64,
    r: Result<(), StoreError>,
) -> bool {
    match r {
                Ok(()) => {
                    let pr0 = s0.projects@[project_id];
                    let pr1 = s1.projects@[project_id];
                    &&& s0.projects@.contains_key(project_id)
                    &&& (pr0.host_connection_id == connection_id || pr0.guests@.contains_key(
                        connection_id,
                    ))
                    &&& s1.projects@.dom() =~= s0.projects@.dom()
                    &&& s1.projects@.remove(project_id) =~= s0.projects@.remove(
                        project_id,
                    )
                    &&& pr1.online == pr0.online
                    &&& pr1.host_connection_id == pr0.host_connection_id
                    &&& pr1.join_requests == pr0.join_requests
                    &&& pr1.active_replica_ids == pr0.active_replica_ids
                    &&& pr1.worktrees == pr0.worktrees
                    &&& pr1.language_servers == pr0.language_servers
                    &&& (if pr0.host_connection_id == connection_id {
                        &&& pr1.host.last_activity == Some(now)
                        &&& pr1.host.replica_id == pr0.host.replica_id
                        &&& pr1.host.user_id == pr0.host.user_id
                        &&& pr1.host.admin == pr0.host.admin
                        &&& pr1.guests == pr0.guests
                    } else {
                        &&& pr1.host == pr0.host
                        &&& pr1.guests@.dom() =~= pr0.guests@.dom()
                        &&& pr1.guests@.remove(connection_id) =~= pr0.guests@.remove(
                            connection_id,
                        )
                        &&& pr1.guests@[connection_id].last_activity == Some(now)
                        &&& pr1.guests@[connection_id].replica_id
                            == pr0.guests@[connection_id].replica_id
                        &&& pr1.guests@[connection_id].user_id
                            == pr0.guests@[connection_id].user_id
                        &&& pr1.guests@[connection_id].admin == pr0.guests@[connection_id].admin
                    })
                    &&& s1.connections == s0.connections
                    &&& s1.connections_by_user_id == s0.connections_by_user_id
                    &&& s1.rooms == s0.rooms
                    &&& s1.channels == s0.channels
                    &&& s1.next_room_id == s0.next_room_id
                },
                Err(e) => e == StoreError::UnknownProject && s1 == s0 && (!s0.projects@.contains_key(project_id) || (s0.projects@[project_id].host_connection_id != connection_id && !s0.projects@[project_id].guests@.contains_key(connection_id))),
            }
}

/// The (user id, notify flag) pairs of the accepted contact entries, in
/// order.
pub open spec fn accepted_pairs(s: Seq<ContactSource>) -> Seq<(UserId, bool)>
    decreases s.len(),
{
    if s.len() == 0 {
        Seq::empty()
    } else {
        let rest = accepted_pairs(s.drop_last());
        match s.last() {
            ContactSource::Accepted { user_id, should_notify } => rest.push(
                (user_id, should_notify),
            ),
            _ => rest,
        }
    }
}

/// The user ids of the outgoing contact entries, in order.
pub open spec fn outgoing_ids(s: Seq<ContactSource>) -> Seq<UserId>
    decreases s.len(),
{
    if s.len() == 0 {
        Seq::empty()
    } else {
        let rest = outgoing_ids(s.drop_last());
        match s.last() {
            ContactSource::Outgoing { user_id } => rest.push(user_id),
            _ => rest,
        }
    }
}

/// The (user id, notify flag) pairs of the incoming contact entries, in
/// order.
pub open spec fn incoming_pairs(s: Seq<ContactSource>) -> Seq<(UserId, bool)>
    decreases s.len(),
{
    if s.len() == 0 {
        Seq::empty()
    } else {
        let rest = incoming_pairs(s.drop_last());
        match s.last() {
            ContactSource::Incoming { user_id, should_notify } => rest.push(
                (user_id, should_notify),
            ),
            _ => rest,
        }
    }
}

/// Whether `u` appears among the room's joined participants.
pub open spec fn room_has_participant(room: Room, u: UserId) -> bool {
    exists|i: int|
        0 <= i < room.participants@.len() && (#[trigger] room.participants@[i]).user_id == u
}

/// Whether one of the receipts was sent from the given connection.
pub open spec fn receipt_from(rs: Seq<Receipt>, connection_id: ConnectionId) -> bool {
    exists|i: int| 0 <= i < rs.len() && (#[trigger] rs[i]).sender_id == connection_id
}

/// No two receipts of the list share a sender connection.
pub open spec fn distinct_senders(rs: Seq<Receipt>) -> bool {
    forall|i: int, j: int|
        0 <= i < j < rs.len() ==> (#[trigger] rs[i]).sender_id != (#[trigger] rs[j]).sender_id
}

/// The receipt list with every receipt from `connection_id` removed.
pub open spec fn receipts_without_sender(rs: Seq<Receipt>, connection_id: ConnectionId) -> Seq<
    Receipt,
> {
    rs.filter(|r: Receipt| r.sender_id != connection_id)
}

proof fn lemma_receipts_without_contains(rs: Seq<Receipt>, connection_id: u64)
    ensures
        forall|x: Receipt|
            #[trigger] receipts_without_sender(rs, connection_id).contains(x) ==> rs.contains(
                x,
            ),
    decreases rs.len(),
{
    if rs.len() > 0 {
        lemma_receipts_without_contains(rs.drop_last(), connection_id);
        lemma_receipts_without_sender_push(rs.drop_last(), connection_id, rs.last());
        assert(rs.drop_last().push(rs.last()) =~= rs);
        assert forall|x: Receipt|
            #[trigger] receipts_without_sender(rs, connection_id).contains(x) implies rs.contains(
            x,
        ) by {
            let f = receipts_without_sender(rs, connection_id);
            let fd = receipts_without_sender(rs.drop_last(), connection_id);
            let j = choose|j: int| 0 <= j < f.len() && f[j] == x;
            if rs.last().sender_id != connection_id && j == f.len() - 1 {
                assert(x == rs.last());
                assert(rs[rs.len() - 1] == x);
            } else {
                assert(fd[j] == x);
                assert(fd.contains(x));
                let jj = choose|jj: int| 0 <= jj < rs.drop_last().len() && rs.drop_last()[jj] == x;
                assert(rs[jj] == x);
            }
        }
    }
}

proof fn lemma_receipts_without_distinct(rs: Seq<Receipt>, connection_id: u64)
    requires
        distinct_senders(rs),
    ensures
        distinct_senders(receipts_without_sender(rs, connection_id)),
    decreases rs.len(),
{
    if rs.len() > 0 {
        assert(distinct_senders(rs.drop_last())) by {
            assert forall|a: int, b: int|
                0 <= a < b < rs.drop_last().len() implies (#[trigger] rs.drop_last()[a]).sender_id
                != (#[trigger] rs.drop_last()[b]).sender_id by {
                assert(rs[a] == rs.drop_last()[a]);
                assert(rs[b] == rs.drop_last()[b]);
            }
        }
        lemma_receipts_without_distinct(rs.drop_last(), connection_id);
        lemma_receipts_without_contains(rs.drop_last(), connection_id);
        lemma_receipts_without_sender_push(rs.drop_last(), connection_id, rs.last());
        assert(rs.drop_last().push(rs.last()) =~= rs);
        let f = receipts_without_sender(rs, connection_id);
        let fd = receipts_without_sender(rs.drop_last(), connection_id);
        assert forall|a: int, b: int| 0 <= a < b < f.len() implies (#[trigger] f[a]).sender_id
            != (#[trigger] f[b]).sender_id by {
            if rs.last().sender_id != connection_id && b == f.len() - 1 {
                assert(f[b] == rs.last());
                assert(f[a] == fd[a]);
                assert(fd.contains(fd[a]));
                assert(rs.drop_last().contains(fd[a]));
                let jj = choose|jj: int|
                    0 <= jj < rs.drop_last().len() && rs.drop_last()[jj] == fd[a];
                assert(rs[jj] == fd[a]);
                assert(rs[rs.len() - 1] == rs.last());
            } else {
                assert(f[a] == fd[a]);
                assert(f[b] == fd[b]);
            }
        }
    }
}

proof fn lemma_receipts_without_sender_push(rs: Seq<Receipt>, connection_id: u64, x: Receipt)
    ensures
        receipts_without_sender(rs.push(x), connection_id) == (if x.sender_id != connection_id {
            receipts_without_sender(rs, connection_id).push(x)
        } else {
            receipts_without_sender(rs, connection_id)
        }),
{
    reveal_with_fuel(Seq::filter, 2);
    assert(rs.push(x).drop_last() =~= rs);
    assert(rs.push(x).last() == x);
}

fn receipts_from_connection(rs: &Vec<Receipt>, connection_id: u64) -> (r: bool)
    ensures
        r == receipt_from(rs@, connection_id),
{
    let n = rs.len();
    let mut i: usize = 0;
    while i < n
        invariant
            i <= n,
            n == rs@.len(),
            forall|j: int| 0 <= j < i ==> (#[trigger] rs@[j]).sender_id != connection_id,
        decreases n - i,
    {
        if rs[i].sender_id == connection_id {
            return true;
        }
        i = i + 1;
    }
    false
}

fn retain_other_senders(rs: &Vec<Receipt>, connection_id: u64) -> (r: Vec<Receipt>)
    ensures
        r@ == receipts_without_sender(rs@, connection_id),
{
    let n = rs.len();
    let mut r: Vec<Receipt> = Vec::new();
    let mut i: usize = 0;
    proof {
        assert(rs@.subrange(0, 0) =~= Seq::<Receipt>::empty());
    }
    while i < n
        invariant
            i <= n,
            n == rs@.len(),
            r@ == receipts_without_sender(rs@.subrange(0, i as int), connection_id),
        decreases n - i,
    {
        proof {
            assert(rs@.subrange(0, i + 1 as int) =~= rs@.subrange(0, i as int).push(
                rs@[i as int],
            ));
            lemma_receipts_without_sender_push(
                rs@.subrange(0, i as int),
                connection_id,
                rs@[i as int],
            );
        }
        if rs[i].sender_id != connection_id {
            r.push(rs[i]);
        }
        i = i + 1;
    }
    proof {
        assert(rs@.subrange(0, n as int) =~= rs@);
    }
    r
}

/// How denying one user's join requests changes the project row: the
/// requester's entry is gone and the host's activity is stamped.
pub open spec fn deny_project_effect(pr0: Project, pr1: Project, requester_id: UserId, now: i64) -> bool {
    &&& pr1.online == pr0.online
    &&& pr1.host_connection_id == pr0.host_connection_id
    &&& pr1.host.replica_id == pr0.host.replica_id
    &&& pr1.host.user_id == pr0.host.user_id
    &&& pr1.host.admin == pr0.host.admin
    &&& pr1.host.last_activity == Some(now)
    &&& pr1.guests == pr0.guests
    &&& pr1.active_replica_ids == pr0.active_replica_ids
    &&& pr1.worktrees == pr0.worktrees
    &&& pr1.language_servers == pr0.language_servers
    &&& pr1.join_requests@ =~= pr0.join_requests@.remove(requester_id)
}

/// What `deny_join_project_request` does, for a given activity stamp `now`:
/// `None` leaves the store alone and comes exactly when the project is
/// missing, the responder is not its host, or the user has no pending
/// request; otherwise the requester's receipts are returned and every
/// sender's `requested_projects` entry for this project is cleared.
pub open spec fn deny_rel(
    s0: Store,
    s1: Store,
    responder_connection_id: ConnectionId,
    requester_id: UserId,
    project_id: ProjectId,
    now: i64,
    r: Option<Vec<Receipt>>,
) -> bool {
    match r {
        None => s1 == s0 && (!s0.projects@.contains_key(project_id)
            || s0.projects@[project_id].host_connection_id != responder_connection_id
            || !s0.projects@[project_id].join_requests@.contains_key(requester_id)),
        Some(receipts) => {
            let pr0 = s0.projects@[project_id];
            &&& s0.projects@.contains_key(project_id)
            &&& pr0.host_connection_id == responder_connection_id
            &&& pr0.join_requests@.contains_key(requester_id)
            &&& receipts@ == pr0.join_requests@[requester_id]@
            &&& s1.projects@.dom() =~= s0.projects@.dom()
            &&& s1.projects@.remove(project_id) =~= s0.projects@.remove(project_id)
            &&& deny_project_effect(pr0, s1.projects@[project_id], requester_id, now)
            &&& s1.connections@.dom() =~= s0.connections@.dom()
            &&& forall|c: u64|
                #[trigger] s1.connections@.contains_key(c) ==> {
                    let c0 = s0.connections@[c];
                    let c1 = s1.connections@[c];
                    &&& c1.user_id == c0.user_id
                    &&& c1.admin == c0.admin
                    &&& c1.projects == c0.projects
                    &&& c1.channels == c0.channels
                    &&& c1.requested_projects@ =~= (if receipt_from(receipts@, c) {
                        c0.requested_projects@.remove(project_id)
                    } else {
                        c0.requested_projects@
                    })
                }
            &&& s1.connections_by_user_id == s0.connections_by_user_id
            &&& s1.rooms == s0.rooms
            &&& s1.channels == s0.channels
            &&& s1.next_room_id == s0.next_room_id
        },
    }
}

/// The positive identifiers below `r`.
pub open spec fn range_set(r: u64) -> Set<u64> {
    Set::new(|x: u64| 1 <= x < r)
}

proof fn lemma_range_len(r: u64)
    ensures
        range_set(r).finite(),
        range_set(r).len() == (if r >= 1 {
            (r - 1) as int
        } else {
            0
        }),
    decreases r,
{
    if r > 1 {
        lemma_range_len((r - 1) as u64);
        assert(range_set(r) =~= range_set((r - 1) as u64).insert((r - 1) as u64));
    } else {
        assert(range_set(r) =~= Set::<u64>::empty());
    }
}

/// The smallest positive replica id absent from `active` — always, including
/// after earlier ids were freed again by departing guests.
pub fn alloc_replica_id(active: &IdSet) -> (r: u64)
    requires
        active.wf(),
        active.seq().len() < u64::MAX,
    ensures
        1 <= r,
        !active@.contains(r),
        forall|m: u64| 1 <= m < r ==> active@.contains(m),
        r <= active.seq().len() + 1,
{
    proof {
        active.lemma_view();
    }
    let mut r: u64 = 1;
    while active.contains(r)
        invariant
            active.wf(),
            active.seq().len() < u64::MAX,
            active@.len() == active.seq().len(),
            active@.finite(),
            forall|m: u64| 1 <= m < r ==> active@.contains(m),
            1 <= r <= active.seq().len() + 1,
        decreases active.seq().len() + 1 - r,
    {
        proof {
            assert(range_set(r).insert(r) <= active@) by {
                assert forall|m: u64| range_set(r).insert(r).contains(m) implies active@.contains(
                    m,
                ) by {}
            }
            lemma_range_len(r);
            assert(!range_set(r).contains(r));
            assert(range_set(r).insert(r).len() == r as int);
            vstd::set_lib::lemma_len_subset(range_set(r).insert(r), active@);
        }
        r = r + 1;
    }
    r
}

/// The first components of the receipt/replica pairs, in order.
pub open spec fn firsts(pairs: Seq<(Receipt, ReplicaId)>) -> Seq<Receipt> {
    pairs.map_values(|p: (Receipt, ReplicaId)| p.0)
}

/// The receipts whose sender is a live connection that is not already a
/// guest: exactly those that an accept promotes.
pub open spec fn promotable_receipts(
    rs: Seq<Receipt>,
    conns: Map<u64, ConnectionState>,
    guests: Map<u64, Collaborator>,
) -> Seq<Receipt> {
    rs.filter(|r: Receipt| conns.contains_key(r.sender_id) && !guests.contains_key(r.sender_id))
}

pub proof fn lemma_promotable_receipts_push(
    rs: Seq<Receipt>,
    conns: Map<u64, ConnectionState>,
    guests: Map<u64, Collaborator>,
    x: Receipt,
)
    ensures
        promotable_receipts(rs.push(x), conns, guests) == (if conns.contains_key(x.sender_id)
            && !guests.contains_key(x.sender_id) {
            promotable_receipts(rs, conns, guests).push(x)
        } else {
            promotable_receipts(rs, conns, guests)
        }),
{
    reveal_with_fuel(Seq::filter, 2);
    assert(rs.push(x).drop_last() =~= rs);
    assert(rs.push(x).last() == x);
}

/// Whether replica id `m` is taken once the first `k` pairs were assigned:
/// either it was active before, or one of those pairs claimed it.
pub open spec fn taken_replica(
    active0: Set<u64>,
    pairs: Seq<(Receipt, ReplicaId)>,
    k: int,
    m: u64,
) -> bool {
    active0.contains(m) || exists|j: int| 0 <= j < k && (#[trigger] pairs[j]).1 as u64 == m
}

/// How accepting one user's join requests changes the store, for a given
/// activity stamp `now`. `None` leaves the store alone and comes exactly
/// when the project is missing, the responder is not its host, or the user
/// has no pending request. Otherwise every receipt whose sender is still
/// connected and not already a guest is promoted, in order, each getting the
/// smallest replica id that was free at its turn.
pub open spec fn accept_rel(
    s0: Store,
    s1: Store,
    responder_connection_id: ConnectionId,
    requester_id: UserId,
    project_id: ProjectId,
    now: i64,
    r: Option<Vec<(Receipt, ReplicaId)>>,
) -> bool {
    match r {
        None => s1 == s0 && (!s0.projects@.contains_key(project_id)
            || s0.projects@[project_id].host_connection_id != responder_connection_id
            || !s0.projects@[project_id].join_requests@.contains_key(requester_id)),
        Some(pairs) => {
            let pr0 = s0.projects@[project_id];
            let pr1 = s1.projects@[project_id];
            let receipts = pr0.join_requests@[requester_id]@;
            &&& s0.projects@.contains_key(project_id)
            &&& pr0.host_connection_id == responder_connection_id
            &&& pr0.join_requests@.contains_key(requester_id)
            &&& firsts(pairs@) == promotable_receipts(receipts, s0.connections@, pr0.guests@)
            &&& s1.projects@.dom() =~= s0.projects@.dom()
            &&& s1.projects@.remove(project_id) =~= s0.projects@.remove(project_id)
            &&& pr1.online == pr0.online
            &&& pr1.host_connection_id == pr0.host_connection_id
            &&& pr1.host.replica_id == pr0.host.replica_id
            &&& pr1.host.user_id == pr0.host.user_id
            &&& pr1.host.admin == pr0.host.admin
            &&& pr1.host.last_activity == Some(now)
            &&& pr1.worktrees == pr0.worktrees
            &&& pr1.language_servers == pr0.language_servers
            &&& pr1.join_requests@ =~= pr0.join_requests@.remove(requester_id)
            &&& forall|g: u64|
                #[trigger] pr1.guests@.contains_key(g) <==> pr0.guests@.contains_key(g) || (
                receipt_from(receipts, g) && s0.connections@.contains_key(g))
            &&& forall|g: u64|
                #[trigger] pr0.guests@.contains_key(g) ==> pr1.guests@[g] == pr0.guests@[g]
            &&& forall|k: int|
                0 <= k < pairs@.len() ==> (#[trigger] pairs@[k]).1 as u64 >= 1 && !taken_replica(
                    pr0.active_replica_ids@,
                    pairs@,
                    k,
                    pairs@[k].1 as u64,
                ) && (forall|m: u64|
                    1 <= m < pairs@[k].1 as u64 ==> taken_replica(
                        pr0.active_replica_ids@,
                        pairs@,
                        k,
                        m,
                    ))
            &&& forall|k: int|
                0 <= k < pairs@.len() ==> pr1.guests@[(#[trigger] pairs@[k]).0.sender_id]
                    == (Collaborator {
                    replica_id: pairs@[k].1,
                    user_id: requester_id,
                    last_activity: Some(now),
                    admin: s0.connections@[pairs@[k].0.sender_id].admin,
                })
            &&& forall|rr: u64|
                #[trigger] pr1.active_replica_ids@.contains(rr)
                    <==> pr0.active_replica_ids@.contains(rr) || (exists|k: int|
                    0 <= k < pairs@.len() && (#[trigger] pairs@[k]).1 as u64 == rr)
            &&& s1.connections@.dom() =~= s0.connections@.dom()
            &&& forall|c: u64|
                #[trigger] s1.connections@.contains_key(c) ==> {
                    let c0 = s0.connections@[c];
                    let c1 = s1.connections@[c];
                    &&& c1.user_id == c0.user_id
                    &&& c1.admin == c0.admin
                    &&& c1.channels == c0.channels
                    &&& (if receipt_from(receipts, c) && !pr0.guests@.contains_key(c) {
                        c1.requested_projects@ =~= c0.requested_projects@.remove(project_id)
                            && c1.projects@ =~= c0.projects@.insert(project_id)
                    } else {
                        c1.requested_projects == c0.requested_projects && c1.projects
                            == c0.projects
                    })
                }
            &&& s1.connections_by_user_id == s0.connections_by_user_id
            &&& s1.rooms == s0.rooms
            &&& s1.channels == s0.channels
            &&& s1.next_room_id == s0.next_room_id
        },
    }
}

/// The project-link pieces carry over when one project's row changed without
/// touching its host id or its guest key set, connections staying as they
/// were.
proof fn lemma_project_members_after_value_change(s0: Store, s1: Store, pid: u64)
    requires
        s0.wf(),
        s0.links_ok(),
        s1.connections == s0.connections,
        s1.projects.wf(),
        s0.projects@.contains_key(pid),
        s1.projects@.dom() =~= s0.projects@.dom(),
        s1.projects@.remove(pid) =~= s0.projects@.remove(pid),
        s1.projects@[pid].host_connection_id == s0.projects@[pid].host_connection_id,
        s1.projects@[pid].guests@.dom() =~= s0.projects@[pid].guests@.dom(),
        s1.projects@[pid].wf(),
        s1.projects@[pid].replicas_ok(),
    ensures
        s1.connection_projects_consistent(),
        s1.project_members_consistent(),
        s1.replicas_consistent(),
        forall|p: u64| s1.projects@.contains_key(p) ==> (#[trigger] s1.projects@[p]).wf(),
{
    assert forall|p: u64| #[trigger] s1.projects@.contains_key(p) implies s1.projects@[p].wf()
        && s1.projects@[p].replicas_ok() by {
        if p != pid {
            assert(s1.projects@.remove(pid)[p] == s0.projects@.remove(pid)[p]);
            assert(s1.projects@[p] == s0.projects@[p]);
            assert(s0.projects@.contains_key(p));
        }
    }
    assert forall|c: u64, p: u64|
        s1.connections@.contains_key(c) && (#[trigger] s1.connections@[c].projects@.contains(
            p,
        )) implies s1.projects@.contains_key(p) && (s1.projects@[p].host_connection_id == c
        || s1.projects@[p].guests@.contains_key(c)) by {
        assert(s0.connections@.contains_key(c));
        assert(s0.connections@[c].projects@.contains(p));
        if p != pid {
            assert(s1.projects@.remove(pid)[p] == s0.projects@.remove(pid)[p]);
            assert(s1.projects@[p] == s0.projects@[p]);
        } else {
            if s0.projects@[p].guests@.contains_key(c) {
                assert(s1.projects@[p].guests@.contains_key(c));
            }
        }
    }
    assert forall|p: u64| #[trigger] s1.projects@.contains_key(p) implies {
        let pr = s1.projects@[p];
        &&& s1.connections@.contains_key(pr.host_connection_id)
        &&& s1.connections@[pr.host_connection_id].projects@.contains(p)
        &&& forall|g: u64|
            #[trigger] pr.guests@.contains_key(g) ==> s1.connections@.contains_key(g)
                && s1.connections@[g].projects@.contains(p)
    } by {
        let pr = s1.projects@[p];
        if p != pid {
            assert(s1.projects@.remove(pid)[p] == s0.projects@.remove(pid)[p]);
            assert(s1.projects@[p] == s0.projects@[p]);
        }
        assert(s0.projects@.contains_key(p));
        assert(pr.host_connection_id == s0.projects@[p].host_connection_id);
        assert(s0.connections@[pr.host_connection_id].projects@.contains(p));
        assert forall|g: u64| #[trigger] pr.guests@.contains_key(g) implies s1.connections@.contains_key(
            g,
        ) && s1.connections@[g].projects@.contains(p) by {
            assert(s0.projects@[p].guests@.contains_key(g));
            assert(s0.connections@.contains_key(g));
            assert(s0.connections@[g].projects@.contains(p));
        }
    }
}

fn sorted_ids(ids: Vec<u64>) -> (r: Vec<u64>)
    requires
        ids@.no_duplicates(),
    ensures
        r@.to_set() =~= ids@.to_set(),
        forall|a: int, b: int| 0 <= a < b < r@.len() ==> r@[a] < r@[b],
{
    let n = ids.len();
    let mut r: Vec<u64> = Vec::new();
    let mut i: usize = 0;
    proof {
        assert(r@.to_set() =~= ids@.subrange(0, 0).to_set()) by {
            assert(ids@.subrange(0, 0) =~= Seq::<u64>::empty());
            assert(!(exists|y: u64| r@.to_set().contains(y))) by {
                if exists|y: u64| r@.to_set().contains(y) {
                    let y = choose|y: u64| r@.to_set().contains(y);
                    assert(r@.contains(y));
                }
            }
        }
    }
    while i < n
        invariant
            ids@.no_duplicates(),
            n == ids@.len(),
            i <= n,
            r@.to_set() =~= ids@.subrange(0, i as int).to_set(),
            forall|a: int, b: int| 0 <= a < b < r@.len() ==> r@[a] < r@[b],
        decreases n - i,
    {
        let x = ids[i];
        proof {
            assert(!r@.contains(x)) by {
                if r@.contains(x) {
                    assert(r@.to_set().contains(x));
                    assert(ids@.subrange(0, i as int).contains(x));
                    let j = choose|j: int|
                        0 <= j < i && ids@.subrange(0, i as int)[j] == x;
                    assert(ids@[j] == ids@[i as int]);
                }
            }
        }
        let m = r.len();
        let mut j: usize = 0;
        while j < m && r[j] < x
            invariant
                m == r@.len(),
                j <= m,
                forall|k: int| 0 <= k < j ==> r@[k] < x,
            decreases m - j,
        {
            j = j + 1;
        }
        let ghost r0 = r@;
        r.insert(j, x);
        proof {
            assert(r@ == r0.insert(j as int, x));
            assert forall|a: int, b: int| 0 <= a < b < r@.len() implies r@[a] < r@[b] by {
                let ja = j as int;
                if a < ja && b < ja {
                    assert(r@[a] == r0[a] && r@[b] == r0[b]);
                } else if a < ja && b == ja {
                    assert(r@[a] == r0[a]);
                } else if a < ja && b > ja {
                    assert(r@[a] == r0[a] && r@[b] == r0[b - 1]);
                    assert(r0[a] < x);
                    if ja <= b - 1 {
                        assert(x != r0[b - 1]);
                        if ja < b - 1 {
                            assert(r0[ja] < r0[b - 1]);
                        }
                        assert(ja < r0.len() ==> !(r0[ja] < x));
                        assert(r0[b - 1] > x || r0[b - 1] >= r0[ja]);
                    }
                    assert(r@[b] > x || (ja < r0.len() && r0[b - 1] >= r0[ja] && !(r0[ja]
                        < x) && r0[ja] != x));
                } else if a == ja {
                    assert(r@[b] == r0[b - 1]);
                    assert(!(r0[b - 1] < x) || false) by {
                        if b - 1 == ja {
                            assert(!(r0[ja] < x));
                        } else {
                            assert(r0[ja] <= r0[b - 1]) by {
                                assert(r0[ja] < r0[b - 1]);
                            }
                            assert(!(r0[ja] < x));
                        }
                    }
                    assert(r0[b - 1] != x);
                } else {
                    assert(r@[a] == r0[a - 1] && r@[b] == r0[b - 1]);
                }
            }
            assert(r@.to_set() =~= ids@.subrange(0, i + 1 as int).to_set()) by {
                assert(ids@.subrange(0, i + 1 as int) =~= ids@.subrange(0, i as int).push(x));
                assert forall|y: u64|
                    r@.to_set().contains(y) <==> ids@.subrange(0, i + 1 as int).to_set().contains(
                        y,
                    ) by {
                    if r@.contains(y) {
                        let k = choose|k: int| 0 <= k < r@.len() && r@[k] == y;
                        if k == j as int {
                            assert(y == x);
                            assert(ids@.subrange(0, i + 1 as int)[i as int] == x);
                        } else if k < j as int {
                            assert(r0[k] == y);
                            assert(r0.contains(y));
                            assert(r0.to_set().contains(y));
                            assert(ids@.subrange(0, i as int).to_set().contains(y));
                            assert(ids@.subrange(0, i as int).contains(y));
                            let kk = choose|kk: int|
                                0 <= kk < i && ids@.subrange(0, i as int)[kk] == y;
                            assert(ids@.subrange(0, i + 1 as int)[kk] == y);
                        } else {
                            assert(r0[k - 1] == y);
                            assert(r0.contains(y));
                            assert(r0.to_set().contains(y));
                            assert(ids@.subrange(0, i as int).to_set().contains(y));
                            assert(ids@.subrange(0, i as int).contains(y));
                            let kk = choose|kk: int|
                                0 <= kk < i && ids@.subrange(0, i as int)[kk] == y;
                            assert(ids@.subrange(0, i + 1 as int)[kk] == y);
                        }
                    }
                    if ids@.subrange(0, i + 1 as int).contains(y) {
                        let kk = choose|kk: int|
                            0 <= kk < i + 1 && #[trigger] ids@.subrange(0, i + 1 as int)[kk]
                                == y;
                        if kk < i {
                            assert(ids@.subrange(0, i as int)[kk] == y);
                            assert(ids@.subrange(0, i as int).contains(y));
                            assert(ids@.subrange(0, i as int).to_set().contains(y));
                            assert(r0.to_set().contains(y));
                            assert(r0.contains(y));
                            let k = choose|k: int| 0 <= k < r0.len() && r0[k] == y;
                            if k < j as int {
                                assert(r@[k] == y);
                            } else {
                                assert(r@[k + 1] == y);
                            }
                            assert(r@.contains(y));
                        } else {
                            assert(y == x);
                            assert(r@[j as int] == x);
                            assert(r@.contains(y));
                        }
                    }
                }
            }
        }
        i = i + 1;
    }
    proof {
        assert(ids@.subrange(0, n as int) =~= ids@);
    }
    r
}

/// Decides whether no two entries of the worktree share a path.
pub fn worktree_paths_unique(worktree: &Worktree) -> (r: bool)
    requires
        worktree.entries.wf(),
    ensures
        r == worktree.paths_unique(),
{
    proof {
        worktree.entries.lemma_pairs();
    }
    let n = worktree.entries.len();
    let mut i: usize = 0;
    while i < n
        invariant
            worktree.entries.wf(),
            n == worktree.entries.pairs().len(),
            i <= n,
            forall|a: int, b: int|
                0 <= a < b < n && a < i ==> (#[trigger] worktree.entries.pairs()[a]).1.path@
                    != (#[trigger] worktree.entries.pairs()[b]).1.path@,
        decreases n - i,
    {
        let mut j: usize = i + 1;
        while j < n
            invariant
                worktree.entries.wf(),
                n == worktree.entries.pairs().len(),
                i < n,
                i < j <= n,
                forall|b: int|
                    i < b < j ==> (#[trigger] worktree.entries.pairs()[b]).1.path@
                        != worktree.entries.pairs()[i as int].1.path@,
            decreases n - j,
        {
            if worktree.entries.val_at(i).path == worktree.entries.val_at(j).path {
                proof {
                    worktree.entries.lemma_pairs();
                    let e1 = worktree.entries.pairs()[i as int].0;
                    let e2 = worktree.entries.pairs()[j as int].0;
                    assert(worktree.entries.key_seq()[i as int] == e1);
                    assert(worktree.entries.key_seq()[j as int] == e2);
                    assert(e1 != e2);
                    assert(worktree.entries@.contains_key(e1));
                    assert(worktree.entries@.contains_key(e2));
                    assert(worktree.entries@[e1].path@ == worktree.entries@[e2].path@);
                    assert(!worktree.paths_unique());
                }
                return false;
            }
            j = j + 1;
        }
        i = i + 1;
    }
    proof {
        worktree.entries.lemma_pairs();
        worktree.entries.lemma_dom();
        assert forall|e1: u64, e2: u64|
            worktree.entries@.contains_key(e1) && worktree.entries@.contains_key(e2) && e1
                != e2 implies (#[trigger] worktree.entries@[e1]).path@ != (
        #[trigger] worktree.entries@[e2]).path@ by {
            assert(worktree.entries.key_seq().contains(e1));
            assert(worktree.entries.key_seq().contains(e2));
            let a = choose|a: int|
                0 <= a < worktree.entries.key_seq().len() && worktree.entries.key_seq()[a] == e1;
            let b = choose|b: int|
                0 <= b < worktree.entries.key_seq().len() && worktree.entries.key_seq()[b] == e2;
            assert(worktree.entries.pairs()[a].0 == e1);
            assert(worktree.entries.pairs()[b].0 == e2);
            assert(a != b);
            assert(worktree.entries.pairs()[a].1 == worktree.entries@[e1]);
            assert(worktree.entries.pairs()[b].1 == worktree.entries@[e2]);
            if a < b {
                assert(worktree.entries.pairs()[a].1.path@ != worktree.entries.pairs()[b].1.path@);
            } else {
                assert(worktree.entries.pairs()[b].1.path@ != worktree.entries.pairs()[a].1.path@);
            }
        }
    }
    true
}

fn diag_index_of(v: &Vec<DiagnosticSummary>, path: &String) -> (r: Option<usize>)
    ensures
        match r {
            Some(i) => i < v@.len() && v@[i as int].path@ == path@ && (forall|jj: int|
                0 <= jj < i ==> (#[trigger] v@[jj]).path@ != path@),
            None => forall|jj: int| 0 <= jj < v@.len() ==> (#[trigger] v@[jj]).path@ != path@,
        },
{
    let n = v.len();
    let mut i: usize = 0;
    while i < n
        invariant
            i <= n,
            n == v@.len(),
            forall|jj: int| 0 <= jj < i ==> (#[trigger] v@[jj]).path@ != path@,
        decreases n - i,
    {
        if v[i].path == *path {
            return Some(i);
        }
        i = i + 1;
    }
    None
}

/// How one connection's departure changes a project row: the matching guest
/// leaves and frees its replica id, the connection's receipts are
/// withdrawn, and the shared data is cleared when nobody but the host is
/// left with no request pending.
pub open spec fn left_project_effect(
    pr0: Project,
    pr1: Project,
    connection_id: ConnectionId,
    uid: UserId,
) -> bool {
    let was_guest = pr0.guests@.contains_key(connection_id);
    let had = pr0.join_requests@.contains_key(uid);
    let kept = receipts_without_sender(pr0.join_requests@[uid]@, connection_id);
    let unshare = pr1.guests.key_seq().len() == 0 && pr1.join_requests@.dom() =~= Set::<
        u64,
    >::empty();
    &&& pr1.online == pr0.online
    &&& pr1.host_connection_id == pr0.host_connection_id
    &&& pr1.host == pr0.host
    &&& pr1.guests@ =~= pr0.guests@.remove(connection_id)
    &&& (was_guest ==> pr1.active_replica_ids@ =~= pr0.active_replica_ids@.remove(
        pr0.guests@[connection_id].replica_id as u64,
    ))
    &&& (!was_guest ==> pr1.active_replica_ids@ =~= pr0.active_replica_ids@)
    &&& (if had && kept.len() == 0 {
        pr1.join_requests@ =~= pr0.join_requests@.remove(uid)
    } else if had {
        &&& pr1.join_requests@.dom() =~= pr0.join_requests@.dom()
        &&& pr1.join_requests@.remove(uid) =~= pr0.join_requests@.remove(uid)
        &&& pr1.join_requests@[uid]@ == kept
    } else {
        pr1.join_requests == pr0.join_requests
    })
    &&& (if unshare {
        &&& pr1.language_servers@ == Seq::<LanguageServer>::empty()
        &&& pr1.worktrees@.dom() =~= pr0.worktrees@.dom()
        &&& forall|w: u64|
            #[trigger] pr1.worktrees@.contains_key(w) ==> {
                let wa = pr0.worktrees@[w];
                let wb = pr1.worktrees@[w];
                &&& wb.root_name@ == wa.root_name@
                &&& wb.visible == wa.visible
                &&& wb.scan_id == wa.scan_id
                &&& wb.is_complete == wa.is_complete
                &&& wb.entries@ =~= Map::<u64, Entry>::empty()
                &&& wb.diagnostic_summaries@ == Seq::<DiagnosticSummary>::empty()
            }
    } else {
        pr1.worktrees == pr0.worktrees && pr1.language_servers == pr0.language_servers
    })
}

/// How a receipt scrub changes a project row: every join-request entry
/// loses the receipts the departing connection sent, an entry that empties
/// is dropped, and nothing else moves.
pub open spec fn scrubbed_join_requests(
    pr0: Project,
    pr1: Project,
    connection_id: ConnectionId,
) -> bool {
    &&& pr1.online == pr0.online
    &&& pr1.host_connection_id == pr0.host_connection_id
    &&& pr1.host == pr0.host
    &&& pr1.guests == pr0.guests
    &&& pr1.active_replica_ids == pr0.active_replica_ids
    &&& pr1.worktrees == pr0.worktrees
    &&& pr1.language_servers == pr0.language_servers
    &&& forall|u: u64|
        #[trigger] pr1.join_requests@.contains_key(u) <==> (pr0.join_requests@.contains_key(u)
            && receipts_without_sender(pr0.join_requests@[u]@, connection_id).len() > 0)
    &&& forall|u: u64|
        #[trigger] pr1.join_requests@.contains_key(u) ==> pr1.join_requests@[u]@
            == receipts_without_sender(pr0.join_requests@[u]@, connection_id)
}

/// Withdraws every receipt the departing connection sent from the project's
/// pending join requests, dropping a request entry that empties.
fn scrub_project_receipts(project: &mut Project, connection_id: u64)
    requires
        old(project).wf(),
    ensures
        final(project).wf(),
        scrubbed_join_requests(*old(project), *final(project), connection_id),
{
    let users_list = project.join_requests.keys();
    let n = users_list.len();
    let ghost pm = *project;
    proof {
        pm.join_requests.lemma_pairs();
        pm.join_requests.lemma_dom();
    }
    let mut i: usize = 0;
    while i < n
        invariant
            pm == *old(project),
            pm.wf(),
            users_list@ == pm.join_requests.key_seq(),
            users_list@.no_duplicates(),
            n == users_list@.len(),
            i <= n,
            project.online == pm.online,
            project.host_connection_id == pm.host_connection_id,
            project.host == pm.host,
            project.guests == pm.guests,
            project.active_replica_ids == pm.active_replica_ids,
            project.worktrees == pm.worktrees,
            project.language_servers == pm.language_servers,
            project.join_requests.wf(),
            forall|u: u64|
                #[trigger] project.join_requests@.contains_key(u) <==> (
                pm.join_requests@.contains_key(u) && (!users_list@.subrange(0, i as int).contains(
                    u,
                ) || receipts_without_sender(pm.join_requests@[u]@, connection_id).len() > 0)),
            forall|u: u64|
                #[trigger] project.join_requests@.contains_key(u) ==> (if users_list@.subrange(
                    0,
                    i as int,
                ).contains(u) {
                    project.join_requests@[u]@ == receipts_without_sender(
                        pm.join_requests@[u]@,
                        connection_id,
                    )
                } else {
                    project.join_requests@[u] == pm.join_requests@[u]
                }),
            forall|u: u64|
                project.join_requests@.contains_key(u) ==> (
                #[trigger] project.join_requests@[u])@.len() > 0 && distinct_senders(
                    project.join_requests@[u]@,
                ),
        decreases n - i,
    {
        let u = users_list[i];
        let ghost prev = project.join_requests@;
        proof {
            pm.join_requests.lemma_dom();
            assert(pm.join_requests.key_seq()[i as int] == u);
            assert(pm.join_requests@.contains_key(u));
            assert(!users_list@.subrange(0, i as int).contains(u)) by {
                if users_list@.subrange(0, i as int).contains(u) {
                    let j = choose|j: int|
                        0 <= j < i && users_list@.subrange(0, i as int)[j] == u;
                    assert(users_list@[j] == users_list@[i as int]);
                }
            }
            assert(pm.join_requests@[u]@.len() > 0 && distinct_senders(pm.join_requests@[u]@));
        }
        match project.join_requests.remove(u) {
            Some(receipts) => {
                let kept = retain_other_senders(&receipts, connection_id);
                if kept.len() > 0 {
                    proof {
                        lemma_receipts_without_distinct(pm.join_requests@[u]@, connection_id);
                    }
                    project.join_requests.insert(u, kept);
                }
            },
            None => {
                proof {
                    assert(false);
                }
            },
        }
        proof {
            let pre = users_list@.subrange(0, i as int);
            let pre1 = users_list@.subrange(0, i + 1 as int);
            assert(pre1 =~= pre.push(users_list@[i as int]));
            assert forall|u2: u64|
                pre1.contains(u2) <==> pre.contains(u2) || u2 == u by {
                if pre1.contains(u2) {
                    let j = choose|j: int| 0 <= j < pre1.len() && pre1[j] == u2;
                    if j < i {
                        assert(pre[j] == u2);
                    }
                }
                if pre.contains(u2) {
                    let j = choose|j: int| 0 <= j < pre.len() && pre[j] == u2;
                    assert(pre1[j] == u2);
                }
                assert(pre1[i as int] == u);
            }
            assert forall|u2: u64|
                #[trigger] project.join_requests@.contains_key(u2) <==> (
            pm.join_requests@.contains_key(u2) && (!pre1.contains(u2)
                || receipts_without_sender(pm.join_requests@[u2]@, connection_id).len() > 0))
                by {
                if u2 != u {
                    assert(project.join_requests@.remove(u)[u2] == prev.remove(u)[u2]);
                    assert(project.join_requests@.contains_key(u2) <==> prev.contains_key(u2));
                }
            }
            assert forall|u2: u64|
                #[trigger] project.join_requests@.contains_key(u2) implies (if pre1.contains(
                u2,
            ) {
                project.join_requests@[u2]@ == receipts_without_sender(
                    pm.join_requests@[u2]@,
                    connection_id,
                )
            } else {
                project.join_requests@[u2] == pm.join_requests@[u2]
            }) by {
                if u2 != u {
                    assert(project.join_requests@.remove(u)[u2] == prev.remove(u)[u2]);
                    assert(project.join_requests@[u2] == prev[u2]);
                }
            }
        }
        i = i + 1;
    }
    proof {
        assert(users_list@.subrange(0, n as int) =~= users_list@);
        pm.join_requests.lemma_dom();
        assert forall|u: u64|
            #[trigger] project.join_requests@.contains_key(u) <==> (
        pm.join_requests@.contains_key(u) && receipts_without_sender(
            pm.join_requests@[u]@,
            connection_id,
        ).len() > 0) by {
            if pm.join_requests@.contains_key(u) {
                assert(pm.join_requests.key_seq().contains(u));
                assert(users_list@.contains(u));
            }
        }
        assert forall|w: u64|
            project.worktrees@.contains_key(w) implies (#[trigger] project.worktrees@[w]).wf()
            by {
            assert(pm.worktrees@.contains_key(w));
        }
    }
}

/// Whether the metadata list names no worktree id twice.
pub open spec fn metas_unique(ms: Seq<WorktreeMetadata>) -> bool {
    forall|i: int, j: int|
        0 <= i < j < ms.len() ==> (#[trigger] ms[i]).id != (#[trigger] ms[j]).id
}

/// Whether the metadata list names this worktree id.
pub open spec fn has_meta(ms: Seq<WorktreeMetadata>, w: u64) -> bool {
    exists|i: int| 0 <= i < ms.len() && (#[trigger] ms[i]).id == w
}

/// A worktree freshly created from update metadata: the given root and
/// visibility, and nothing else yet.
pub open spec fn fresh_worktree_like(wt: Worktree, meta: WorktreeMetadata) -> bool {
    &&& wt.root_name@ == meta.root_name@
    &&& wt.visible == meta.visible
    &&& wt.entries@ =~= Map::<u64, Entry>::empty()
    &&& wt.diagnostic_summaries@ == Seq::<DiagnosticSummary>::empty()
    &&& wt.scan_id == 0
    &&& !wt.is_complete
}

/// How a project update reconciles the worktree table: afterwards the table
/// holds exactly the ids the metadata names; with unique ids, a kept
/// worktree keeps its record (its data emptied when the update `cleared`
/// the project) and a new id carries a fresh worktree.
#[verifier::opaque]
pub open spec fn reconciled_worktrees(
    pr0: Project,
    pr1: Project,
    metas: Seq<WorktreeMetadata>,
    cleared: bool,
) -> bool {
    &&& forall|w: u64| #[trigger] pr1.worktrees@.contains_key(w) <==> has_meta(metas, w)
    &&& (metas_unique(metas) ==> forall|i: int|
        0 <= i < metas.len() ==> {
            let w = (#[trigger] metas[i]).id;
            let wt1 = pr1.worktrees@[w];
            if pr0.worktrees@.contains_key(w) {
                &&& wt1.root_name@ == pr0.worktrees@[w].root_name@
                &&& wt1.visible == pr0.worktrees@[w].visible
                &&& wt1.scan_id == pr0.worktrees@[w].scan_id
                &&& wt1.is_complete == pr0.worktrees@[w].is_complete
                &&& wt1.diagnostic_summaries@ == (if cleared {
                    Seq::<DiagnosticSummary>::empty()
                } else {
                    pr0.worktrees@[w].diagnostic_summaries@
                })
                &&& (if cleared {
                    wt1.entries@ =~= Map::<u64, Entry>::empty()
                } else {
                    wt1.entries@ == pr0.worktrees@[w].entries@
                })
            } else {
                &&& wt1.root_name@ == metas[i].root_name@
                &&& wt1.visible == metas[i].visible
                &&& wt1.scan_id == 0
                &&& !wt1.is_complete
                &&& wt1.entries@ =~= Map::<u64, Entry>::empty()
                &&& wt1.diagnostic_summaries@ == Seq::<DiagnosticSummary>::empty()
            }
        })
}

/// Spec-level sameness of worktree entries: every field agrees, the path by
/// its characters.
pub open spec fn entry_like(a: Entry, b: Entry) -> bool {
    &&& a.id == b.id
    &&& a.path@ == b.path@
    &&& a.is_dir == b.is_dir
    &&& a.is_ignored == b.is_ignored
}

/// Whether the update list carries an entry with this id.
pub open spec fn has_entry_update(updated: Seq<Entry>, e: u64) -> bool {
    exists|i: int| 0 <= i < updated.len() && (#[trigger] updated[i]).id == e
}

/// Whether the first `k` updates carry an entry with this id.
pub open spec fn has_update_before(updated: Seq<Entry>, k: int, e: u64) -> bool {
    exists|i: int| 0 <= i < k && (#[trigger] updated[i]).id == e
}

/// Whether no update after index `i2` (and before `k`) reuses the id of the
/// update at `i2`: the update at `i2` is the one that wins.
pub open spec fn last_update_in(updated: Seq<Entry>, k: int, i2: int) -> bool {
    forall|j: int| i2 < j < k ==> (#[trigger] updated[j]).id != updated[i2].id
}

/// The worktree's entries once the removed ids are dropped; empty when the
/// worktree did not exist.
pub open spec fn entries_after_removal(
    had: bool,
    entries0: Map<u64, Entry>,
    removed: Seq<u64>,
) -> Map<u64, Entry> {
    Map::new(
        |e: u64| had && entries0.contains_key(e) && !removed.contains(e),
        |e: u64| entries0[e],
    )
}

/// The two facts an entry upsert pass maintains: every id updated so far is
/// present with its winning update's contents, and everything else is as in
/// `base`.
pub open spec fn upsert_state(
    base: Map<u64, Entry>,
    cur: Map<u64, Entry>,
    updated: Seq<Entry>,
    k: int,
) -> bool {
    &&& forall|e: u64|
        has_update_before(updated, k, e) ==> cur.contains_key(e) && (exists|i2: int|
            {
                &&& 0 <= i2 < k
                &&& (#[trigger] updated[i2]).id == e
                &&& last_update_in(updated, k, i2)
                &&& entry_like(cur[e], updated[i2])
            })
    &&& forall|e: u64|
        !has_update_before(updated, k, e) ==> ((#[trigger] cur.contains_key(e)
            <==> base.contains_key(e)) && (cur.contains_key(e) ==> cur[e] == base[e]))
}

proof fn lemma_upsert_step(
    base: Map<u64, Entry>,
    prev: Map<u64, Entry>,
    cur: Map<u64, Entry>,
    updated: Seq<Entry>,
    k: int,
    v: Entry,
)
    requires
        0 <= k < updated.len(),
        entry_like(v, updated[k]),
        cur == prev.insert(updated[k].id, v),
        upsert_state(base, prev, updated, k),
    ensures
        upsert_state(base, cur, updated, k + 1),
{
    let eid = updated[k].id;
    assert forall|e: u64| has_update_before(updated, k + 1, e) implies cur.contains_key(e) && (exists|
        i2: int,
    |
        {
            &&& 0 <= i2 < k + 1
            &&& (#[trigger] updated[i2]).id == e
            &&& last_update_in(updated, k + 1, i2)
            &&& entry_like(cur[e], updated[i2])
        }) by {
        if e == eid {
            assert(cur.contains_key(e) && cur[e] == v);
            assert(updated[k].id == e);
            assert(last_update_in(updated, k + 1, k)) by {
                assert forall|j: int| k < j < k + 1 implies (#[trigger] updated[j]).id
                    != updated[k].id by {}
            }
        } else {
            assert(has_update_before(updated, k, e)) by {
                let j = choose|j: int| 0 <= j < k + 1 && (#[trigger] updated[j]).id == e;
                assert(j != k);
            }
            let i2 = choose|i2: int|
                {
                    &&& 0 <= i2 < k
                    &&& (#[trigger] updated[i2]).id == e
                    &&& last_update_in(updated, k, i2)
                    &&& entry_like(prev[e], updated[i2])
                };
            assert(cur[e] == prev[e]);
            assert(last_update_in(updated, k + 1, i2)) by {
                assert forall|j: int| i2 < j < k + 1 implies (#[trigger] updated[j]).id
                    != updated[i2].id by {
                    if j < k {
                        assert(updated[j].id != updated[i2].id);
                    } else {
                        assert(updated[j].id == eid);
                    }
                }
            }
        }
    }
    assert forall|e: u64| !has_update_before(updated, k + 1, e) implies ((
    #[trigger] cur.contains_key(e) <==> base.contains_key(e)) && (cur.contains_key(e)
        ==> cur[e] == base[e])) by {
        assert(!has_update_before(updated, k, e)) by {
            if has_update_before(updated, k, e) {
                let j = choose|j: int| 0 <= j < k && (#[trigger] updated[j]).id == e;
                assert(0 <= j < k + 1 && updated[j].id == e);
            }
        }
        assert(e != eid) by {
            assert(0 <= k < k + 1);
        }
    }
}

/// Whether some participant of the room has the given peer (connection) id.
pub open spec fn room_has_participant_peer(room: Room, peer_id: ConnectionId) -> bool {
    exists|i: int|
        0 <= i < room.participants@.len() && (#[trigger] room.participants@[i]).peer_id
            == peer_id
}

/// The pending list with every occurrence of `user_id` removed.
pub open spec fn without_user(s: Seq<u64>, user_id: u64) -> Seq<u64> {
    s.filter(|x: u64| x != user_id)
}

proof fn lemma_without_user_push(s: Seq<u64>, user_id: u64, x: u64)
    ensures
        without_user(s.push(x), user_id) == (if x != user_id {
            without_user(s, user_id).push(x)
        } else {
            without_user(s, user_id)
        }),
{
    reveal_with_fuel(Seq::filter, 2);
    assert(s.push(x).drop_last() =~= s);
    assert(s.push(x).last() == x);
}

proof fn lemma_without_user_keeps(s: Seq<u64>, removed: u64, kept: u64)
    requires
        without_user(s, removed).contains(kept),
    ensures
        s.contains(kept),
        kept != removed,
    decreases s.len(),
{
    if s.len() > 0 {
        lemma_without_user_push(s.drop_last(), removed, s.last());
        assert(s.drop_last().push(s.last()) =~= s);
        let f = without_user(s, removed);
        let fd = without_user(s.drop_last(), removed);
        let j = choose|j: int| 0 <= j < f.len() && f[j] == kept;
        if s.last() != removed && j == f.len() - 1 {
            assert(kept == s.last());
            assert(s[s.len() - 1] == kept);
        } else {
            assert(fd[j] == kept);
            assert(fd.contains(kept));
            lemma_without_user_keeps(s.drop_last(), removed, kept);
            let jj = choose|jj: int| 0 <= jj < s.drop_last().len() && s.drop_last()[jj] == kept;
            assert(s[jj] == kept);
        }
    } else {
        assert(without_user(s, removed).len() == 0);
    }
}

proof fn lemma_without_user(s: Seq<u64>, removed: u64, kept: u64)
    requires
        s.contains(kept),
        kept != removed,
    ensures
        without_user(s, removed).contains(kept),
    decreases s.len(),
{
    if s.len() > 0 {
        lemma_without_user_push(s.drop_last(), removed, s.last());
        assert(s.drop_last().push(s.last()) =~= s);
        if s.last() == kept {
            assert(without_user(s, removed).last() == kept);
        } else {
            let i = choose|i: int| 0 <= i < s.len() && s[i] == kept;
            assert(s.drop_last()[i] == kept);
            assert(s.drop_last().contains(kept));
            lemma_without_user(s.drop_last(), removed, kept);
            let j = choose|j: int|
                0 <= j < without_user(s.drop_last(), removed).len() && without_user(
                    s.drop_last(),
                    removed,
                )[j] == kept;
            assert(without_user(s, removed)[j] == kept);
        }
    }
}

pub fn contains_id(v: &Vec<u64>, x: u64) -> (r: bool)
    ensures
        r == v@.contains(x),
{
    let n = v.len();
    let mut i: usize = 0;
    while i < n
        invariant
            i <= n,
            n == v@.len(),
            forall|j: int| 0 <= j < i ==> v@[j] != x,
        decreases n - i,
    {
        if v[i] == x {
            return true;
        }
        i = i + 1;
    }
    false
}

fn contains_peer(v: &Vec<Participant>, peer_id: u64) -> (r: bool)
    ensures
        r == exists|i: int| 0 <= i < v@.len() && (#[trigger] v@[i]).peer_id == peer_id,
{
    let n = v.len();
    let mut i: usize = 0;
    while i < n
        invariant
            i <= n,
            n == v@.len(),
            forall|j: int| 0 <= j < i ==> (#[trigger] v@[j]).peer_id != peer_id,
        decreases n - i,
    {
        if v[i].peer_id == peer_id {
            return true;
        }
        i = i + 1;
    }
    false
}

fn pending_without(v: &Vec<u64>, user_id: u64) -> (r: Vec<u64>)
    ensures
        r@ == without_user(v@, user_id),
{
    let n = v.len();
    let mut r: Vec<u64> = Vec::new();
    let mut i: usize = 0;
    proof {
        assert(v@.subrange(0, 0) =~= Seq::<u64>::empty());
    }
    while i < n
        invariant
            i <= n,
            n == v@.len(),
            r@ == without_user(v@.subrange(0, i as int), user_id),
        decreases n - i,
    {
        proof {
            assert(v@.subrange(0, i + 1 as int) =~= v@.subrange(0, i as int).push(
                v@[i as int],
            ));
            lemma_without_user_push(v@.subrange(0, i as int), user_id, v@[i as int]);
        }
        if v[i] != user_id {
            r.push(v[i]);
        }
        i = i + 1;
    }
    proof {
        assert(v@.subrange(0, n as int) =~= v@);
    }
    r
}

/// Replica consistency depends only on the guests and the active replica
/// ids, so it carries over between projects that agree on them.
proof fn lemma_replicas_ok_congruent(a: Project, b: Project)
    requires
        a.replicas_ok(),
        b.guests@ =~= a.guests@,
        b.active_replica_ids@ =~= a.active_replica_ids@,
    ensures
        b.replicas_ok(),
{
    assert forall|r: u64| #[trigger] b.active_replica_ids@.contains(r) implies exists|g: u64|
        #[trigger] b.guests@.contains_key(g) && b.guests@[g].replica_id as u64 == r by {
        let g = choose|g: u64|
            #[trigger] a.guests@.contains_key(g) && a.guests@[g].replica_id as u64 == r;
        assert(b.guests@.contains_key(g));
    }
}

/// User/connection consistency carries over when neither side of the mirror
/// changed.
proof fn lemma_users_frame(s0: Store, s1: Store)
    requires
        s0.users_consistent(),
        s1.connections@.dom() =~= s0.connections@.dom(),
        forall|c: u64|
            #[trigger] s1.connections@.contains_key(c) ==> s1.connections@[c].user_id
                == s0.connections@[c].user_id,
        s1.connections_by_user_id@.dom() =~= s0.connections_by_user_id@.dom(),
        forall|u: u64|
            #[trigger] s1.connections_by_user_id@.contains_key(u)
                ==> s1.connections_by_user_id@[u].connection_ids@
                =~= s0.connections_by_user_id@[u].connection_ids@,
    ensures
        s1.users_consistent(),
{
    assert forall|c: u64| #[trigger] s1.connections@.contains_key(c) implies s1.connections_by_user_id@.contains_key(
        s1.connections@[c].user_id,
    ) && s1.connections_by_user_id@[s1.connections@[c].user_id].connection_ids@.contains(c) by {
        assert(s0.connections@.contains_key(c));
        assert(s0.connections_by_user_id@[s0.connections@[c].user_id].connection_ids@.contains(c));
    }
    assert forall|u: u64, c: u64|
        s1.connections_by_user_id@.contains_key(u) && (
        #[trigger] s1.connections_by_user_id@[u].connection_ids@.contains(c)) implies s1.connections@.contains_key(
        c,
    ) && s1.connections@[c].user_id == u by {
        assert(s0.connections_by_user_id@.contains_key(u));
        assert(s0.connections_by_user_id@[u].connection_ids@.contains(c));
    }
    assert forall|u: u64| #[trigger] s1.connections_by_user_id@.contains_key(u) implies exists|c: u64|
        #[trigger] s1.connections_by_user_id@[u].connection_ids@.contains(c) by {
        assert(s0.connections_by_user_id@.contains_key(u));
        let c = choose|c: u64| #[trigger] s0.connections_by_user_id@[u].connection_ids@.contains(c);
        assert(s1.connections_by_user_id@[u].connection_ids@.contains(c));
    }
}

/// Channel consistency carries over when channels and subscriptions did not
/// change.
proof fn lemma_channels_frame(s0: Store, s1: Store)
    requires
        s0.channels_consistent(),
        s1.channels@ == s0.channels@,
        s1.connections@.dom() =~= s0.connections@.dom(),
        forall|c: u64|
            #[trigger] s1.connections@.contains_key(c) ==> s1.connections@[c].channels@
                =~= s0.connections@[c].channels@,
    ensures
        s1.channels_consistent(),
{
    assert forall|c: u64, ch: u64|
        s1.connections@.contains_key(c) && (#[trigger] s1.connections@[c].channels@.contains(
            ch,
        )) implies s1.channels@.contains_key(ch) && s1.channels@[ch].connection_ids@.contains(
        c,
    ) by {
        assert(s0.connections@.contains_key(c));
        assert(s0.connections@[c].channels@.contains(ch));
    }
    assert forall|ch: u64, c: u64|
        s1.channels@.contains_key(ch) && (#[trigger] s1.channels@[ch].connection_ids@.contains(
            c,
        )) implies s1.connections@.contains_key(c) && s1.connections@[c].channels@.contains(
        ch,
    ) by {
        assert(s0.channels@.contains_key(ch));
        assert(s0.channels@[ch].connection_ids@.contains(c));
    }
    assert forall|ch: u64| #[trigger] s1.channels@.contains_key(ch) implies exists|c: u64|
        #[trigger] s1.channels@[ch].connection_ids@.contains(c) by {
        assert(s0.channels@.contains_key(ch));
        let c = choose|c: u64| #[trigger] s0.channels@[ch].connection_ids@.contains(c);
        assert(s1.channels@[ch].connection_ids@.contains(c));
    }
}

/// Room consistency carries over when rooms, the allocator, and every user's
/// call state are unchanged.
proof fn lemma_rooms_frame(s0: Store, s1: Store)
    requires
        s0.rooms_consistent(),
        s1.rooms@ == s0.rooms@,
        s1.next_room_id == s0.next_room_id,
        forall|u: u64|
            #[trigger] s1.connections_by_user_id@.contains_key(u) ==> (
            s0.connections_by_user_id@.contains_key(u) && s1.connections_by_user_id@[u].room
                == s0.connections_by_user_id@[u].room) || s1.connections_by_user_id@[u].room
                is None,
    ensures
        s1.rooms_consistent(),
{
    assert forall|u: u64|
        s1.connections_by_user_id@.contains_key(u) implies (match (
    #[trigger] s1.connections_by_user_id@[u]).room {
        Some(RoomState::Joined) => exists|r: u64|
            #[trigger] s1.rooms@.contains_key(r) && room_has_participant(s1.rooms@[r], u),
        Some(RoomState::Calling { room_id }) => s1.rooms@.contains_key(room_id)
            && s1.rooms@[room_id].pending_user_ids@.contains(u),
        None => true,
    }) by {
        match s1.connections_by_user_id@[u].room {
            Some(RoomState::Joined) => {
                assert(s0.connections_by_user_id@.contains_key(u));
                assert(s0.connections_by_user_id@[u].room == Some(RoomState::Joined));
                let r = choose|r: u64|
                    #[trigger] s0.rooms@.contains_key(r) && room_has_participant(
                        s0.rooms@[r],
                        u,
                    );
                assert(s1.rooms@.contains_key(r) && room_has_participant(s1.rooms@[r], u));
            },
            Some(RoomState::Calling { room_id }) => {
                assert(s0.connections_by_user_id@.contains_key(u));
                assert(s0.connections_by_user_id@[u].room == Some(
                    RoomState::Calling { room_id },
                ));
                assert(s0.rooms@.contains_key(room_id));
            },
            None => {},
        }
    }
}

/// As [`lemma_project_value_frame`], but says nothing about path
/// uniqueness; for the one operation that edits worktree entries.
proof fn lemma_project_value_frame_no_paths(s0: Store, s1: Store, pid: u64)
    requires
        s0.wf(),
        s0.links_ok(),
        s1.connections_by_user_id == s0.connections_by_user_id,
        s1.rooms == s0.rooms,
        s1.channels == s0.channels,
        s1.next_room_id == s0.next_room_id,
        s1.connections.wf(),
        s1.connections@.dom() =~= s0.connections@.dom(),
        forall|c: u64|
            #[trigger] s1.connections@.contains_key(c) ==> s1.connections@[c].wf()
                && s1.connections@[c].user_id == s0.connections@[c].user_id
                && s1.connections@[c].projects@ =~= s0.connections@[c].projects@
                && s1.connections@[c].channels@ =~= s0.connections@[c].channels@,
        s1.projects.wf(),
        s0.projects@.contains_key(pid),
        s1.projects@.dom() =~= s0.projects@.dom(),
        s1.projects@.remove(pid) =~= s0.projects@.remove(pid),
        s1.projects@[pid].host_connection_id == s0.projects@[pid].host_connection_id,
        s1.projects@[pid].guests@ =~= s0.projects@[pid].guests@,
        s1.projects@[pid].active_replica_ids@ =~= s0.projects@[pid].active_replica_ids@,
        s1.projects@[pid].wf(),
    ensures
        s1.wf(),
        s1.links_ok(),
{
    assert forall|p: u64| #[trigger] s1.projects@.contains_key(p) implies s1.projects@[p].wf() by {
        if p != pid {
            assert(s1.projects@.remove(pid)[p] == s0.projects@.remove(pid)[p]);
            assert(s1.projects@[p] == s0.projects@[p]);
        }
    }
    assert forall|c: u64, p: u64|
        s1.connections@.contains_key(c) && (#[trigger] s1.connections@[c].projects@.contains(
            p,
        )) implies s1.projects@.contains_key(p) && (s1.projects@[p].host_connection_id == c
        || s1.projects@[p].guests@.contains_key(c)) by {
        assert(s0.connections@.contains_key(c));
        assert(s0.connections@[c].projects@.contains(p));
        if p != pid {
            assert(s1.projects@.remove(pid)[p] == s0.projects@.remove(pid)[p]);
            assert(s1.projects@[p] == s0.projects@[p]);
        } else {
            if s0.projects@[p].guests@.contains_key(c) {
                assert(s1.projects@[p].guests@.contains_key(c));
            }
        }
    }
    assert forall|p: u64| #[trigger] s1.projects@.contains_key(p) implies {
        let pr = s1.projects@[p];
        &&& s1.connections@.contains_key(pr.host_connection_id)
        &&& s1.connections@[pr.host_connection_id].projects@.contains(p)
        &&& forall|g: u64|
            #[trigger] pr.guests@.contains_key(g) ==> s1.connections@.contains_key(g)
                && s1.connections@[g].projects@.contains(p)
    } by {
        let pr = s1.projects@[p];
        if p != pid {
            assert(s1.projects@.remove(pid)[p] == s0.projects@.remove(pid)[p]);
            assert(s1.projects@[p] == s0.projects@[p]);
        }
        assert(s0.projects@.contains_key(p));
        assert(pr.host_connection_id == s0.projects@[p].host_connection_id);
        assert(s0.connections@.contains_key(pr.host_connection_id));
        assert(s0.connections@[pr.host_connection_id].projects@.contains(p));
        assert forall|g: u64| #[trigger] pr.guests@.contains_key(g) implies s1.connections@.contains_key(
            g,
        ) && s1.connections@[g].projects@.contains(p) by {
            assert(s0.projects@[p].guests@.contains_key(g));
            assert(s0.connections@.contains_key(g));
            assert(s0.connections@[g].projects@.contains(p));
        }
    }
    assert forall|p: u64| #[trigger] s1.projects@.contains_key(p) implies s1.projects@[p].replicas_ok() by {
        assert(s0.projects@.contains_key(p));
        if p != pid {
            assert(s1.projects@.remove(pid)[p] == s0.projects@.remove(pid)[p]);
            assert(s1.projects@[p] == s0.projects@[p]);
        } else {
            lemma_replicas_ok_congruent(s0.projects@[pid], s1.projects@[pid]);
        }
    }
    lemma_channels_frame(s0, s1);
    lemma_users_frame(s0, s1);
    lemma_rooms_frame(s0, s1);
}

/// The common frame: one project's row changed without touching its host,
/// guests, replica ids or worktree entries; connections kept their user,
/// projects and channels; users, rooms and channels are untouched. All
/// links and path uniqueness carry over.
proof fn lemma_project_value_frame(s0: Store, s1: Store, pid: u64)
    requires
        s0.wf(),
        s0.links_ok(),
        s1.connections_by_user_id == s0.connections_by_user_id,
        s1.rooms == s0.rooms,
        s1.channels == s0.channels,
        s1.next_room_id == s0.next_room_id,
        s1.connections.wf(),
        s1.connections@.dom() =~= s0.connections@.dom(),
        forall|c: u64|
            #[trigger] s1.connections@.contains_key(c) ==> s1.connections@[c].wf()
                && s1.connections@[c].user_id == s0.connections@[c].user_id
                && s1.connections@[c].projects@ =~= s0.connections@[c].projects@
                && s1.connections@[c].channels@ =~= s0.connections@[c].channels@,
        s1.projects.wf(),
        s0.projects@.contains_key(pid),
        s1.projects@.dom() =~= s0.projects@.dom(),
        s1.projects@.remove(pid) =~= s0.projects@.remove(pid),
        s1.projects@[pid].host_connection_id == s0.projects@[pid].host_connection_id,
        s1.projects@[pid].guests@ =~= s0.projects@[pid].guests@,
        s1.projects@[pid].active_replica_ids@ =~= s0.projects@[pid].active_replica_ids@,
        s1.projects@[pid].wf(),
        forall|w: u64|
            #[trigger] s1.projects@[pid].worktrees@.contains_key(w) ==> (
            s0.projects@[pid].worktrees@.contains_key(w)
                && s1.projects@[pid].worktrees@[w].entries@
                == s0.projects@[pid].worktrees@[w].entries@)
                || s1.projects@[pid].worktrees@[w].entries@ =~= Map::<u64, Entry>::empty(),
    ensures
        s1.wf(),
        s1.links_ok(),
        s0.paths_ok() ==> s1.paths_ok(),
{
    lemma_project_value_frame_no_paths(s0, s1, pid);
    if s0.paths_ok() {
        assert forall|p: u64, w: u64|
            s1.projects@.contains_key(p) && (#[trigger] s1.projects@[p].worktrees@.contains_key(
                w,
            )) implies (s0.projects@.contains_key(p) && s0.projects@[p].worktrees@.contains_key(
            w,
        ) && s1.projects@[p].worktrees@[w].entries@ == s0.projects@[p].worktrees@[w].entries@)
            || s1.projects@[p].worktrees@[w].entries@ =~= Map::<u64, Entry>::empty() by {
            if p != pid {
                assert(s1.projects@.remove(pid)[p] == s0.projects@.remove(pid)[p]);
                assert(s1.projects@[p] == s0.projects@[p]);
            }
        }
        lemma_paths_frame(s0, s1);
    }
}

/// Path uniqueness carries over when every surviving worktree kept its
/// entries or lost them all.
proof fn lemma_paths_frame(s0: Store, s1: Store)
    requires
        s0.paths_ok(),
        forall|p: u64, w: u64|
            s1.projects@.contains_key(p) && (#[trigger] s1.projects@[p].worktrees@.contains_key(
                w,
            )) ==> (s0.projects@.contains_key(p) && s0.projects@[p].worktrees@.contains_key(w)
                && s1.projects@[p].worktrees@[w].entries@ == s0.projects@[p].worktrees@[w].entries@)
                || s1.projects@[p].worktrees@[w].entries@ =~= Map::<u64, Entry>::empty(),
    ensures
        s1.paths_ok(),
{
    assert forall|p: u64, w: u64|
        s1.projects@.contains_key(p) && (#[trigger] s1.projects@[p].worktrees@.contains_key(
            w,
        )) implies s1.projects@[p].worktrees@[w].paths_unique() by {
        let wt = s1.projects@[p].worktrees@[w];
        if !(wt.entries@ =~= Map::<u64, Entry>::empty()) {
            assert(s0.projects@[p].worktrees@.contains_key(w));
            assert(s0.projects@[p].worktrees@[w].paths_unique());
        } else {
            assert forall|e1: u64, e2: u64|
                wt.entries@.contains_key(e1) && wt.entries@.contains_key(e2) && e1 != e2 implies (
            #[trigger] wt.entries@[e1]).path@ != (#[trigger] wt.entries@[e2]).path@ by {}
        }
    }
}

impl Store {
    /// Structural well-formedness: every table and every nested collection is
    /// well-formed.
    pub open spec fn wf(self) -> bool {
        &&& self.connections.wf()
        &&& forall|c: u64|
            self.connections@.contains_key(c) ==> (#[trigger] self.connections@[c]).wf()
        &&& self.connections_by_user_id.wf()
        &&& forall|u: u64|
            self.connections_by_user_id@.contains_key(u) ==> (
            #[trigger] self.connections_by_user_id@[u]).wf()
        &&& self.rooms.wf()
        &&& self.projects.wf()
        &&& forall|p: u64|
            self.projects@.contains_key(p) ==> (#[trigger] self.projects@[p]).wf()
        &&& self.channels.wf()
        &&& forall|ch: u64|
            self.channels@.contains_key(ch) ==> (#[trigger] self.channels@[ch]).wf()
    }

    /// Every project id in a connection's `projects` set is backed by that
    /// project, as its host or as one of its guests.
    pub open spec fn connection_projects_consistent(self) -> bool {
        forall|c: u64, p: u64|
            self.connections@.contains_key(c) && (#[trigger] self.connections@[c].projects@.contains(
                p,
            )) ==> self.projects@.contains_key(p) && (self.projects@[p].host_connection_id == c
                || self.projects@[p].guests@.contains_key(c))
    }

    /// Every project's host and guests are live connections that list the
    /// project.
    pub open spec fn project_members_consistent(self) -> bool {
        forall|p: u64|
            #[trigger] self.projects@.contains_key(p) ==> {
                let pr = self.projects@[p];
                &&& self.connections@.contains_key(pr.host_connection_id)
                &&& self.connections@[pr.host_connection_id].projects@.contains(p)
                &&& forall|g: u64|
                    #[trigger] pr.guests@.contains_key(g) ==> self.connections@.contains_key(g)
                        && self.connections@[g].projects@.contains(p)
            }
    }

    /// Every project's active replica ids are exactly its guests' replica
    /// ids.
    pub open spec fn replicas_consistent(self) -> bool {
        forall|p: u64|
            #[trigger] self.projects@.contains_key(p) ==> self.projects@[p].replicas_ok()
    }

    /// Channel membership is bidirectional, and no channel row is empty.
    pub open spec fn channels_consistent(self) -> bool {
        &&& forall|c: u64, ch: u64|
            self.connections@.contains_key(c) && (#[trigger] self.connections@[c].channels@.contains(
                ch,
            )) ==> self.channels@.contains_key(ch)
                && self.channels@[ch].connection_ids@.contains(c)
        &&& forall|ch: u64, c: u64|
            self.channels@.contains_key(ch) && (
            #[trigger] self.channels@[ch].connection_ids@.contains(c))
                ==> self.connections@.contains_key(c) && self.connections@[c].channels@.contains(
                ch,
            )
        &&& forall|ch: u64|
            #[trigger] self.channels@.contains_key(ch) ==> exists|c: u64|
                #[trigger] self.channels@[ch].connection_ids@.contains(c)
    }

    /// The user and connection tables mirror each other, and no user row is
    /// empty.
    pub open spec fn users_consistent(self) -> bool {
        &&& forall|c: u64|
            #[trigger] self.connections@.contains_key(c)
                ==> self.connections_by_user_id@.contains_key(self.connections@[c].user_id)
                && self.connections_by_user_id@[self.connections@[c].user_id].connection_ids@.contains(
                c,
            )
        &&& forall|u: u64, c: u64|
            self.connections_by_user_id@.contains_key(u) && (
            #[trigger] self.connections_by_user_id@[u].connection_ids@.contains(c))
                ==> self.connections@.contains_key(c) && self.connections@[c].user_id == u
        &&& forall|u: u64|
            #[trigger] self.connections_by_user_id@.contains_key(u) ==> exists|c: u64|
                #[trigger] self.connections_by_user_id@[u].connection_ids@.contains(c)
    }

    /// A user marked `Joined` is a participant of some room; a user marked
    /// `Calling` is pending in that room. Room ids stay below the allocator.
    pub open spec fn rooms_consistent(self) -> bool {
        &&& forall|u: u64|
            self.connections_by_user_id@.contains_key(u) ==> (match (
            #[trigger] self.connections_by_user_id@[u]).room {
                Some(RoomState::Joined) => exists|r: u64|
                    #[trigger] self.rooms@.contains_key(r) && room_has_participant(
                        self.rooms@[r],
                        u,
                    ),
                Some(RoomState::Calling { room_id }) => self.rooms@.contains_key(room_id)
                    && self.rooms@[room_id].pending_user_ids@.contains(u),
                None => true,
            })
        &&& forall|r: u64| #[trigger] self.rooms@.contains_key(r) ==> r < self.next_room_id
    }

    /// All cross-table consistency, together.
    pub open spec fn links_ok(self) -> bool {
        &&& self.connection_projects_consistent()
        &&& self.project_members_consistent()
        &&& self.replicas_consistent()
        &&& self.channels_consistent()
        &&& self.users_consistent()
        &&& self.rooms_consistent()
    }

    /// Within every worktree of every project, entry paths are unique.
    pub open spec fn paths_ok(self) -> bool {
        forall|p: u64, w: u64|
            self.projects@.contains_key(p) && (#[trigger] self.projects@[p].worktrees@.contains_key(
                w,
            )) ==> self.projects@[p].worktrees@[w].paths_unique()
    }

    /// Everything that must hold of the store at the end of every operation.
    pub open spec fn inv(self) -> bool {
        self.wf() && self.links_ok() && self.paths_ok()
    }

    /// A fresh, empty store.
    pub fn new() -> (r: Store)
        ensures
            r.inv(),
            r.connections@ =~= Map::<u64, ConnectionState>::empty(),
            r.connections_by_user_id@ =~= Map::<u64, UserConnectionState>::empty(),
            r.rooms@ =~= Map::<u64, Room>::empty(),
            r.projects@ =~= Map::<u64, Project>::empty(),
            r.channels@ =~= Map::<u64, Channel>::empty(),
            r.next_room_id == 0,
    {
        Store {
            connections: Table::new(),
            connections_by_user_id: Table::new(),
            next_room_id: 0,
            rooms: Table::new(),
            projects: Table::new(),
            channels: Table::new(),
        }
    }

    /// The user owning a connection.
    pub fn user_id_for_connection(&self, connection_id: ConnectionId) -> (r: Result<
        UserId,
        StoreError,
    >)
        requires
            self.wf(),
        ensures
            match r {
                Ok(u) => self.connections@.contains_key(connection_id) && u
                    == self.connections@[connection_id].user_id,
                Err(e) => e == StoreError::UnknownConnection && !self.connections@.contains_key(
                    connection_id,
                ),
            },
    {
        match self.connections.get(connection_id) {
            Some(c) => Ok(c.user_id),
            None => Err(StoreError::UnknownConnection),
        }
    }

    /// All connection ids of a user, in insertion order; empty when the user
    /// has none.
    pub fn connection_ids_for_user(&self, user_id: UserId) -> (r: Vec<ConnectionId>)
        requires
            self.wf(),
        ensures
            self.connections_by_user_id@.contains_key(user_id) ==> r@
                == self.connections_by_user_id@[user_id].connection_ids.seq(),
            !self.connections_by_user_id@.contains_key(user_id) ==> r@ == Seq::<u64>::empty(),
    {
        match self.connections_by_user_id.get(user_id) {
            Some(state) => state.connection_ids.to_vec(),
            None => Vec::new(),
        }
    }

    /// Whether the user has at least one live connection.
    pub fn is_user_online(&self, user_id: UserId) -> (r: bool)
        requires
            self.wf(),
        ensures
            r == (self.connections_by_user_id@.contains_key(user_id)
                && self.connections_by_user_id@[user_id].connection_ids.seq().len() > 0),
    {
        match self.connections_by_user_id.get(user_id) {
            Some(state) => !state.connection_ids.is_empty(),
            None => false,
        }
    }

    /// The channel row, when the channel has members.
    pub fn channel(&self, id: ChannelId) -> (r: Option<&Channel>)
        requires
            self.wf(),
        ensures
            match r {
                Some(c) => self.channels@.contains_key(id) && *c == self.channels@[id],
                None => !self.channels@.contains_key(id),
            },
    {
        self.channels.get(id)
    }

    /// The member connection ids of a channel.
    pub fn channel_connection_ids(&self, channel_id: ChannelId) -> (r: Result<
        Vec<ConnectionId>,
        StoreError,
    >)
        requires
            self.wf(),
        ensures
            match r {
                Ok(v) => self.channels@.contains_key(channel_id) && v@
                    == self.channels@[channel_id].connection_ids.seq(),
                Err(e) => e == StoreError::UnknownChannel && !self.channels@.contains_key(
                    channel_id,
                ),
            },
    {
        match self.channels.get(channel_id) {
            Some(channel) => Ok(channel.connection_ids()),
            None => Err(StoreError::UnknownChannel),
        }
    }

    /// The project row, whoever asks.
    pub fn project(&self, project_id: ProjectId) -> (r: Result<&Project, StoreError>)
        requires
            self.wf(),
        ensures
            match r {
                Ok(p) => self.projects@.contains_key(project_id) && *p
                    == self.projects@[project_id],
                Err(e) => e == StoreError::UnknownProject && !self.projects@.contains_key(
                    project_id,
                ),
            },
    {
        match self.projects.get(project_id) {
            Some(p) => Ok(p),
            None => Err(StoreError::UnknownProject),
        }
    }

    /// The ids of all registered projects, in table order.
    pub fn projects(&self) -> (r: Vec<ProjectId>)
        requires
            self.wf(),
        ensures
            forall|a: int, b: int| 0 <= a < b < r@.len() ==> r@[a] < r@[b],
            forall|p: u64| r@.contains(p) <==> self.projects@.contains_key(p),
    {
        proof {
            self.projects.lemma_pairs();
            self.projects.lemma_dom();
        }
        let r = sorted_ids(self.projects.keys());
        proof {
            assert forall|p: u64| r@.contains(p) <==> self.projects@.contains_key(p) by {
                assert(r@.to_set().contains(p) <==> self.projects.key_seq().to_set().contains(
                    p,
                ));
            }
        }
        r
    }

    /// The room row, if the room exists.
    pub fn room(&self, id: RoomId) -> (r: Option<&Room>)
        requires
            self.wf(),
        ensures
            match r {
                Some(room) => self.rooms@.contains_key(id) && *room == self.rooms@[id],
                None => !self.rooms@.contains_key(id),
            },
    {
        self.rooms.get(id)
    }

    /// The call state of a user, when the user has any connection.
    pub fn user_room_state(&self, user_id: UserId) -> (r: Option<Option<RoomState>>)
        requires
            self.wf(),
        ensures
            match r {
                Some(state) => self.connections_by_user_id@.contains_key(user_id) && state
                    == self.connections_by_user_id@[user_id].room,
                None => !self.connections_by_user_id@.contains_key(user_id),
            },
    {
        match self.connections_by_user_id.get(user_id) {
            Some(state) => Some(state.room),
            None => None,
        }
    }

    /// The project ids a connection hosts or has joined.
    pub fn connection_projects(&self, connection_id: ConnectionId) -> (r: Option<Vec<ProjectId>>)
        requires
            self.wf(),
        ensures
            match r {
                Some(v) => self.connections@.contains_key(connection_id) && v@
                    == self.connections@[connection_id].projects.seq(),
                None => !self.connections@.contains_key(connection_id),
            },
    {
        match self.connections.get(connection_id) {
            Some(c) => Some(c.projects.to_vec()),
            None => None,
        }
    }

    /// The project ids a connection has outstanding join requests for.
    pub fn connection_requested_projects(&self, connection_id: ConnectionId) -> (r: Option<
        Vec<ProjectId>,
    >)
        requires
            self.wf(),
        ensures
            match r {
                Some(v) => self.connections@.contains_key(connection_id) && v@
                    == self.connections@[connection_id].requested_projects.seq(),
                None => !self.connections@.contains_key(connection_id),
            },
    {
        match self.connections.get(connection_id) {
            Some(c) => Some(c.requested_projects.to_vec()),
            None => None,
        }
    }

    /// Adds a fresh connection for `user_id`, creating the user row when this
    /// is the user's first connection. The connection id must not be in use.
    pub fn add_connection(&mut self, connection_id: ConnectionId, user_id: UserId, admin: bool)
        requires
            old(self).wf(),
            old(self).links_ok(),
            !old(self).connections@.contains_key(connection_id),
        ensures
            final(self).wf(),
            final(self).links_ok(),
            old(self).paths_ok() ==> final(self).paths_ok(),
            add_connection_rel(*old(self), *final(self), connection_id, user_id, admin),
            final(self).connections@.dom() =~= old(self).connections@.dom().insert(connection_id),
            final(self).connections@.remove(connection_id) =~= old(self).connections@,
            ({
                let c = final(self).connections@[connection_id];
                &&& c.user_id == user_id
                &&& c.admin == admin
                &&& c.projects@ =~= Set::<u64>::empty()
                &&& c.requested_projects@ =~= Set::<u64>::empty()
                &&& c.channels@ =~= Set::<u64>::empty()
            }),
            final(self).connections_by_user_id@.dom() =~= old(
                self,
            ).connections_by_user_id@.dom().insert(user_id),
            final(self).connections_by_user_id@.remove(user_id) =~= old(
                self,
            ).connections_by_user_id@.remove(user_id),
            ({
                let u1 = final(self).connections_by_user_id@[user_id];
                if old(self).connections_by_user_id@.contains_key(user_id) {
                    let u0 = old(self).connections_by_user_id@[user_id];
                    u1.connection_ids@ =~= u0.connection_ids@.insert(connection_id) && u1.room
                        == u0.room
                } else {
                    u1.connection_ids@ =~= Set::<u64>::empty().insert(connection_id) && u1.room
                        is None
                }
            }),
            final(self).rooms == old(self).rooms,
            final(self).projects == old(self).projects,
            final(self).channels == old(self).channels,
            final(self).next_room_id == old(self).next_room_id,
    {
        let connection = ConnectionState {
            user_id,
            admin,
            projects: IdSet::new(),
            requested_projects: IdSet::new(),
            channels: IdSet::new(),
        };
        self.connections.insert(connection_id, connection);
        match self.connections_by_user_id.remove(user_id) {
            Some(mut state) => {
                state.connection_ids.insert(connection_id);
                self.connections_by_user_id.insert(user_id, state);
            },
            None => {
                let mut connection_ids = IdSet::new();
                connection_ids.insert(connection_id);
                self.connections_by_user_id.insert(
                    user_id,
                    UserConnectionState { connection_ids, room: None },
                );
            },
        }
        proof {
            let s0 = *old(self);
            let s1 = *self;
            assert(s1.connections@.remove(connection_id) =~= s0.connections@);
            assert(s1.connections_by_user_id@.remove(user_id)
                =~= s0.connections_by_user_id@.remove(user_id));
            assert forall|c: u64, p: u64|
                s1.connections@.contains_key(c) && (#[trigger] s1.connections@[c].projects@.contains(
                    p,
                )) implies s1.projects@.contains_key(p) && (s1.projects@[p].host_connection_id
                == c || s1.projects@[p].guests@.contains_key(c)) by {
                if c != connection_id {
                    assert(s0.connections@.contains_key(c));
                    assert(s0.connections@[c].projects@.contains(p));
                }
            }
            assert forall|p: u64| #[trigger] s1.projects@.contains_key(p) implies {
                let pr = s1.projects@[p];
                &&& s1.connections@.contains_key(pr.host_connection_id)
                &&& s1.connections@[pr.host_connection_id].projects@.contains(p)
                &&& forall|g: u64|
                    #[trigger] pr.guests@.contains_key(g) ==> s1.connections@.contains_key(g)
                        && s1.connections@[g].projects@.contains(p)
            } by {
                let pr = s1.projects@[p];
                assert(s0.projects@.contains_key(p));
                assert(s0.connections@.contains_key(pr.host_connection_id));
                assert(s1.connections@[pr.host_connection_id]
                    == s0.connections@[pr.host_connection_id]);
                assert forall|g: u64| #[trigger] pr.guests@.contains_key(g) implies s1.connections@.contains_key(
                    g,
                ) && s1.connections@[g].projects@.contains(p) by {
                    assert(s0.connections@.contains_key(g));
                    assert(s1.connections@[g] == s0.connections@[g]);
                }
            }
            assert forall|c: u64, ch: u64|
                s1.connections@.contains_key(c) && (#[trigger] s1.connections@[c].channels@.contains(
                    ch,
                )) implies s1.channels@.contains_key(ch)
                && s1.channels@[ch].connection_ids@.contains(c) by {
                if c != connection_id {
                    assert(s0.connections@.contains_key(c));
                    assert(s0.connections@[c].channels@.contains(ch));
                }
            }
            assert forall|c: u64| #[trigger] s1.connections@.contains_key(c) implies s1.connections_by_user_id@.contains_key(
                s1.connections@[c].user_id,
            ) && s1.connections_by_user_id@[s1.connections@[c].user_id].connection_ids@.contains(
                c,
            ) by {
                if c != connection_id {
                    assert(s0.connections@.contains_key(c));
                    assert(s1.connections@[c] == s0.connections@[c]);
                    let u = s0.connections@[c].user_id;
                    assert(s0.connections_by_user_id@.contains_key(u));
                    assert(s0.connections_by_user_id@[u].connection_ids@.contains(c));
                }
            }
            assert forall|u: u64, c: u64|
                s1.connections_by_user_id@.contains_key(u) && (
                #[trigger] s1.connections_by_user_id@[u].connection_ids@.contains(c)) implies s1.connections@.contains_key(
                c,
            ) && s1.connections@[c].user_id == u by {
                if u == user_id {
                    if c != connection_id {
                        assert(s0.connections_by_user_id@.contains_key(u));
                        assert(s0.connections_by_user_id@[u].connection_ids@.contains(c));
                    }
                } else {
                    assert(s0.connections_by_user_id@.contains_key(u));
                    assert(s0.connections_by_user_id@[u].connection_ids@.contains(c));
                }
            }
            assert forall|u: u64| #[trigger] s1.connections_by_user_id@.contains_key(u) implies exists|c: u64|
                #[trigger] s1.connections_by_user_id@[u].connection_ids@.contains(c) by {
                if u == user_id {
                    assert(s1.connections_by_user_id@[u].connection_ids@.contains(connection_id));
                } else {
                    let c = choose|c: u64|
                        #[trigger] s0.connections_by_user_id@[u].connection_ids@.contains(c);
                    assert(s1.connections_by_user_id@[u].connection_ids@.contains(c));
                }
            }
            assert forall|u: u64|
                #[trigger] s1.connections_by_user_id@.contains_key(u) implies (
            s0.connections_by_user_id@.contains_key(u) && s1.connections_by_user_id@[u].room
                == s0.connections_by_user_id@[u].room) || s1.connections_by_user_id@[u].room
                is None by {
                if u != user_id {
                    assert(s0.connections_by_user_id@.contains_key(u));
                    assert(s1.connections_by_user_id@[u] == s0.connections_by_user_id@[u]);
                }
            }
            lemma_rooms_frame(s0, s1);
        }
    }

    /// Subscribes a connection to a channel, creating the channel row when
    /// needed. Does nothing when the connection is unknown; idempotent.
    pub fn join_channel(&mut self, connection_id: ConnectionId, channel_id: ChannelId)
        requires
            old(self).wf(),
            old(self).links_ok(),
        ensures
            final(self).wf(),
            final(self).links_ok(),
            old(self).paths_ok() ==> final(self).paths_ok(),
            !old(self).connections@.contains_key(connection_id) ==> *final(self) == *old(self),
            old(self).connections@.contains_key(connection_id) ==> join_channel_rel(
                *old(self),
                *final(self),
                connection_id,
                channel_id,
            ),
            old(self).connections@.contains_key(connection_id) ==> {
                let c0 = old(self).connections@[connection_id];
                let c1 = final(self).connections@[connection_id];
                &&& final(self).connections@.dom() =~= old(self).connections@.dom()
                &&& final(self).connections@.remove(connection_id) =~= old(
                    self,
                ).connections@.remove(connection_id)
                &&& c1.user_id == c0.user_id
                &&& c1.admin == c0.admin
                &&& c1.projects == c0.projects
                &&& c1.requested_projects == c0.requested_projects
                &&& c1.channels@ =~= c0.channels@.insert(channel_id)
                &&& final(self).channels@.dom() =~= old(self).channels@.dom().insert(channel_id)
                &&& final(self).channels@.remove(channel_id) =~= old(self).channels@.remove(
                    channel_id,
                )
                &&& final(self).channels@[channel_id].connection_ids@ =~= (if old(
                    self,
                ).channels@.contains_key(channel_id) {
                    old(self).channels@[channel_id].connection_ids@.insert(connection_id)
                } else {
                    Set::<u64>::empty().insert(connection_id)
                })
                &&& final(self).connections_by_user_id == old(self).connections_by_user_id
                &&& final(self).rooms == old(self).rooms
                &&& final(self).projects == old(self).projects
                &&& final(self).next_room_id == old(self).next_room_id
            },
    {
        match self.connections.remove(connection_id) {
            Some(mut connection) => {
                connection.channels.insert(channel_id);
                self.connections.insert(connection_id, connection);
                match self.channels.remove(channel_id) {
                    Some(mut channel) => {
                        channel.connection_ids.insert(connection_id);
                        self.channels.insert(channel_id, channel);
                    },
                    None => {
                        let mut connection_ids = IdSet::new();
                        connection_ids.insert(connection_id);
                        self.channels.insert(channel_id, Channel { connection_ids });
                    },
                }
                proof {
                    let s0 = *old(self);
                    let s1 = *self;
                    assert(s1.connections@.remove(connection_id) =~= s0.connections@.remove(
                        connection_id,
                    ));
                    assert(s1.connections@.dom() =~= s0.connections@.dom());
                    assert(s1.channels@.remove(channel_id) =~= s0.channels@.remove(channel_id));
                    assert forall|c: u64, p: u64|
                        s1.connections@.contains_key(c) && (
                        #[trigger] s1.connections@[c].projects@.contains(p)) implies s1.projects@.contains_key(
                        p,
                    ) && (s1.projects@[p].host_connection_id == c
                        || s1.projects@[p].guests@.contains_key(c)) by {
                        assert(s0.connections@.contains_key(c));
                        assert(s0.connections@[c].projects@.contains(p));
                    }
                    assert forall|p: u64| #[trigger] s1.projects@.contains_key(p) implies {
                        let pr = s1.projects@[p];
                        &&& s1.connections@.contains_key(pr.host_connection_id)
                        &&& s1.connections@[pr.host_connection_id].projects@.contains(p)
                        &&& forall|g: u64|
                            #[trigger] pr.guests@.contains_key(g)
                                ==> s1.connections@.contains_key(g)
                                && s1.connections@[g].projects@.contains(p)
                    } by {
                        let pr = s1.projects@[p];
                        assert(s0.projects@.contains_key(p));
                        assert(s0.connections@[pr.host_connection_id].projects@.contains(p));
                        assert forall|g: u64|
                            #[trigger] pr.guests@.contains_key(g) implies s1.connections@.contains_key(
                            g,
                        ) && s1.connections@[g].projects@.contains(p) by {
                            assert(s0.connections@.contains_key(g));
                            assert(s0.connections@[g].projects@.contains(p));
                        }
                    }
                    assert forall|c: u64, ch: u64|
                        s1.connections@.contains_key(c) && (
                        #[trigger] s1.connections@[c].channels@.contains(ch)) implies s1.channels@.contains_key(
                        ch,
                    ) && s1.channels@[ch].connection_ids@.contains(c) by {
                        assert(s0.connections@.contains_key(c));
                        if c == connection_id {
                            if ch != channel_id {
                                assert(s0.connections@[c].channels@.contains(ch));
                                assert(s0.channels@[ch] == s1.channels@[ch]);
                            }
                        } else {
                            assert(s0.connections@[c].channels@.contains(ch));
                            if ch != channel_id {
                                assert(s0.channels@[ch] == s1.channels@[ch]);
                            }
                        }
                    }
                    assert forall|ch: u64, c: u64|
                        s1.channels@.contains_key(ch) && (
                        #[trigger] s1.channels@[ch].connection_ids@.contains(c)) implies s1.connections@.contains_key(
                        c,
                    ) && s1.connections@[c].channels@.contains(ch) by {
                        if ch == channel_id {
                            if c != connection_id {
                                assert(s0.channels@.contains_key(ch));
                                assert(s0.channels@[ch].connection_ids@.contains(c));
                            }
                        } else {
                            assert(s0.channels@.contains_key(ch));
                            assert(s0.channels@[ch].connection_ids@.contains(c));
                        }
                    }
                    assert forall|ch: u64| #[trigger] s1.channels@.contains_key(ch) implies exists|c: u64|
                        #[trigger] s1.channels@[ch].connection_ids@.contains(c) by {
                        if ch == channel_id {
                            assert(s1.channels@[ch].connection_ids@.contains(connection_id));
                        } else {
                            let c = choose|c: u64|
                                #[trigger] s0.channels@[ch].connection_ids@.contains(c);
                            assert(s1.channels@[ch].connection_ids@.contains(c));
                        }
                    }
                    assert forall|c: u64|
                        #[trigger] s1.connections@.contains_key(c) implies s1.connections@[c].user_id
                        == s0.connections@[c].user_id by {
                        assert(s0.connections@.contains_key(c));
                    }
                    lemma_users_frame(s0, s1);
                    lemma_rooms_frame(s0, s1);
                    assert forall|p: u64| #[trigger] s1.projects@.contains_key(p) implies s1.projects@[p].replicas_ok() by {
                        assert(s0.projects@.contains_key(p));
                        assert(s1.projects@[p] == s0.projects@[p]);
                    }
                    if s0.paths_ok() {
                        assert forall|p: u64, w: u64|
                            s1.projects@.contains_key(p) && (
                            #[trigger] s1.projects@[p].worktrees@.contains_key(w)) implies (
                        s0.projects@.contains_key(p) && s0.projects@[p].worktrees@.contains_key(w)
                            && s1.projects@[p].worktrees@[w].entries@
                            == s0.projects@[p].worktrees@[w].entries@)
                            || s1.projects@[p].worktrees@[w].entries@ =~= Map::<
                            u64,
                            Entry,
                        >::empty() by {
                            assert(s0.projects@.contains_key(p));
                            assert(s1.projects@[p] == s0.projects@[p]);
                        }
                        lemma_paths_frame(s0, s1);
                    }
                }
            },
            None => {},
        }
    }

    /// Unsubscribes a connection from a channel; the channel row is dropped
    /// when its last member leaves. Does nothing when the connection is
    /// unknown; idempotent.
    pub fn leave_channel(&mut self, connection_id: ConnectionId, channel_id: ChannelId)
        requires
            old(self).wf(),
            old(self).links_ok(),
        ensures
            final(self).wf(),
            final(self).links_ok(),
            old(self).paths_ok() ==> final(self).paths_ok(),
            !old(self).connections@.contains_key(connection_id) ==> *final(self) == *old(self),
            old(self).connections@.contains_key(connection_id) ==> leave_channel_rel(
                *old(self),
                *final(self),
                connection_id,
                channel_id,
            ),
            old(self).connections@.contains_key(connection_id) ==> {
                let c0 = old(self).connections@[connection_id];
                let c1 = final(self).connections@[connection_id];
                &&& final(self).connections@.dom() =~= old(self).connections@.dom()
                &&& final(self).connections@.remove(connection_id) =~= old(
                    self,
                ).connections@.remove(connection_id)
                &&& c1.user_id == c0.user_id
                &&& c1.admin == c0.admin
                &&& c1.projects == c0.projects
                &&& c1.requested_projects == c0.requested_projects
                &&& c1.channels@ =~= c0.channels@.remove(channel_id)
                &&& (if !old(self).channels@.contains_key(channel_id) {
                    final(self).channels == old(self).channels
                } else {
                    let m = old(self).channels@[channel_id].connection_ids@.remove(connection_id);
                    if m =~= Set::<u64>::empty() {
                        final(self).channels@ =~= old(self).channels@.remove(channel_id)
                    } else {
                        &&& final(self).channels@.dom() =~= old(self).channels@.dom()
                        &&& final(self).channels@.remove(channel_id) =~= old(
                            self,
                        ).channels@.remove(channel_id)
                        &&& final(self).channels@[channel_id].connection_ids@ =~= m
                    }
                })
                &&& final(self).connections_by_user_id == old(self).connections_by_user_id
                &&& final(self).rooms == old(self).rooms
                &&& final(self).projects == old(self).projects
                &&& final(self).next_room_id == old(self).next_room_id
            },
    {
        match self.connections.remove(connection_id) {
            Some(mut connection) => {
                connection.channels.remove(channel_id);
                self.connections.insert(connection_id, connection);
                match self.channels.remove(channel_id) {
                    Some(mut channel) => {
                        channel.connection_ids.remove(connection_id);
                        if !channel.connection_ids.is_empty() {
                            self.channels.insert(channel_id, channel);
                        }
                        proof {
                            channel.connection_ids.lemma_view();
                            if channel.connection_ids.seq().len() > 0 {
                                assert(channel.connection_ids@.contains(
                                    channel.connection_ids.seq()[0],
                                ));
                            }
                        }
                    },
                    None => {},
                }
                proof {
                    let s0 = *old(self);
                    let s1 = *self;
                    assert(s1.connections@.remove(connection_id) =~= s0.connections@.remove(
                        connection_id,
                    ));
                    assert(s1.connections@.dom() =~= s0.connections@.dom());
                    assert forall|c: u64, p: u64|
                        s1.connections@.contains_key(c) && (
                        #[trigger] s1.connections@[c].projects@.contains(p)) implies s1.projects@.contains_key(
                        p,
                    ) && (s1.projects@[p].host_connection_id == c
                        || s1.projects@[p].guests@.contains_key(c)) by {
                        assert(s0.connections@.contains_key(c));
                        assert(s0.connections@[c].projects@.contains(p));
                    }
                    assert forall|p: u64| #[trigger] s1.projects@.contains_key(p) implies {
                        let pr = s1.projects@[p];
                        &&& s1.connections@.contains_key(pr.host_connection_id)
                        &&& s1.connections@[pr.host_connection_id].projects@.contains(p)
                        &&& forall|g: u64|
                            #[trigger] pr.guests@.contains_key(g)
                                ==> s1.connections@.contains_key(g)
                                && s1.connections@[g].projects@.contains(p)
                    } by {
                        let pr = s1.projects@[p];
                        assert(s0.projects@.contains_key(p));
                        assert(s0.connections@[pr.host_connection_id].projects@.contains(p));
                        assert forall|g: u64|
                            #[trigger] pr.guests@.contains_key(g) implies s1.connections@.contains_key(
                            g,
                        ) && s1.connections@[g].projects@.contains(p) by {
                            assert(s0.connections@.contains_key(g));
                            assert(s0.connections@[g].projects@.contains(p));
                        }
                    }
                    assert forall|c: u64, ch: u64|
                        s1.connections@.contains_key(c) && (
                        #[trigger] s1.connections@[c].channels@.contains(ch)) implies s1.channels@.contains_key(
                        ch,
                    ) && s1.channels@[ch].connection_ids@.contains(c) by {
                        assert(s0.connections@.contains_key(c));
                        assert(s0.connections@[c].channels@.contains(ch));
                        if ch == channel_id {
                            assert(c != connection_id);
                            assert(s0.channels@.contains_key(ch));
                            assert(s0.channels@[ch].connection_ids@.contains(c));
                        } else {
                            assert(s1.channels@.contains_key(ch) && s1.channels@[ch]
                                == s0.channels@[ch]);
                        }
                    }
                    assert forall|ch: u64, c: u64|
                        s1.channels@.contains_key(ch) && (
                        #[trigger] s1.channels@[ch].connection_ids@.contains(c)) implies s1.connections@.contains_key(
                        c,
                    ) && s1.connections@[c].channels@.contains(ch) by {
                        if ch == channel_id {
                            assert(s0.channels@.contains_key(ch));
                            assert(s0.channels@[ch].connection_ids@.contains(c));
                            assert(c != connection_id);
                        } else {
                            assert(s0.channels@.contains_key(ch));
                            assert(s0.channels@[ch].connection_ids@.contains(c));
                        }
                    }
                    assert forall|ch: u64| #[trigger] s1.channels@.contains_key(ch) implies exists|c: u64|
                        #[trigger] s1.channels@[ch].connection_ids@.contains(c) by {
                        if ch == channel_id {
                            assert(s1.channels@[ch].connection_ids@.contains(
                                s1.channels@[ch].connection_ids.seq()[0],
                            ));
                        } else {
                            let c = choose|c: u64|
                                #[trigger] s0.channels@[ch].connection_ids@.contains(c);
                            assert(s1.channels@[ch].connection_ids@.contains(c));
                        }
                    }
                    assert forall|c: u64|
                        #[trigger] s1.connections@.contains_key(c) implies s1.connections@[c].user_id
                        == s0.connections@[c].user_id by {
                        assert(s0.connections@.contains_key(c));
                    }
                    lemma_users_frame(s0, s1);
                    lemma_rooms_frame(s0, s1);
                    assert forall|p: u64| #[trigger] s1.projects@.contains_key(p) implies s1.projects@[p].replicas_ok() by {
                        assert(s0.projects@.contains_key(p));
                        assert(s1.projects@[p] == s0.projects@[p]);
                    }
                    if s0.paths_ok() {
                        assert forall|p: u64, w: u64|
                            s1.projects@.contains_key(p) && (
                            #[trigger] s1.projects@[p].worktrees@.contains_key(w)) implies (
                        s0.projects@.contains_key(p) && s0.projects@[p].worktrees@.contains_key(w)
                            && s1.projects@[p].worktrees@[w].entries@
                            == s0.projects@[p].worktrees@[w].entries@)
                            || s1.projects@[p].worktrees@[w].entries@ =~= Map::<
                            u64,
                            Entry,
                        >::empty() by {
                            assert(s0.projects@.contains_key(p));
                            assert(s1.projects@[p] == s0.projects@[p]);
                        }
                        lemma_paths_frame(s0, s1);
                    }
                }
            },
            None => {},
        }
    }

    /// Registers a fresh project under `project_id`, hosted by the given
    /// connection. The caller must ensure the project id is not in use.
    pub fn register_project(
        &mut self,
        host_connection_id: ConnectionId,
        project_id: ProjectId,
        online: bool,
    ) -> (r: Result<(), StoreError>)
        requires
            old(self).wf(),
            old(self).links_ok(),
            !old(self).projects@.contains_key(project_id),
        ensures
            final(self).wf(),
            final(self).links_ok(),
            old(self).paths_ok() ==> final(self).paths_ok(),
            r is Ok ==> register_project_rel(
                *old(self),
                *final(self),
                host_connection_id,
                project_id,
                online,
            ),
            match r {
                Ok(()) => old(self).connections@.contains_key(host_connection_id) && {
                    let c0 = old(self).connections@[host_connection_id];
                    let c1 = final(self).connections@[host_connection_id];
                    let pr = final(self).projects@[project_id];
                    &&& final(self).connections@.dom() =~= old(self).connections@.dom()
                    &&& final(self).connections@.remove(host_connection_id) =~= old(
                        self,
                    ).connections@.remove(host_connection_id)
                    &&& c1.user_id == c0.user_id
                    &&& c1.admin == c0.admin
                    &&& c1.projects@ =~= c0.projects@.insert(project_id)
                    &&& c1.requested_projects == c0.requested_projects
                    &&& c1.channels == c0.channels
                    &&& final(self).projects@.dom() =~= old(self).projects@.dom().insert(
                        project_id,
                    )
                    &&& final(self).projects@.remove(project_id) =~= old(self).projects@
                    &&& pr.online == online
                    &&& pr.host_connection_id == host_connection_id
                    &&& pr.host.replica_id == 0
                    &&& pr.host.user_id == c0.user_id
                    &&& pr.host.last_activity is None
                    &&& pr.host.admin == c0.admin
                    &&& pr.guests@ =~= Map::<u64, Collaborator>::empty()
                    &&& pr.join_requests@ =~= Map::<u64, Vec<Receipt>>::empty()
                    &&& pr.active_replica_ids@ =~= Set::<u64>::empty()
                    &&& pr.worktrees@ =~= Map::<u64, Worktree>::empty()
                    &&& pr.language_servers@ == Seq::<LanguageServer>::empty()
                    &&& final(self).connections_by_user_id == old(self).connections_by_user_id
                    &&& final(self).rooms == old(self).rooms
                    &&& final(self).channels == old(self).channels
                    &&& final(self).next_room_id == old(self).next_room_id
                },
                Err(e) => e == StoreError::UnknownConnection && !old(
                    self,
                ).connections@.contains_key(host_connection_id) && *final(self) == *old(self),
            },
    {
        match self.connections.remove(host_connection_id) {
            None => Err(StoreError::UnknownConnection),
            Some(mut connection) => {
                connection.projects.insert(project_id);
                let host = Collaborator {
                    replica_id: 0,
                    user_id: connection.user_id,
                    last_activity: None,
                    admin: connection.admin,
                };
                self.connections.insert(host_connection_id, connection);
                self.projects.insert(
                    project_id,
                    Project {
                        online,
                        host_connection_id,
                        host,
                        guests: Table::new(),
                        join_requests: Table::new(),
                        active_replica_ids: IdSet::new(),
                        worktrees: Table::new(),
                        language_servers: Vec::new(),
                    },
                );
                proof {
                    let s0 = *old(self);
                    let s1 = *self;
                    assert(s1.connections@.remove(host_connection_id) =~= s0.connections@.remove(
                        host_connection_id,
                    ));
                    assert(s1.connections@.dom() =~= s0.connections@.dom());
                    assert(s1.projects@.remove(project_id) =~= s0.projects@);
                    assert forall|c: u64, p: u64|
                        s1.connections@.contains_key(c) && (
                        #[trigger] s1.connections@[c].projects@.contains(p)) implies s1.projects@.contains_key(
                        p,
                    ) && (s1.projects@[p].host_connection_id == c
                        || s1.projects@[p].guests@.contains_key(c)) by {
                        assert(s0.connections@.contains_key(c));
                        if c == host_connection_id {
                            if p != project_id {
                                assert(s0.connections@[c].projects@.contains(p));
                                assert(s1.projects@[p] == s0.projects@[p]);
                            }
                        } else {
                            assert(s0.connections@[c].projects@.contains(p));
                            assert(p != project_id);
                            assert(s1.projects@[p] == s0.projects@[p]);
                        }
                    }
                    assert forall|p: u64| #[trigger] s1.projects@.contains_key(p) implies {
                        let pr = s1.projects@[p];
                        &&& s1.connections@.contains_key(pr.host_connection_id)
                        &&& s1.connections@[pr.host_connection_id].projects@.contains(p)
                        &&& forall|g: u64|
                            #[trigger] pr.guests@.contains_key(g)
                                ==> s1.connections@.contains_key(g)
                                && s1.connections@[g].projects@.contains(p)
                    } by {
                        let pr = s1.projects@[p];
                        if p == project_id {
                            assert(s1.connections@[host_connection_id].projects@.contains(p));
                        } else {
                            assert(s0.projects@.contains_key(p));
                            assert(pr == s0.projects@[p]);
                            assert(s0.connections@[pr.host_connection_id].projects@.contains(p));
                            assert forall|g: u64|
                                #[trigger] pr.guests@.contains_key(g) implies s1.connections@.contains_key(
                                g,
                            ) && s1.connections@[g].projects@.contains(p) by {
                                assert(s0.connections@.contains_key(g));
                                assert(s0.connections@[g].projects@.contains(p));
                            }
                        }
                    }
                    assert forall|p: u64| #[trigger] s1.projects@.contains_key(p) implies s1.projects@[p].replicas_ok() by {
                        if p == project_id {
                            assert(s1.projects@[p].guests@.dom() =~= Set::<u64>::empty());
                        } else {
                            assert(s0.projects@.contains_key(p));
                            assert(s1.projects@[p] == s0.projects@[p]);
                        }
                    }
                    assert forall|c: u64|
                        #[trigger] s1.connections@.contains_key(c) implies s1.connections@[c].user_id
                        == s0.connections@[c].user_id && s1.connections@[c].channels@
                        =~= s0.connections@[c].channels@ by {
                        assert(s0.connections@.contains_key(c));
                    }
                    lemma_users_frame(s0, s1);
                    lemma_rooms_frame(s0, s1);
                    lemma_channels_frame(s0, s1);
                    if s0.paths_ok() {
                        assert forall|p: u64, w: u64|
                            s1.projects@.contains_key(p) && (
                            #[trigger] s1.projects@[p].worktrees@.contains_key(w)) implies (
                        s0.projects@.contains_key(p) && s0.projects@[p].worktrees@.contains_key(w)
                            && s1.projects@[p].worktrees@[w].entries@
                            == s0.projects@[p].worktrees@[w].entries@)
                            || s1.projects@[p].worktrees@[w].entries@ =~= Map::<
                            u64,
                            Entry,
                        >::empty() by {
                            if p != project_id {
                                assert(s0.projects@.contains_key(p));
                                assert(s1.projects@[p] == s0.projects@[p]);
                            }
                        }
                        lemma_paths_frame(s0, s1);
                    }
                }
                Ok(())
            },
        }
    }

    /// Opens a new room whose sole participant is the creator, and marks the
    /// creator's user as joined. Returns the freshly allocated room id.
    pub fn create_room(&mut self, creator_connection_id: ConnectionId) -> (r: Result<
        RoomId,
        StoreError,
    >)
        requires
            old(self).wf(),
            old(self).links_ok(),
            old(self).next_room_id < u64::MAX,
        ensures
            final(self).wf(),
            final(self).links_ok(),
            old(self).paths_ok() ==> final(self).paths_ok(),
            match r {
                Ok(room_id) => {
                    let user_id = old(self).connections@[creator_connection_id].user_id;
                    let u0 = old(self).connections_by_user_id@[user_id];
                    let u1 = final(self).connections_by_user_id@[user_id];
                    let room = final(self).rooms@[room_id];
                    &&& old(self).connections@.contains_key(creator_connection_id)
                    &&& old(self).connections_by_user_id@.contains_key(user_id)
                    &&& u0.room is None
                    &&& room_id == old(self).next_room_id
                    &&& final(self).next_room_id == old(self).next_room_id + 1
                    &&& final(self).rooms@.dom() =~= old(self).rooms@.dom().insert(room_id)
                    &&& final(self).rooms@.remove(room_id) =~= old(self).rooms@
                    &&& room.participants@.len() == 1
                    &&& room.participants@[0].user_id == user_id
                    &&& room.participants@[0].peer_id == creator_connection_id
                    &&& room.participants@[0].project_ids@ == Seq::<u64>::empty()
                    &&& room.participants@[0].location == ParticipantLocation::External
                    &&& room.pending_user_ids@ == Seq::<u64>::empty()
                    &&& final(self).connections_by_user_id@.dom() =~= old(
                        self,
                    ).connections_by_user_id@.dom()
                    &&& final(self).connections_by_user_id@.remove(user_id) =~= old(
                        self,
                    ).connections_by_user_id@.remove(user_id)
                    &&& u1.connection_ids == u0.connection_ids
                    &&& u1.room == Some(RoomState::Joined)
                    &&& final(self).connections == old(self).connections
                    &&& final(self).projects == old(self).projects
                    &&& final(self).channels == old(self).channels
                },
                Err(e) => *final(self) == *old(self) && ((e == StoreError::UnknownConnection && (
                !old(self).connections@.contains_key(creator_connection_id) || !old(
                    self,
                ).connections_by_user_id@.contains_key(
                    old(self).connections@[creator_connection_id].user_id,
                ))) || (e == StoreError::AlreadyInRoom && old(self).connections@.contains_key(
                    creator_connection_id,
                ) && old(self).connections_by_user_id@.contains_key(
                    old(self).connections@[creator_connection_id].user_id,
                ) && !(old(self).connections_by_user_id@[old(
                    self,
                ).connections@[creator_connection_id].user_id].room is None))),
            },
    {
        let user_id = match self.connections.get(creator_connection_id) {
            Some(c) => c.user_id,
            None => {
                return Err(StoreError::UnknownConnection);
            },
        };
        let already = match self.connections_by_user_id.get(user_id) {
            Some(state) => !matches!(state.room, None),
            None => {
                return Err(StoreError::UnknownConnection);
            },
        };
        if already {
            return Err(StoreError::AlreadyInRoom);
        }
        let mut state = self.connections_by_user_id.remove(user_id).unwrap();
        state.room = Some(RoomState::Joined);
        self.connections_by_user_id.insert(user_id, state);
        let mut participants: Vec<Participant> = Vec::new();
        participants.push(
            Participant {
                user_id,
                peer_id: creator_connection_id,
                project_ids: Vec::new(),
                location: ParticipantLocation::External,
            },
        );
        let room_id = self.next_room_id;
        self.rooms.insert(room_id, Room { participants, pending_user_ids: Vec::new() });
        self.next_room_id = room_id + 1;
        proof {
            let s0 = *old(self);
            let s1 = *self;
            assert(!s0.rooms@.contains_key(room_id));
            assert(s1.rooms@.remove(room_id) =~= s0.rooms@);
            assert(s1.connections_by_user_id@.remove(user_id)
                =~= s0.connections_by_user_id@.remove(user_id));
            assert(s1.connections_by_user_id@.dom() =~= s0.connections_by_user_id@.dom());
            assert forall|u: u64|
                #[trigger] s1.connections_by_user_id@.contains_key(u)
                    implies s1.connections_by_user_id@[u].connection_ids@
                =~= s0.connections_by_user_id@[u].connection_ids@ by {
                assert(s0.connections_by_user_id@.contains_key(u));
            }
            lemma_users_frame(s0, s1);
            assert forall|u: u64|
                s1.connections_by_user_id@.contains_key(u) implies (match (
            #[trigger] s1.connections_by_user_id@[u]).room {
                Some(RoomState::Joined) => exists|r: u64|
                    #[trigger] s1.rooms@.contains_key(r) && room_has_participant(
                        s1.rooms@[r],
                        u,
                    ),
                Some(RoomState::Calling { room_id: rr }) => s1.rooms@.contains_key(rr)
                    && s1.rooms@[rr].pending_user_ids@.contains(u),
                None => true,
            }) by {
                assert(s0.connections_by_user_id@.contains_key(u));
                if u == user_id {
                    assert(s1.rooms@.contains_key(room_id));
                    assert(s1.rooms@[room_id].participants@[0].user_id == u);
                    assert(room_has_participant(s1.rooms@[room_id], u));
                } else {
                    assert(s1.connections_by_user_id@[u] == s0.connections_by_user_id@[u]);
                    match s0.connections_by_user_id@[u].room {
                        Some(RoomState::Joined) => {
                            let r = choose|r: u64|
                                #[trigger] s0.rooms@.contains_key(r) && room_has_participant(
                                    s0.rooms@[r],
                                    u,
                                );
                            assert(r < s0.next_room_id);
                            assert(s1.rooms@.contains_key(r));
                            assert(s1.rooms@[r] == s0.rooms@[r]);
                        },
                        Some(RoomState::Calling { room_id: rr }) => {
                            assert(s0.rooms@.contains_key(rr));
                            assert(rr < s0.next_room_id);
                            assert(s1.rooms@[rr] == s0.rooms@[rr]);
                        },
                        None => {},
                    }
                }
            }
        }
        Ok(room_id)
    }

    /// Moves an invited user into a room: the caller's user must have been
    /// pending in it (or freshly eligible). Returns a snapshot of the updated
    /// room and the joining user's connection ids, so the caller can
    /// multicast presence to the user's other clients.
    pub fn join_room(&mut self, room_id: RoomId, connection_id: ConnectionId) -> (r: Result<
        (Room, Vec<ConnectionId>),
        StoreError,
    >)
        requires
            old(self).wf(),
            old(self).links_ok(),
        ensures
            final(self).wf(),
            final(self).links_ok(),
            old(self).paths_ok() ==> final(self).paths_ok(),
            match r {
                Ok((room_copy, recipients)) => {
                    let user_id = old(self).connections@[connection_id].user_id;
                    let u0 = old(self).connections_by_user_id@[user_id];
                    let u1 = final(self).connections_by_user_id@[user_id];
                    let room0 = old(self).rooms@[room_id];
                    let room1 = final(self).rooms@[room_id];
                    &&& old(self).connections@.contains_key(connection_id)
                    &&& old(self).connections_by_user_id@.contains_key(user_id)
                    &&& (u0.room is None || u0.room == Some(RoomState::Calling { room_id }))
                    &&& old(self).rooms@.contains_key(room_id)
                    &&& room0.pending_user_ids@.contains(user_id)
                    &&& recipients@ == u0.connection_ids.seq()
                    &&& final(self).rooms@.dom() =~= old(self).rooms@.dom()
                    &&& final(self).rooms@.remove(room_id) =~= old(self).rooms@.remove(room_id)
                    &&& room1.pending_user_ids@ == without_user(
                        room0.pending_user_ids@,
                        user_id,
                    )
                    &&& room1.participants@.len() == room0.participants@.len() + 1
                    &&& room1.participants@.subrange(0, room0.participants@.len() as int)
                        == room0.participants@
                    &&& room1.participants@.last().user_id == user_id
                    &&& room1.participants@.last().peer_id == connection_id
                    &&& room1.participants@.last().project_ids@ == Seq::<u64>::empty()
                    &&& room1.participants@.last().location == ParticipantLocation::External
                    &&& room_like(room_copy, room1)
                    &&& final(self).connections_by_user_id@.dom() =~= old(
                        self,
                    ).connections_by_user_id@.dom()
                    &&& final(self).connections_by_user_id@.remove(user_id) =~= old(
                        self,
                    ).connections_by_user_id@.remove(user_id)
                    &&& u1.connection_ids == u0.connection_ids
                    &&& u1.room == Some(RoomState::Joined)
                    &&& final(self).connections == old(self).connections
                    &&& final(self).projects == old(self).projects
                    &&& final(self).channels == old(self).channels
                    &&& final(self).next_room_id == old(self).next_room_id
                },
                Err(e) => {
                    let known = old(self).connections@.contains_key(connection_id) && old(
                        self,
                    ).connections_by_user_id@.contains_key(
                        old(self).connections@[connection_id].user_id,
                    );
                    let state_ok = known && {
                        let state = old(self).connections_by_user_id@[old(
                            self,
                        ).connections@[connection_id].user_id].room;
                        state is None || state == Some(RoomState::Calling { room_id })
                    };
                    &&& *final(self) == *old(self)
                    &&& (e == StoreError::UnknownConnection || e == StoreError::AlreadyInRoom
                        || e == StoreError::UnknownRoom)
                    &&& (e == StoreError::UnknownConnection <==> !known)
                    &&& (e == StoreError::AlreadyInRoom <==> known && !state_ok)
                    &&& (e == StoreError::UnknownRoom <==> state_ok && (!old(
                        self,
                    ).rooms@.contains_key(room_id) || !old(
                        self,
                    ).rooms@[room_id].pending_user_ids@.contains(
                        old(self).connections@[connection_id].user_id,
                    )))
                },
            },
    {
        let user_id = match self.connections.get(connection_id) {
            Some(c) => c.user_id,
            None => {
                return Err(StoreError::UnknownConnection);
            },
        };
        let recipients = self.connection_ids_for_user(user_id);
        let state_ok = match self.connections_by_user_id.get(user_id) {
            Some(state) => match state.room {
                None => true,
                Some(RoomState::Calling { room_id: rr }) => rr == room_id,
                Some(RoomState::Joined) => false,
            },
            None => {
                return Err(StoreError::UnknownConnection);
            },
        };
        if !state_ok {
            return Err(StoreError::AlreadyInRoom);
        }
        let pending_ok = match self.rooms.get(room_id) {
            Some(room) => contains_id(&room.pending_user_ids, user_id),
            None => {
                return Err(StoreError::UnknownRoom);
            },
        };
        if !pending_ok {
            return Err(StoreError::UnknownRoom);
        }
        let mut room = self.rooms.remove(room_id).unwrap();
        let new_pending = pending_without(&room.pending_user_ids, user_id);
        room.pending_user_ids = new_pending;
        room.participants.push(
            Participant {
                user_id,
                peer_id: connection_id,
                project_ids: Vec::new(),
                location: ParticipantLocation::External,
            },
        );
        let room_copy = copy_room(&room);
        self.rooms.insert(room_id, room);
        let mut state = self.connections_by_user_id.remove(user_id).unwrap();
        state.room = Some(RoomState::Joined);
        self.connections_by_user_id.insert(user_id, state);
        proof {
            let s0 = *old(self);
            let s1 = *self;
            assert(s1.rooms@.remove(room_id) =~= s0.rooms@.remove(room_id));
            assert(s1.rooms@.dom() =~= s0.rooms@.dom());
            assert(s1.connections_by_user_id@.remove(user_id)
                =~= s0.connections_by_user_id@.remove(user_id));
            assert(s1.connections_by_user_id@.dom() =~= s0.connections_by_user_id@.dom());
            let room0 = s0.rooms@[room_id];
            let room1 = s1.rooms@[room_id];
            assert(room1.participants@.subrange(0, room0.participants@.len() as int)
                =~= room0.participants@);
            assert forall|u: u64|
                #[trigger] s1.connections_by_user_id@.contains_key(u)
                    implies s1.connections_by_user_id@[u].connection_ids@
                =~= s0.connections_by_user_id@[u].connection_ids@ by {
                assert(s0.connections_by_user_id@.contains_key(u));
            }
            lemma_users_frame(s0, s1);
            assert forall|u: u64|
                s1.connections_by_user_id@.contains_key(u) implies (match (
            #[trigger] s1.connections_by_user_id@[u]).room {
                Some(RoomState::Joined) => exists|r: u64|
                    #[trigger] s1.rooms@.contains_key(r) && room_has_participant(
                        s1.rooms@[r],
                        u,
                    ),
                Some(RoomState::Calling { room_id: rr }) => s1.rooms@.contains_key(rr)
                    && s1.rooms@[rr].pending_user_ids@.contains(u),
                None => true,
            }) by {
                assert(s0.connections_by_user_id@.contains_key(u));
                if u == user_id {
                    assert(room1.participants@.last().user_id == u);
                    assert(room_has_participant(room1, u));
                    assert(s1.rooms@.contains_key(room_id));
                } else {
                    assert(s1.connections_by_user_id@[u] == s0.connections_by_user_id@[u]);
                    match s0.connections_by_user_id@[u].room {
                        Some(RoomState::Joined) => {
                            let r = choose|r: u64|
                                #[trigger] s0.rooms@.contains_key(r) && room_has_participant(
                                    s0.rooms@[r],
                                    u,
                                );
                            assert(s1.rooms@.contains_key(r));
                            if r == room_id {
                                let i = choose|i: int|
                                    0 <= i < room0.participants@.len() && (
                                    #[trigger] room0.participants@[i]).user_id == u;
                                assert(room1.participants@[i] == room0.participants@[i]);
                                assert(room_has_participant(room1, u));
                            } else {
                                assert(s1.rooms@[r] == s0.rooms@[r]);
                            }
                        },
                        Some(RoomState::Calling { room_id: rr }) => {
                            assert(s0.rooms@.contains_key(rr));
                            if rr == room_id {
                                assert(s0.rooms@[rr].pending_user_ids@.contains(u));
                                lemma_without_user(room0.pending_user_ids@, user_id, u);
                            } else {
                                assert(s1.rooms@[rr] == s0.rooms@[rr]);
                            }
                        },
                        None => {},
                    }
                }
            }
        }
        Ok((room_copy, recipients))
    }

    /// Invites a user to a room: appends the invitee to the room's pending
    /// list and marks the invitee as being called. Returns the caller's user
    /// id, the invitee's connection ids, and a snapshot of the room.
    pub fn call(
        &mut self,
        room_id: RoomId,
        from_connection_id: ConnectionId,
        to_user_id: UserId,
    ) -> (r: Result<(UserId, Vec<ConnectionId>, Room), StoreError>)
        requires
            old(self).wf(),
            old(self).links_ok(),
        ensures
            final(self).wf(),
            final(self).links_ok(),
            old(self).paths_ok() ==> final(self).paths_ok(),
            match r {
                Ok((from_user_id, to_connection_ids, room_copy)) => {
                    let u0 = old(self).connections_by_user_id@[to_user_id];
                    let u1 = final(self).connections_by_user_id@[to_user_id];
                    let room0 = old(self).rooms@[room_id];
                    let room1 = final(self).rooms@[room_id];
                    &&& old(self).connections@.contains_key(from_connection_id)
                    &&& from_user_id == old(self).connections@[from_connection_id].user_id
                    &&& old(self).connections_by_user_id@.contains_key(to_user_id)
                    &&& u0.room is None
                    &&& old(self).rooms@.contains_key(room_id)
                    &&& room_has_participant_peer(room0, from_connection_id)
                    &&& !room0.pending_user_ids@.contains(to_user_id)
                    &&& to_connection_ids@ == u0.connection_ids.seq()
                    &&& final(self).rooms@.dom() =~= old(self).rooms@.dom()
                    &&& final(self).rooms@.remove(room_id) =~= old(self).rooms@.remove(room_id)
                    &&& room1.participants@ == room0.participants@
                    &&& room1.pending_user_ids@ == room0.pending_user_ids@.push(to_user_id)
                    &&& room_like(room_copy, room1)
                    &&& final(self).connections_by_user_id@.dom() =~= old(
                        self,
                    ).connections_by_user_id@.dom()
                    &&& final(self).connections_by_user_id@.remove(to_user_id) =~= old(
                        self,
                    ).connections_by_user_id@.remove(to_user_id)
                    &&& u1.connection_ids == u0.connection_ids
                    &&& u1.room == Some(RoomState::Calling { room_id })
                    &&& final(self).connections == old(self).connections
                    &&& final(self).projects == old(self).projects
                    &&& final(self).channels == old(self).channels
                    &&& final(self).next_room_id == old(self).next_room_id
                },
                Err(e) => {
                    let known = old(self).connections@.contains_key(from_connection_id) && old(
                        self,
                    ).connections_by_user_id@.contains_key(to_user_id);
                    let busy = known && !(old(
                        self,
                    ).connections_by_user_id@[to_user_id].room is None);
                    let room_known = known && !busy && old(self).rooms@.contains_key(room_id);
                    let participant = room_known && room_has_participant_peer(
                        old(self).rooms@[room_id],
                        from_connection_id,
                    );
                    &&& *final(self) == *old(self)
                    &&& (e == StoreError::UnknownConnection || e == StoreError::RecipientBusy
                        || e == StoreError::UnknownRoom || e == StoreError::NotInRoom || e
                        == StoreError::DuplicateInvite)
                    &&& (e == StoreError::UnknownConnection <==> !known)
                    &&& (e == StoreError::RecipientBusy <==> busy)
                    &&& (e == StoreError::UnknownRoom <==> known && !busy && !old(
                        self,
                    ).rooms@.contains_key(room_id))
                    &&& (e == StoreError::NotInRoom <==> room_known && !participant)
                    &&& (e == StoreError::DuplicateInvite <==> participant && old(
                        self,
                    ).rooms@[room_id].pending_user_ids@.contains(to_user_id))
                },
            },
    {
        let from_user_id = match self.connections.get(from_connection_id) {
            Some(c) => c.user_id,
            None => {
                return Err(StoreError::UnknownConnection);
            },
        };
        let to_connection_ids = self.connection_ids_for_user(to_user_id);
        let busy = match self.connections_by_user_id.get(to_user_id) {
            Some(state) => !matches!(state.room, None),
            None => {
                return Err(StoreError::UnknownConnection);
            },
        };
        if busy {
            return Err(StoreError::RecipientBusy);
        }
        let (participant_ok, duplicate) = match self.rooms.get(room_id) {
            Some(room) => (
                contains_peer(&room.participants, from_connection_id),
                contains_id(&room.pending_user_ids, to_user_id),
            ),
            None => {
                return Err(StoreError::UnknownRoom);
            },
        };
        if !participant_ok {
            return Err(StoreError::NotInRoom);
        }
        if duplicate {
            return Err(StoreError::DuplicateInvite);
        }
        let mut room = self.rooms.remove(room_id).unwrap();
        room.pending_user_ids.push(to_user_id);
        let room_copy = copy_room(&room);
        self.rooms.insert(room_id, room);
        let mut state = self.connections_by_user_id.remove(to_user_id).unwrap();
        state.room = Some(RoomState::Calling { room_id });
        self.connections_by_user_id.insert(to_user_id, state);
        proof {
            let s0 = *old(self);
            let s1 = *self;
            assert(s1.rooms@.remove(room_id) =~= s0.rooms@.remove(room_id));
            assert(s1.rooms@.dom() =~= s0.rooms@.dom());
            assert(s1.connections_by_user_id@.remove(to_user_id)
                =~= s0.connections_by_user_id@.remove(to_user_id));
            assert(s1.connections_by_user_id@.dom() =~= s0.connections_by_user_id@.dom());
            let room0 = s0.rooms@[room_id];
            let room1 = s1.rooms@[room_id];
            assert forall|u: u64|
                #[trigger] s1.connections_by_user_id@.contains_key(u)
                    implies s1.connections_by_user_id@[u].connection_ids@
                =~= s0.connections_by_user_id@[u].connection_ids@ by {
                assert(s0.connections_by_user_id@.contains_key(u));
            }
            lemma_users_frame(s0, s1);
            assert forall|u: u64|
                s1.connections_by_user_id@.contains_key(u) implies (match (
            #[trigger] s1.connections_by_user_id@[u]).room {
                Some(RoomState::Joined) => exists|r: u64|
                    #[trigger] s1.rooms@.contains_key(r) && room_has_participant(
                        s1.rooms@[r],
                        u,
                    ),
                Some(RoomState::Calling { room_id: rr }) => s1.rooms@.contains_key(rr)
                    && s1.rooms@[rr].pending_user_ids@.contains(u),
                None => true,
            }) by {
                assert(s0.connections_by_user_id@.contains_key(u));
                if u == to_user_id {
                    assert(room1.pending_user_ids@.last() == u);
                    assert(room1.pending_user_ids@.contains(u));
                } else {
                    assert(s1.connections_by_user_id@[u] == s0.connections_by_user_id@[u]);
                    match s0.connections_by_user_id@[u].room {
                        Some(RoomState::Joined) => {
                            let r = choose|r: u64|
                                #[trigger] s0.rooms@.contains_key(r) && room_has_participant(
                                    s0.rooms@[r],
                                    u,
                                );
                            assert(s1.rooms@.contains_key(r));
                            if r == room_id {
                                let i = choose|i: int|
                                    0 <= i < room0.participants@.len() && (
                                    #[trigger] room0.participants@[i]).user_id == u;
                                assert(room1.participants@[i] == room0.participants@[i]);
                                assert(room_has_participant(room1, u));
                            } else {
                                assert(s1.rooms@[r] == s0.rooms@[r]);
                            }
                        },
                        Some(RoomState::Calling { room_id: rr }) => {
                            assert(s0.rooms@.contains_key(rr));
                            if rr == room_id {
                                let i = choose|i: int|
                                    0 <= i < room0.pending_user_ids@.len()
                                        && room0.pending_user_ids@[i] == u;
                                assert(room1.pending_user_ids@[i] == u);
                                assert(room1.pending_user_ids@.contains(u));
                            } else {
                                assert(s1.rooms@[rr] == s0.rooms@[rr]);
                            }
                        },
                        None => {},
                    }
                }
            }
        }
        Ok((from_user_id, to_connection_ids, room_copy))
    }

    /// Records that an invite could not be delivered: clears the invitee's
    /// calling state and removes the invitee from the room's pending list.
    pub fn call_failed(&mut self, room_id: RoomId, to_user_id: UserId) -> (r: Result<
        Room,
        StoreError,
    >)
        requires
            old(self).wf(),
            old(self).links_ok(),
        ensures
            final(self).wf(),
            final(self).links_ok(),
            old(self).paths_ok() ==> final(self).paths_ok(),
            match r {
                Ok(room_copy) => {
                    let u0 = old(self).connections_by_user_id@[to_user_id];
                    let u1 = final(self).connections_by_user_id@[to_user_id];
                    let room0 = old(self).rooms@[room_id];
                    let room1 = final(self).rooms@[room_id];
                    &&& old(self).connections_by_user_id@.contains_key(to_user_id)
                    &&& u0.room == Some(RoomState::Calling { room_id })
                    &&& old(self).rooms@.contains_key(room_id)
                    &&& final(self).rooms@.dom() =~= old(self).rooms@.dom()
                    &&& final(self).rooms@.remove(room_id) =~= old(self).rooms@.remove(room_id)
                    &&& room1.participants@ == room0.participants@
                    &&& room1.pending_user_ids@ == without_user(
                        room0.pending_user_ids@,
                        to_user_id,
                    )
                    &&& room_like(room_copy, room1)
                    &&& final(self).connections_by_user_id@.dom() =~= old(
                        self,
                    ).connections_by_user_id@.dom()
                    &&& final(self).connections_by_user_id@.remove(to_user_id) =~= old(
                        self,
                    ).connections_by_user_id@.remove(to_user_id)
                    &&& u1.connection_ids == u0.connection_ids
                    &&& u1.room is None
                    &&& final(self).connections == old(self).connections
                    &&& final(self).projects == old(self).projects
                    &&& final(self).channels == old(self).channels
                    &&& final(self).next_room_id == old(self).next_room_id
                },
                Err(e) => {
                    let known = old(self).connections_by_user_id@.contains_key(to_user_id);
                    let calling = known && old(self).connections_by_user_id@[to_user_id].room
                        == Some(RoomState::Calling { room_id });
                    &&& *final(self) == *old(self)
                    &&& (e == StoreError::UnknownConnection || e == StoreError::NotBeingCalled
                        || e == StoreError::UnknownRoom)
                    &&& (e == StoreError::UnknownConnection <==> !known)
                    &&& (e == StoreError::NotBeingCalled <==> known && !calling)
                    &&& (e == StoreError::UnknownRoom <==> calling && !old(
                        self,
                    ).rooms@.contains_key(room_id))
                },
            },
    {
        let state_ok = match self.connections_by_user_id.get(to_user_id) {
            Some(state) => match state.room {
                Some(RoomState::Calling { room_id: rr }) => rr == room_id,
                _ => false,
            },
            None => {
                return Err(StoreError::UnknownConnection);
            },
        };
        if !state_ok {
            return Err(StoreError::NotBeingCalled);
        }
        if !self.rooms.contains_key(room_id) {
            return Err(StoreError::UnknownRoom);
        }
        let mut state = self.connections_by_user_id.remove(to_user_id).unwrap();
        state.room = None;
        self.connections_by_user_id.insert(to_user_id, state);
        let mut room = self.rooms.remove(room_id).unwrap();
        let new_pending = pending_without(&room.pending_user_ids, to_user_id);
        room.pending_user_ids = new_pending;
        let room_copy = copy_room(&room);
        self.rooms.insert(room_id, room);
        proof {
            self.lemma_uncall_links(*old(self), room_id, to_user_id);
        }
        Ok(room_copy)
    }

    /// Records that the recipient of an invite declined it: clears the
    /// calling state and removes the recipient's user from the room's
    /// pending list. Returns a snapshot of the room and the recipient's
    /// connection ids.
    pub fn call_declined(&mut self, recipient_connection_id: ConnectionId) -> (r: Result<
        (Room, Vec<ConnectionId>),
        StoreError,
    >)
        requires
            old(self).wf(),
            old(self).links_ok(),
        ensures
            final(self).wf(),
            final(self).links_ok(),
            old(self).paths_ok() ==> final(self).paths_ok(),
            match r {
                Ok((room_copy, recipients)) => {
                    let user_id = old(self).connections@[recipient_connection_id].user_id;
                    let u0 = old(self).connections_by_user_id@[user_id];
                    let u1 = final(self).connections_by_user_id@[user_id];
                    &&& old(self).connections@.contains_key(recipient_connection_id)
                    &&& old(self).connections_by_user_id@.contains_key(user_id)
                    &&& (exists|rr: u64| u0.room == Some(RoomState::Calling { room_id: rr }))
                    &&& ({
                        let room_id = choose|rr: u64|
                            u0.room == Some(RoomState::Calling { room_id: rr });
                        let room0 = old(self).rooms@[room_id];
                        let room1 = final(self).rooms@[room_id];
                        &&& old(self).rooms@.contains_key(room_id)
                        &&& recipients@ == u0.connection_ids.seq()
                        &&& final(self).rooms@.dom() =~= old(self).rooms@.dom()
                        &&& final(self).rooms@.remove(room_id) =~= old(self).rooms@.remove(
                            room_id,
                        )
                        &&& room1.participants@ == room0.participants@
                        &&& room1.pending_user_ids@ == without_user(
                            room0.pending_user_ids@,
                            user_id,
                        )
                        &&& room_like(room_copy, room1)
                    })
                    &&& final(self).connections_by_user_id@.dom() =~= old(
                        self,
                    ).connections_by_user_id@.dom()
                    &&& final(self).connections_by_user_id@.remove(user_id) =~= old(
                        self,
                    ).connections_by_user_id@.remove(user_id)
                    &&& u1.connection_ids == u0.connection_ids
                    &&& u1.room is None
                    &&& final(self).connections == old(self).connections
                    &&& final(self).projects == old(self).projects
                    &&& final(self).channels == old(self).channels
                    &&& final(self).next_room_id == old(self).next_room_id
                },
                Err(e) => {
                    let known = old(self).connections@.contains_key(recipient_connection_id)
                        && old(self).connections_by_user_id@.contains_key(
                        old(self).connections@[recipient_connection_id].user_id,
                    );
                    let state = old(self).connections_by_user_id@[old(
                        self,
                    ).connections@[recipient_connection_id].user_id].room;
                    let calling = known && (state matches Some(RoomState::Calling { .. }));
                    &&& *final(self) == *old(self)
                    &&& (e == StoreError::UnknownConnection || e == StoreError::NotBeingCalled
                        || e == StoreError::UnknownRoom)
                    &&& (e == StoreError::UnknownConnection <==> !known)
                    &&& (e == StoreError::NotBeingCalled <==> known && !calling)
                    &&& (e == StoreError::UnknownRoom <==> calling && (match state {
                        Some(RoomState::Calling { room_id }) => !old(self).rooms@.contains_key(
                            room_id,
                        ),
                        _ => false,
                    }))
                },
            },
    {
        let user_id = match self.connections.get(recipient_connection_id) {
            Some(c) => c.user_id,
            None => {
                return Err(StoreError::UnknownConnection);
            },
        };
        let room_id = match self.connections_by_user_id.get(user_id) {
            Some(state) => match state.room {
                Some(RoomState::Calling { room_id: rr }) => rr,
                _ => {
                    return Err(StoreError::NotBeingCalled);
                },
            },
            None => {
                return Err(StoreError::UnknownConnection);
            },
        };
        if !self.rooms.contains_key(room_id) {
            return Err(StoreError::UnknownRoom);
        }
        let recipients = self.connection_ids_for_user(user_id);
        let mut state = self.connections_by_user_id.remove(user_id).unwrap();
        state.room = None;
        self.connections_by_user_id.insert(user_id, state);
        let mut room = self.rooms.remove(room_id).unwrap();
        let new_pending = pending_without(&room.pending_user_ids, user_id);
        room.pending_user_ids = new_pending;
        let room_copy = copy_room(&room);
        self.rooms.insert(room_id, room);
        proof {
            self.lemma_uncall_links(*old(self), room_id, user_id);
            let u0 = old(self).connections_by_user_id@[user_id];
            assert(u0.room == Some(RoomState::Calling { room_id }));
            let picked = choose|rr: u64| u0.room == Some(RoomState::Calling { room_id: rr });
            assert(picked == room_id);
        }
        Ok((room_copy, recipients))
    }

    /// Proof that clearing one user's calling state while removing that user
    /// from the matching room's pending list keeps the links consistent.
    proof fn lemma_uncall_links(&self, s0: Store, room_id: u64, user_id: u64)
        requires
            s0.wf(),
            s0.links_ok(),
            s0.connections_by_user_id@.contains_key(user_id),
            s0.rooms@.contains_key(room_id),
            self.connections == s0.connections,
            self.projects == s0.projects,
            self.channels == s0.channels,
            self.next_room_id == s0.next_room_id,
            self.connections_by_user_id.wf(),
            self.rooms.wf(),
            self.connections_by_user_id@.dom() =~= s0.connections_by_user_id@.dom(),
            self.connections_by_user_id@.remove(user_id) =~= s0.connections_by_user_id@.remove(
                user_id,
            ),
            self.connections_by_user_id@[user_id].connection_ids
                == s0.connections_by_user_id@[user_id].connection_ids,
            self.connections_by_user_id@[user_id].room is None,
            self.rooms@.dom() =~= s0.rooms@.dom(),
            self.rooms@.remove(room_id) =~= s0.rooms@.remove(room_id),
            self.rooms@[room_id].participants@ == s0.rooms@[room_id].participants@,
            self.rooms@[room_id].pending_user_ids@ == without_user(
                s0.rooms@[room_id].pending_user_ids@,
                user_id,
            ),
        ensures
            self.wf(),
            self.links_ok(),
            s0.paths_ok() ==> self.paths_ok(),
    {
        let s1 = *self;
        assert forall|u: u64|
            #[trigger] s1.connections_by_user_id@.contains_key(u)
                implies s1.connections_by_user_id@[u].connection_ids@
            =~= s0.connections_by_user_id@[u].connection_ids@
                && s1.connections_by_user_id@[u].wf() by {
            assert(s0.connections_by_user_id@.contains_key(u));
            if u != user_id {
                assert(s1.connections_by_user_id@.remove(user_id)[u]
                    == s0.connections_by_user_id@.remove(user_id)[u]);
                assert(s1.connections_by_user_id@[u] == s0.connections_by_user_id@[u]);
            } else {
                assert(s1.connections_by_user_id@[u].connection_ids
                    == s0.connections_by_user_id@[u].connection_ids);
            }
        }
        lemma_users_frame(s0, s1);
        let room0 = s0.rooms@[room_id];
        let room1 = s1.rooms@[room_id];
        assert forall|u: u64|
            s1.connections_by_user_id@.contains_key(u) implies (match (
        #[trigger] s1.connections_by_user_id@[u]).room {
            Some(RoomState::Joined) => exists|r: u64|
                #[trigger] s1.rooms@.contains_key(r) && room_has_participant(s1.rooms@[r], u),
            Some(RoomState::Calling { room_id: rr }) => s1.rooms@.contains_key(rr)
                && s1.rooms@[rr].pending_user_ids@.contains(u),
            None => true,
        }) by {
            assert(s0.connections_by_user_id@.contains_key(u));
            if u != user_id {
                assert(s1.connections_by_user_id@.remove(user_id)[u]
                    == s0.connections_by_user_id@.remove(user_id)[u]);
                assert(s1.connections_by_user_id@[u] == s0.connections_by_user_id@[u]);
                match s0.connections_by_user_id@[u].room {
                    Some(RoomState::Joined) => {
                        let r = choose|r: u64|
                            #[trigger] s0.rooms@.contains_key(r) && room_has_participant(
                                s0.rooms@[r],
                                u,
                            );
                        assert(s1.rooms@.contains_key(r));
                        if r == room_id {
                            let i = choose|i: int|
                                0 <= i < room0.participants@.len() && (
                                #[trigger] room0.participants@[i]).user_id == u;
                            assert(room1.participants@[i] == room0.participants@[i]);
                            assert(room_has_participant(room1, u));
                        } else {
                            assert(s1.rooms@.remove(room_id)[r] == s0.rooms@.remove(room_id)[r]);
                            assert(s1.rooms@[r] == s0.rooms@[r]);
                        }
                    },
                    Some(RoomState::Calling { room_id: rr }) => {
                        assert(s0.rooms@.contains_key(rr));
                        if rr == room_id {
                            assert(s0.rooms@[rr].pending_user_ids@.contains(u));
                            lemma_without_user(room0.pending_user_ids@, user_id, u);
                        } else {
                            assert(s1.rooms@.remove(room_id)[rr] == s0.rooms@.remove(
                                room_id,
                            )[rr]);
                            assert(s1.rooms@[rr] == s0.rooms@[rr]);
                        }
                    },
                    None => {},
                }
            }
        }
    }

    /// The project row, for its host or one of its guests only. Everyone
    /// else learns nothing beyond `UnknownProject`.
    pub fn read_project(&self, project_id: ProjectId, connection_id: ConnectionId) -> (r: Result<
        &Project,
        StoreError,
    >)
        requires
            self.wf(),
        ensures
            match r {
                Ok(p) => self.projects@.contains_key(project_id) && *p
                    == self.projects@[project_id] && (p.host_connection_id == connection_id
                    || p.guests@.contains_key(connection_id)),
                Err(e) => e == StoreError::UnknownProject && (!self.projects@.contains_key(
                    project_id,
                ) || (self.projects@[project_id].host_connection_id != connection_id
                    && !self.projects@[project_id].guests@.contains_key(connection_id))),
            },
    {
        match self.projects.get(project_id) {
            Some(project) => {
                if project.host_connection_id == connection_id || project.guests.contains_key(
                    connection_id,
                ) {
                    Ok(project)
                } else {
                    Err(StoreError::UnknownProject)
                }
            },
            None => Err(StoreError::UnknownProject),
        }
    }

    /// The fan-out list for a project: its guests, then its host. Only the
    /// host or a guest may ask.
    pub fn project_connection_ids(
        &self,
        project_id: ProjectId,
        acting_connection_id: ConnectionId,
    ) -> (r: Result<Vec<ConnectionId>, StoreError>)
        requires
            self.wf(),
        ensures
            match r {
                Ok(v) => self.projects@.contains_key(project_id) && {
                    let pr = self.projects@[project_id];
                    &&& (pr.host_connection_id == acting_connection_id
                        || pr.guests@.contains_key(acting_connection_id))
                    &&& v@ == pr.guests.key_seq().push(pr.host_connection_id)
                },
                Err(e) => e == StoreError::UnknownProject && (!self.projects@.contains_key(
                    project_id,
                ) || (self.projects@[project_id].host_connection_id != acting_connection_id
                    && !self.projects@[project_id].guests@.contains_key(acting_connection_id))),
            },
    {
        match self.read_project(project_id, acting_connection_id) {
            Ok(project) => Ok(project.connection_ids()),
            Err(e) => Err(e),
        }
    }

    /// Files a join request: marks the sender connection as requesting and
    /// appends the receipt under the requesting user. A second receipt from
    /// the same connection is not stored again. An offline project is
    /// reported as unknown on purpose.
    pub fn request_join_project(
        &mut self,
        requester_id: UserId,
        project_id: ProjectId,
        receipt: Receipt,
    ) -> (r: Result<(), StoreError>)
        requires
            old(self).wf(),
            old(self).links_ok(),
        ensures
            final(self).wf(),
            final(self).links_ok(),
            old(self).paths_ok() ==> final(self).paths_ok(),
            r is Ok ==> request_join_rel(
                *old(self),
                *final(self),
                requester_id,
                project_id,
                receipt,
            ),
            match r {
                Ok(()) => {
                    let c0 = old(self).connections@[receipt.sender_id];
                    let c1 = final(self).connections@[receipt.sender_id];
                    let pr0 = old(self).projects@[project_id];
                    let pr1 = final(self).projects@[project_id];
                    let had = pr0.join_requests@.contains_key(requester_id);
                    &&& old(self).connections@.contains_key(receipt.sender_id)
                    &&& old(self).projects@.contains_key(project_id)
                    &&& pr0.online
                    &&& final(self).connections@.dom() =~= old(self).connections@.dom()
                    &&& final(self).connections@.remove(receipt.sender_id) =~= old(
                        self,
                    ).connections@.remove(receipt.sender_id)
                    &&& c1.user_id == c0.user_id
                    &&& c1.admin == c0.admin
                    &&& c1.projects == c0.projects
                    &&& c1.channels == c0.channels
                    &&& c1.requested_projects@ =~= c0.requested_projects@.insert(project_id)
                    &&& final(self).projects@.dom() =~= old(self).projects@.dom()
                    &&& final(self).projects@.remove(project_id) =~= old(self).projects@.remove(
                        project_id,
                    )
                    &&& pr1.online == pr0.online
                    &&& pr1.host_connection_id == pr0.host_connection_id
                    &&& pr1.host == pr0.host
                    &&& pr1.guests == pr0.guests
                    &&& pr1.active_replica_ids == pr0.active_replica_ids
                    &&& pr1.worktrees == pr0.worktrees
                    &&& pr1.language_servers == pr0.language_servers
                    &&& pr1.join_requests@.dom() =~= pr0.join_requests@.dom().insert(
                        requester_id,
                    )
                    &&& pr1.join_requests@.remove(requester_id) =~= pr0.join_requests@.remove(
                        requester_id,
                    )
                    &&& (if had && receipt_from(pr0.join_requests@[requester_id]@, receipt.sender_id) {
                        pr1.join_requests@[requester_id]@ == pr0.join_requests@[requester_id]@
                    } else if had {
                        pr1.join_requests@[requester_id]@ == pr0.join_requests@[requester_id]@.push(
                            receipt,
                        )
                    } else {
                        pr1.join_requests@[requester_id]@ == Seq::<Receipt>::empty().push(
                            receipt,
                        )
                    })
                    &&& final(self).connections_by_user_id == old(self).connections_by_user_id
                    &&& final(self).rooms == old(self).rooms
                    &&& final(self).channels == old(self).channels
                    &&& final(self).next_room_id == old(self).next_room_id
                },
                Err(e) => {
                    &&& *final(self) == *old(self)
                    &&& (e == StoreError::UnknownConnection || e == StoreError::UnknownProject)
                    &&& (e == StoreError::UnknownConnection <==> !old(
                        self,
                    ).connections@.contains_key(receipt.sender_id))
                    &&& (e == StoreError::UnknownProject <==> old(self).connections@.contains_key(
                        receipt.sender_id,
                    ) && (!old(self).projects@.contains_key(project_id) || !old(
                        self,
                    ).projects@[project_id].online))
                },
            },
    {
        if !self.connections.contains_key(receipt.sender_id) {
            return Err(StoreError::UnknownConnection);
        }
        let online = match self.projects.get(project_id) {
            Some(p) => p.online,
            None => {
                return Err(StoreError::UnknownProject);
            },
        };
        if !online {
            return Err(StoreError::UnknownProject);
        }
        let mut connection = self.connections.remove(receipt.sender_id).unwrap();
        connection.requested_projects.insert(project_id);
        self.connections.insert(receipt.sender_id, connection);
        let mut project = self.projects.remove(project_id).unwrap();
        let ghost pr0 = old(self).projects@[project_id];
        match project.join_requests.remove(requester_id) {
            Some(mut receipts) => {
                if !receipts_from_connection(&receipts, receipt.sender_id) {
                    receipts.push(receipt);
                    proof {
                        let rs0 = pr0.join_requests@[requester_id]@;
                        assert(receipts@.drop_last() =~= rs0);
                        assert forall|i: int, j: int|
                            0 <= i < j < receipts@.len() implies (#[trigger] receipts@[i]).sender_id
                            != (#[trigger] receipts@[j]).sender_id by {
                            if j < receipts@.len() - 1 {
                                assert(rs0[i] == receipts@[i]);
                                assert(rs0[j] == receipts@[j]);
                            } else {
                                assert(rs0[i] == receipts@[i]);
                            }
                        }
                    }
                }
                project.join_requests.insert(requester_id, receipts);
            },
            None => {
                let mut receipts: Vec<Receipt> = Vec::new();
                receipts.push(receipt);
                project.join_requests.insert(requester_id, receipts);
            },
        }
        self.projects.insert(project_id, project);
        proof {
            let s0 = *old(self);
            let s1 = *self;
            assert(s1.connections@.remove(receipt.sender_id) =~= s0.connections@.remove(
                receipt.sender_id,
            ));
            assert(s1.connections@.dom() =~= s0.connections@.dom());
            assert(s1.projects@.remove(project_id) =~= s0.projects@.remove(project_id));
            assert(s1.projects@.dom() =~= s0.projects@.dom());
            let pr1 = s1.projects@[project_id];
            assert(pr1.join_requests@.remove(requester_id) =~= pr0.join_requests@.remove(
                requester_id,
            ));
            assert forall|c: u64|
                #[trigger] s1.connections@.contains_key(c) implies s1.connections@[c].wf()
                && s1.connections@[c].user_id == s0.connections@[c].user_id
                && s1.connections@[c].projects@ =~= s0.connections@[c].projects@
                && s1.connections@[c].channels@ =~= s0.connections@[c].channels@ by {
                assert(s0.connections@.contains_key(c));
                if c != receipt.sender_id {
                    assert(s1.connections@.remove(receipt.sender_id)[c] == s0.connections@.remove(
                        receipt.sender_id,
                    )[c]);
                    assert(s1.connections@[c] == s0.connections@[c]);
                }
            }
            assert(pr1.wf()) by {
                assert forall|u: u64|
                    pr1.join_requests@.contains_key(u) implies (
                #[trigger] pr1.join_requests@[u])@.len() > 0 && distinct_senders(
                    pr1.join_requests@[u]@,
                ) by {
                    if u != requester_id {
                        assert(pr1.join_requests@.remove(requester_id)[u]
                            == pr0.join_requests@.remove(requester_id)[u]);
                        assert(pr1.join_requests@[u] == pr0.join_requests@[u]);
                    }
                }
                assert forall|w: u64|
                    pr1.worktrees@.contains_key(w) implies (#[trigger] pr1.worktrees@[w]).wf() by {
                    assert(pr0.worktrees@.contains_key(w));
                }
            }
            lemma_project_value_frame(s0, s1, project_id);
        }
        Ok(())
    }

    /// Refuses all pending join requests of one user for a project, clearing
    /// each sender's bookkeeping, and stamps the host's activity with the
    /// given time. Returns the removed receipts so the caller can answer
    /// each. Only the host may deny; everyone else gets `None`.
    pub fn deny_join_project_request_at(
        &mut self,
        responder_connection_id: ConnectionId,
        requester_id: UserId,
        project_id: ProjectId,
        now: i64,
    ) -> (r: Option<Vec<Receipt>>)
        requires
            old(self).wf(),
            old(self).links_ok(),
        ensures
            final(self).wf(),
            final(self).links_ok(),
            old(self).paths_ok() ==> final(self).paths_ok(),
            deny_rel(*old(self), *final(self), responder_connection_id, requester_id, project_id, now, r),
    {
        let (host_ok, has_request) = match self.projects.get(project_id) {
            Some(p) => (
                p.host_connection_id == responder_connection_id,
                p.join_requests.contains_key(requester_id),
            ),
            None => {
                return None;
            },
        };
        if !host_ok || !has_request {
            return None;
        }
        let mut project = self.projects.remove(project_id).unwrap();
        let ghost pr0 = old(self).projects@[project_id];
        let receipts = project.join_requests.remove(requester_id).unwrap();
        project.host.last_activity = Some(now);
        self.projects.insert(project_id, project);
        proof {
            let pr1 = self.projects@[project_id];
            assert(pr1.join_requests@ =~= pr0.join_requests@.remove(requester_id));
            assert(pr1.wf()) by {
                assert forall|u: u64|
                    pr1.join_requests@.contains_key(u) implies (
                #[trigger] pr1.join_requests@[u])@.len() > 0 && distinct_senders(
                    pr1.join_requests@[u]@,
                ) by {
                    assert(pr1.join_requests@[u] == pr0.join_requests@[u]);
                }
                assert forall|w: u64|
                    pr1.worktrees@.contains_key(w) implies (#[trigger] pr1.worktrees@[w]).wf() by {
                    assert(pr0.worktrees@.contains_key(w));
                }
            }
        }
        let n = receipts.len();
        let mut i: usize = 0;
        while i < n
            invariant
                old(self).wf(),
                old(self).links_ok(),
                i <= n,
                n == receipts@.len(),
                receipts@ == old(self).projects@[project_id].join_requests@[requester_id]@,
                self.connections.wf(),
                self.connections@.dom() =~= old(self).connections@.dom(),
                forall|c: u64|
                    #[trigger] self.connections@.contains_key(c) ==> self.connections@[c].wf()
                        && self.connections@[c].user_id == old(self).connections@[c].user_id
                        && self.connections@[c].admin == old(self).connections@[c].admin
                        && self.connections@[c].projects == old(self).connections@[c].projects
                        && self.connections@[c].channels == old(self).connections@[c].channels,
                forall|c: u64|
                    #[trigger] self.connections@.contains_key(c)
                        ==> self.connections@[c].requested_projects@ =~= (if receipt_from(
                        receipts@.subrange(0, i as int),
                        c,
                    ) {
                        old(self).connections@[c].requested_projects@.remove(project_id)
                    } else {
                        old(self).connections@[c].requested_projects@
                    }),
                self.connections_by_user_id == old(self).connections_by_user_id,
                self.rooms == old(self).rooms,
                self.channels == old(self).channels,
                self.next_room_id == old(self).next_room_id,
                self.projects.wf(),
                self.projects@.dom() =~= old(self).projects@.dom(),
                self.projects@.remove(project_id) =~= old(self).projects@.remove(project_id),
                self.projects@.contains_key(project_id),
                self.projects@[project_id].wf(),
                deny_project_effect(
                    old(self).projects@[project_id],
                    self.projects@[project_id],
                    requester_id,
                    now,
                ),
            decreases n - i,
        {
            let sender = receipts[i].sender_id;
            let ghost prev = *self;
            match self.connections.remove(sender) {
                Some(mut connection) => {
                    connection.requested_projects.remove(project_id);
                    self.connections.insert(sender, connection);
                },
                None => {},
            }
            proof {
                assert(self.connections@.dom() =~= prev.connections@.dom());
                assert forall|c: u64|
                    #[trigger] self.connections@.contains_key(c)
                        implies self.connections@[c].requested_projects@ =~= (if receipt_from(
                    receipts@.subrange(0, i + 1 as int),
                    c,
                ) {
                    old(self).connections@[c].requested_projects@.remove(project_id)
                } else {
                    old(self).connections@[c].requested_projects@
                }) by {
                    assert(prev.connections@.contains_key(c));
                    if c != sender {
                        assert(self.connections@.remove(sender)[c] == prev.connections@.remove(
                            sender,
                        )[c]);
                        assert(self.connections@[c] == prev.connections@[c]);
                        assert forall|j: int|
                            0 <= j < i + 1 && (#[trigger] receipts@.subrange(0, i + 1 as int)[j]).sender_id
                                == c implies receipt_from(receipts@.subrange(0, i as int), c) by {
                            assert(receipts@[j].sender_id == c);
                            assert(j < i);
                            assert(receipts@.subrange(0, i as int)[j] == receipts@[j]);
                        }
                        if receipt_from(receipts@.subrange(0, i as int), c) {
                            let j = choose|j: int|
                                0 <= j < i && (#[trigger] receipts@.subrange(0, i as int)[j]).sender_id
                                    == c;
                            assert(receipts@.subrange(0, i + 1 as int)[j] == receipts@[j]);
                        }
                    } else {
                        assert(receipts@.subrange(0, i + 1 as int)[i as int] == receipts@[i as int]);
                        assert(receipt_from(receipts@.subrange(0, i + 1 as int), c));
                        if receipt_from(receipts@.subrange(0, i as int), c) {
                            assert(prev.connections@[c].requested_projects@ =~= old(
                                self,
                            ).connections@[c].requested_projects@.remove(project_id));
                        }
                    }
                }
                assert forall|c: u64|
                    #[trigger] self.connections@.contains_key(c) implies self.connections@[c].wf()
                    && self.connections@[c].user_id == old(self).connections@[c].user_id
                    && self.connections@[c].admin == old(self).connections@[c].admin
                    && self.connections@[c].projects == old(self).connections@[c].projects
                    && self.connections@[c].channels == old(self).connections@[c].channels by {
                    assert(prev.connections@.contains_key(c));
                    if c != sender {
                        assert(self.connections@.remove(sender)[c] == prev.connections@.remove(
                            sender,
                        )[c]);
                        assert(self.connections@[c] == prev.connections@[c]);
                    }
                }
            }
            i = i + 1;
        }
        proof {
            let s0 = *old(self);
            let s1 = *self;
            assert(receipts@.subrange(0, n as int) =~= receipts@);
            lemma_project_value_frame(s0, s1, project_id);
        }
        Some(receipts)
    }

    /// Refuses all pending join requests of one user for a project, reading
    /// the host's activity stamp from the wall clock.
    pub fn deny_join_project_request(
        &mut self,
        responder_connection_id: ConnectionId,
        requester_id: UserId,
        project_id: ProjectId,
    ) -> (r: Option<Vec<Receipt>>)
        requires
            old(self).wf(),
            old(self).links_ok(),
        ensures
            final(self).wf(),
            final(self).links_ok(),
            old(self).paths_ok() ==> final(self).paths_ok(),
            exists|now: i64|
                deny_rel(
                    *old(self),
                    *final(self),
                    responder_connection_id,
                    requester_id,
                    project_id,
                    now,
                    r,
                ),
    {
        let now = now_unix_timestamp();
        let r = self.deny_join_project_request_at(
            responder_connection_id,
            requester_id,
            project_id,
            now,
        );
        proof {
            assert(deny_rel(
                *old(self),
                *final(self),
                responder_connection_id,
                requester_id,
                project_id,
                now,
                r,
            ));
        }
        r
    }

    /// Stamps the host's or the matching guest's `last_activity` with the
    /// given time.
    pub fn register_project_activity_at(
        &mut self,
        project_id: ProjectId,
        connection_id: ConnectionId,
        now: i64,
    ) -> (r: Result<(), StoreError>)
        requires
            old(self).wf(),
            old(self).links_ok(),
        ensures
            final(self).wf(),
            final(self).links_ok(),
            old(self).paths_ok() ==> final(self).paths_ok(),
            register_activity_rel(
                *old(self),
                *final(self),
                project_id,
                connection_id,
                now,
                r,
            ),
    {
        let is_host = match self.projects.get(project_id) {
            Some(p) => {
                if p.host_connection_id == connection_id {
                    true
                } else if p.guests.contains_key(connection_id) {
                    false
                } else {
                    return Err(StoreError::UnknownProject);
                }
            },
            None => {
                return Err(StoreError::UnknownProject);
            },
        };
        let mut project = self.projects.remove(project_id).unwrap();
        let ghost pr0 = old(self).projects@[project_id];
        if is_host {
            project.host.last_activity = Some(now);
        } else {
            let mut guest = *project.guests.get(connection_id).unwrap();
            guest.last_activity = Some(now);
            project.guests.insert(connection_id, guest);
        }
        self.projects.insert(project_id, project);
        proof {
            let s0 = *old(self);
            let s1 = *self;
            assert(s1.projects@.remove(project_id) =~= s0.projects@.remove(project_id));
            assert(s1.projects@.dom() =~= s0.projects@.dom());
            let pr1 = s1.projects@[project_id];
            if !is_host {
                assert(pr1.guests@.remove(connection_id) =~= pr0.guests@.remove(connection_id));
                assert(pr1.guests@.dom() =~= pr0.guests@.dom());
            }
            assert(pr1.wf()) by {
                assert forall|w: u64|
                    pr1.worktrees@.contains_key(w) implies (#[trigger] pr1.worktrees@[w]).wf() by {
                    assert(pr0.worktrees@.contains_key(w));
                }
            }
            assert(pr1.replicas_ok()) by {
                assert forall|g: u64|
                    pr1.guests@.contains_key(g) implies pr1.active_replica_ids@.contains(
                    (#[trigger] pr1.guests@[g]).replica_id as u64,
                ) by {
                    assert(pr0.guests@.contains_key(g));
                    if !is_host && g != connection_id {
                        assert(pr1.guests@.remove(connection_id)[g] == pr0.guests@.remove(
                            connection_id,
                        )[g]);
                        assert(pr1.guests@[g] == pr0.guests@[g]);
                    }
                }
                assert forall|rr: u64|
                    #[trigger] pr1.active_replica_ids@.contains(rr) implies exists|g: u64|
                    #[trigger] pr1.guests@.contains_key(g) && pr1.guests@[g].replica_id as u64
                        == rr by {
                    let g = choose|g: u64|
                        #[trigger] pr0.guests@.contains_key(g) && pr0.guests@[g].replica_id as u64
                            == rr;
                    assert(pr1.guests@.contains_key(g));
                    if !is_host && g != connection_id {
                        assert(pr1.guests@.remove(connection_id)[g] == pr0.guests@.remove(
                            connection_id,
                        )[g]);
                    }
                }
                assert forall|g1: u64, g2: u64|
                    pr1.guests@.contains_key(g1) && pr1.guests@.contains_key(g2) && g1 != g2
                        implies (#[trigger] pr1.guests@[g1]).replica_id != (
                #[trigger] pr1.guests@[g2]).replica_id by {
                    assert(pr0.guests@.contains_key(g1) && pr0.guests@.contains_key(g2));
                    if !is_host {
                        if g1 != connection_id {
                            assert(pr1.guests@.remove(connection_id)[g1] == pr0.guests@.remove(
                                connection_id,
                            )[g1]);
                            assert(pr1.guests@[g1] == pr0.guests@[g1]);
                        } else {
                            assert(pr1.guests@[g1].replica_id == pr0.guests@[g1].replica_id);
                        }
                        if g2 != connection_id {
                            assert(pr1.guests@.remove(connection_id)[g2] == pr0.guests@.remove(
                                connection_id,
                            )[g2]);
                            assert(pr1.guests@[g2] == pr0.guests@[g2]);
                        } else {
                            assert(pr1.guests@[g2].replica_id == pr0.guests@[g2].replica_id);
                        }
                    }
                }
                assert(pr1.active_replica_ids@.len() == pr1.guests@.dom().len());
            }
            assert(s1.projects@[project_id].guests@.dom() =~= pr0.guests@.dom());
            lemma_project_members_after_value_change(s0, s1, project_id);
            lemma_channels_frame(s0, s1);
            lemma_users_frame(s0, s1);
            lemma_rooms_frame(s0, s1);
            if s0.paths_ok() {
                assert forall|p: u64, w: u64|
                    s1.projects@.contains_key(p) && (
                    #[trigger] s1.projects@[p].worktrees@.contains_key(w)) implies (
                s0.projects@.contains_key(p) && s0.projects@[p].worktrees@.contains_key(w)
                    && s1.projects@[p].worktrees@[w].entries@
                    == s0.projects@[p].worktrees@[w].entries@)
                    || s1.projects@[p].worktrees@[w].entries@ =~= Map::<u64, Entry>::empty() by {
                    if p != project_id {
                        assert(s1.projects@.remove(project_id)[p] == s0.projects@.remove(
                            project_id,
                        )[p]);
                        assert(s1.projects@[p] == s0.projects@[p]);
                    }
                }
                lemma_paths_frame(s0, s1);
            }
        }
        Ok(())
    }

    /// Stamps the host's or the matching guest's `last_activity` with the
    /// current wall-clock time.
    pub fn register_project_activity(
        &mut self,
        project_id: ProjectId,
        connection_id: ConnectionId,
    ) -> (r: Result<(), StoreError>)
        requires
            old(self).wf(),
            old(self).links_ok(),
        ensures
            final(self).wf(),
            final(self).links_ok(),
            old(self).paths_ok() ==> final(self).paths_ok(),
            r is Ok <==> old(self).projects@.contains_key(project_id) && (old(
                self,
            ).projects@[project_id].host_connection_id == connection_id || old(
                self,
            ).projects@[project_id].guests@.contains_key(connection_id)),
            r is Err ==> r == Result::<(), StoreError>::Err(StoreError::UnknownProject)
                && *final(self) == *old(self),
            exists|now: i64|
                register_activity_rel(
                    *old(self),
                    *final(self),
                    project_id,
                    connection_id,
                    now,
                    r,
                ),
    {
        let now = now_unix_timestamp();
        let r = self.register_project_activity_at(project_id, connection_id, now);
        proof {
            assert(register_activity_rel(
                *old(self),
                *final(self),
                project_id,
                connection_id,
                now,
                r,
            ));
        }
        r
    }

    /// Grants all pending join requests of one user for a project: every
    /// receipt whose sender is still connected and not already a guest is
    /// promoted to a guest, in order, each getting the smallest free
    /// positive replica id; the host's activity is stamped with `now`.
    /// Returns each promoted receipt with its replica id. Only the host may
    /// accept; everyone else gets `None`.
    pub fn accept_join_project_request_at(
        &mut self,
        responder_connection_id: ConnectionId,
        requester_id: UserId,
        project_id: ProjectId,
        now: i64,
    ) -> (r: Option<Vec<(Receipt, ReplicaId)>>)
        requires
            old(self).wf(),
            old(self).links_ok(),
            old(self).connections@.dom().len() < 65535,
        ensures
            final(self).wf(),
            final(self).links_ok(),
            old(self).paths_ok() ==> final(self).paths_ok(),
            accept_rel(
                *old(self),
                *final(self),
                responder_connection_id,
                requester_id,
                project_id,
                now,
                r,
            ),
    {
        let (host_ok, has_request) = match self.projects.get(project_id) {
            Some(p) => (
                p.host_connection_id == responder_connection_id,
                p.join_requests.contains_key(requester_id),
            ),
            None => {
                return None;
            },
        };
        if !host_ok || !has_request {
            return None;
        }
        let mut project = self.projects.remove(project_id).unwrap();
        let ghost s0 = *old(self);
        let ghost pr0 = s0.projects@[project_id];
        let ghost conns0 = s0.connections@;
        let ghost guests0 = pr0.guests@;
        let ghost active0 = pr0.active_replica_ids@;
        let receipts = project.join_requests.remove(requester_id).unwrap();
        proof {
            assert(project.join_requests@ =~= pr0.join_requests@.remove(requester_id));
            assert forall|u: u64|
                project.join_requests@.contains_key(u) implies (
            #[trigger] project.join_requests@[u])@.len() > 0 && distinct_senders(
                project.join_requests@[u]@,
            ) by {
                assert(project.join_requests@[u] == pr0.join_requests@[u]);
            }
            assert(project.guests@.dom().subset_of(self.connections@.dom())) by {
                assert forall|g: u64| project.guests@.dom().contains(g) implies self.connections@.dom().contains(
                    g,
                ) by {
                    assert(pr0.guests@.contains_key(g));
                    assert(s0.connections@.contains_key(g));
                }
            }
            self.connections.lemma_pairs();
            project.guests.lemma_pairs();
            project.active_replica_ids.lemma_view();
            assert(promotable_receipts(receipts@.subrange(0, 0), conns0, guests0)
                =~= Seq::<Receipt>::empty()) by {
                assert(receipts@.subrange(0, 0) =~= Seq::<Receipt>::empty());
            }
            assert(firsts(Seq::<(Receipt, ReplicaId)>::empty()) =~= Seq::<Receipt>::empty());
        }
        let mut pairs: Vec<(Receipt, ReplicaId)> = Vec::new();
        let n = receipts.len();
        let mut i: usize = 0;
        while i < n
            invariant
                s0 == *old(self),
                pr0 == s0.projects@[project_id],
                conns0 == s0.connections@,
                guests0 == pr0.guests@,
                active0 == pr0.active_replica_ids@,
                s0.wf(),
                s0.links_ok(),
                s0.projects@.contains_key(project_id),
                conns0.dom().len() < 65535,
                i <= n,
                n == receipts@.len(),
                receipts@ == pr0.join_requests@[requester_id]@,
                distinct_senders(receipts@),
                self.connections.wf(),
                self.connections@.dom() =~= conns0.dom(),
                self.connections@.dom().finite(),
                self.connections@.dom().len() == conns0.dom().len(),
                forall|c: u64|
                    #[trigger] self.connections@.contains_key(c) ==> self.connections@[c].wf()
                        && self.connections@[c].user_id == conns0[c].user_id
                        && self.connections@[c].admin == conns0[c].admin
                        && self.connections@[c].channels == conns0[c].channels,
                forall|c: u64|
                    #[trigger] self.connections@.contains_key(c) ==> (if receipt_from(
                        receipts@.subrange(0, i as int),
                        c,
                    ) && !guests0.contains_key(c) {
                        self.connections@[c].requested_projects@
                            =~= conns0[c].requested_projects@.remove(project_id)
                            && self.connections@[c].projects@ =~= conns0[c].projects@.insert(
                            project_id,
                        )
                    } else {
                        self.connections@[c].requested_projects == conns0[c].requested_projects
                            && self.connections@[c].projects == conns0[c].projects
                    }),
                project.online == pr0.online,
                project.host_connection_id == pr0.host_connection_id,
                project.host == pr0.host,
                project.worktrees == pr0.worktrees,
                project.language_servers == pr0.language_servers,
                project.join_requests@ =~= pr0.join_requests@.remove(requester_id),
                project.join_requests.wf(),
                project.guests.wf(),
                project.active_replica_ids.wf(),
                forall|u: u64|
                    project.join_requests@.contains_key(u) ==> (
                    #[trigger] project.join_requests@[u])@.len() > 0 && distinct_senders(
                        project.join_requests@[u]@,
                    ),
                forall|w: u64|
                    project.worktrees@.contains_key(w) ==> (
                    #[trigger] project.worktrees@[w]).wf(),
                project.worktrees.wf(),
                project.replicas_ok(),
                project.guests@.dom().subset_of(self.connections@.dom()),
                project.guests@.dom().finite(),
                forall|g: u64|
                    #[trigger] project.guests@.contains_key(g) <==> guests0.contains_key(g) || (
                    receipt_from(receipts@.subrange(0, i as int), g) && conns0.contains_key(g)
                        && !guests0.contains_key(g)),
                forall|g: u64|
                    #[trigger] guests0.contains_key(g) ==> project.guests@[g] == guests0[g],
                firsts(pairs@) == promotable_receipts(
                    receipts@.subrange(0, i as int),
                    conns0,
                    guests0,
                ),
                forall|k: int|
                    0 <= k < pairs@.len() ==> exists|j: int|
                        0 <= j < i && receipts@[j] == (#[trigger] pairs@[k]).0,
                forall|k: int|
                    0 <= k < pairs@.len() ==> (#[trigger] pairs@[k]).1 as u64 >= 1
                        && !taken_replica(active0, pairs@, k, pairs@[k].1 as u64) && (forall|
                        m: u64,
                    |
                        1 <= m < pairs@[k].1 as u64 ==> taken_replica(active0, pairs@, k, m)),
                forall|k: int|
                    0 <= k < pairs@.len() ==> project.guests@[(#[trigger] pairs@[k]).0.sender_id]
                        == (Collaborator {
                        replica_id: pairs@[k].1,
                        user_id: requester_id,
                        last_activity: Some(now),
                        admin: conns0[pairs@[k].0.sender_id].admin,
                    }),
                forall|rr: u64|
                    #[trigger] project.active_replica_ids@.contains(rr) <==> active0.contains(rr)
                        || (exists|k: int|
                        0 <= k < pairs@.len() && (#[trigger] pairs@[k]).1 as u64 == rr),
                self.connections_by_user_id == old(self).connections_by_user_id,
                self.rooms == old(self).rooms,
                self.channels == old(self).channels,
                self.next_room_id == old(self).next_room_id,
                self.projects.wf(),
                self.projects@ =~= old(self).projects@.remove(project_id),
            decreases n - i,
        {
            let receipt = receipts[i];
            let sender = receipt.sender_id;
            let ghost prefix = receipts@.subrange(0, i as int);
            let ghost prefix1 = receipts@.subrange(0, i + 1 as int);
            proof {
                assert(prefix1 =~= prefix.push(receipts@[i as int]));
                assert forall|j: int| 0 <= j < i implies (#[trigger] receipts@[j]).sender_id
                    != sender by {}
                assert(!receipt_from(prefix, sender)) by {
                    if receipt_from(prefix, sender) {
                        let j = choose|j: int|
                            0 <= j < prefix.len() && (#[trigger] prefix[j]).sender_id == sender;
                        assert(receipts@[j].sender_id == sender);
                    }
                }
                lemma_promotable_receipts_push(prefix, conns0, guests0, receipts@[i as int]);
            }
            let promotable = self.connections.contains_key(sender) && !project.guests.contains_key(
                sender,
            );
            proof {
                assert(project.guests@.contains_key(sender) <==> guests0.contains_key(sender));
                assert(promotable <==> conns0.contains_key(sender) && !guests0.contains_key(
                    sender,
                ));
            }
            if promotable {
                let ghost prev_conns = self.connections@;
                let ghost prev_guests = project.guests@;
                let ghost prev_active = project.active_replica_ids@;
                let mut connection = self.connections.remove(sender).unwrap();
                connection.requested_projects.remove(project_id);
                connection.projects.insert(project_id);
                let admin = connection.admin;
                self.connections.insert(sender, connection);
                proof {
                    assert(self.connections@.remove(sender) =~= prev_conns.remove(sender));
                    assert(self.connections@.dom() =~= conns0.dom());
                    assert(project.guests@.dom().len() <= self.connections@.dom().len()) by {
                        vstd::set_lib::lemma_len_subset(
                            project.guests@.dom(),
                            self.connections@.dom(),
                        );
                    }
                    project.guests.lemma_pairs();
                    project.active_replica_ids.lemma_view();
                    assert(project.active_replica_ids.seq().len() < 65535);
                }
                let replica = alloc_replica_id(&project.active_replica_ids);
                proof {
                    assert(replica <= 65535) by {
                        project.active_replica_ids.lemma_view();
                    }
                }
                let replica_small: ReplicaId = replica as ReplicaId;
                proof {
                    assert(replica_small as u64 == replica);
                }
                let ghost pold = pairs@;
                project.active_replica_ids.insert(replica);
                project.guests.insert(
                    sender,
                    Collaborator {
                        replica_id: replica_small,
                        user_id: requester_id,
                        last_activity: Some(now),
                        admin,
                    },
                );
                pairs.push((receipt, replica_small));
                proof {
                    let ghost k_new = pold.len() as int;
                    assert(pairs@ =~= pold.push((receipt, replica_small)));
                    assert(pairs@[k_new].1 as u64 == replica);
                    assert(pairs@[k_new].0 == receipt);
                    assert(firsts(pairs@) =~= firsts(pold).push(receipt)) by {
                        assert forall|j: int| 0 <= j < pairs@.len() implies firsts(pairs@)[j]
                            == firsts(pold).push(receipt)[j] by {
                            if j < k_new {
                                assert(pairs@[j] == pold[j]);
                            }
                        }
                    }
                    assert(firsts(pairs@) =~= promotable_receipts(prefix1, conns0, guests0));
                    assert forall|k: int|
                        0 <= k < pairs@.len() implies exists|j: int|
                        0 <= j < i + 1 && receipts@[j] == (#[trigger] pairs@[k]).0 by {
                        if k < k_new {
                            assert(pairs@[k] == pold[k]);
                            let j = choose|j: int|
                                0 <= j < i && receipts@[j] == (#[trigger] pold[k]).0;
                            assert(receipts@[j] == pairs@[k].0);
                        } else {
                            assert(receipts@[i as int] == pairs@[k].0);
                        }
                    }
                    assert forall|k: int|
                        0 <= k < pairs@.len() implies (#[trigger] pairs@[k]).1 as u64 >= 1
                        && !taken_replica(active0, pairs@, k, pairs@[k].1 as u64) && (forall|
                        m: u64,
                    |
                        1 <= m < pairs@[k].1 as u64 ==> taken_replica(
                            active0,
                            pairs@,
                            k,
                            m,
                        )) by {
                        if k < k_new {
                            assert(pairs@[k] == pold[k]);
                            assert(!taken_replica(active0, pold, k, pold[k].1 as u64));
                            assert(!taken_replica(active0, pairs@, k, pairs@[k].1 as u64)) by {
                                if taken_replica(active0, pairs@, k, pairs@[k].1 as u64)
                                    && !active0.contains(pairs@[k].1 as u64) {
                                    let j = choose|j: int|
                                        0 <= j < k && (#[trigger] pairs@[j]).1 as u64
                                            == pairs@[k].1 as u64;
                                    assert(pold[j] == pairs@[j]);
                                }
                            }
                            assert forall|m: u64|
                                1 <= m < pairs@[k].1 as u64 implies taken_replica(
                                active0,
                                pairs@,
                                k,
                                m,
                            ) by {
                                assert(taken_replica(active0, pold, k, m));
                                if !active0.contains(m) {
                                    let j = choose|j: int|
                                        0 <= j < k && (#[trigger] pold[j]).1 as u64 == m;
                                    assert(pairs@[j] == pold[j]);
                                }
                            }
                        } else {
                            assert(!taken_replica(active0, pairs@, k, replica)) by {
                                if active0.contains(replica) {
                                    assert(prev_active.contains(replica));
                                }
                                if taken_replica(active0, pairs@, k, replica) && !active0.contains(
                                    replica,
                                ) {
                                    let j = choose|j: int|
                                        0 <= j < k && (#[trigger] pairs@[j]).1 as u64 == replica;
                                    assert(pold[j] == pairs@[j]);
                                    assert(prev_active.contains(replica));
                                }
                            }
                            assert forall|m: u64| 1 <= m < replica implies taken_replica(
                                active0,
                                pairs@,
                                k,
                                m,
                            ) by {
                                assert(prev_active.contains(m));
                                if !active0.contains(m) {
                                    let j = choose|j: int|
                                        0 <= j < pold.len() && (#[trigger] pold[j]).1 as u64 == m;
                                    assert(pairs@[j] == pold[j]);
                                }
                            }
                        }
                    }
                    assert forall|k: int|
                        0 <= k < pairs@.len() implies project.guests@[(
                    #[trigger] pairs@[k]).0.sender_id] == (Collaborator {
                        replica_id: pairs@[k].1,
                        user_id: requester_id,
                        last_activity: Some(now),
                        admin: conns0[pairs@[k].0.sender_id].admin,
                    }) by {
                        if k < k_new {
                            assert(pairs@[k] == pold[k]);
                            let j = choose|j: int|
                                0 <= j < i && receipts@[j] == (#[trigger] pold[k]).0;
                            assert(receipts@[j].sender_id != sender);
                            assert(pairs@[k].0.sender_id != sender);
                            assert(project.guests@[pairs@[k].0.sender_id]
                                == prev_guests[pairs@[k].0.sender_id]);
                        }
                    }
                    assert forall|rr: u64|
                        #[trigger] project.active_replica_ids@.contains(rr) <==> active0.contains(
                        rr,
                    ) || (exists|k: int|
                        0 <= k < pairs@.len() && (#[trigger] pairs@[k]).1 as u64 == rr) by {
                        if project.active_replica_ids@.contains(rr) {
                            if rr == replica {
                                assert(pairs@[k_new].1 as u64 == rr);
                            } else {
                                assert(prev_active.contains(rr));
                                if !active0.contains(rr) {
                                    let j = choose|j: int|
                                        0 <= j < pold.len() && (#[trigger] pold[j]).1 as u64 == rr;
                                    assert(pairs@[j] == pold[j]);
                                }
                            }
                        }
                        if active0.contains(rr) {
                            assert(prev_active.contains(rr));
                            assert(project.active_replica_ids@.contains(rr));
                        }
                        if exists|k: int|
                            0 <= k < pairs@.len() && (#[trigger] pairs@[k]).1 as u64 == rr {
                            let k = choose|k: int|
                                0 <= k < pairs@.len() && (#[trigger] pairs@[k]).1 as u64 == rr;
                            if k < k_new {
                                assert(pold[k] == pairs@[k]);
                                assert(prev_active.contains(rr));
                            }
                            assert(project.active_replica_ids@.contains(rr));
                        }
                    }
                    assert forall|c: u64|
                        #[trigger] self.connections@.contains_key(c) implies (if receipt_from(
                        prefix1,
                        c,
                    ) && !guests0.contains_key(c) {
                        self.connections@[c].requested_projects@
                            =~= conns0[c].requested_projects@.remove(project_id)
                            && self.connections@[c].projects@ =~= conns0[c].projects@.insert(
                            project_id,
                        )
                    } else {
                        self.connections@[c].requested_projects == conns0[c].requested_projects
                            && self.connections@[c].projects == conns0[c].projects
                    }) by {
                        if c != sender {
                            assert(self.connections@.remove(sender)[c] == prev_conns.remove(
                                sender,
                            )[c]);
                            assert(self.connections@[c] == prev_conns[c]);
                            assert(receipt_from(prefix1, c) <==> receipt_from(prefix, c)) by {
                                if receipt_from(prefix1, c) {
                                    let j = choose|j: int|
                                        0 <= j < prefix1.len() && (#[trigger] prefix1[j]).sender_id
                                            == c;
                                    if j < i {
                                        assert(prefix[j] == prefix1[j]);
                                    }
                                }
                                if receipt_from(prefix, c) {
                                    let j = choose|j: int|
                                        0 <= j < prefix.len() && (#[trigger] prefix[j]).sender_id
                                            == c;
                                    assert(prefix1[j] == prefix[j]);
                                }
                            }
                        } else {
                            assert(receipt_from(prefix1, sender)) by {
                                assert(prefix1[i as int].sender_id == sender);
                            }
                        }
                    }
                    assert forall|g: u64|
                        #[trigger] project.guests@.contains_key(g) <==> guests0.contains_key(g)
                            || (receipt_from(prefix1, g) && conns0.contains_key(g)
                            && !guests0.contains_key(g)) by {
                        if g != sender {
                            assert(receipt_from(prefix1, g) <==> receipt_from(prefix, g)) by {
                                if receipt_from(prefix1, g) {
                                    let j = choose|j: int|
                                        0 <= j < prefix1.len() && (#[trigger] prefix1[j]).sender_id
                                            == g;
                                    if j < i {
                                        assert(prefix[j] == prefix1[j]);
                                    }
                                }
                                if receipt_from(prefix, g) {
                                    let j = choose|j: int|
                                        0 <= j < prefix.len() && (#[trigger] prefix[j]).sender_id
                                            == g;
                                    assert(prefix1[j] == prefix[j]);
                                }
                            }
                        } else {
                            assert(prefix1[i as int].sender_id == sender);
                            assert(receipt_from(prefix1, sender));
                        }
                    }
                    assert(project.replicas_ok()) by {
                        let gm = project.guests@;
                        let am = project.active_replica_ids@;
                        assert(gm =~= prev_guests.insert(
                            sender,
                            Collaborator {
                                replica_id: replica_small,
                                user_id: requester_id,
                                last_activity: Some(now),
                                admin,
                            },
                        ));
                        assert(am =~= prev_active.insert(replica));
                        assert(!prev_guests.contains_key(sender));
                        assert(!prev_active.contains(replica));
                        assert forall|g: u64| gm.contains_key(g) implies am.contains(
                            (#[trigger] gm[g]).replica_id as u64,
                        ) by {
                            if g != sender {
                                assert(gm[g] == prev_guests[g]);
                                assert(prev_active.contains(prev_guests[g].replica_id as u64));
                            }
                        }
                        assert forall|rr: u64| #[trigger] am.contains(rr) implies exists|g: u64|
                            #[trigger] gm.contains_key(g) && gm[g].replica_id as u64 == rr by {
                            if rr == replica {
                                assert(gm.contains_key(sender) && gm[sender].replica_id as u64
                                    == rr);
                            } else {
                                assert(prev_active.contains(rr));
                                let g = choose|g: u64|
                                    #[trigger] prev_guests.contains_key(g)
                                        && prev_guests[g].replica_id as u64 == rr;
                                assert(g != sender);
                                assert(gm.contains_key(g) && gm[g].replica_id as u64 == rr);
                            }
                        }
                        assert forall|g1: u64, g2: u64|
                            gm.contains_key(g1) && gm.contains_key(g2) && g1 != g2 implies (
                        #[trigger] gm[g1]).replica_id != (#[trigger] gm[g2]).replica_id by {
                            if g1 == sender {
                                assert(gm[g2] == prev_guests[g2]);
                                assert(prev_active.contains(
                                    prev_guests[g2].replica_id as u64,
                                ));
                            } else if g2 == sender {
                                assert(gm[g1] == prev_guests[g1]);
                                assert(prev_active.contains(
                                    prev_guests[g1].replica_id as u64,
                                ));
                            } else {
                                assert(gm[g1] == prev_guests[g1]);
                                assert(gm[g2] == prev_guests[g2]);
                            }
                        }
                        assert(prev_guests.dom().finite());
                        assert(gm.dom() =~= prev_guests.dom().insert(sender));
                        assert(gm.dom().len() == prev_guests.dom().len() + 1);
                        assert(am.len() == prev_active.len() + 1);
                        assert(am.len() == gm.dom().len());
                    }
                }
            } else {
                proof {
                    assert forall|c: u64|
                        #[trigger] self.connections@.contains_key(c) implies (if receipt_from(
                        prefix1,
                        c,
                    ) && !guests0.contains_key(c) {
                        self.connections@[c].requested_projects@
                            =~= conns0[c].requested_projects@.remove(project_id)
                            && self.connections@[c].projects@ =~= conns0[c].projects@.insert(
                            project_id,
                        )
                    } else {
                        self.connections@[c].requested_projects == conns0[c].requested_projects
                            && self.connections@[c].projects == conns0[c].projects
                    }) by {
                        if receipt_from(prefix1, c) && !receipt_from(prefix, c) {
                            let j = choose|j: int|
                                0 <= j < prefix1.len() && (#[trigger] prefix1[j]).sender_id == c;
                            assert forall|jj: int| 0 <= jj < prefix.len() implies (
                            #[trigger] prefix[jj]).sender_id != c by {
                                assert(prefix1[jj] == prefix[jj]);
                            }
                            assert(j == i);
                            assert(c == sender);
                        }
                        if receipt_from(prefix, c) {
                            let j = choose|j: int|
                                0 <= j < prefix.len() && (#[trigger] prefix[j]).sender_id == c;
                            assert(prefix1[j] == prefix[j]);
                            assert(receipt_from(prefix1, c));
                        }
                    }
                    assert forall|g: u64|
                        #[trigger] project.guests@.contains_key(g) <==> guests0.contains_key(g)
                            || (receipt_from(prefix1, g) && conns0.contains_key(g)
                            && !guests0.contains_key(g)) by {
                        if receipt_from(prefix1, g) && !receipt_from(prefix, g) {
                            assert forall|jj: int| 0 <= jj < prefix.len() implies (
                            #[trigger] prefix[jj]).sender_id != g by {
                                assert(prefix1[jj] == prefix[jj]);
                            }
                            let j = choose|j: int|
                                0 <= j < prefix1.len() && (#[trigger] prefix1[j]).sender_id == g;
                            assert(j == i);
                            assert(g == sender);
                        }
                        if receipt_from(prefix, g) {
                            let j = choose|j: int|
                                0 <= j < prefix.len() && (#[trigger] prefix[j]).sender_id == g;
                            assert(prefix1[j] == prefix[j]);
                        }
                    }
                    assert(firsts(pairs@) =~= promotable_receipts(prefix1, conns0, guests0));
                }
            }
            i = i + 1;
        }
        project.host.last_activity = Some(now);
        self.projects.insert(project_id, project);
        proof {
            let s1 = *self;
            assert(receipts@.subrange(0, n as int) =~= receipts@);
            assert(s1.projects@.remove(project_id) =~= s0.projects@.remove(project_id));
            assert(s1.projects@.dom() =~= s0.projects@.dom());
            let pr1 = s1.projects@[project_id];
            assert(pr1.wf());
            assert(pr1.replicas_ok());
            assert forall|p: u64| #[trigger] s1.projects@.contains_key(p) implies s1.projects@[p].wf()
                && s1.projects@[p].replicas_ok() by {
                if p != project_id {
                    assert(s1.projects@.remove(project_id)[p] == s0.projects@.remove(
                        project_id,
                    )[p]);
                    assert(s1.projects@[p] == s0.projects@[p]);
                    assert(s0.projects@.contains_key(p));
                }
            }
            assert forall|c: u64, p: u64|
                s1.connections@.contains_key(c) && (#[trigger] s1.connections@[c].projects@.contains(
                    p,
                )) implies s1.projects@.contains_key(p) && (s1.projects@[p].host_connection_id
                == c || s1.projects@[p].guests@.contains_key(c)) by {
                assert(s0.connections@.contains_key(c));
                let promoted = receipt_from(receipts@, c) && !guests0.contains_key(c);
                if promoted {
                    if p == project_id {
                        assert(pr1.guests@.contains_key(c));
                    } else {
                        assert(conns0[c].projects@.contains(p));
                        assert(s1.projects@.remove(project_id)[p] == s0.projects@.remove(
                            project_id,
                        )[p]);
                        assert(s1.projects@[p] == s0.projects@[p]);
                    }
                } else {
                    assert(conns0[c].projects@.contains(p));
                    if p == project_id {
                        if guests0.contains_key(c) {
                            assert(pr1.guests@.contains_key(c));
                        }
                    } else {
                        assert(s1.projects@.remove(project_id)[p] == s0.projects@.remove(
                            project_id,
                        )[p]);
                        assert(s1.projects@[p] == s0.projects@[p]);
                    }
                }
            }
            assert forall|p: u64| #[trigger] s1.projects@.contains_key(p) implies {
                let pr = s1.projects@[p];
                &&& s1.connections@.contains_key(pr.host_connection_id)
                &&& s1.connections@[pr.host_connection_id].projects@.contains(p)
                &&& forall|g: u64|
                    #[trigger] pr.guests@.contains_key(g) ==> s1.connections@.contains_key(g)
                        && s1.connections@[g].projects@.contains(p)
            } by {
                let pr = s1.projects@[p];
                if p != project_id {
                    assert(s1.projects@.remove(project_id)[p] == s0.projects@.remove(
                        project_id,
                    )[p]);
                    assert(s1.projects@[p] == s0.projects@[p]);
                }
                assert(s0.projects@.contains_key(p));
                assert(pr.host_connection_id == s0.projects@[p].host_connection_id);
                assert(s0.connections@.contains_key(pr.host_connection_id));
                assert(conns0[pr.host_connection_id].projects@.contains(p));
                assert(s1.connections@[pr.host_connection_id].projects@.contains(p));
                assert forall|g: u64| #[trigger] pr.guests@.contains_key(g) implies s1.connections@.contains_key(
                    g,
                ) && s1.connections@[g].projects@.contains(p) by {
                    if p == project_id {
                        if guests0.contains_key(g) {
                            assert(s0.connections@.contains_key(g));
                            assert(conns0[g].projects@.contains(p));
                        } else {
                            assert(receipt_from(receipts@, g) && conns0.contains_key(g));
                            assert(s1.connections@[g].projects@.contains(p));
                        }
                    } else {
                        assert(s0.projects@[p].guests@.contains_key(g));
                        assert(s0.connections@.contains_key(g));
                        assert(conns0[g].projects@.contains(p));
                    }
                }
            }
            assert forall|c: u64|
                #[trigger] s1.connections@.contains_key(c) implies s1.connections@[c].user_id
                == s0.connections@[c].user_id && s1.connections@[c].channels@
                =~= s0.connections@[c].channels@ by {
                assert(s0.connections@.contains_key(c));
            }
            lemma_channels_frame(s0, s1);
            lemma_users_frame(s0, s1);
            lemma_rooms_frame(s0, s1);
            if s0.paths_ok() {
                assert forall|p: u64, w: u64|
                    s1.projects@.contains_key(p) && (
                    #[trigger] s1.projects@[p].worktrees@.contains_key(w)) implies (
                s0.projects@.contains_key(p) && s0.projects@[p].worktrees@.contains_key(w)
                    && s1.projects@[p].worktrees@[w].entries@
                    == s0.projects@[p].worktrees@[w].entries@)
                    || s1.projects@[p].worktrees@[w].entries@ =~= Map::<u64, Entry>::empty() by {
                    if p != project_id {
                        assert(s1.projects@.remove(project_id)[p] == s0.projects@.remove(
                            project_id,
                        )[p]);
                        assert(s1.projects@[p] == s0.projects@[p]);
                    }
                }
                lemma_paths_frame(s0, s1);
            }
        }
        Some(pairs)
    }

    /// Grants all pending join requests of one user for a project, reading
    /// the host's activity stamp from the wall clock.
    pub fn accept_join_project_request(
        &mut self,
        responder_connection_id: ConnectionId,
        requester_id: UserId,
        project_id: ProjectId,
    ) -> (r: Option<Vec<(Receipt, ReplicaId)>>)
        requires
            old(self).wf(),
            old(self).links_ok(),
            old(self).connections@.dom().len() < 65535,
        ensures
            final(self).wf(),
            final(self).links_ok(),
            old(self).paths_ok() ==> final(self).paths_ok(),
            exists|now: i64|
                accept_rel(
                    *old(self),
                    *final(self),
                    responder_connection_id,
                    requester_id,
                    project_id,
                    now,
                    r,
                ),
    {
        let now = now_unix_timestamp();
        let r = self.accept_join_project_request_at(
            responder_connection_id,
            requester_id,
            project_id,
            now,
        );
        proof {
            assert(accept_rel(
                *old(self),
                *final(self),
                responder_connection_id,
                requester_id,
                project_id,
                now,
                r,
            ));
        }
        r
    }

    /// Records a language server started by the host and returns the
    /// project's fan-out list. Only the host may do this.
    pub fn start_language_server(
        &mut self,
        project_id: ProjectId,
        connection_id: ConnectionId,
        language_server: LanguageServer,
    ) -> (r: Result<Vec<ConnectionId>, StoreError>)
        requires
            old(self).wf(),
            old(self).links_ok(),
        ensures
            final(self).wf(),
            final(self).links_ok(),
            old(self).paths_ok() ==> final(self).paths_ok(),
            match r {
                Ok(v) => {
                    let pr0 = old(self).projects@[project_id];
                    let pr1 = final(self).projects@[project_id];
                    &&& old(self).projects@.contains_key(project_id)
                    &&& pr0.host_connection_id == connection_id
                    &&& final(self).projects@.dom() =~= old(self).projects@.dom()
                    &&& final(self).projects@.remove(project_id) =~= old(self).projects@.remove(
                        project_id,
                    )
                    &&& pr1.language_servers@.len() == pr0.language_servers@.len() + 1
                    &&& pr1.language_servers@.last().id == language_server.id
                    &&& pr1.language_servers@.last().name@ == language_server.name@
                    &&& pr1.language_servers@.subrange(0, pr0.language_servers@.len() as int)
                        == pr0.language_servers@
                    &&& pr1.online == pr0.online
                    &&& pr1.host_connection_id == pr0.host_connection_id
                    &&& pr1.host == pr0.host
                    &&& pr1.guests == pr0.guests
                    &&& pr1.join_requests == pr0.join_requests
                    &&& pr1.active_replica_ids == pr0.active_replica_ids
                    &&& pr1.worktrees == pr0.worktrees
                    &&& v@ == pr0.guests.key_seq().push(connection_id)
                    &&& final(self).connections == old(self).connections
                    &&& final(self).connections_by_user_id == old(self).connections_by_user_id
                    &&& final(self).rooms == old(self).rooms
                    &&& final(self).channels == old(self).channels
                    &&& final(self).next_room_id == old(self).next_room_id
                },
                Err(e) => e == StoreError::UnknownProject && *final(self) == *old(self) && (!old(
                    self,
                ).projects@.contains_key(project_id) || old(
                    self,
                ).projects@[project_id].host_connection_id != connection_id),
            },
    {
        let host_ok = match self.projects.get(project_id) {
            Some(p) => p.host_connection_id == connection_id,
            None => {
                return Err(StoreError::UnknownProject);
            },
        };
        if !host_ok {
            return Err(StoreError::UnknownProject);
        }
        let mut project = self.projects.remove(project_id).unwrap();
        let ghost pr0 = old(self).projects@[project_id];
        project.language_servers.push(language_server);
        let connection_ids = project.connection_ids();
        self.projects.insert(project_id, project);
        proof {
            let s0 = *old(self);
            let s1 = *self;
            assert(s1.projects@.remove(project_id) =~= s0.projects@.remove(project_id));
            assert(s1.projects@.dom() =~= s0.projects@.dom());
            let pr1 = s1.projects@[project_id];
            assert(pr1.language_servers@.subrange(0, pr0.language_servers@.len() as int)
                =~= pr0.language_servers@);
            assert(pr1.wf()) by {
                assert forall|w: u64|
                    pr1.worktrees@.contains_key(w) implies (#[trigger] pr1.worktrees@[w]).wf() by {
                    assert(pr0.worktrees@.contains_key(w));
                }
            }
            lemma_project_value_frame(s0, s1, project_id);
        }
        Ok(connection_ids)
    }

    /// Records a diagnostic summary for one path of a worktree, replacing an
    /// earlier summary for the same path, and returns the project's fan-out
    /// list. Only the host may do this; everyone else learns nothing beyond
    /// `UnknownWorktree`.
    pub fn update_diagnostic_summary(
        &mut self,
        project_id: ProjectId,
        worktree_id: u64,
        connection_id: ConnectionId,
        summary: DiagnosticSummary,
    ) -> (r: Result<Vec<ConnectionId>, StoreError>)
        requires
            old(self).wf(),
            old(self).links_ok(),
        ensures
            final(self).wf(),
            final(self).links_ok(),
            old(self).paths_ok() ==> final(self).paths_ok(),
            match r {
                Ok(v) => {
                    let pr0 = old(self).projects@[project_id];
                    let pr1 = final(self).projects@[project_id];
                    let wt0 = pr0.worktrees@[worktree_id];
                    let wt1 = pr1.worktrees@[worktree_id];
                    let d0 = wt0.diagnostic_summaries@;
                    let d1 = wt1.diagnostic_summaries@;
                    &&& old(self).projects@.contains_key(project_id)
                    &&& pr0.host_connection_id == connection_id
                    &&& pr0.worktrees@.contains_key(worktree_id)
                    &&& final(self).projects@.dom() =~= old(self).projects@.dom()
                    &&& final(self).projects@.remove(project_id) =~= old(self).projects@.remove(
                        project_id,
                    )
                    &&& pr1.online == pr0.online
                    &&& pr1.host_connection_id == pr0.host_connection_id
                    &&& pr1.host == pr0.host
                    &&& pr1.guests == pr0.guests
                    &&& pr1.join_requests == pr0.join_requests
                    &&& pr1.active_replica_ids == pr0.active_replica_ids
                    &&& pr1.language_servers == pr0.language_servers
                    &&& pr1.worktrees@.dom() =~= pr0.worktrees@.dom()
                    &&& pr1.worktrees@.remove(worktree_id) =~= pr0.worktrees@.remove(
                        worktree_id,
                    )
                    &&& wt1.root_name@ == wt0.root_name@
                    &&& wt1.visible == wt0.visible
                    &&& wt1.entries == wt0.entries
                    &&& wt1.scan_id == wt0.scan_id
                    &&& wt1.is_complete == wt0.is_complete
                    &&& (if exists|ii: int|
                        0 <= ii < d0.len() && (#[trigger] d0[ii]).path@ == summary.path@ {
                        exists|ii: int|
                            {
                                &&& 0 <= ii < d0.len()
                                &&& (#[trigger] d0[ii]).path@ == summary.path@
                                &&& forall|jj: int|
                                    0 <= jj < ii ==> (#[trigger] d0[jj]).path@ != summary.path@
                                &&& d1 == d0.update(ii, summary)
                            }
                    } else {
                        d1 == d0.push(summary)
                    })
                    &&& v@ == pr0.guests.key_seq().push(connection_id)
                    &&& final(self).connections == old(self).connections
                    &&& final(self).connections_by_user_id == old(self).connections_by_user_id
                    &&& final(self).rooms == old(self).rooms
                    &&& final(self).channels == old(self).channels
                    &&& final(self).next_room_id == old(self).next_room_id
                },
                Err(e) => *final(self) == *old(self) && ((e == StoreError::UnknownProject && !old(
                    self,
                ).projects@.contains_key(project_id)) || (e == StoreError::UnknownWorktree && old(
                    self,
                ).projects@.contains_key(project_id) && (old(
                    self,
                ).projects@[project_id].host_connection_id != connection_id || !old(
                    self,
                ).projects@[project_id].worktrees@.contains_key(worktree_id)))),
            },
    {
        let (host_ok, has_worktree) = match self.projects.get(project_id) {
            Some(p) => (
                p.host_connection_id == connection_id,
                p.worktrees.contains_key(worktree_id),
            ),
            None => {
                return Err(StoreError::UnknownProject);
            },
        };
        if !host_ok || !has_worktree {
            return Err(StoreError::UnknownWorktree);
        }
        let mut project = self.projects.remove(project_id).unwrap();
        let ghost pr0 = old(self).projects@[project_id];
        let mut worktree = project.worktrees.remove(worktree_id).unwrap();
        let ghost wt0 = pr0.worktrees@[worktree_id];
        match diag_index_of(&worktree.diagnostic_summaries, &summary.path) {
            Some(idx) => {
                worktree.diagnostic_summaries[idx] = summary;
            },
            None => {
                worktree.diagnostic_summaries.push(summary);
            },
        }
        project.worktrees.insert(worktree_id, worktree);
        let connection_ids = project.connection_ids();
        self.projects.insert(project_id, project);
        proof {
            let s0 = *old(self);
            let s1 = *self;
            assert(s1.projects@.remove(project_id) =~= s0.projects@.remove(project_id));
            assert(s1.projects@.dom() =~= s0.projects@.dom());
            let pr1 = s1.projects@[project_id];
            assert(pr1.worktrees@.remove(worktree_id) =~= pr0.worktrees@.remove(worktree_id));
            assert(pr1.worktrees@.dom() =~= pr0.worktrees@.dom());
            assert(pr1.wf()) by {
                assert forall|w: u64|
                    pr1.worktrees@.contains_key(w) implies (#[trigger] pr1.worktrees@[w]).wf() by {
                    assert(pr0.worktrees@.contains_key(w));
                    if w != worktree_id {
                        assert(pr1.worktrees@.remove(worktree_id)[w] == pr0.worktrees@.remove(
                            worktree_id,
                        )[w]);
                        assert(pr1.worktrees@[w] == pr0.worktrees@[w]);
                    } else {
                        assert(pr1.worktrees@[w].entries == wt0.entries);
                    }
                }
            }
            assert forall|w: u64|
                #[trigger] s1.projects@[project_id].worktrees@.contains_key(w) implies (
            s0.projects@[project_id].worktrees@.contains_key(w)
                && s1.projects@[project_id].worktrees@[w].entries@
                == s0.projects@[project_id].worktrees@[w].entries@)
                || s1.projects@[project_id].worktrees@[w].entries@ =~= Map::<u64, Entry>::empty()
                by {
                if w != worktree_id {
                    assert(pr1.worktrees@.remove(worktree_id)[w] == pr0.worktrees@.remove(
                        worktree_id,
                    )[w]);
                    assert(pr1.worktrees@[w] == pr0.worktrees@[w]);
                }
            }
            lemma_project_value_frame(s0, s1, project_id);
        }
        Ok(connection_ids)
    }

    /// Applies one scan's worth of worktree changes from the host or a
    /// guest: removals first, then upserts (a later update wins on an id
    /// collision). Creates the worktree on demand, always overwrites the
    /// root name, the scan id and the completion flag, and reports whether
    /// the root name changed. The project must be online.
    #[verifier::rlimit(80)]
    pub fn update_worktree(
        &mut self,
        connection_id: ConnectionId,
        project_id: ProjectId,
        worktree_id: u64,
        worktree_root_name: &String,
        removed_entries: &Vec<u64>,
        updated_entries: &Vec<Entry>,
        scan_id: u64,
        is_last_update: bool,
    ) -> (r: Result<(Vec<ConnectionId>, bool), StoreError>)
        requires
            old(self).wf(),
            old(self).links_ok(),
        ensures
            final(self).wf(),
            final(self).links_ok(),
            old(self).paths_ok() && r is Err ==> final(self).paths_ok(),
            old(self).paths_ok() && r is Ok ==> (final(self).paths_ok()
                <==> final(self).projects@[project_id].worktrees@[worktree_id].paths_unique()),
            match r {
                Ok((v, metadata_changed)) => {
                    let pr0 = old(self).projects@[project_id];
                    let pr1 = final(self).projects@[project_id];
                    let had = pr0.worktrees@.contains_key(worktree_id);
                    let wt0 = pr0.worktrees@[worktree_id];
                    let wt1 = pr1.worktrees@[worktree_id];
                    &&& old(self).projects@.contains_key(project_id)
                    &&& (pr0.host_connection_id == connection_id || pr0.guests@.contains_key(
                        connection_id,
                    ))
                    &&& pr0.online
                    &&& metadata_changed == (worktree_root_name@ != (if had {
                        wt0.root_name@
                    } else {
                        Seq::<char>::empty()
                    }))
                    &&& final(self).projects@.dom() =~= old(self).projects@.dom()
                    &&& final(self).projects@.remove(project_id) =~= old(self).projects@.remove(
                        project_id,
                    )
                    &&& pr1.online == pr0.online
                    &&& pr1.host_connection_id == pr0.host_connection_id
                    &&& pr1.host == pr0.host
                    &&& pr1.guests == pr0.guests
                    &&& pr1.join_requests == pr0.join_requests
                    &&& pr1.active_replica_ids == pr0.active_replica_ids
                    &&& pr1.language_servers == pr0.language_servers
                    &&& pr1.worktrees@.dom() =~= pr0.worktrees@.dom().insert(worktree_id)
                    &&& pr1.worktrees@.remove(worktree_id) =~= pr0.worktrees@.remove(
                        worktree_id,
                    )
                    &&& wt1.root_name@ == worktree_root_name@
                    &&& wt1.visible == (if had {
                        wt0.visible
                    } else {
                        false
                    })
                    &&& wt1.diagnostic_summaries@ == (if had {
                        wt0.diagnostic_summaries@
                    } else {
                        Seq::<DiagnosticSummary>::empty()
                    })
                    &&& wt1.scan_id == scan_id
                    &&& wt1.is_complete == is_last_update
                    &&& upsert_state(
                        entries_after_removal(had, wt0.entries@, removed_entries@),
                        wt1.entries@,
                        updated_entries@,
                        updated_entries@.len() as int,
                    )
                    &&& v@ == pr0.guests.key_seq().push(pr0.host_connection_id)
                    &&& final(self).connections == old(self).connections
                    &&& final(self).connections_by_user_id == old(self).connections_by_user_id
                    &&& final(self).rooms == old(self).rooms
                    &&& final(self).channels == old(self).channels
                    &&& final(self).next_room_id == old(self).next_room_id
                },
                Err(e) => {
                    &&& *final(self) == *old(self)
                    &&& (e == StoreError::UnknownProject <==> (!old(self).projects@.contains_key(
                        project_id,
                    ) || (old(self).projects@[project_id].host_connection_id != connection_id
                        && !old(self).projects@[project_id].guests@.contains_key(connection_id))))
                    &&& (e == StoreError::ProjectOffline <==> old(self).projects@.contains_key(
                        project_id,
                    ) && (old(self).projects@[project_id].host_connection_id == connection_id
                        || old(self).projects@[project_id].guests@.contains_key(connection_id))
                        && !old(self).projects@[project_id].online)
                },
            },
    {
        let (member_ok, online) = match self.projects.get(project_id) {
            Some(p) => (
                p.host_connection_id == connection_id || p.guests.contains_key(connection_id),
                p.online,
            ),
            None => {
                return Err(StoreError::UnknownProject);
            },
        };
        if !member_ok {
            return Err(StoreError::UnknownProject);
        }
        if !online {
            return Err(StoreError::ProjectOffline);
        }
        let mut project = self.projects.remove(project_id).unwrap();
        let ghost pr0 = old(self).projects@[project_id];
        let connection_ids = project.connection_ids();
        let mut worktree = match project.worktrees.remove(worktree_id) {
            Some(w) => w,
            None => Worktree {
                root_name: String::new(),
                visible: false,
                entries: Table::new(),
                diagnostic_summaries: Vec::new(),
                scan_id: 0,
                is_complete: false,
            },
        };
        let ghost had = pr0.worktrees@.contains_key(worktree_id);
        let ghost wt0 = pr0.worktrees@[worktree_id];
        let metadata_changed = !(*worktree_root_name == worktree.root_name);
        worktree.root_name = worktree_root_name.clone();
        let nr = removed_entries.len();
        let mut i: usize = 0;
        while i < nr
            invariant
                nr == removed_entries@.len(),
                i <= nr,
                worktree.root_name@ == worktree_root_name@,
                worktree.visible == (if had {
                    wt0.visible
                } else {
                    false
                }),
                worktree.diagnostic_summaries@ == (if had {
                    wt0.diagnostic_summaries@
                } else {
                    Seq::<DiagnosticSummary>::empty()
                }),
                worktree.entries.wf(),
                forall|e: u64|
                    #[trigger] worktree.entries@.contains_key(e) <==> ((if had {
                        wt0.entries@.contains_key(e)
                    } else {
                        false
                    }) && !removed_entries@.subrange(0, i as int).contains(e)),
                forall|e: u64|
                    #[trigger] worktree.entries@.contains_key(e) ==> worktree.entries@[e]
                        == wt0.entries@[e],
            decreases nr - i,
        {
            let ghost prev = worktree.entries@;
            let _ = worktree.entries.remove(removed_entries[i]);
            proof {
                assert forall|e: u64|
                    #[trigger] worktree.entries@.contains_key(e) <==> ((if had {
                        wt0.entries@.contains_key(e)
                    } else {
                        false
                    }) && !removed_entries@.subrange(0, i + 1 as int).contains(e)) by {
                    let pre = removed_entries@.subrange(0, i as int);
                    let pre1 = removed_entries@.subrange(0, i + 1 as int);
                    assert(pre1 =~= pre.push(removed_entries@[i as int]));
                    if worktree.entries@.contains_key(e) {
                        assert(prev.contains_key(e));
                        assert(!pre.contains(e));
                        assert(e != removed_entries@[i as int]);
                        assert(!pre1.contains(e)) by {
                            if pre1.contains(e) {
                                let j = choose|j: int| 0 <= j < pre1.len() && pre1[j] == e;
                                assert(j < i);
                                assert(pre[j] == e);
                            }
                        }
                    }
                    if !pre1.contains(e) {
                        assert(!pre.contains(e)) by {
                            if pre.contains(e) {
                                let j = choose|j: int| 0 <= j < pre.len() && pre[j] == e;
                                assert(pre1[j] == e);
                            }
                        }
                        assert(pre1[i as int] == removed_entries@[i as int]);
                    }
                }
            }
            i = i + 1;
        }
        proof {
            assert(removed_entries@.subrange(0, nr as int) =~= removed_entries@);
        }
        let ghost base = worktree.entries@;
        proof {
            assert(base =~= entries_after_removal(had, wt0.entries@, removed_entries@));
            assert(upsert_state(base, base, updated_entries@, 0)) by {
                assert forall|e: u64| !has_update_before(updated_entries@, 0, e) implies ((
                #[trigger] base.contains_key(e) <==> base.contains_key(e)) && (base.contains_key(
                    e,
                ) ==> base[e] == base[e])) by {}
            }
        }
        let nu = updated_entries.len();
        let mut k: usize = 0;
        while k < nu
            invariant
                nu == updated_entries@.len(),
                k <= nu,
                worktree.root_name@ == worktree_root_name@,
                worktree.visible == (if had {
                    wt0.visible
                } else {
                    false
                }),
                worktree.diagnostic_summaries@ == (if had {
                    wt0.diagnostic_summaries@
                } else {
                    Seq::<DiagnosticSummary>::empty()
                }),
                worktree.entries.wf(),
                upsert_state(base, worktree.entries@, updated_entries@, k as int),
            decreases nu - k,
        {
            let ghost prev = worktree.entries@;
            let entry = copy_entry(&updated_entries[k]);
            worktree.entries.insert(entry.id, entry);
            proof {
                assert(worktree.entries@ =~= prev.insert(
                    updated_entries@[k as int].id,
                    entry,
                ));
                lemma_upsert_step(
                    base,
                    prev,
                    worktree.entries@,
                    updated_entries@,
                    k as int,
                    entry,
                );
            }
            k = k + 1;
        }
        worktree.scan_id = scan_id;
        worktree.is_complete = is_last_update;
        proof {
            assert(upsert_state(
                entries_after_removal(had, wt0.entries@, removed_entries@),
                worktree.entries@,
                updated_entries@,
                updated_entries@.len() as int,
            ));
            assert forall|e: u64|
                worktree.entries@.contains_key(e) implies (#[trigger] worktree.entries@[e]).id
                == e by {
                if has_update_before(updated_entries@, nu as int, e) {
                    let i2 = choose|i2: int|
                        {
                            &&& 0 <= i2 < nu
                            &&& (#[trigger] updated_entries@[i2]).id == e
                            &&& last_update_in(updated_entries@, nu as int, i2)
                            &&& entry_like(worktree.entries@[e], updated_entries@[i2])
                        };
                } else {
                    assert(worktree.entries@[e] == base[e]);
                    if had {
                        assert(wt0.entries@[e].id == e);
                    }
                }
            }
        }
        project.worktrees.insert(worktree_id, worktree);
        self.projects.insert(project_id, project);
        proof {
            let s0 = *old(self);
            let s1 = *self;
            assert(s1.projects@.remove(project_id) =~= s0.projects@.remove(project_id));
            assert(s1.projects@.dom() =~= s0.projects@.dom());
            let pr1 = s1.projects@[project_id];
            assert(pr1.worktrees@.remove(worktree_id) =~= pr0.worktrees@.remove(worktree_id));
            assert(pr1.worktrees@.dom() =~= pr0.worktrees@.dom().insert(worktree_id));
            assert(pr1.wf()) by {
                assert forall|w: u64|
                    pr1.worktrees@.contains_key(w) implies (#[trigger] pr1.worktrees@[w]).wf() by {
                    if w != worktree_id {
                        assert(pr1.worktrees@.remove(worktree_id)[w] == pr0.worktrees@.remove(
                            worktree_id,
                        )[w]);
                        assert(pr1.worktrees@[w] == pr0.worktrees@[w]);
                        assert(pr0.worktrees@.contains_key(w));
                    }
                }
            }
            lemma_project_value_frame_no_paths(s0, s1, project_id);
            assert(s0.paths_ok() ==> (s1.paths_ok() <==> pr1.worktrees@[worktree_id].paths_unique()))
                by {
                if s0.paths_ok() {
                    if pr1.worktrees@[worktree_id].paths_unique() {
                        assert forall|p: u64, w: u64|
                            s1.projects@.contains_key(p) && (
                            #[trigger] s1.projects@[p].worktrees@.contains_key(w))
                                implies s1.projects@[p].worktrees@[w].paths_unique() by {
                            if p == project_id {
                                if w != worktree_id {
                                    assert(pr1.worktrees@.remove(worktree_id)[w]
                                        == pr0.worktrees@.remove(worktree_id)[w]);
                                    assert(pr1.worktrees@[w] == pr0.worktrees@[w]);
                                    assert(pr0.worktrees@.contains_key(w));
                                }
                            } else {
                                assert(s1.projects@.remove(project_id)[p] == s0.projects@.remove(
                                    project_id,
                                )[p]);
                                assert(s1.projects@[p] == s0.projects@[p]);
                                assert(s0.projects@.contains_key(p));
                            }
                        }
                    }
                    if s1.paths_ok() {
                        assert(pr1.worktrees@.contains_key(worktree_id));
                    }
                }
            }
        }
        Ok((connection_ids, metadata_changed))
    }

    /// Takes one connection out of a project: the matching guest (if any) is
    /// removed and its replica id freed, the connection's own receipts are
    /// withdrawn (cancelling the user's request when the last one goes), and
    /// when nobody but the host is left and no request is pending the shared
    /// data is cleared. A host calling this keeps the project row but
    /// forfeits its own membership bookkeeping, which is why the links are
    /// only promised to survive for a non-host caller.
    #[verifier::rlimit(40)]
    pub fn leave_project(&mut self, connection_id: ConnectionId, project_id: ProjectId) -> (r:
        Result<LeftProject, StoreError>)
        requires
            old(self).wf(),
            old(self).links_ok(),
        ensures
            final(self).wf(),
            old(self).paths_ok() ==> final(self).paths_ok(),
            r is Err ==> final(self).links_ok(),
            match r {
                Ok(left) => {
                    let uid = old(self).connections@[connection_id].user_id;
                    let c0 = old(self).connections@[connection_id];
                    let c1 = final(self).connections@[connection_id];
                    let pr0 = old(self).projects@[project_id];
                    let pr1 = final(self).projects@[project_id];
                    let was_guest = pr0.guests@.contains_key(connection_id);
                    let had = pr0.join_requests@.contains_key(uid);
                    let kept = receipts_without_sender(pr0.join_requests@[uid]@, connection_id);
                    &&& old(self).connections@.contains_key(connection_id)
                    &&& old(self).projects@.contains_key(project_id)
                    &&& (pr0.host_connection_id != connection_id ==> final(self).links_ok())
                    &&& left.host_connection_id == pr0.host_connection_id
                    &&& left.host_user_id == pr0.host.user_id
                    &&& left.remove_collaborator == was_guest
                    &&& final(self).projects@.dom() =~= old(self).projects@.dom()
                    &&& final(self).projects@.remove(project_id) =~= old(self).projects@.remove(
                        project_id,
                    )
                    &&& left_project_effect(pr0, pr1, connection_id, uid)
                    &&& (if had && kept.len() == 0 {
                        left.cancel_request == Some(uid)
                    } else {
                        left.cancel_request is None
                    })
                    &&& left.connection_ids@ == pr1.guests.key_seq().push(
                        pr1.host_connection_id,
                    )
                    &&& (left.unshare <==> (left.connection_ids@.len() <= 1
                        && pr1.join_requests@.dom() =~= Set::<u64>::empty()))
                    &&& final(self).connections@.dom() =~= old(self).connections@.dom()
                    &&& final(self).connections@.remove(connection_id) =~= old(
                        self,
                    ).connections@.remove(connection_id)
                    &&& c1.user_id == c0.user_id
                    &&& c1.admin == c0.admin
                    &&& c1.requested_projects == c0.requested_projects
                    &&& c1.channels == c0.channels
                    &&& c1.projects@ =~= c0.projects@.remove(project_id)
                    &&& final(self).connections_by_user_id == old(self).connections_by_user_id
                    &&& final(self).rooms == old(self).rooms
                    &&& final(self).channels == old(self).channels
                    &&& final(self).next_room_id == old(self).next_room_id
                },
                Err(e) => {
                    &&& *final(self) == *old(self)
                    &&& (e == StoreError::UnknownConnection || e == StoreError::UnknownProject)
                    &&& (e == StoreError::UnknownConnection <==> !old(
                        self,
                    ).connections@.contains_key(connection_id))
                    &&& (e == StoreError::UnknownProject <==> old(self).connections@.contains_key(
                        connection_id,
                    ) && !old(self).projects@.contains_key(project_id))
                },
            },
    {
        let user_id = match self.connections.get(connection_id) {
            Some(c) => c.user_id,
            None => {
                return Err(StoreError::UnknownConnection);
            },
        };
        if !self.projects.contains_key(project_id) {
            return Err(StoreError::UnknownProject);
        }
        let mut project = self.projects.remove(project_id).unwrap();
        let ghost s0 = *old(self);
        let ghost pr0 = s0.projects@[project_id];
        let remove_collaborator = match project.guests.remove(connection_id) {
            Some(guest) => {
                project.active_replica_ids.remove(guest.replica_id as u64);
                true
            },
            None => false,
        };
        let mut cancel_request: Option<UserId> = None;
        match project.join_requests.remove(user_id) {
            Some(receipts) => {
                let kept = retain_other_senders(&receipts, connection_id);
                if kept.len() == 0 {
                    cancel_request = Some(user_id);
                } else {
                    proof {
                        lemma_receipts_without_distinct(
                            pr0.join_requests@[user_id]@,
                            connection_id,
                        );
                    }
                    project.join_requests.insert(user_id, kept);
                }
            },
            None => {},
        }
        let mut connection = self.connections.remove(connection_id).unwrap();
        connection.projects.remove(project_id);
        self.connections.insert(connection_id, connection);
        let connection_ids = project.connection_ids();
        let unshare = connection_ids.len() <= 1 && project.join_requests.is_empty();
        if unshare {
            project.language_servers = Vec::new();
            let ghost pm = project;
            let worktree_ids = project.worktrees.keys();
            let n = worktree_ids.len();
            let ghost wts0 = project.worktrees@;
            proof {
                project.worktrees.lemma_pairs();
                project.worktrees.lemma_dom();
            }
            let mut i: usize = 0;
            while i < n
                invariant
                    n == worktree_ids@.len(),
                    i <= n,
                    worktree_ids@.no_duplicates(),
                    wts0.dom() =~= worktree_ids@.to_set(),
                    project.online == pm.online,
                    project.host_connection_id == pm.host_connection_id,
                    project.host == pm.host,
                    project.guests == pm.guests,
                    project.active_replica_ids == pm.active_replica_ids,
                    project.join_requests == pm.join_requests,
                    project.language_servers == pm.language_servers,
                    project.worktrees.wf(),
                    project.worktrees@.dom() =~= wts0.dom(),
                    forall|j: int|
                        0 <= j < i ==> {
                            let wa = wts0[worktree_ids@[j]];
                            let wb = project.worktrees@[#[trigger] worktree_ids@[j]];
                            &&& wb.root_name@ == wa.root_name@
                            &&& wb.visible == wa.visible
                            &&& wb.scan_id == wa.scan_id
                            &&& wb.is_complete == wa.is_complete
                            &&& wb.entries@ =~= Map::<u64, Entry>::empty()
                            &&& wb.diagnostic_summaries@ == Seq::<DiagnosticSummary>::empty()
                            &&& wb.wf()
                        },
                    forall|w: u64|
                        #[trigger] project.worktrees@.contains_key(w) && !worktree_ids@.subrange(
                            0,
                            i as int,
                        ).contains(w) ==> project.worktrees@[w] == wts0[w],
                decreases n - i,
            {
                let wid = worktree_ids[i];
                let ghost prev_wts = project.worktrees@;
                proof {
                    assert(wts0.dom().contains(worktree_ids@[i as int]));
                    assert(!worktree_ids@.subrange(0, i as int).contains(wid)) by {
                        if worktree_ids@.subrange(0, i as int).contains(wid) {
                            let j = choose|j: int|
                                0 <= j < i && worktree_ids@.subrange(0, i as int)[j] == wid;
                            assert(worktree_ids@[j] == worktree_ids@[i as int]);
                        }
                    }
                }
                let mut worktree = project.worktrees.remove(wid).unwrap();
                worktree.entries = Table::new();
                worktree.diagnostic_summaries = Vec::new();
                project.worktrees.insert(wid, worktree);
                proof {
                    assert(project.worktrees@.dom() =~= prev_wts.dom());
                    assert forall|j: int|
                        0 <= j < i + 1 implies {
                        let wa = wts0[worktree_ids@[j]];
                        let wb = project.worktrees@[#[trigger] worktree_ids@[j]];
                        &&& wb.root_name@ == wa.root_name@
                        &&& wb.visible == wa.visible
                        &&& wb.scan_id == wa.scan_id
                        &&& wb.is_complete == wa.is_complete
                        &&& wb.entries@ =~= Map::<u64, Entry>::empty()
                        &&& wb.diagnostic_summaries@ == Seq::<DiagnosticSummary>::empty()
                        &&& wb.wf()
                    } by {
                        if j < i {
                            assert(worktree_ids@[j] != wid);
                            assert(project.worktrees@.remove(wid)[worktree_ids@[j]]
                                == prev_wts.remove(wid)[worktree_ids@[j]]);
                            assert(project.worktrees@[worktree_ids@[j]]
                                == prev_wts[worktree_ids@[j]]);
                        } else {
                            assert(prev_wts[wid] == wts0[wid]);
                        }
                    }
                    assert forall|w: u64|
                        #[trigger] project.worktrees@.contains_key(w)
                            && !worktree_ids@.subrange(0, i + 1 as int).contains(w)
                            implies project.worktrees@[w] == wts0[w] by {
                        assert(!worktree_ids@.subrange(0, i as int).contains(w)) by {
                            if worktree_ids@.subrange(0, i as int).contains(w) {
                                let j = choose|j: int|
                                    0 <= j < i && worktree_ids@.subrange(0, i as int)[j] == w;
                                assert(worktree_ids@.subrange(0, i + 1 as int)[j] == w);
                            }
                        }
                        assert(w != wid) by {
                            assert(worktree_ids@.subrange(0, i + 1 as int)[i as int] == wid);
                        }
                        assert(project.worktrees@.remove(wid)[w] == prev_wts.remove(wid)[w]);
                        assert(project.worktrees@[w] == prev_wts[w]);
                    }
                }
                i = i + 1;
            }
            proof {
                assert forall|w: u64|
                    #[trigger] project.worktrees@.contains_key(w) implies {
                    let wa = wts0[w];
                    let wb = project.worktrees@[w];
                    &&& wb.root_name@ == wa.root_name@
                    &&& wb.visible == wa.visible
                    &&& wb.scan_id == wa.scan_id
                    &&& wb.is_complete == wa.is_complete
                    &&& wb.entries@ =~= Map::<u64, Entry>::empty()
                    &&& wb.diagnostic_summaries@ == Seq::<DiagnosticSummary>::empty()
                    &&& wb.wf()
                } by {
                    assert(worktree_ids@.to_set().contains(w));
                    let j = choose|j: int|
                        0 <= j < worktree_ids@.len() && worktree_ids@[j] == w;
                }
            }
        }
        let left_host_connection_id = project.host_connection_id;
        let left_host_user_id = project.host.user_id;
        self.projects.insert(project_id, project);
        let left = LeftProject {
            host_connection_id: left_host_connection_id,
            host_user_id: left_host_user_id,
            connection_ids,
            cancel_request,
            unshare,
            remove_collaborator,
        };
        proof {
            let s1 = *self;
            let pr1 = s1.projects@[project_id];
            assert(s1.projects@.remove(project_id) =~= s0.projects@.remove(project_id));
            assert(s1.projects@.dom() =~= s0.projects@.dom());
            assert(s1.connections@.remove(connection_id) =~= s0.connections@.remove(
                connection_id,
            ));
            assert(s1.connections@.dom() =~= s0.connections@.dom());
            assert(pr1.guests@ =~= pr0.guests@.remove(connection_id));
            assert(left.connection_ids@.len() == pr1.guests.key_seq().len() + 1);
            assert(unshare == (pr1.guests.key_seq().len() == 0 && pr1.join_requests@.dom()
                =~= Set::<u64>::empty())) by {
                if pr1.join_requests@ =~= Map::<u64, Vec<Receipt>>::empty() {
                    assert(pr1.join_requests@.dom() =~= Set::<u64>::empty());
                }
                if pr1.join_requests@.dom() =~= Set::<u64>::empty() {
                    assert(pr1.join_requests@ =~= Map::<u64, Vec<Receipt>>::empty());
                }
            }
            assert(pr1.wf()) by {
                assert forall|u: u64|
                    pr1.join_requests@.contains_key(u) implies (
                #[trigger] pr1.join_requests@[u])@.len() > 0 && distinct_senders(
                    pr1.join_requests@[u]@,
                ) by {
                    if u != user_id {
                        assert(pr1.join_requests@.remove(user_id)[u] == pr0.join_requests@.remove(
                            user_id,
                        )[u]);
                        assert(pr1.join_requests@[u] == pr0.join_requests@[u]);
                    }
                }
                assert forall|w: u64|
                    pr1.worktrees@.contains_key(w) implies (#[trigger] pr1.worktrees@[w]).wf() by {
                    if !unshare {
                        assert(pr0.worktrees@.contains_key(w));
                    }
                }
            }
            assert(pr1.replicas_ok()) by {
                let gm = pr1.guests@;
                let am = pr1.active_replica_ids@;
                if remove_collaborator {
                    let freed = pr0.guests@[connection_id].replica_id as u64;
                    assert(am =~= pr0.active_replica_ids@.remove(freed));
                    assert forall|g: u64| gm.contains_key(g) implies am.contains(
                        (#[trigger] gm[g]).replica_id as u64,
                    ) by {
                        assert(gm[g] == pr0.guests@[g]);
                        assert(pr0.active_replica_ids@.contains(pr0.guests@[g].replica_id as u64));
                        assert(gm[g].replica_id as u64 != freed) by {
                            assert(pr0.guests@[g].replica_id
                                != pr0.guests@[connection_id].replica_id);
                        }
                    }
                    assert forall|rr: u64| #[trigger] am.contains(rr) implies exists|g: u64|
                        #[trigger] gm.contains_key(g) && gm[g].replica_id as u64 == rr by {
                        assert(pr0.active_replica_ids@.contains(rr));
                        let g = choose|g: u64|
                            #[trigger] pr0.guests@.contains_key(g) && pr0.guests@[g].replica_id
                                as u64 == rr;
                        assert(g != connection_id);
                        assert(gm.contains_key(g) && gm[g].replica_id as u64 == rr);
                    }
                    assert forall|g1: u64, g2: u64|
                        gm.contains_key(g1) && gm.contains_key(g2) && g1 != g2 implies (
                    #[trigger] gm[g1]).replica_id != (#[trigger] gm[g2]).replica_id by {
                        assert(gm[g1] == pr0.guests@[g1]);
                        assert(gm[g2] == pr0.guests@[g2]);
                    }
                    assert(pr0.guests@.dom().finite()) by {
                        s0.projects@[project_id].guests.lemma_pairs();
                    }
                    assert(gm.dom() =~= pr0.guests@.dom().remove(connection_id));
                    assert(pr0.active_replica_ids@.contains(freed));
                    assert(pr0.active_replica_ids@.finite()) by {
                        s0.projects@[project_id].active_replica_ids.lemma_view();
                    }
                    assert(am.len() == gm.dom().len());
                } else {
                    assert(gm =~= pr0.guests@);
                    lemma_replicas_ok_congruent(pr0, pr1);
                }
            }
            if pr0.host_connection_id != connection_id {
                assert forall|c: u64, p: u64|
                    s1.connections@.contains_key(c) && (
                    #[trigger] s1.connections@[c].projects@.contains(p)) implies s1.projects@.contains_key(
                    p,
                ) && (s1.projects@[p].host_connection_id == c
                    || s1.projects@[p].guests@.contains_key(c)) by {
                    assert(s0.connections@.contains_key(c));
                    if c != connection_id {
                        assert(s1.connections@.remove(connection_id)[c] == s0.connections@.remove(
                            connection_id,
                        )[c]);
                        assert(s1.connections@[c] == s0.connections@[c]);
                    }
                    assert(s0.connections@[c].projects@.contains(p));
                    if p != project_id {
                        assert(s1.projects@.remove(project_id)[p] == s0.projects@.remove(
                            project_id,
                        )[p]);
                        assert(s1.projects@[p] == s0.projects@[p]);
                    } else {
                        assert(c != connection_id || !s1.connections@[c].projects@.contains(p));
                        if s0.projects@[p].guests@.contains_key(c) && c != connection_id {
                            assert(s1.projects@[p].guests@.contains_key(c));
                        }
                    }
                }
                assert forall|p: u64| #[trigger] s1.projects@.contains_key(p) implies {
                    let pr = s1.projects@[p];
                    &&& s1.connections@.contains_key(pr.host_connection_id)
                    &&& s1.connections@[pr.host_connection_id].projects@.contains(p)
                    &&& forall|g: u64|
                        #[trigger] pr.guests@.contains_key(g) ==> s1.connections@.contains_key(
                            g,
                        ) && s1.connections@[g].projects@.contains(p)
                } by {
                    let pr = s1.projects@[p];
                    if p != project_id {
                        assert(s1.projects@.remove(project_id)[p] == s0.projects@.remove(
                            project_id,
                        )[p]);
                        assert(s1.projects@[p] == s0.projects@[p]);
                    }
                    assert(s0.projects@.contains_key(p));
                    assert(pr.host_connection_id == s0.projects@[p].host_connection_id);
                    assert(s0.connections@.contains_key(pr.host_connection_id));
                    assert(s0.connections@[pr.host_connection_id].projects@.contains(p));
                    assert forall|g: u64|
                        #[trigger] pr.guests@.contains_key(g) implies s1.connections@.contains_key(
                        g,
                    ) && s1.connections@[g].projects@.contains(p) by {
                        if p == project_id {
                            assert(pr0.guests@.contains_key(g));
                            assert(g != connection_id);
                        } else {
                            assert(s0.projects@[p].guests@.contains_key(g));
                        }
                        assert(s0.connections@.contains_key(g));
                        assert(s0.connections@[g].projects@.contains(p));
                        if g != connection_id {
                            assert(s1.connections@.remove(connection_id)[g]
                                == s0.connections@.remove(connection_id)[g]);
                            assert(s1.connections@[g] == s0.connections@[g]);
                        } else {
                            assert(p != project_id);
                            assert(s1.connections@[g].projects@.contains(p));
                        }
                    }
                }
                assert forall|p: u64| #[trigger] s1.projects@.contains_key(p) implies s1.projects@[p].replicas_ok() by {
                    if p != project_id {
                        assert(s1.projects@.remove(project_id)[p] == s0.projects@.remove(
                            project_id,
                        )[p]);
                        assert(s1.projects@[p] == s0.projects@[p]);
                        assert(s0.projects@.contains_key(p));
                    }
                }
                assert forall|c: u64|
                    #[trigger] s1.connections@.contains_key(c) implies s1.connections@[c].user_id
                    == s0.connections@[c].user_id && s1.connections@[c].channels@
                    =~= s0.connections@[c].channels@ by {
                    assert(s0.connections@.contains_key(c));
                    if c != connection_id {
                        assert(s1.connections@.remove(connection_id)[c] == s0.connections@.remove(
                            connection_id,
                        )[c]);
                        assert(s1.connections@[c] == s0.connections@[c]);
                    }
                }
                lemma_channels_frame(s0, s1);
                lemma_users_frame(s0, s1);
                lemma_rooms_frame(s0, s1);
            }
            assert(s1.wf()) by {
                assert forall|c: u64|
                    s1.connections@.contains_key(c) implies (#[trigger] s1.connections@[c]).wf()
                    by {
                    assert(s0.connections@.contains_key(c));
                    if c != connection_id {
                        assert(s1.connections@.remove(connection_id)[c] == s0.connections@.remove(
                            connection_id,
                        )[c]);
                        assert(s1.connections@[c] == s0.connections@[c]);
                    }
                }
                assert forall|p: u64|
                    s1.projects@.contains_key(p) implies (#[trigger] s1.projects@[p]).wf() by {
                    if p != project_id {
                        assert(s1.projects@.remove(project_id)[p] == s0.projects@.remove(
                            project_id,
                        )[p]);
                        assert(s1.projects@[p] == s0.projects@[p]);
                        assert(s0.projects@.contains_key(p));
                    }
                }
            }
            if s0.paths_ok() {
                assert forall|p: u64, w: u64|
                    s1.projects@.contains_key(p) && (
                    #[trigger] s1.projects@[p].worktrees@.contains_key(w)) implies (
                s0.projects@.contains_key(p) && s0.projects@[p].worktrees@.contains_key(w)
                    && s1.projects@[p].worktrees@[w].entries@
                    == s0.projects@[p].worktrees@[w].entries@)
                    || s1.projects@[p].worktrees@[w].entries@ =~= Map::<u64, Entry>::empty() by {
                    if p != project_id {
                        assert(s1.projects@.remove(project_id)[p] == s0.projects@.remove(
                            project_id,
                        )[p]);
                        assert(s1.projects@[p] == s0.projects@[p]);
                    }
                }
                lemma_paths_frame(s0, s1);
            }
        }
        Ok(left)
    }

    /// Drops `project_id` from the `projects` set of every listed
    /// connection.
    fn remove_project_from_connections(&mut self, project_id: ProjectId, ids: &Vec<u64>)
        requires
            old(self).connections.wf(),
            forall|c: u64|
                old(self).connections@.contains_key(c) ==> (
                #[trigger] old(self).connections@[c]).wf(),
        ensures
            final(self).connections.wf(),
            final(self).connections@.dom() =~= old(self).connections@.dom(),
            forall|c: u64|
                #[trigger] final(self).connections@.contains_key(c) ==> {
                    let c0 = old(self).connections@[c];
                    let c1 = final(self).connections@[c];
                    &&& c1.wf()
                    &&& c1.user_id == c0.user_id
                    &&& c1.admin == c0.admin
                    &&& c1.channels == c0.channels
                    &&& c1.requested_projects == c0.requested_projects
                    &&& c1.projects@ =~= (if ids@.contains(c) {
                        c0.projects@.remove(project_id)
                    } else {
                        c0.projects@
                    })
                },
            final(self).connections_by_user_id == old(self).connections_by_user_id,
            final(self).rooms == old(self).rooms,
            final(self).projects == old(self).projects,
            final(self).channels == old(self).channels,
            final(self).next_room_id == old(self).next_room_id,
    {
        let n = ids.len();
        let mut i: usize = 0;
        while i < n
            invariant
                n == ids@.len(),
                self.connections.wf(),
                self.connections@.dom() =~= old(self).connections@.dom(),
                i <= n,
                forall|c: u64|
                    #[trigger] self.connections@.contains_key(c) ==> {
                        let c0 = old(self).connections@[c];
                        let c1 = self.connections@[c];
                        &&& c1.wf()
                        &&& c1.user_id == c0.user_id
                        &&& c1.admin == c0.admin
                        &&& c1.channels == c0.channels
                        &&& c1.requested_projects == c0.requested_projects
                        &&& c1.projects@ =~= (if ids@.subrange(0, i as int).contains(c) {
                            c0.projects@.remove(project_id)
                        } else {
                            c0.projects@
                        })
                    },
                self.connections_by_user_id == old(self).connections_by_user_id,
                self.rooms == old(self).rooms,
                self.projects == old(self).projects,
                self.channels == old(self).channels,
                self.next_room_id == old(self).next_room_id,
            decreases n - i,
        {
            let target = ids[i];
            let ghost prev = self.connections@;
            match self.connections.remove(target) {
                Some(mut connection) => {
                    connection.projects.remove(project_id);
                    self.connections.insert(target, connection);
                },
                None => {},
            }
            proof {
                assert(self.connections@.dom() =~= prev.dom());
                assert forall|c: u64| #[trigger] self.connections@.contains_key(c) implies {
                    let c0 = old(self).connections@[c];
                    let c1 = self.connections@[c];
                    &&& c1.wf()
                    &&& c1.user_id == c0.user_id
                    &&& c1.admin == c0.admin
                    &&& c1.channels == c0.channels
                    &&& c1.requested_projects == c0.requested_projects
                    &&& c1.projects@ =~= (if ids@.subrange(0, i + 1 as int).contains(c) {
                        c0.projects@.remove(project_id)
                    } else {
                        c0.projects@
                    })
                } by {
                    let pre = ids@.subrange(0, i as int);
                    let pre1 = ids@.subrange(0, i + 1 as int);
                    assert(pre1 =~= pre.push(ids@[i as int]));
                    assert(prev.contains_key(c));
                    if c != target {
                        assert(self.connections@.remove(target)[c] == prev.remove(target)[c]);
                        assert(self.connections@[c] == prev[c]);
                        assert(pre1.contains(c) <==> pre.contains(c)) by {
                            if pre1.contains(c) {
                                let j = choose|j: int| 0 <= j < pre1.len() && pre1[j] == c;
                                assert(j < i);
                                assert(pre[j] == c);
                            }
                            if pre.contains(c) {
                                let j = choose|j: int| 0 <= j < pre.len() && pre[j] == c;
                                assert(pre1[j] == c);
                            }
                        }
                    } else {
                        assert(pre1[i as int] == c);
                        assert(pre1.contains(c));
                        if pre.contains(c) {
                            assert(prev[c].projects@ =~= old(self).connections@[c].projects@.remove(
                                project_id,
                            ));
                        }
                    }
                }
            }
            i = i + 1;
        }
        proof {
            assert(ids@.subrange(0, n as int) =~= ids@);
        }
    }

    /// Drops `project_id` from the `requested_projects` set of every listed
    /// connection.
    fn remove_request_from_connections(&mut self, project_id: ProjectId, ids: &Vec<u64>)
        requires
            old(self).connections.wf(),
            forall|c: u64|
                old(self).connections@.contains_key(c) ==> (
                #[trigger] old(self).connections@[c]).wf(),
        ensures
            final(self).connections.wf(),
            final(self).connections@.dom() =~= old(self).connections@.dom(),
            forall|c: u64|
                #[trigger] final(self).connections@.contains_key(c) ==> {
                    let c0 = old(self).connections@[c];
                    let c1 = final(self).connections@[c];
                    &&& c1.wf()
                    &&& c1.user_id == c0.user_id
                    &&& c1.admin == c0.admin
                    &&& c1.channels == c0.channels
                    &&& c1.projects == c0.projects
                    &&& c1.requested_projects@ =~= (if ids@.contains(c) {
                        c0.requested_projects@.remove(project_id)
                    } else {
                        c0.requested_projects@
                    })
                },
            final(self).connections_by_user_id == old(self).connections_by_user_id,
            final(self).rooms == old(self).rooms,
            final(self).projects == old(self).projects,
            final(self).channels == old(self).channels,
            final(self).next_room_id == old(self).next_room_id,
    {
        let n = ids.len();
        let mut i: usize = 0;
        while i < n
            invariant
                n == ids@.len(),
                self.connections.wf(),
                self.connections@.dom() =~= old(self).connections@.dom(),
                i <= n,
                forall|c: u64|
                    #[trigger] self.connections@.contains_key(c) ==> {
                        let c0 = old(self).connections@[c];
                        let c1 = self.connections@[c];
                        &&& c1.wf()
                        &&& c1.user_id == c0.user_id
                        &&& c1.admin == c0.admin
                        &&& c1.channels == c0.channels
                        &&& c1.projects == c0.projects
                        &&& c1.requested_projects@ =~= (if ids@.subrange(0, i as int).contains(c) {
                            c0.requested_projects@.remove(project_id)
                        } else {
                            c0.requested_projects@
                        })
                    },
                self.connections_by_user_id == old(self).connections_by_user_id,
                self.rooms == old(self).rooms,
                self.projects == old(self).projects,
                self.channels == old(self).channels,
                self.next_room_id == old(self).next_room_id,
            decreases n - i,
        {
            let target = ids[i];
            let ghost prev = self.connections@;
            match self.connections.remove(target) {
                Some(mut connection) => {
                    connection.requested_projects.remove(project_id);
                    self.connections.insert(target, connection);
                },
                None => {},
            }
            proof {
                assert(self.connections@.dom() =~= prev.dom());
                assert forall|c: u64| #[trigger] self.connections@.contains_key(c) implies {
                    let c0 = old(self).connections@[c];
                    let c1 = self.connections@[c];
                    &&& c1.wf()
                    &&& c1.user_id == c0.user_id
                    &&& c1.admin == c0.admin
                    &&& c1.channels == c0.channels
                    &&& c1.projects == c0.projects
                    &&& c1.requested_projects@ =~= (if ids@.subrange(0, i + 1 as int).contains(
                        c,
                    ) {
                        c0.requested_projects@.remove(project_id)
                    } else {
                        c0.requested_projects@
                    })
                } by {
                    let pre = ids@.subrange(0, i as int);
                    let pre1 = ids@.subrange(0, i + 1 as int);
                    assert(pre1 =~= pre.push(ids@[i as int]));
                    assert(prev.contains_key(c));
                    if c != target {
                        assert(self.connections@.remove(target)[c] == prev.remove(target)[c]);
                        assert(self.connections@[c] == prev[c]);
                        assert(pre1.contains(c) <==> pre.contains(c)) by {
                            if pre1.contains(c) {
                                let j = choose|j: int| 0 <= j < pre1.len() && pre1[j] == c;
                                assert(j < i);
                                assert(pre[j] == c);
                            }
                            if pre.contains(c) {
                                let j = choose|j: int| 0 <= j < pre.len() && pre[j] == c;
                                assert(pre1[j] == c);
                            }
                        }
                    } else {
                        assert(pre1[i as int] == c);
                        assert(pre1.contains(c));
                        if pre.contains(c) {
                            assert(prev[c].requested_projects@ =~= old(
                                self,
                            ).connections@[c].requested_projects@.remove(project_id));
                        }
                    }
                }
            }
            i = i + 1;
        }
        proof {
            assert(ids@.subrange(0, n as int) =~= ids@);
        }
    }

    /// Every connection id of every listed user, gathered for a scrub pass.
    fn connections_of_users(&self, users_list: &Vec<u64>) -> (r: Vec<u64>)
        requires
            self.wf(),
        ensures
            forall|c: u64|
                r@.contains(c) <==> exists|j: int|
                    0 <= j < users_list@.len() && self.connections_by_user_id@.contains_key(
                        #[trigger] users_list@[j],
                    ) && self.connections_by_user_id@[users_list@[j]].connection_ids@.contains(
                        c,
                    ),
    {
        let n = users_list.len();
        let mut r: Vec<u64> = Vec::new();
        let mut i: usize = 0;
        while i < n
            invariant
                n == users_list@.len(),
                i <= n,
                self.wf(),
                forall|c: u64|
                    r@.contains(c) <==> exists|j: int|
                        0 <= j < i && self.connections_by_user_id@.contains_key(
                            #[trigger] users_list@[j],
                        ) && self.connections_by_user_id@[users_list@[j]].connection_ids@.contains(
                            c,
                        ),
            decreases n - i,
        {
            let ghost rold = r@;
            match self.connections_by_user_id.get(users_list[i]) {
                Some(state) => {
                    let mut ids = state.connection_ids.to_vec();
                    let ghost idsv = ids@;
                    r.append(&mut ids);
                    proof {
                        let u = users_list@[i as int];
                        let st = self.connections_by_user_id@[u];
                        st.connection_ids.lemma_view();
                        assert forall|c: u64|
                            r@.contains(c) <==> exists|j: int|
                                0 <= j < i + 1 && self.connections_by_user_id@.contains_key(
                                    #[trigger] users_list@[j],
                                )
                                    && self.connections_by_user_id@[users_list@[j]].connection_ids@.contains(
                                    c,
                                ) by {
                            assert(r@ =~= rold + idsv);
                            if r@.contains(c) {
                                let kk = choose|kk: int| 0 <= kk < r@.len() && r@[kk] == c;
                                if kk < rold.len() {
                                    assert(rold[kk] == c);
                                    assert(rold.contains(c));
                                } else {
                                    assert(idsv[kk - rold.len()] == c);
                                    assert(st.connection_ids.seq().contains(c));
                                    assert(st.connection_ids@.contains(c));
                                }
                            }
                            if exists|j: int|
                                0 <= j < i + 1 && self.connections_by_user_id@.contains_key(
                                    #[trigger] users_list@[j],
                                )
                                    && self.connections_by_user_id@[users_list@[j]].connection_ids@.contains(
                                    c,
                                ) {
                                let j = choose|j: int|
                                    0 <= j < i + 1 && self.connections_by_user_id@.contains_key(
                                        #[trigger] users_list@[j],
                                    )
                                        && self.connections_by_user_id@[users_list@[j]].connection_ids@.contains(
                                        c,
                                    );
                                if j < i {
                                    assert(rold.contains(c));
                                    let kk = choose|kk: int|
                                        0 <= kk < rold.len() && rold[kk] == c;
                                    assert(r@[kk] == c);
                                } else {
                                    assert(st.connection_ids.seq().contains(c));
                                    let kk = choose|kk: int|
                                        0 <= kk < idsv.len() && idsv[kk] == c;
                                    assert(r@[rold.len() + kk] == c);
                                }
                            }
                        }
                    }
                },
                None => {
                    proof {
                        assert forall|c: u64|
                            r@.contains(c) <==> exists|j: int|
                                0 <= j < i + 1 && self.connections_by_user_id@.contains_key(
                                    #[trigger] users_list@[j],
                                )
                                    && self.connections_by_user_id@[users_list@[j]].connection_ids@.contains(
                                    c,
                                ) by {
                            if exists|j: int|
                                0 <= j < i + 1 && self.connections_by_user_id@.contains_key(
                                    #[trigger] users_list@[j],
                                )
                                    && self.connections_by_user_id@[users_list@[j]].connection_ids@.contains(
                                    c,
                                ) {
                                let j = choose|j: int|
                                    0 <= j < i + 1 && self.connections_by_user_id@.contains_key(
                                        #[trigger] users_list@[j],
                                    )
                                        && self.connections_by_user_id@[users_list@[j]].connection_ids@.contains(
                                        c,
                                    );
                                assert(j != i);
                            }
                        }
                    }
                },
            }
            i = i + 1;
        }
        r
    }

    /// Unregisters a project: removes its row and scrubs its id from the
    /// host's and every guest's `projects` and from every requester's
    /// `requested_projects`. Returns the removed project so the caller can
    /// notify guests and fail pending requests. Only the host may do this.
    pub fn unregister_project(&mut self, project_id: ProjectId, connection_id: ConnectionId) -> (r:
        Result<Project, StoreError>)
        requires
            old(self).wf(),
            old(self).links_ok(),
        ensures
            final(self).wf(),
            final(self).links_ok(),
            old(self).paths_ok() ==> final(self).paths_ok(),
            r is Ok ==> unregister_project_rel(
                *old(self),
                *final(self),
                project_id,
                connection_id,
            ),
            match r {
                Ok(project) => {
                    let pr0 = old(self).projects@[project_id];
                    &&& old(self).projects@.contains_key(project_id)
                    &&& pr0.host_connection_id == connection_id
                    &&& project == pr0
                    &&& final(self).projects@ =~= old(self).projects@.remove(project_id)
                    &&& final(self).connections@.dom() =~= old(self).connections@.dom()
                    &&& forall|c: u64|
                        #[trigger] final(self).connections@.contains_key(c) ==> {
                            let c0 = old(self).connections@[c];
                            let c1 = final(self).connections@[c];
                            &&& c1.user_id == c0.user_id
                            &&& c1.admin == c0.admin
                            &&& c1.channels == c0.channels
                            &&& c1.projects@ =~= (if c == connection_id
                                || pr0.guests@.contains_key(c) {
                                c0.projects@.remove(project_id)
                            } else {
                                c0.projects@
                            })
                            &&& c1.requested_projects@ =~= (if pr0.join_requests@.contains_key(
                                c0.user_id,
                            ) {
                                c0.requested_projects@.remove(project_id)
                            } else {
                                c0.requested_projects@
                            })
                        }
                    &&& final(self).connections_by_user_id == old(self).connections_by_user_id
                    &&& final(self).rooms == old(self).rooms
                    &&& final(self).channels == old(self).channels
                    &&& final(self).next_room_id == old(self).next_room_id
                },
                Err(e) => e == StoreError::UnknownProject && *final(self) == *old(self) && (!old(
                    self,
                ).projects@.contains_key(project_id) || old(
                    self,
                ).projects@[project_id].host_connection_id != connection_id),
            },
    {
        let host_ok = match self.projects.get(project_id) {
            Some(p) => p.host_connection_id == connection_id,
            None => {
                return Err(StoreError::UnknownProject);
            },
        };
        if !host_ok {
            return Err(StoreError::UnknownProject);
        }
        let ghost s0 = *old(self);
        let ghost pr0 = s0.projects@[project_id];
        let project = self.projects.remove(project_id).unwrap();
        let mut member_ids = project.guest_connection_ids();
        member_ids.push(connection_id);
        let ghost member_seq = member_ids@;
        self.remove_project_from_connections(project_id, &member_ids);
        let ghost mid = *self;
        let requester_users = project.join_requests.keys();
        let requester_ids = self.connections_of_users(&requester_users);
        self.remove_request_from_connections(project_id, &requester_ids);
        proof {
            pr0.guests.lemma_dom();
            let s1 = *self;
            assert(s1.projects@ =~= s0.projects@.remove(project_id));
            assert(s1.connections@.dom() =~= s0.connections@.dom());
            pr0.join_requests.lemma_dom();
            assert forall|c: u64| #[trigger] s1.connections@.contains_key(c) implies {
                let c0 = s0.connections@[c];
                let c1 = s1.connections@[c];
                &&& c1.wf()
                &&& c1.user_id == c0.user_id
                &&& c1.admin == c0.admin
                &&& c1.channels == c0.channels
                &&& c1.projects@ =~= (if c == connection_id || pr0.guests@.contains_key(c) {
                    c0.projects@.remove(project_id)
                } else {
                    c0.projects@
                })
                &&& c1.requested_projects@ =~= (if pr0.join_requests@.contains_key(c0.user_id) {
                    c0.requested_projects@.remove(project_id)
                } else {
                    c0.requested_projects@
                })
            } by {
                let c0 = s0.connections@[c];
                let cm = mid.connections@[c];
                let c1 = s1.connections@[c];
                assert(mid.connections@.contains_key(c));
                assert(s0.connections@.contains_key(c));
                assert(member_seq.contains(c) <==> (c == connection_id
                    || pr0.guests@.contains_key(c))) by {
                    if member_seq.contains(c) {
                        let j = choose|j: int|
                            0 <= j < member_seq.len() && member_seq[j] == c;
                        if j < member_seq.len() - 1 {
                            assert(pr0.guests.key_seq()[j] == c);
                            assert(pr0.guests.key_seq().contains(c));
                        }
                    }
                    if pr0.guests@.contains_key(c) {
                        let j = choose|j: int|
                            0 <= j < pr0.guests.key_seq().len() && pr0.guests.key_seq()[j] == c;
                        assert(member_seq[j] == c);
                    }
                    if c == connection_id {
                        assert(member_seq[member_seq.len() - 1] == c);
                    }
                }
                assert(requester_ids@.contains(c) <==> pr0.join_requests@.contains_key(
                    c0.user_id,
                )) by {
                    if requester_ids@.contains(c) {
                        let j = choose|j: int|
                            0 <= j < requester_users@.len()
                                && mid.connections_by_user_id@.contains_key(
                                #[trigger] requester_users@[j],
                            )
                                && mid.connections_by_user_id@[requester_users@[j]].connection_ids@.contains(
                                c,
                            );
                        let u = requester_users@[j];
                        assert(s0.connections_by_user_id@[u].connection_ids@.contains(c));
                        assert(s0.connections@[c].user_id == u);
                        assert(pr0.join_requests.key_seq().contains(u));
                        assert(pr0.join_requests@.contains_key(u));
                    }
                    if pr0.join_requests@.contains_key(c0.user_id) {
                        assert(pr0.join_requests.key_seq().contains(c0.user_id));
                        let j = choose|j: int|
                            0 <= j < pr0.join_requests.key_seq().len()
                                && pr0.join_requests.key_seq()[j] == c0.user_id;
                        assert(requester_users@[j] == c0.user_id);
                        assert(s0.connections_by_user_id@.contains_key(c0.user_id));
                        assert(s0.connections_by_user_id@[c0.user_id].connection_ids@.contains(
                            c,
                        ));
                        assert(mid.connections_by_user_id@.contains_key(requester_users@[j])
                            && mid.connections_by_user_id@[requester_users@[j]].connection_ids@.contains(
                            c,
                        ));
                    }
                }
            }
            assert forall|c: u64, p: u64|
                s1.connections@.contains_key(c) && (#[trigger] s1.connections@[c].projects@.contains(
                    p,
                )) implies s1.projects@.contains_key(p) && (s1.projects@[p].host_connection_id
                == c || s1.projects@[p].guests@.contains_key(c)) by {
                assert(s0.connections@.contains_key(c));
                assert(s0.connections@[c].projects@.contains(p));
                assert(p != project_id) by {
                    if p == project_id {
                        assert(s0.projects@[p].host_connection_id == connection_id);
                        assert(c == connection_id || pr0.guests@.contains_key(c));
                        assert(!s1.connections@[c].projects@.contains(p));
                    }
                }
                assert(s1.projects@[p] == s0.projects@[p]);
            }
            assert forall|p: u64| #[trigger] s1.projects@.contains_key(p) implies {
                let pr = s1.projects@[p];
                &&& s1.connections@.contains_key(pr.host_connection_id)
                &&& s1.connections@[pr.host_connection_id].projects@.contains(p)
                &&& forall|g: u64|
                    #[trigger] pr.guests@.contains_key(g) ==> s1.connections@.contains_key(g)
                        && s1.connections@[g].projects@.contains(p)
            } by {
                assert(s0.projects@.contains_key(p));
                assert(p != project_id);
                let pr = s1.projects@[p];
                assert(pr == s0.projects@[p]);
                assert(s0.connections@.contains_key(pr.host_connection_id));
                assert(s0.connections@[pr.host_connection_id].projects@.contains(p));
                assert(s1.connections@[pr.host_connection_id].projects@.contains(p));
                assert forall|g: u64| #[trigger] pr.guests@.contains_key(g) implies s1.connections@.contains_key(
                    g,
                ) && s1.connections@[g].projects@.contains(p) by {
                    assert(s0.connections@.contains_key(g));
                    assert(s0.connections@[g].projects@.contains(p));
                }
            }
            assert forall|p: u64| #[trigger] s1.projects@.contains_key(p) implies s1.projects@[p].replicas_ok()
                && s1.projects@[p].wf() by {
                assert(s0.projects@.contains_key(p));
                assert(s1.projects@[p] == s0.projects@[p]);
            }
            assert forall|c: u64|
                #[trigger] s1.connections@.contains_key(c) implies s1.connections@[c].user_id
                == s0.connections@[c].user_id && s1.connections@[c].channels@
                =~= s0.connections@[c].channels@ by {
                assert(s0.connections@.contains_key(c));
            }
            lemma_channels_frame(s0, s1);
            lemma_users_frame(s0, s1);
            lemma_rooms_frame(s0, s1);
            if s0.paths_ok() {
                assert forall|p: u64, w: u64|
                    s1.projects@.contains_key(p) && (
                    #[trigger] s1.projects@[p].worktrees@.contains_key(w)) implies (
                s0.projects@.contains_key(p) && s0.projects@[p].worktrees@.contains_key(w)
                    && s1.projects@[p].worktrees@[w].entries@
                    == s0.projects@[p].worktrees@[w].entries@)
                    || s1.projects@[p].worktrees@[w].entries@ =~= Map::<u64, Entry>::empty() by {
                    assert(s1.projects@[p] == s0.projects@[p]);
                }
                lemma_paths_frame(s0, s1);
            }
        }
        Ok(project)
    }

    /// Reconciles a project's worktrees against new metadata and applies an
    /// online-flag change. A kept worktree keeps all of its data; a new id
    /// gets a fresh worktree; absent ids are dropped. Taking the project
    /// offline displaces every guest and outstanding requester, clears the
    /// shared data, and hands the displaced peers back as an
    /// [`UnsharedProject`]. Only the host may do this.
    #[verifier::rlimit(100)]
    #[verifier::spinoff_prover]
    pub fn update_project(
        &mut self,
        project_id: ProjectId,
        worktrees: &Vec<WorktreeMetadata>,
        online: bool,
        connection_id: ConnectionId,
    ) -> (r: Result<Option<UnsharedProject>, StoreError>)
        requires
            old(self).wf(),
            old(self).links_ok(),
        ensures
            final(self).wf(),
            final(self).links_ok(),
            old(self).paths_ok() ==> final(self).paths_ok(),
            match r {
                Ok(unshared) => {
                    let pr0 = old(self).projects@[project_id];
                    let pr1 = final(self).projects@[project_id];
                    &&& old(self).projects@.contains_key(project_id)
                    &&& pr0.host_connection_id == connection_id
                    &&& final(self).projects@.dom() =~= old(self).projects@.dom()
                    &&& final(self).projects@.remove(project_id) =~= old(self).projects@.remove(
                        project_id,
                    )
                    &&& pr1.host_connection_id == pr0.host_connection_id
                    &&& pr1.host == pr0.host
                    &&& pr1.online == online
                    &&& (unshared is Some <==> (pr0.online && !online))
                    &&& reconciled_worktrees(pr0, pr1, worktrees@, unshared is Some)
                    &&& (match unshared {
                        Some(un) => {
                            &&& un.guests == pr0.guests
                            &&& un.pending_join_requests == pr0.join_requests
                            &&& pr1.guests@ =~= Map::<u64, Collaborator>::empty()
                            &&& pr1.join_requests@ =~= Map::<u64, Vec<Receipt>>::empty()
                            &&& pr1.active_replica_ids@ =~= Set::<u64>::empty()
                            &&& pr1.language_servers@ == Seq::<LanguageServer>::empty()
                            &&& final(self).connections@.dom() =~= old(
                                self,
                            ).connections@.dom()
                            &&& forall|c: u64|
                                #[trigger] final(self).connections@.contains_key(c) ==> {
                                    let c0 = old(self).connections@[c];
                                    let c1 = final(self).connections@[c];
                                    &&& c1.user_id == c0.user_id
                                    &&& c1.admin == c0.admin
                                    &&& c1.channels == c0.channels
                                    &&& c1.projects@ =~= (if pr0.guests@.contains_key(c) && c
                                        != connection_id {
                                        c0.projects@.remove(project_id)
                                    } else {
                                        c0.projects@
                                    })
                                    &&& c1.requested_projects@ =~= (if pr0.join_requests@.contains_key(
                                        c0.user_id,
                                    ) {
                                        c0.requested_projects@.remove(project_id)
                                    } else {
                                        c0.requested_projects@
                                    })
                                }
                        },
                        None => {
                            &&& pr1.guests == pr0.guests
                            &&& pr1.join_requests == pr0.join_requests
                            &&& pr1.active_replica_ids == pr0.active_replica_ids
                            &&& pr1.language_servers == pr0.language_servers
                            &&& final(self).connections == old(self).connections
                        },
                    })
                    &&& final(self).connections_by_user_id == old(self).connections_by_user_id
                    &&& final(self).rooms == old(self).rooms
                    &&& final(self).channels == old(self).channels
                    &&& final(self).next_room_id == old(self).next_room_id
                },
                Err(e) => e == StoreError::UnknownProject && *final(self) == *old(self) && (!old(
                    self,
                ).projects@.contains_key(project_id) || old(
                    self,
                ).projects@[project_id].host_connection_id != connection_id),
            },
    {
        let host_ok = match self.projects.get(project_id) {
            Some(p) => p.host_connection_id == connection_id,
            None => {
                return Err(StoreError::UnknownProject);
            },
        };
        if !host_ok {
            return Err(StoreError::UnknownProject);
        }
        let ghost s0 = *old(self);
        let ghost pr0 = s0.projects@[project_id];
        let mut project = self.projects.remove(project_id).unwrap();
        let mut old_worktrees = project.worktrees;
        project.worktrees = Table::new();
        let n = worktrees.len();
        let mut i: usize = 0;
        while i < n
            invariant
                s0 == *old(self),
                pr0 == s0.projects@[project_id],
                s0.wf(),
                s0.projects@.contains_key(project_id),
                n == worktrees@.len(),
                i <= n,
                old_worktrees.wf(),
                project.worktrees.wf(),
                project.online == pr0.online,
                project.host_connection_id == pr0.host_connection_id,
                project.host == pr0.host,
                project.guests == pr0.guests,
                project.active_replica_ids == pr0.active_replica_ids,
                project.join_requests == pr0.join_requests,
                project.language_servers == pr0.language_servers,
                forall|w: u64|
                    #[trigger] project.worktrees@.contains_key(w) <==> has_meta(
                        worktrees@.subrange(0, i as int),
                        w,
                    ),
                forall|w: u64|
                    #[trigger] old_worktrees@.contains_key(w) ==> pr0.worktrees@.contains_key(w)
                        && old_worktrees@[w] == pr0.worktrees@[w],
                forall|w: u64|
                    #[trigger] project.worktrees@.contains_key(w) ==> project.worktrees@[w].wf()
                        && ((pr0.worktrees@.contains_key(w) && project.worktrees@[w].entries@
                        == pr0.worktrees@[w].entries@) || project.worktrees@[w].entries@ =~= Map::<
                        u64,
                        Entry,
                    >::empty()),
                metas_unique(worktrees@) ==> forall|w: u64|
                    #[trigger] old_worktrees@.contains_key(w) <==> (pr0.worktrees@.contains_key(
                        w,
                    ) && !has_meta(worktrees@.subrange(0, i as int), w)),
                metas_unique(worktrees@) ==> forall|j: int|
                    0 <= j < i ==> {
                        let w = (#[trigger] worktrees@[j]).id;
                        let wt1 = project.worktrees@[w];
                        if pr0.worktrees@.contains_key(w) {
                            wt1 == pr0.worktrees@[w]
                        } else {
                            fresh_worktree_like(wt1, worktrees@[j])
                        }
                    },
            decreases n - i,
        {
            let meta_id = worktrees[i].id;
            let ghost prev_new = project.worktrees@;
            let ghost prev_old = old_worktrees@;
            match old_worktrees.remove(meta_id) {
                Some(w) => {
                    project.worktrees.insert(meta_id, w);
                },
                None => {
                    project.worktrees.insert(
                        meta_id,
                        Worktree {
                            root_name: worktrees[i].root_name.clone(),
                            visible: worktrees[i].visible,
                            entries: Table::new(),
                            diagnostic_summaries: Vec::new(),
                            scan_id: 0,
                            is_complete: false,
                        },
                    );
                },
            }
            proof {
                let pre = worktrees@.subrange(0, i as int);
                let pre1 = worktrees@.subrange(0, i + 1 as int);
                assert(pre1 =~= pre.push(worktrees@[i as int]));
                assert(pr0.wf());
                assert forall|w: u64|
                    #[trigger] project.worktrees@.contains_key(w)
                        implies project.worktrees@[w].wf() && ((pr0.worktrees@.contains_key(w)
                        && project.worktrees@[w].entries@ == pr0.worktrees@[w].entries@)
                        || project.worktrees@[w].entries@ =~= Map::<u64, Entry>::empty()) by {
                    if w != meta_id {
                        assert(project.worktrees@.remove(meta_id)[w] == prev_new.remove(
                            meta_id,
                        )[w]);
                        assert(project.worktrees@[w] == prev_new[w]);
                        assert(prev_new.contains_key(w));
                    } else {
                        if prev_old.contains_key(meta_id) {
                            assert(project.worktrees@[w] == prev_old[meta_id]);
                            assert(pr0.worktrees@.contains_key(w));
                            assert(pr0.worktrees@[w].wf());
                        }
                    }
                }
                assert forall|w: u64|
                    #[trigger] project.worktrees@.contains_key(w) <==> has_meta(pre1, w) by {
                    if w != meta_id {
                        assert(project.worktrees@.contains_key(w) <==> prev_new.contains_key(w));
                        assert(has_meta(pre1, w) <==> has_meta(pre, w)) by {
                            if has_meta(pre1, w) {
                                let j = choose|j: int|
                                    0 <= j < pre1.len() && (#[trigger] pre1[j]).id == w;
                                assert(j < i);
                                assert(pre[j].id == w);
                            }
                            if has_meta(pre, w) {
                                let j = choose|j: int|
                                    0 <= j < pre.len() && (#[trigger] pre[j]).id == w;
                                assert(pre1[j].id == w);
                            }
                        }
                    } else {
                        assert(pre1[i as int].id == w);
                        assert(has_meta(pre1, w));
                    }
                }
                if metas_unique(worktrees@) {
                    assert forall|w: u64|
                        #[trigger] old_worktrees@.contains_key(w) <==> (
                    pr0.worktrees@.contains_key(w) && !has_meta(pre1, w)) by {
                        if w != meta_id {
                            assert(old_worktrees@.contains_key(w) <==> prev_old.contains_key(w));
                            assert(has_meta(pre1, w) <==> has_meta(pre, w)) by {
                                if has_meta(pre1, w) {
                                    let j = choose|j: int|
                                        0 <= j < pre1.len() && (#[trigger] pre1[j]).id == w;
                                    assert(j < i);
                                    assert(pre[j].id == w);
                                }
                                if has_meta(pre, w) {
                                    let j = choose|j: int|
                                        0 <= j < pre.len() && (#[trigger] pre[j]).id == w;
                                    assert(pre1[j].id == w);
                                }
                            }
                        } else {
                            assert(pre1[i as int].id == w);
                        }
                    }
                    assert forall|j: int| 0 <= j < i + 1 implies {
                        let w = (#[trigger] worktrees@[j]).id;
                        let wt1 = project.worktrees@[w];
                        if pr0.worktrees@.contains_key(w) {
                            wt1 == pr0.worktrees@[w]
                        } else {
                            fresh_worktree_like(wt1, worktrees@[j])
                        }
                    } by {
                        let w = worktrees@[j].id;
                        if j < i {
                            assert(w != meta_id) by {
                                assert(worktrees@[j].id != worktrees@[i as int].id);
                            }
                            assert(project.worktrees@[w] == prev_new[w]);
                        } else {
                            assert(!has_meta(pre, w)) by {
                                if has_meta(pre, w) {
                                    let jj = choose|jj: int|
                                        0 <= jj < pre.len() && (#[trigger] pre[jj]).id == w;
                                    assert(worktrees@[jj].id == worktrees@[i as int].id);
                                }
                            }
                            assert(prev_old.contains_key(w) <==> pr0.worktrees@.contains_key(w));
                        }
                    }
                }
            }
            i = i + 1;
        }
        proof {
            assert(worktrees@.subrange(0, n as int) =~= worktrees@);
        }
        if online == project.online {
            self.projects.insert(project_id, project);
            proof {
                let s1 = *self;
                assert(s1.projects@.remove(project_id) =~= s0.projects@.remove(project_id));
                assert(s1.projects@.dom() =~= s0.projects@.dom());
                let pr1 = s1.projects@[project_id];
                reveal(reconciled_worktrees);
                assert(reconciled_worktrees(pr0, pr1, worktrees@, false));
                assert(pr1.wf()) by {
                    assert forall|u: u64|
                        pr1.join_requests@.contains_key(u) implies (
                    #[trigger] pr1.join_requests@[u])@.len() > 0 && distinct_senders(
                        pr1.join_requests@[u]@,
                    ) by {}
                }
                lemma_project_value_frame(s0, s1, project_id);
            }
            return Ok(None);
        }
        project.online = online;
        if online {
            self.projects.insert(project_id, project);
            proof {
                let s1 = *self;
                assert(s1.projects@.remove(project_id) =~= s0.projects@.remove(project_id));
                assert(s1.projects@.dom() =~= s0.projects@.dom());
                let pr1 = s1.projects@[project_id];
                reveal(reconciled_worktrees);
                assert(reconciled_worktrees(pr0, pr1, worktrees@, false));
                assert(pr1.wf()) by {
                    assert forall|u: u64|
                        pr1.join_requests@.contains_key(u) implies (
                    #[trigger] pr1.join_requests@[u])@.len() > 0 && distinct_senders(
                        pr1.join_requests@[u]@,
                    ) by {}
                }
                lemma_project_value_frame(s0, s1, project_id);
            }
            return Ok(None);
        }
        let mut guest_ids_all = project.guest_connection_ids();
        let mut guest_ids: Vec<u64> = Vec::new();
        let gn = guest_ids_all.len();
        let mut gi: usize = 0;
        while gi < gn
            invariant
                gn == guest_ids_all@.len(),
                gi <= gn,
                guest_ids@ == without_user(guest_ids_all@.subrange(0, gi as int), connection_id),
            decreases gn - gi,
        {
            proof {
                assert(guest_ids_all@.subrange(0, gi + 1 as int) =~= guest_ids_all@.subrange(
                    0,
                    gi as int,
                ).push(guest_ids_all@[gi as int]));
                lemma_without_user_push(
                    guest_ids_all@.subrange(0, gi as int),
                    connection_id,
                    guest_ids_all@[gi as int],
                );
            }
            if guest_ids_all[gi] != connection_id {
                guest_ids.push(guest_ids_all[gi]);
            }
            gi = gi + 1;
        }
        proof {
            assert(guest_ids_all@.subrange(0, gn as int) =~= guest_ids_all@);
        }
        let requester_users = project.join_requests.keys();
        let guests = project.guests;
        project.guests = Table::new();
        let join_requests = project.join_requests;
        project.join_requests = Table::new();
        project.active_replica_ids = IdSet::new();
        project.language_servers = Vec::new();
        let ghost pm = project;
        let worktree_ids = project.worktrees.keys();
        let wn = worktree_ids.len();
        let ghost wts0 = project.worktrees@;
        proof {
            project.worktrees.lemma_pairs();
            project.worktrees.lemma_dom();
        }
        let mut wi: usize = 0;
        while wi < wn
            invariant
                wn == worktree_ids@.len(),
                wi <= wn,
                worktree_ids@.no_duplicates(),
                wts0.dom() =~= worktree_ids@.to_set(),
                project.online == pm.online,
                project.host_connection_id == pm.host_connection_id,
                project.host == pm.host,
                project.guests == pm.guests,
                project.active_replica_ids == pm.active_replica_ids,
                project.join_requests == pm.join_requests,
                project.language_servers == pm.language_servers,
                project.worktrees.wf(),
                project.worktrees@.dom() =~= wts0.dom(),
                forall|j: int|
                    0 <= j < wi ==> {
                        let wa = wts0[worktree_ids@[j]];
                        let wb = project.worktrees@[#[trigger] worktree_ids@[j]];
                        &&& wb.root_name@ == wa.root_name@
                        &&& wb.visible == wa.visible
                        &&& wb.scan_id == wa.scan_id
                        &&& wb.is_complete == wa.is_complete
                        &&& wb.entries@ =~= Map::<u64, Entry>::empty()
                        &&& wb.diagnostic_summaries@ == Seq::<DiagnosticSummary>::empty()
                        &&& wb.wf()
                    },
                forall|w: u64|
                    #[trigger] project.worktrees@.contains_key(w) && !worktree_ids@.subrange(
                        0,
                        wi as int,
                    ).contains(w) ==> project.worktrees@[w] == wts0[w],
            decreases wn - wi,
        {
            let wid = worktree_ids[wi];
            let ghost prev_wts = project.worktrees@;
            proof {
                assert(wts0.dom().contains(worktree_ids@[wi as int]));
                assert(!worktree_ids@.subrange(0, wi as int).contains(wid)) by {
                    if worktree_ids@.subrange(0, wi as int).contains(wid) {
                        let j = choose|j: int|
                            0 <= j < wi && worktree_ids@.subrange(0, wi as int)[j] == wid;
                        assert(worktree_ids@[j] == worktree_ids@[wi as int]);
                    }
                }
            }
            let mut worktree = project.worktrees.remove(wid).unwrap();
            worktree.entries = Table::new();
            worktree.diagnostic_summaries = Vec::new();
            project.worktrees.insert(wid, worktree);
            proof {
                assert(project.worktrees@.dom() =~= prev_wts.dom());
                assert forall|j: int| 0 <= j < wi + 1 implies {
                    let wa = wts0[worktree_ids@[j]];
                    let wb = project.worktrees@[#[trigger] worktree_ids@[j]];
                    &&& wb.root_name@ == wa.root_name@
                    &&& wb.visible == wa.visible
                    &&& wb.scan_id == wa.scan_id
                    &&& wb.is_complete == wa.is_complete
                    &&& wb.entries@ =~= Map::<u64, Entry>::empty()
                    &&& wb.diagnostic_summaries@ == Seq::<DiagnosticSummary>::empty()
                    &&& wb.wf()
                } by {
                    if j < wi {
                        assert(worktree_ids@[j] != wid);
                        assert(project.worktrees@.remove(wid)[worktree_ids@[j]]
                            == prev_wts.remove(wid)[worktree_ids@[j]]);
                        assert(project.worktrees@[worktree_ids@[j]]
                            == prev_wts[worktree_ids@[j]]);
                    } else {
                        assert(prev_wts[wid] == wts0[wid]);
                    }
                }
                assert forall|w: u64|
                    #[trigger] project.worktrees@.contains_key(w) && !worktree_ids@.subrange(
                        0,
                        wi + 1 as int,
                    ).contains(w) implies project.worktrees@[w] == wts0[w] by {
                    assert(!worktree_ids@.subrange(0, wi as int).contains(w)) by {
                        if worktree_ids@.subrange(0, wi as int).contains(w) {
                            let j = choose|j: int|
                                0 <= j < wi && worktree_ids@.subrange(0, wi as int)[j] == w;
                            assert(worktree_ids@.subrange(0, wi + 1 as int)[j] == w);
                        }
                    }
                    assert(w != wid) by {
                        assert(worktree_ids@.subrange(0, wi + 1 as int)[wi as int] == wid);
                    }
                    assert(project.worktrees@.remove(wid)[w] == prev_wts.remove(wid)[w]);
                    assert(project.worktrees@[w] == prev_wts[w]);
                }
            }
            wi = wi + 1;
        }
        proof {
            assert forall|w: u64| #[trigger] project.worktrees@.contains_key(w) implies {
                let wa = wts0[w];
                let wb = project.worktrees@[w];
                &&& wb.root_name@ == wa.root_name@
                &&& wb.visible == wa.visible
                &&& wb.scan_id == wa.scan_id
                &&& wb.is_complete == wa.is_complete
                &&& wb.entries@ =~= Map::<u64, Entry>::empty()
                &&& wb.diagnostic_summaries@ == Seq::<DiagnosticSummary>::empty()
                &&& wb.wf()
            } by {
                assert(worktree_ids@.to_set().contains(w));
                let j = choose|j: int| 0 <= j < worktree_ids@.len() && worktree_ids@[j] == w;
            }
        }
        self.projects.insert(project_id, project);
        let ghost mid0 = *self;
        self.remove_project_from_connections(project_id, &guest_ids);
        let ghost mid = *self;
        let requester_ids = self.connections_of_users(&requester_users);
        self.remove_request_from_connections(project_id, &requester_ids);
        let unshared = UnsharedProject { guests, pending_join_requests: join_requests };
        proof {
            let s1 = *self;
            assert(s1.projects@.remove(project_id) =~= s0.projects@.remove(project_id));
            assert(s1.projects@.dom() =~= s0.projects@.dom());
            let pr1 = s1.projects@[project_id];
            reveal(reconciled_worktrees);
            assert(reconciled_worktrees(pr0, pr1, worktrees@, true)) by {
                assert forall|w: u64|
                    #[trigger] pr1.worktrees@.contains_key(w) <==> has_meta(worktrees@, w) by {
                    assert(pr1.worktrees@.contains_key(w) <==> wts0.contains_key(w));
                }
                if metas_unique(worktrees@) {
                    assert forall|i: int| 0 <= i < worktrees@.len() implies {
                        let w = (#[trigger] worktrees@[i]).id;
                        let wt1 = pr1.worktrees@[w];
                        if pr0.worktrees@.contains_key(w) {
                            &&& wt1.root_name@ == pr0.worktrees@[w].root_name@
                            &&& wt1.visible == pr0.worktrees@[w].visible
                            &&& wt1.scan_id == pr0.worktrees@[w].scan_id
                            &&& wt1.is_complete == pr0.worktrees@[w].is_complete
                            &&& wt1.diagnostic_summaries@ == Seq::<DiagnosticSummary>::empty()
                            &&& wt1.entries@ =~= Map::<u64, Entry>::empty()
                        } else {
                            &&& wt1.root_name@ == worktrees@[i].root_name@
                            &&& wt1.visible == worktrees@[i].visible
                            &&& wt1.scan_id == 0
                            &&& !wt1.is_complete
                            &&& wt1.entries@ =~= Map::<u64, Entry>::empty()
                            &&& wt1.diagnostic_summaries@ == Seq::<DiagnosticSummary>::empty()
                        }
                    } by {
                        let w = worktrees@[i].id;
                        assert(has_meta(worktrees@, w));
                        assert(wts0.contains_key(w));
                        assert(pr1.worktrees@.contains_key(w));
                        let wa = wts0[w];
                        let wb = pr1.worktrees@[w];
                        assert(wb.root_name@ == wa.root_name@ && wb.visible == wa.visible
                            && wb.scan_id == wa.scan_id && wb.is_complete == wa.is_complete
                            && wb.entries@ =~= Map::<u64, Entry>::empty()
                            && wb.diagnostic_summaries@ == Seq::<DiagnosticSummary>::empty());
                        if pr0.worktrees@.contains_key(w) {
                            assert(wa == pr0.worktrees@[w]);
                        } else {
                            assert(fresh_worktree_like(wa, worktrees@[i]));
                        }
                    }
                }
            }
            pr0.guests.lemma_dom();
            pr0.join_requests.lemma_dom();
            assert forall|c: u64| #[trigger] s1.connections@.contains_key(c) implies {
                let c0 = s0.connections@[c];
                let c1 = s1.connections@[c];
                &&& c1.wf()
                &&& c1.user_id == c0.user_id
                &&& c1.admin == c0.admin
                &&& c1.channels == c0.channels
                &&& c1.projects@ =~= (if pr0.guests@.contains_key(c) && c != connection_id {
                    c0.projects@.remove(project_id)
                } else {
                    c0.projects@
                })
                &&& c1.requested_projects@ =~= (if pr0.join_requests@.contains_key(c0.user_id) {
                    c0.requested_projects@.remove(project_id)
                } else {
                    c0.requested_projects@
                })
            } by {
                let c0 = s0.connections@[c];
                assert(mid.connections@.contains_key(c));
                assert(mid0.connections@.contains_key(c));
                assert(s0.connections@.contains_key(c));
                assert(guest_ids@.contains(c) <==> (pr0.guests@.contains_key(c) && c
                    != connection_id)) by {
                    if guest_ids@.contains(c) {
                        let j = choose|j: int| 0 <= j < guest_ids@.len() && guest_ids@[j] == c;
                        lemma_without_user_keeps(guest_ids_all@, connection_id, c);
                        assert(pr0.guests.key_seq().contains(c));
                    }
                    if pr0.guests@.contains_key(c) && c != connection_id {
                        assert(pr0.guests.key_seq().contains(c));
                        lemma_without_user(guest_ids_all@, connection_id, c);
                    }
                }
                assert(requester_ids@.contains(c) <==> pr0.join_requests@.contains_key(
                    c0.user_id,
                )) by {
                    if requester_ids@.contains(c) {
                        let j = choose|j: int|
                            0 <= j < requester_users@.len()
                                && mid.connections_by_user_id@.contains_key(
                                #[trigger] requester_users@[j],
                            )
                                && mid.connections_by_user_id@[requester_users@[j]].connection_ids@.contains(
                                c,
                            );
                        let u = requester_users@[j];
                        assert(s0.connections_by_user_id@[u].connection_ids@.contains(c));
                        assert(s0.connections@[c].user_id == u);
                        assert(pr0.join_requests.key_seq().contains(u));
                    }
                    if pr0.join_requests@.contains_key(c0.user_id) {
                        assert(pr0.join_requests.key_seq().contains(c0.user_id));
                        let j = choose|j: int|
                            0 <= j < pr0.join_requests.key_seq().len()
                                && pr0.join_requests.key_seq()[j] == c0.user_id;
                        assert(requester_users@[j] == c0.user_id);
                        assert(s0.connections_by_user_id@.contains_key(c0.user_id));
                        assert(s0.connections_by_user_id@[c0.user_id].connection_ids@.contains(
                            c,
                        ));
                        assert(mid.connections_by_user_id@.contains_key(requester_users@[j])
                            && mid.connections_by_user_id@[requester_users@[j]].connection_ids@.contains(
                            c,
                        ));
                    }
                }
            }
            assert(pr1.wf()) by {
                assert forall|w: u64|
                    pr1.worktrees@.contains_key(w) implies (#[trigger] pr1.worktrees@[w]).wf()
                    by {}
            }
            assert forall|p: u64| #[trigger] s1.projects@.contains_key(p) implies s1.projects@[p].wf()
                && s1.projects@[p].replicas_ok() by {
                if p != project_id {
                    assert(s1.projects@.remove(project_id)[p] == s0.projects@.remove(
                        project_id,
                    )[p]);
                    assert(s1.projects@[p] == s0.projects@[p]);
                    assert(s0.projects@.contains_key(p));
                } else {
                    assert(pr1.guests@.dom() =~= Set::<u64>::empty());
                }
            }
            assert forall|c: u64, p: u64|
                s1.connections@.contains_key(c) && (#[trigger] s1.connections@[c].projects@.contains(
                    p,
                )) implies s1.projects@.contains_key(p) && (s1.projects@[p].host_connection_id
                == c || s1.projects@[p].guests@.contains_key(c)) by {
                assert(s0.connections@.contains_key(c));
                assert(s0.connections@[c].projects@.contains(p));
                if p == project_id {
                    assert(c == connection_id) by {
                        if c != connection_id {
                            assert(s0.projects@[p].host_connection_id == connection_id);
                            assert(pr0.guests@.contains_key(c));
                            assert(!s1.connections@[c].projects@.contains(p));
                        }
                    }
                    assert(pr1.host_connection_id == connection_id);
                } else {
                    assert(s1.projects@.remove(project_id)[p] == s0.projects@.remove(
                        project_id,
                    )[p]);
                    assert(s1.projects@[p] == s0.projects@[p]);
                }
            }
            assert forall|p: u64| #[trigger] s1.projects@.contains_key(p) implies {
                let pr = s1.projects@[p];
                &&& s1.connections@.contains_key(pr.host_connection_id)
                &&& s1.connections@[pr.host_connection_id].projects@.contains(p)
                &&& forall|g: u64|
                    #[trigger] pr.guests@.contains_key(g) ==> s1.connections@.contains_key(g)
                        && s1.connections@[g].projects@.contains(p)
            } by {
                let pr = s1.projects@[p];
                if p != project_id {
                    assert(s1.projects@.remove(project_id)[p] == s0.projects@.remove(
                        project_id,
                    )[p]);
                    assert(s1.projects@[p] == s0.projects@[p]);
                }
                assert(s0.projects@.contains_key(p));
                assert(pr.host_connection_id == s0.projects@[p].host_connection_id);
                assert(s0.connections@.contains_key(pr.host_connection_id));
                assert(s0.connections@[pr.host_connection_id].projects@.contains(p));
                assert(s1.connections@[pr.host_connection_id].projects@.contains(p)) by {
                    if pr0.guests@.contains_key(pr.host_connection_id)
                        && pr.host_connection_id != connection_id {
                        assert(p != project_id);
                    }
                }
                assert forall|g: u64| #[trigger] pr.guests@.contains_key(g) implies s1.connections@.contains_key(
                    g,
                ) && s1.connections@[g].projects@.contains(p) by {
                    if p == project_id {
                        assert(pr1.guests@.dom() =~= Set::<u64>::empty());
                        assert(false);
                    } else {
                        assert(s0.projects@[p].guests@.contains_key(g));
                        assert(s0.connections@.contains_key(g));
                        assert(s0.connections@[g].projects@.contains(p));
                    }
                }
            }
            assert forall|c: u64|
                #[trigger] s1.connections@.contains_key(c) implies s1.connections@[c].user_id
                == s0.connections@[c].user_id && s1.connections@[c].channels@
                =~= s0.connections@[c].channels@ by {
                assert(s0.connections@.contains_key(c));
            }
            lemma_channels_frame(s0, s1);
            lemma_users_frame(s0, s1);
            lemma_rooms_frame(s0, s1);
            if s0.paths_ok() {
                assert forall|p: u64, w: u64|
                    s1.projects@.contains_key(p) && (
                    #[trigger] s1.projects@[p].worktrees@.contains_key(w)) implies (
                s0.projects@.contains_key(p) && s0.projects@[p].worktrees@.contains_key(w)
                    && s1.projects@[p].worktrees@[w].entries@
                    == s0.projects@[p].worktrees@[w].entries@)
                    || s1.projects@[p].worktrees@[w].entries@ =~= Map::<u64, Entry>::empty() by {
                    if p != project_id {
                        assert(s1.projects@.remove(project_id)[p] == s0.projects@.remove(
                            project_id,
                        )[p]);
                        assert(s1.projects@[p] == s0.projects@[p]);
                    }
                }
                lemma_paths_frame(s0, s1);
            }
        }
        Ok(Some(unshared))
    }

    /// Atomically unwinds a connection: leaves all its channels, unregisters
    /// the projects it hosted (returning them), leaves the projects it was a
    /// guest of, withdraws the receipts it sent for projects it had merely
    /// requested, removes it from its user's connection set (dropping the
    /// user row, with any call state, when this was the last connection),
    /// and deletes the connection row. Afterwards nothing in the store
    /// refers to the connection. `contact_ids` is left for the caller to
    /// fill.
    #[verifier::rlimit(100)]
    #[verifier::spinoff_prover]
    pub fn remove_connection(&mut self, connection_id: ConnectionId) -> (r: Result<
        RemovedConnectionState,
        StoreError,
    >)
        requires
            old(self).wf(),
            old(self).links_ok(),
        ensures
            final(self).wf(),
            final(self).links_ok(),
            old(self).paths_ok() ==> final(self).paths_ok(),
            r is Ok ==> remove_connection_rel(*old(self), *final(self), connection_id),
            match r {
                Ok(removed) => {
                    let c0 = old(self).connections@[connection_id];
                    let uid = c0.user_id;
                    &&& old(self).connections@.contains_key(connection_id)
                    &&& removed.user_id == uid
                    &&& removed.contact_ids@ =~= Set::<u64>::empty()
                    &&& forall|p: u64|
                        #[trigger] removed.hosted_projects@.contains_key(p) <==> (
                        c0.projects@.contains(p) && old(self).projects@[p].host_connection_id
                            == connection_id)
                    &&& forall|p: u64|
                        #[trigger] removed.hosted_projects@.contains_key(p)
                            ==> removed.hosted_projects@[p] == old(self).projects@[p]
                    &&& forall|p: u64|
                        #[trigger] removed.guest_project_ids@.contains(p) <==> (
                        c0.projects@.contains(p) && old(self).projects@[p].host_connection_id
                            != connection_id)
                    &&& final(self).connections@.dom() =~= old(self).connections@.dom().remove(
                        connection_id,
                    )
                    &&& forall|c: u64|
                        #[trigger] final(self).connections@.contains_key(c) ==> {
                            let cc0 = old(self).connections@[c];
                            let cc1 = final(self).connections@[c];
                            &&& cc1.user_id == cc0.user_id
                            &&& cc1.admin == cc0.admin
                            &&& cc1.channels == cc0.channels
                        }
                    &&& forall|c: u64, p: u64|
                        final(self).connections@.contains_key(c) ==> ((
                        #[trigger] final(self).connections@[c].projects@.contains(p)) <==> (old(
                            self,
                        ).connections@[c].projects@.contains(p) && !(c0.projects@.contains(p)
                            && old(self).projects@[p].host_connection_id == connection_id && old(
                            self,
                        ).projects@[p].guests@.contains_key(c))))
                    &&& forall|c: u64, p: u64|
                        final(self).connections@.contains_key(c) ==> ((
                        #[trigger] final(self).connections@[c].requested_projects@.contains(p))
                            <==> (old(self).connections@[c].requested_projects@.contains(p) && !(
                        c0.projects@.contains(p) && old(self).projects@[p].host_connection_id
                            == connection_id && old(self).projects@[p].join_requests@.contains_key(
                            old(self).connections@[c].user_id,
                        ))))
                    &&& forall|p: u64|
                        #[trigger] final(self).projects@.contains_key(p) <==> (old(
                            self,
                        ).projects@.contains_key(p) && !(c0.projects@.contains(p) && old(
                            self,
                        ).projects@[p].host_connection_id == connection_id))
                    &&& forall|p: u64|
                        #[trigger] final(self).projects@.contains_key(p) ==> (if c0.projects@.contains(
                            p,
                        ) {
                            left_project_effect(
                                old(self).projects@[p],
                                final(self).projects@[p],
                                connection_id,
                                uid,
                            )
                        } else if c0.requested_projects@.contains(p) {
                            scrubbed_join_requests(
                                old(self).projects@[p],
                                final(self).projects@[p],
                                connection_id,
                            )
                        } else {
                            final(self).projects@[p] == old(self).projects@[p]
                        })
                    &&& forall|ch: u64|
                        #[trigger] final(self).channels@.contains_key(ch) <==> (old(
                            self,
                        ).channels@.contains_key(ch) && !(c0.channels@.contains(ch) && old(
                            self,
                        ).channels@[ch].connection_ids@.remove(connection_id) =~= Set::<
                            u64,
                        >::empty()))
                    &&& forall|ch: u64|
                        #[trigger] final(self).channels@.contains_key(ch) ==> (if c0.channels@.contains(
                            ch,
                        ) {
                            final(self).channels@[ch].connection_ids@ =~= old(
                                self,
                            ).channels@[ch].connection_ids@.remove(connection_id)
                        } else {
                            final(self).channels@[ch] == old(self).channels@[ch]
                        })
                    &&& ({
                        let set0 = old(self).connections_by_user_id@[uid].connection_ids@;
                        if set0.remove(connection_id) =~= Set::<u64>::empty() {
                            final(self).connections_by_user_id@ =~= old(
                                self,
                            ).connections_by_user_id@.remove(uid)
                        } else {
                            &&& final(self).connections_by_user_id@.dom() =~= old(
                                self,
                            ).connections_by_user_id@.dom()
                            &&& final(self).connections_by_user_id@.remove(uid) =~= old(
                                self,
                            ).connections_by_user_id@.remove(uid)
                            &&& final(self).connections_by_user_id@[uid].connection_ids@
                                =~= set0.remove(connection_id)
                            &&& final(self).connections_by_user_id@[uid].room == old(
                                self,
                            ).connections_by_user_id@[uid].room
                        }
                    })
                    &&& final(self).rooms == old(self).rooms
                    &&& final(self).next_room_id == old(self).next_room_id
                },
                Err(e) => e == StoreError::UnknownConnection && !old(
                    self,
                ).connections@.contains_key(connection_id) && *final(self) == *old(self),
            },
    {
        let (user_id, channel_list, project_list, requested_list) = match self.connections.get(
            connection_id,
        ) {
            Some(c) => (
                c.user_id,
                c.channels.to_vec(),
                c.projects.to_vec(),
                c.requested_projects.to_vec(),
            ),
            None => {
                return Err(StoreError::UnknownConnection);
            },
        };
        let ghost s0 = *old(self);
        let ghost c0 = s0.connections@[connection_id];
        proof {
            c0.channels.lemma_view();
            c0.projects.lemma_view();
            c0.requested_projects.lemma_view();
        }
        let cn = channel_list.len();
        let mut i: usize = 0;
        while i < cn
            invariant
                s0 == *old(self),
                c0 == s0.connections@[connection_id],
                s0.wf(),
                s0.links_ok(),
                s0.connections@.contains_key(connection_id),
                channel_list@ == c0.channels.seq(),
                channel_list@.no_duplicates(),
                cn == channel_list@.len(),
                i <= cn,
                self.wf(),
                self.links_ok(),
                self.connections@.dom() =~= s0.connections@.dom(),
                self.connections@.remove(connection_id) =~= s0.connections@.remove(
                    connection_id,
                ),
                self.connections@[connection_id].user_id == c0.user_id,
                self.connections@[connection_id].admin == c0.admin,
                self.connections@[connection_id].projects == c0.projects,
                self.connections@[connection_id].requested_projects == c0.requested_projects,
                self.connections@[connection_id].channels@ =~= c0.channels@.difference(
                    channel_list@.subrange(0, i as int).to_set(),
                ),
                forall|ch: u64|
                    #[trigger] self.channels@.contains_key(ch) <==> (s0.channels@.contains_key(
                        ch,
                    ) && !(channel_list@.subrange(0, i as int).contains(ch)
                        && s0.channels@[ch].connection_ids@.remove(connection_id) =~= Set::<
                        u64,
                    >::empty())),
                forall|ch: u64|
                    #[trigger] self.channels@.contains_key(ch) ==> (if channel_list@.subrange(
                        0,
                        i as int,
                    ).contains(ch) {
                        self.channels@[ch].connection_ids@ =~= s0.channels@[ch].connection_ids@.remove(
                            connection_id,
                        )
                    } else {
                        self.channels@[ch] == s0.channels@[ch]
                    }),
                self.connections_by_user_id == s0.connections_by_user_id,
                self.rooms == s0.rooms,
                self.projects == s0.projects,
                self.next_room_id == s0.next_room_id,
                s0.paths_ok() ==> self.paths_ok(),
            decreases cn - i,
        {
            let ch = channel_list[i];
            let ghost prev = *self;
            self.leave_channel(connection_id, ch);
            proof {
                c0.channels.lemma_view();
                assert(c0.channels.seq()[i as int] == ch);
                assert(c0.channels@.contains(ch));
                let pre = channel_list@.subrange(0, i as int);
                let pre1 = channel_list@.subrange(0, i + 1 as int);
                assert(pre1 =~= pre.push(channel_list@[i as int]));
                assert(!pre.contains(ch)) by {
                    if pre.contains(ch) {
                        let j = choose|j: int| 0 <= j < pre.len() && pre[j] == ch;
                        assert(channel_list@[j] == channel_list@[i as int]);
                    }
                }
                assert(self.connections@.remove(connection_id) =~= s0.connections@.remove(
                    connection_id,
                ));
                assert(self.connections@[connection_id].channels@ =~= c0.channels@.difference(
                    pre1.to_set(),
                )) by {
                    assert(self.connections@[connection_id].channels@
                        =~= prev.connections@[connection_id].channels@.remove(ch));
                    assert forall|x: u64|
                        pre1.to_set().contains(x) <==> pre.to_set().contains(x) || x == ch by {
                        if pre1.contains(x) {
                            let j = choose|j: int| 0 <= j < pre1.len() && pre1[j] == x;
                            if j < i {
                                assert(pre[j] == x);
                            }
                        }
                        if pre.contains(x) {
                            let j = choose|j: int| 0 <= j < pre.len() && pre[j] == x;
                            assert(pre1[j] == x);
                        }
                        assert(pre1[i as int] == ch);
                    }
                }
                assert forall|ch2: u64|
                    #[trigger] self.channels@.contains_key(ch2) <==> (s0.channels@.contains_key(
                        ch2,
                    ) && !(pre1.contains(ch2) && s0.channels@[ch2].connection_ids@.remove(
                        connection_id,
                    ) =~= Set::<u64>::empty())) by {
                    assert(pre1.contains(ch2) <==> pre.contains(ch2) || ch2 == ch) by {
                        if pre1.contains(ch2) {
                            let j = choose|j: int| 0 <= j < pre1.len() && pre1[j] == ch2;
                            if j < i {
                                assert(pre[j] == ch2);
                            }
                        }
                        if pre.contains(ch2) {
                            let j = choose|j: int| 0 <= j < pre.len() && pre[j] == ch2;
                            assert(pre1[j] == ch2);
                        }
                        assert(pre1[i as int] == ch);
                    }
                    if ch2 == ch {
                        assert(prev.connections@[connection_id].channels@.contains(ch)) by {
                            assert(!pre.to_set().contains(ch));
                        }
                        if prev.channels@.contains_key(ch) {
                            assert(prev.channels@[ch] == s0.channels@[ch]);
                        }
                    } else {
                        if self.channels@.contains_key(ch2) {
                            assert(self.channels@.remove(ch)[ch2] == prev.channels@.remove(
                                ch,
                            )[ch2]);
                        }
                        if prev.channels@.contains_key(ch2) {
                            assert(self.channels@.remove(ch)[ch2] == prev.channels@.remove(
                                ch,
                            )[ch2]);
                        }
                    }
                }
                assert forall|ch2: u64|
                    #[trigger] self.channels@.contains_key(ch2) implies (if pre1.contains(ch2) {
                    self.channels@[ch2].connection_ids@ =~= s0.channels@[ch2].connection_ids@.remove(
                        connection_id,
                    )
                } else {
                    self.channels@[ch2] == s0.channels@[ch2]
                }) by {
                    assert(pre1.contains(ch2) <==> pre.contains(ch2) || ch2 == ch) by {
                        if pre1.contains(ch2) {
                            let j = choose|j: int| 0 <= j < pre1.len() && pre1[j] == ch2;
                            if j < i {
                                assert(pre[j] == ch2);
                            }
                        }
                        if pre.contains(ch2) {
                            let j = choose|j: int| 0 <= j < pre.len() && pre[j] == ch2;
                            assert(pre1[j] == ch2);
                        }
                        assert(pre1[i as int] == ch);
                    }
                    if ch2 != ch {
                        assert(self.channels@.remove(ch)[ch2] == prev.channels@.remove(
                            ch,
                        )[ch2]);
                        assert(prev.channels@.contains_key(ch2));
                        assert(self.channels@[ch2] == prev.channels@[ch2]);
                    } else {
                        assert(prev.channels@.contains_key(ch) ==> prev.channels@[ch]
                            == s0.channels@[ch]);
                    }
                }
            }
            i = i + 1;
        }
        proof {
            assert(channel_list@.subrange(0, cn as int) =~= channel_list@);
        }
        let mut removed = RemovedConnectionState {
            user_id,
            hosted_projects: Table::new(),
            guest_project_ids: IdSet::new(),
            contact_ids: IdSet::new(),
        };
        proof {
            c0.channels.lemma_view();
            c0.projects.lemma_view();
            assert(self.connections@[connection_id].channels@ =~= Set::<u64>::empty()) by {
                assert forall|x: u64|
                    !self.connections@[connection_id].channels@.contains(x) by {
                    if c0.channels@.contains(x) {
                        assert(channel_list@.to_set().contains(x));
                    }
                }
            }
            assert forall|c: u64|
                #[trigger] self.connections@.contains_key(c) && c != connection_id implies {
                let cc0 = s0.connections@[c];
                let cc1 = self.connections@[c];
                &&& cc1.user_id == cc0.user_id
                &&& cc1.admin == cc0.admin
                &&& cc1.channels == cc0.channels
            } by {
                assert(self.connections@.remove(connection_id)[c] == s0.connections@.remove(
                    connection_id,
                )[c]);
                assert(self.connections@[c] == s0.connections@[c]);
            }
            assert forall|c: u64, p2: u64|
                self.connections@.contains_key(c) && c != connection_id implies ((
            #[trigger] self.connections@[c].projects@.contains(p2)) <==> (
            s0.connections@[c].projects@.contains(p2) && !(project_list@.subrange(0, 0).contains(
                p2,
            ) && s0.projects@[p2].host_connection_id == connection_id
                && s0.projects@[p2].guests@.contains_key(c)))) by {
                assert(self.connections@.remove(connection_id)[c] == s0.connections@.remove(
                    connection_id,
                )[c]);
                assert(self.connections@[c] == s0.connections@[c]);
            }
            assert forall|c: u64, p2: u64|
                self.connections@.contains_key(c) && c != connection_id implies ((
            #[trigger] self.connections@[c].requested_projects@.contains(p2)) <==> (
            s0.connections@[c].requested_projects@.contains(p2) && !(project_list@.subrange(
                0,
                0,
            ).contains(p2) && s0.projects@[p2].host_connection_id == connection_id
                && s0.projects@[p2].join_requests@.contains_key(s0.connections@[c].user_id))))
                by {
                assert(self.connections@.remove(connection_id)[c] == s0.connections@.remove(
                    connection_id,
                )[c]);
                assert(self.connections@[c] == s0.connections@[c]);
            }
            assert forall|p2: u64|
                #[trigger] self.connections@[connection_id].projects@.contains(p2) <==> (
            c0.projects@.contains(p2) && !project_list@.subrange(0, 0).contains(p2)) by {
                assert(self.connections@[connection_id].projects == c0.projects);
            }
            assert forall|p2: u64|
                #[trigger] self.projects@.contains_key(p2) <==> (s0.projects@.contains_key(p2)
                    && !(project_list@.subrange(0, 0).contains(p2)
                    && s0.projects@[p2].host_connection_id == connection_id)) by {}
        }
        let pn = project_list.len();
        let mut k: usize = 0;
        while k < pn
            invariant
                s0 == *old(self),
                c0 == s0.connections@[connection_id],
                s0.wf(),
                s0.links_ok(),
                s0.connections@.contains_key(connection_id),
                project_list@ == c0.projects.seq(),
                project_list@.no_duplicates(),
                pn == project_list@.len(),
                k <= pn,
                removed.user_id == c0.user_id,
                removed.hosted_projects.wf(),
                removed.guest_project_ids.wf(),
                removed.contact_ids@ =~= Set::<u64>::empty(),
                forall|p: u64|
                    #[trigger] removed.hosted_projects@.contains_key(p) <==> (
                    project_list@.subrange(0, k as int).contains(p)
                        && s0.projects@[p].host_connection_id == connection_id),
                forall|p: u64|
                    #[trigger] removed.hosted_projects@.contains_key(p)
                        ==> removed.hosted_projects@[p] == s0.projects@[p],
                forall|p: u64|
                    #[trigger] removed.guest_project_ids@.contains(p) <==> (
                    project_list@.subrange(0, k as int).contains(p)
                        && s0.projects@[p].host_connection_id != connection_id),
                self.wf(),
                self.links_ok(),
                self.connections@.dom() =~= s0.connections@.dom(),
                forall|c: u64|
                    #[trigger] self.connections@.contains_key(c) && c != connection_id ==> {
                        let cc0 = s0.connections@[c];
                        let cc1 = self.connections@[c];
                        &&& cc1.user_id == cc0.user_id
                        &&& cc1.admin == cc0.admin
                        &&& cc1.channels == cc0.channels
                    },
                forall|c: u64, p: u64|
                    self.connections@.contains_key(c) && c != connection_id ==> ((
                    #[trigger] self.connections@[c].projects@.contains(p)) <==> (
                    s0.connections@[c].projects@.contains(p) && !(project_list@.subrange(
                        0,
                        k as int,
                    ).contains(p) && s0.projects@[p].host_connection_id == connection_id
                        && s0.projects@[p].guests@.contains_key(c)))),
                forall|c: u64, p: u64|
                    self.connections@.contains_key(c) && c != connection_id ==> ((
                    #[trigger] self.connections@[c].requested_projects@.contains(p)) <==> (
                    s0.connections@[c].requested_projects@.contains(p) && !(
                    project_list@.subrange(0, k as int).contains(p)
                        && s0.projects@[p].host_connection_id == connection_id
                        && s0.projects@[p].join_requests@.contains_key(
                        s0.connections@[c].user_id,
                    )))),
                self.connections@[connection_id].user_id == c0.user_id,
                self.connections@[connection_id].channels@ =~= Set::<u64>::empty(),
                forall|p: u64|
                    #[trigger] self.connections@[connection_id].projects@.contains(p) <==> (
                    c0.projects@.contains(p) && !project_list@.subrange(0, k as int).contains(
                        p,
                    )),
                forall|p: u64|
                    #[trigger] self.projects@.contains_key(p) <==> (s0.projects@.contains_key(p)
                        && !(project_list@.subrange(0, k as int).contains(p)
                        && s0.projects@[p].host_connection_id == connection_id)),
                forall|p: u64|
                    #[trigger] self.projects@.contains_key(p) ==> (if project_list@.subrange(
                        0,
                        k as int,
                    ).contains(p) {
                        left_project_effect(s0.projects@[p], self.projects@[p], connection_id, c0.user_id)
                    } else {
                        self.projects@[p] == s0.projects@[p]
                    }),
                forall|ch: u64|
                    #[trigger] self.channels@.contains_key(ch) <==> (s0.channels@.contains_key(
                        ch,
                    ) && !(c0.channels@.contains(ch) && s0.channels@[ch].connection_ids@.remove(
                        connection_id,
                    ) =~= Set::<u64>::empty())),
                forall|ch: u64|
                    #[trigger] self.channels@.contains_key(ch) ==> (if c0.channels@.contains(
                        ch,
                    ) {
                        self.channels@[ch].connection_ids@ =~= s0.channels@[ch].connection_ids@.remove(
                            connection_id,
                        )
                    } else {
                        self.channels@[ch] == s0.channels@[ch]
                    }),
                self.connections_by_user_id == s0.connections_by_user_id,
                self.rooms == s0.rooms,
                self.next_room_id == s0.next_room_id,
                s0.paths_ok() ==> self.paths_ok(),
            decreases pn - k,
        {
            let p = project_list[k];
            let ghost prev = *self;
            let ghost pre = project_list@.subrange(0, k as int);
            let ghost pre1 = project_list@.subrange(0, k + 1 as int);
            proof {
                c0.projects.lemma_view();
                assert(pre1 =~= pre.push(project_list@[k as int]));
                assert(!pre.contains(p)) by {
                    if pre.contains(p) {
                        let j = choose|j: int| 0 <= j < pre.len() && pre[j] == p;
                        assert(project_list@[j] == project_list@[k as int]);
                    }
                }
                assert(c0.projects.seq()[k as int] == p);
                assert(c0.projects@.contains(p));
                assert(self.connections@[connection_id].projects@.contains(p));
                assert(self.connections@.contains_key(connection_id));
                assert(self.connections@[connection_id].projects@.contains(p) <==> (
                c0.projects@.contains(p) && !pre.contains(p)));
                assert(self.projects@.contains_key(p));
                assert(self.projects@[p] == s0.projects@[p]);
            }
            let is_host = match self.projects.get(p) {
                Some(pr) => pr.host_connection_id == connection_id,
                None => false,
            };
            if is_host {
                let project = match self.unregister_project(p, connection_id) {
                    Ok(project) => project,
                    Err(_) => {
                        proof {
                            assert(false);
                        }
                        return Err(StoreError::UnknownConnection);
                    },
                };
                removed.hosted_projects.insert(p, project);
            } else {
                match self.leave_project(connection_id, p) {
                    Ok(_) => {},
                    Err(_) => {
                        proof {
                            assert(false);
                        }
                        return Err(StoreError::UnknownConnection);
                    },
                }
                removed.guest_project_ids.insert(p);
            }
            proof {
                let uid = c0.user_id;
                assert forall|x: u64| pre1.contains(x) <==> pre.contains(x) || x == p by {
                    if pre1.contains(x) {
                        let j = choose|j: int| 0 <= j < pre1.len() && pre1[j] == x;
                        if j < k {
                            assert(pre[j] == x);
                        }
                    }
                    if pre.contains(x) {
                        let j = choose|j: int| 0 <= j < pre.len() && pre[j] == x;
                        assert(pre1[j] == x);
                    }
                    assert(pre1[k as int] == p);
                }
                assert(self.connections@.dom() =~= s0.connections@.dom());
                assert forall|c: u64|
                    #[trigger] self.connections@.contains_key(c) && c != connection_id implies {
                    let cc0 = s0.connections@[c];
                    let cc1 = self.connections@[c];
                    &&& cc1.user_id == cc0.user_id
                    &&& cc1.admin == cc0.admin
                    &&& cc1.channels == cc0.channels
                } by {
                    assert(prev.connections@.contains_key(c));
                    if !is_host {
                        assert(self.connections@.remove(connection_id)[c]
                            == prev.connections@.remove(connection_id)[c]);
                        assert(self.connections@[c] == prev.connections@[c]);
                    }
                }
                assert forall|c: u64, p2: u64|
                    self.connections@.contains_key(c) && c != connection_id implies ((
                #[trigger] self.connections@[c].projects@.contains(p2)) <==> (
                s0.connections@[c].projects@.contains(p2) && !(pre1.contains(p2)
                    && s0.projects@[p2].host_connection_id == connection_id
                    && s0.projects@[p2].guests@.contains_key(c)))) by {
                    assert(prev.connections@.contains_key(c));
                    let ccp = prev.connections@[c];
                    if is_host {
                        assert(prev.projects@[p] == s0.projects@[p]);
                        assert(self.connections@[c].projects@ =~= (if s0.projects@[p].guests@.contains_key(
                            c,
                        ) {
                            ccp.projects@.remove(p)
                        } else {
                            ccp.projects@
                        }));
                        if p2 == p {
                            assert(s0.projects@[p].host_connection_id == connection_id);
                        }
                    } else {
                        assert(self.connections@.remove(connection_id)[c]
                            == prev.connections@.remove(connection_id)[c]);
                        assert(self.connections@[c] == ccp);
                        if p2 == p {
                            assert(s0.projects@[p].host_connection_id != connection_id);
                        }
                    }
                }
                assert forall|c: u64, p2: u64|
                    self.connections@.contains_key(c) && c != connection_id implies ((
                #[trigger] self.connections@[c].requested_projects@.contains(p2)) <==> (
                s0.connections@[c].requested_projects@.contains(p2) && !(pre1.contains(p2)
                    && s0.projects@[p2].host_connection_id == connection_id
                    && s0.projects@[p2].join_requests@.contains_key(
                    s0.connections@[c].user_id,
                )))) by {
                    assert(prev.connections@.contains_key(c));
                    let ccp = prev.connections@[c];
                    if is_host {
                        assert(prev.projects@[p] == s0.projects@[p]);
                        assert(self.connections@[c].requested_projects@ =~= (if s0.projects@[p].join_requests@.contains_key(
                            s0.connections@[c].user_id,
                        ) {
                            ccp.requested_projects@.remove(p)
                        } else {
                            ccp.requested_projects@
                        })) by {
                            assert(prev.connections@[c].user_id == s0.connections@[c].user_id);
                        }
                        if p2 == p {
                            assert(s0.projects@[p].host_connection_id == connection_id);
                        }
                    } else {
                        assert(self.connections@.remove(connection_id)[c]
                            == prev.connections@.remove(connection_id)[c]);
                        assert(self.connections@[c] == ccp);
                        if p2 == p {
                            assert(s0.projects@[p].host_connection_id != connection_id);
                        }
                    }
                }
                assert forall|p2: u64|
                    #[trigger] self.connections@[connection_id].projects@.contains(p2) <==> (
                c0.projects@.contains(p2) && !pre1.contains(p2)) by {
                    let ccp = prev.connections@[connection_id];
                    if is_host {
                        assert(prev.projects@[p] == s0.projects@[p]);
                        assert(self.connections@[connection_id].projects@ =~= ccp.projects@.remove(
                            p,
                        ));
                    } else {
                        assert(self.connections@[connection_id].projects@ =~= ccp.projects@.remove(
                            p,
                        ));
                    }
                }
                assert forall|p2: u64|
                    #[trigger] self.projects@.contains_key(p2) <==> (s0.projects@.contains_key(
                        p2,
                    ) && !(pre1.contains(p2) && s0.projects@[p2].host_connection_id
                        == connection_id)) by {
                    if is_host {
                        assert(self.projects@ =~= prev.projects@.remove(p));
                        if p2 == p {
                            assert(s0.projects@[p].host_connection_id == connection_id);
                        }
                    } else {
                        assert(self.projects@.dom() =~= prev.projects@.dom());
                        if p2 == p {
                            assert(s0.projects@[p].host_connection_id != connection_id);
                        }
                    }
                }
                assert forall|pp: u64|
                    #[trigger] self.projects@.contains_key(pp) implies (if pre1.contains(pp) {
                    left_project_effect(s0.projects@[pp], self.projects@[pp], connection_id, uid)
                } else {
                    self.projects@[pp] == s0.projects@[pp]
                }) by {
                    if pp == p {
                        assert(!is_host);
                        assert(prev.projects@[p] == s0.projects@[p]);
                    } else {
                        assert(prev.projects@.contains_key(pp));
                        if is_host {
                            assert(self.projects@[pp] == prev.projects@[pp]);
                        } else {
                            assert(self.projects@.remove(p)[pp] == prev.projects@.remove(p)[pp]);
                            assert(self.projects@[pp] == prev.projects@[pp]);
                        }
                    }
                }
                assert(self.channels == prev.channels);
                assert forall|pp: u64|
                    #[trigger] removed.hosted_projects@.contains_key(pp) <==> (pre1.contains(pp)
                        && s0.projects@[pp].host_connection_id == connection_id) by {
                    if pp == p {
                        if is_host {
                            assert(removed.hosted_projects@.contains_key(p));
                        } else {
                            assert(s0.projects@[p].host_connection_id != connection_id);
                        }
                    }
                }
                assert forall|pp: u64|
                    #[trigger] removed.hosted_projects@.contains_key(pp)
                        implies removed.hosted_projects@[pp] == s0.projects@[pp] by {
                    if pp == p {
                        assert(is_host);
                        assert(prev.projects@[p] == s0.projects@[p]);
                    }
                }
                assert forall|pp: u64|
                    #[trigger] removed.guest_project_ids@.contains(pp) <==> (pre1.contains(pp)
                        && s0.projects@[pp].host_connection_id != connection_id) by {
                    if pp == p {
                        if !is_host {
                            assert(removed.guest_project_ids@.contains(p));
                        }
                    }
                }
            }
            k = k + 1;
        }
        proof {
            assert(project_list@.subrange(0, pn as int) =~= project_list@);
        }
        let ghost smid = *self;
        let rn = requested_list.len();
        let mut q: usize = 0;
        while q < rn
            invariant
                s0 == *old(self),
                c0 == s0.connections@[connection_id],
                s0.wf(),
                s0.links_ok(),
                s0.connections@.contains_key(connection_id),
                project_list@ == c0.projects.seq(),
                requested_list@ == c0.requested_projects.seq(),
                requested_list@.no_duplicates(),
                rn == requested_list@.len(),
                q <= rn,
                self.wf(),
                self.links_ok(),
                s0.paths_ok() ==> self.paths_ok(),
                self.connections == smid.connections,
                self.connections_by_user_id == smid.connections_by_user_id,
                self.rooms == smid.rooms,
                self.channels == smid.channels,
                self.next_room_id == smid.next_room_id,
                self.projects@.dom() =~= smid.projects@.dom(),
                forall|p: u64|
                    #[trigger] self.projects@.contains_key(p) <==> (s0.projects@.contains_key(p)
                        && !(project_list@.contains(p)
                        && s0.projects@[p].host_connection_id == connection_id)),
                forall|p: u64|
                    #[trigger] self.projects@.contains_key(p) ==> (if project_list@.contains(p) {
                        left_project_effect(
                            s0.projects@[p],
                            self.projects@[p],
                            connection_id,
                            c0.user_id,
                        )
                    } else if requested_list@.subrange(0, q as int).contains(p) {
                        scrubbed_join_requests(s0.projects@[p], self.projects@[p], connection_id)
                    } else {
                        self.projects@[p] == s0.projects@[p]
                    }),
            decreases rn - q,
        {
            let p = requested_list[q];
            let ghost prev = *self;
            let ghost pre = requested_list@.subrange(0, q as int);
            let ghost pre1 = requested_list@.subrange(0, q + 1 as int);
            proof {
                assert(pre1 =~= pre.push(requested_list@[q as int]));
                assert(!pre.contains(p)) by {
                    if pre.contains(p) {
                        let j = choose|j: int| 0 <= j < pre.len() && pre[j] == p;
                        assert(requested_list@[j] == requested_list@[q as int]);
                    }
                }
                assert forall|p2: u64| pre1.contains(p2) <==> pre.contains(p2) || p2 == p by {
                    if pre1.contains(p2) {
                        let j = choose|j: int| 0 <= j < pre1.len() && pre1[j] == p2;
                        if j < q {
                            assert(pre[j] == p2);
                        }
                    }
                    if pre.contains(p2) {
                        let j = choose|j: int| 0 <= j < pre.len() && pre[j] == p2;
                        assert(pre1[j] == p2);
                    }
                    assert(pre1[q as int] == p);
                }
            }
            let already_left = contains_id(&project_list, p);
            if !already_left {
                match self.projects.remove(p) {
                    Some(mut project) => {
                        proof {
                            assert(prev.projects@.contains_key(p));
                            assert(prev.projects@[p].wf());
                            assert(prev.projects@[p] == s0.projects@[p]);
                        }
                        scrub_project_receipts(&mut project, connection_id);
                        self.projects.insert(p, project);
                        proof {
                            assert(self.projects@.remove(p) =~= prev.projects@.remove(p));
                            assert(self.projects@.dom() =~= prev.projects@.dom());
                            assert(scrubbed_join_requests(
                                s0.projects@[p],
                                self.projects@[p],
                                connection_id,
                            ));
                            assert(self.projects@[p].wf());
                            lemma_project_value_frame(prev, *self, p);
                            assert forall|p2: u64|
                                #[trigger] self.projects@.contains_key(p2) implies (if
                            project_list@.contains(p2) {
                                left_project_effect(
                                    s0.projects@[p2],
                                    self.projects@[p2],
                                    connection_id,
                                    c0.user_id,
                                )
                            } else if pre1.contains(p2) {
                                scrubbed_join_requests(
                                    s0.projects@[p2],
                                    self.projects@[p2],
                                    connection_id,
                                )
                            } else {
                                self.projects@[p2] == s0.projects@[p2]
                            }) by {
                                if p2 != p {
                                    assert(self.projects@.remove(p)[p2] == prev.projects@.remove(
                                        p,
                                    )[p2]);
                                    assert(self.projects@[p2] == prev.projects@[p2]);
                                }
                            }
                        }
                    },
                    None => {
                        proof {
                            assert forall|p2: u64|
                                #[trigger] self.projects@.contains_key(p2) implies (if
                            project_list@.contains(p2) {
                                left_project_effect(
                                    s0.projects@[p2],
                                    self.projects@[p2],
                                    connection_id,
                                    c0.user_id,
                                )
                            } else if pre1.contains(p2) {
                                scrubbed_join_requests(
                                    s0.projects@[p2],
                                    self.projects@[p2],
                                    connection_id,
                                )
                            } else {
                                self.projects@[p2] == s0.projects@[p2]
                            }) by {
                                assert(p2 != p);
                            }
                        }
                    },
                }
            } else {
                proof {
                    assert forall|p2: u64|
                        #[trigger] self.projects@.contains_key(p2) implies (if
                    project_list@.contains(p2) {
                        left_project_effect(
                            s0.projects@[p2],
                            self.projects@[p2],
                            connection_id,
                            c0.user_id,
                        )
                    } else if pre1.contains(p2) {
                        scrubbed_join_requests(
                            s0.projects@[p2],
                            self.projects@[p2],
                            connection_id,
                        )
                    } else {
                        self.projects@[p2] == s0.projects@[p2]
                    }) by {
                        if p2 == p {
                            assert(project_list@.contains(p));
                        }
                    }
                }
            }
            q = q + 1;
        }
        proof {
            assert(requested_list@.subrange(0, rn as int) =~= requested_list@);
            c0.projects.lemma_view();
            c0.requested_projects.lemma_view();
        }
        let last_one = match self.connections_by_user_id.get(user_id) {
            Some(state) => state.connection_ids.len() <= 1,
            None => {
                proof {
                    assert(false);
                }
                false
            },
        };
        if last_one {
            let _ = self.connections_by_user_id.remove(user_id);
        } else {
            let mut state = self.connections_by_user_id.remove(user_id).unwrap();
            state.connection_ids.remove(connection_id);
            self.connections_by_user_id.insert(user_id, state);
        }
        let _ = self.connections.remove(connection_id);
        proof {
            let s1 = *self;
            let uid = c0.user_id;
            let set0 = s0.connections_by_user_id@[uid].connection_ids@;
            assert(s0.connections_by_user_id@.contains_key(uid));
            assert(set0.contains(connection_id));
            s0.connections_by_user_id@[uid].connection_ids.lemma_view();
            if last_one {
                assert(set0.remove(connection_id) =~= Set::<u64>::empty()) by {
                    if exists|x: u64| set0.remove(connection_id).contains(x) {
                        let x = choose|x: u64| set0.remove(connection_id).contains(x);
                        let st = s0.connections_by_user_id@[uid].connection_ids;
                        assert(st.seq().contains(x) && st.seq().contains(connection_id));
                        let a = choose|a: int| 0 <= a < st.seq().len() && st.seq()[a] == x;
                        let b = choose|b: int|
                            0 <= b < st.seq().len() && st.seq()[b] == connection_id;
                        assert(a != b);
                        assert(st.seq().len() >= 2);
                    }
                }
                assert(s1.connections_by_user_id@ =~= s0.connections_by_user_id@.remove(uid));
            } else {
                assert(!(set0.remove(connection_id) =~= Set::<u64>::empty())) by {
                    let st = s0.connections_by_user_id@[uid].connection_ids;
                    assert(st.seq().len() >= 2);
                    let b = choose|b: int|
                        0 <= b < st.seq().len() && st.seq()[b] == connection_id;
                    let other: int = if b == 0 {
                        1
                    } else {
                        0
                    };
                    assert(st.seq()[other] != connection_id);
                    assert(st@.contains(st.seq()[other]));
                    assert(set0.remove(connection_id).contains(st.seq()[other]));
                }
            }
            assert(s1.connections@.dom() =~= s0.connections@.dom().remove(connection_id));
            assert forall|p: u64|
                #[trigger] s1.projects@.contains_key(p) implies (if c0.projects@.contains(p) {
                left_project_effect(s0.projects@[p], s1.projects@[p], connection_id, uid)
            } else if c0.requested_projects@.contains(p) {
                scrubbed_join_requests(s0.projects@[p], s1.projects@[p], connection_id)
            } else {
                s1.projects@[p] == s0.projects@[p]
            }) by {
                c0.projects.lemma_view();
                c0.requested_projects.lemma_view();
            }
            assert forall|c: u64, p: u64|
                s1.connections@.contains_key(c) && (#[trigger] s1.connections@[c].projects@.contains(
                    p,
                )) implies s1.projects@.contains_key(p) && (s1.projects@[p].host_connection_id
                == c || s1.projects@[p].guests@.contains_key(c)) by {
                assert(c != connection_id);
            }
            assert forall|p: u64| #[trigger] s1.projects@.contains_key(p) implies {
                let pr = s1.projects@[p];
                &&& s1.connections@.contains_key(pr.host_connection_id)
                &&& s1.connections@[pr.host_connection_id].projects@.contains(p)
                &&& forall|g: u64|
                    #[trigger] pr.guests@.contains_key(g) ==> s1.connections@.contains_key(g)
                        && s1.connections@[g].projects@.contains(p)
            } by {
                let pr = s1.projects@[p];
                assert(pr.host_connection_id != connection_id) by {
                    if pr.host_connection_id == connection_id {
                        assert(s0.projects@.contains_key(p));
                        assert(s0.projects@[p].host_connection_id == connection_id);
                        assert(s0.connections@[connection_id].projects@.contains(p));
                        assert(c0.projects@.contains(p));
                        assert(!s1.projects@.contains_key(p));
                    }
                }
                assert forall|g: u64| #[trigger] pr.guests@.contains_key(g) implies g
                    != connection_id by {
                    if g == connection_id {
                        assert(s0.projects@.contains_key(p));
                        if c0.projects@.contains(p) {
                            assert(left_project_effect(
                                s0.projects@[p],
                                pr,
                                connection_id,
                                uid,
                            ));
                            assert(!pr.guests@.contains_key(connection_id));
                        } else if c0.requested_projects@.contains(p) {
                            assert(scrubbed_join_requests(s0.projects@[p], pr, connection_id));
                            assert(pr.guests == s0.projects@[p].guests);
                            assert(s0.projects@[p].guests@.contains_key(connection_id));
                            assert(s0.connections@[connection_id].projects@.contains(p));
                        } else {
                            assert(pr == s0.projects@[p]);
                            assert(s0.projects@[p].guests@.contains_key(connection_id));
                            assert(s0.connections@[connection_id].projects@.contains(p));
                        }
                    }
                }
            }
            assert forall|ch: u64, c: u64|
                s1.channels@.contains_key(ch) && (#[trigger] s1.channels@[ch].connection_ids@.contains(
                    c,
                )) implies s1.connections@.contains_key(c) && s1.connections@[c].channels@.contains(
                ch,
            ) by {
                assert(c != connection_id) by {
                    if c == connection_id {
                        if c0.channels@.contains(ch) {
                            assert(s1.channels@[ch].connection_ids@
                                =~= s0.channels@[ch].connection_ids@.remove(connection_id));
                        } else {
                            assert(s1.channels@[ch] == s0.channels@[ch]);
                            assert(s0.channels@.contains_key(ch));
                            assert(s0.channels@[ch].connection_ids@.contains(connection_id));
                            assert(s0.connections@[connection_id].channels@.contains(ch));
                        }
                    }
                }
            }
            assert forall|ch: u64| #[trigger] s1.channels@.contains_key(ch) implies exists|c: u64|
                #[trigger] s1.channels@[ch].connection_ids@.contains(c) by {
                assert(s0.channels@.contains_key(ch));
                if c0.channels@.contains(ch) {
                    assert(!(s0.channels@[ch].connection_ids@.remove(connection_id) =~= Set::<
                        u64,
                    >::empty()));
                    let c = choose|c: u64|
                        s0.channels@[ch].connection_ids@.remove(connection_id).contains(c);
                    assert(s1.channels@[ch].connection_ids@.contains(c));
                } else {
                    let c = choose|c: u64|
                        #[trigger] s0.channels@[ch].connection_ids@.contains(c);
                    assert(s1.channels@[ch].connection_ids@.contains(c));
                }
            }
            assert forall|c: u64| #[trigger] s1.connections@.contains_key(c) implies s1.connections_by_user_id@.contains_key(
                s1.connections@[c].user_id,
            ) && s1.connections_by_user_id@[s1.connections@[c].user_id].connection_ids@.contains(
                c,
            ) by {
                assert(c != connection_id);
                assert(s0.connections@.contains_key(c));
                let u = s1.connections@[c].user_id;
                assert(u == s0.connections@[c].user_id);
                assert(s0.connections_by_user_id@.contains_key(u));
                assert(s0.connections_by_user_id@[u].connection_ids@.contains(c));
                if u == uid {
                    assert(!(set0.remove(connection_id) =~= Set::<u64>::empty())) by {
                        assert(set0.remove(connection_id).contains(c));
                    }
                    assert(s1.connections_by_user_id@[u].connection_ids@.contains(c));
                }
            }
            assert forall|u: u64, c: u64|
                s1.connections_by_user_id@.contains_key(u) && (
                #[trigger] s1.connections_by_user_id@[u].connection_ids@.contains(c)) implies s1.connections@.contains_key(
                c,
            ) && s1.connections@[c].user_id == u by {
                assert(s0.connections_by_user_id@.contains_key(u));
                assert(s0.connections_by_user_id@[u].connection_ids@.contains(c));
                assert(c != connection_id);
            }
            assert forall|u: u64| #[trigger] s1.connections_by_user_id@.contains_key(u) implies exists|
                c: u64,
            | #[trigger] s1.connections_by_user_id@[u].connection_ids@.contains(c) by {
                assert(s0.connections_by_user_id@.contains_key(u));
                if u == uid {
                    let c = choose|c: u64| set0.remove(connection_id).contains(c);
                    assert(s1.connections_by_user_id@[u].connection_ids@.contains(c));
                } else {
                    let c = choose|c: u64|
                        #[trigger] s0.connections_by_user_id@[u].connection_ids@.contains(c);
                    assert(c != connection_id) by {
                        if c == connection_id {
                            assert(s0.connections@[c].user_id == u);
                        }
                    }
                    assert(s1.connections_by_user_id@[u].connection_ids@.contains(c));
                }
            }
            assert forall|u: u64|
                #[trigger] s1.connections_by_user_id@.contains_key(u) implies (
            s0.connections_by_user_id@.contains_key(u) && s1.connections_by_user_id@[u].room
                == s0.connections_by_user_id@[u].room) || s1.connections_by_user_id@[u].room
                is None by {}
            lemma_rooms_frame(s0, s1);
            assert(s1.wf()) by {
                assert forall|c: u64|
                    s1.connections@.contains_key(c) implies (#[trigger] s1.connections@[c]).wf()
                    by {}
                assert forall|u: u64|
                    s1.connections_by_user_id@.contains_key(u) implies (
                #[trigger] s1.connections_by_user_id@[u]).wf() by {}
                assert forall|p: u64|
                    s1.projects@.contains_key(p) implies (#[trigger] s1.projects@[p]).wf() by {}
                assert forall|ch: u64|
                    s1.channels@.contains_key(ch) implies (#[trigger] s1.channels@[ch]).wf() by {}
            }
            assert forall|p: u64| #[trigger] s1.projects@.contains_key(p) implies s1.projects@[p].replicas_ok() by {}
            if s0.paths_ok() {
                assert(s1.paths_ok());
            }
        }
        Ok(removed)
    }

    /// The monitoring counters as of the instant `now` (a Unix timestamp in
    /// seconds): non-admin connections, projects with a non-admin host,
    /// those active in the last sixty seconds, and active ones with at
    /// least one guest. Activity strictly after `now - 60` counts.
    pub fn metrics_at(&self, now: i64) -> (r: Metrics)
        requires
            self.wf(),
            i64::MIN + 60 < now,
        ensures
            r.connections == count_non_admin(self.connections.pairs()),
            r.registered_projects == count_registered(self.projects.pairs(), self.connections@),
            r.active_projects == count_active(
                self.projects.pairs(),
                self.connections@,
                (now - 60) as i64,
            ),
            r.shared_projects == count_shared(
                self.projects.pairs(),
                self.connections@,
                (now - 60) as i64,
            ),
    {
        let start: i64 = now - 60;
        let cn = self.connections.len();
        let mut connections: usize = 0;
        let mut i: usize = 0;
        while i < cn
            invariant
                self.wf(),
                cn == self.connections.pairs().len(),
                i <= cn,
                connections <= i,
                connections == count_non_admin(self.connections.pairs().subrange(0, i as int)),
            decreases cn - i,
        {
            proof {
                assert(self.connections.pairs().subrange(0, i + 1 as int).drop_last()
                    =~= self.connections.pairs().subrange(0, i as int));
            }
            if !self.connections.val_at(i).admin {
                connections = connections + 1;
            }
            i = i + 1;
        }
        proof {
            assert(self.connections.pairs().subrange(0, cn as int) =~= self.connections.pairs());
        }
        let pn = self.projects.len();
        let mut registered_projects: usize = 0;
        let mut active_projects: usize = 0;
        let mut shared_projects: usize = 0;
        let mut k: usize = 0;
        while k < pn
            invariant
                self.wf(),
                start == now - 60,
                pn == self.projects.pairs().len(),
                k <= pn,
                registered_projects <= k,
                active_projects <= k,
                shared_projects <= k,
                registered_projects == count_registered(
                    self.projects.pairs().subrange(0, k as int),
                    self.connections@,
                ),
                active_projects == count_active(
                    self.projects.pairs().subrange(0, k as int),
                    self.connections@,
                    start,
                ),
                shared_projects == count_shared(
                    self.projects.pairs().subrange(0, k as int),
                    self.connections@,
                    start,
                ),
            decreases pn - k,
        {
            proof {
                assert(self.projects.pairs().subrange(0, k + 1 as int).drop_last()
                    =~= self.projects.pairs().subrange(0, k as int));
                self.projects.lemma_pairs();
            }
            let project = self.projects.val_at(k);
            let counted = match self.connections.get(project.host_connection_id) {
                Some(host_connection) => !host_connection.admin,
                None => false,
            };
            if counted {
                registered_projects = registered_projects + 1;
                proof {
                    assert(self.projects@.contains_key(self.projects.pairs()[k as int].0));
                    assert(self.projects@[self.projects.pairs()[k as int].0].wf());
                }
                if project.is_active_since(start) {
                    active_projects = active_projects + 1;
                    if project.guests.len() > 0 {
                        shared_projects = shared_projects + 1;
                    }
                }
            }
            k = k + 1;
        }
        proof {
            assert(self.projects.pairs().subrange(0, pn as int) =~= self.projects.pairs());
        }
        Metrics { connections, registered_projects, active_projects, shared_projects }
    }

    /// The monitoring counters as of the current wall-clock time.
    pub fn metrics(&self) -> (r: Metrics)
        requires
            self.wf(),
        ensures
            r.connections == count_non_admin(self.connections.pairs()),
            r.registered_projects == count_registered(self.projects.pairs(), self.connections@),
            exists|start: i64|
                r.active_projects == count_active(
                    self.projects.pairs(),
                    self.connections@,
                    start,
                ) && r.shared_projects == #[trigger] count_shared(
                    self.projects.pairs(),
                    self.connections@,
                    start,
                ),
    {
        let now = now_unix_timestamp();
        let r = self.metrics_at(now);
        proof {
            let start = (now - 60) as i64;
            assert(r.active_projects == count_active(
                self.projects.pairs(),
                self.connections@,
                start,
            ) && r.shared_projects == count_shared(
                self.projects.pairs(),
                self.connections@,
                start,
            ));
        }
        r
    }

    /// Faithful summaries of this user's online, host-owned projects: the
    /// project id, the visible worktree root names, and the guests' user
    /// ids.
    pub fn project_metadata_for_user(&self, user_id: UserId) -> (r: Vec<ProjectMetadata>)
        requires
            self.wf(),
            self.links_ok(),
        ensures
            metadata_list_valid(*self, user_id, r@),
    {
        proof {
            reveal(metadata_list_valid);
        }
        let connection_ids = self.connection_ids_for_user(user_id);
        let mut r: Vec<ProjectMetadata> = Vec::new();
        let mut emitted: Vec<u64> = Vec::new();
        let n = connection_ids.len();
        let mut i: usize = 0;
        while i < n
            invariant
                self.wf(),
                self.links_ok(),
                n == connection_ids@.len(),
                i <= n,
                emitted@.len() == r@.len(),
                forall|j: int| 0 <= j < r@.len() ==> #[trigger] emitted@[j] == r@[j].id,
                forall|a: int, b: int|
                    0 <= a < b < r@.len() ==> (#[trigger] r@[a]).id != (#[trigger] r@[b]).id,
                forall|j: int| 0 <= j < r@.len() ==> metadata_valid(*self, user_id, #[trigger] r@[j]),
                forall|p: u64, j: int|
                    0 <= j < i && self.connections@.contains_key(#[trigger] connection_ids@[j])
                        && (#[trigger] self.connections@[connection_ids@[j]].projects@.contains(
                        p,
                    )) && self.projects@.contains_key(p) && self.projects@[p].online
                        && self.projects@[p].host.user_id == user_id ==> exists|jj: int|
                        0 <= jj < r@.len() && (#[trigger] r@[jj]).id == p,
            decreases n - i,
        {
            let c = connection_ids[i];
            match self.connections.get(c) {
                Some(connection) => {
                    let project_ids = connection.projects.to_vec();
                    let m = project_ids.len();
                    let mut k: usize = 0;
                    while k < m
                        invariant
                            self.wf(),
                            self.links_ok(),
                            m == project_ids@.len(),
                            k <= m,
                            self.connections@.contains_key(c),
                            project_ids@ == self.connections@[c].projects.seq(),
                            emitted@.len() == r@.len(),
                            forall|j: int|
                                0 <= j < r@.len() ==> #[trigger] emitted@[j] == r@[j].id,
                            forall|a: int, b: int|
                                0 <= a < b < r@.len() ==> (#[trigger] r@[a]).id != (
                                #[trigger] r@[b]).id,
                            forall|j: int|
                                0 <= j < r@.len() ==> metadata_valid(
                                    *self,
                                    user_id,
                                    #[trigger] r@[j],
                                ),
                            forall|p: u64, j: int|
                                0 <= j < i && self.connections@.contains_key(
                                    #[trigger] connection_ids@[j],
                                ) && (
                                #[trigger] self.connections@[connection_ids@[j]].projects@.contains(
                                    p,
                                )) && self.projects@.contains_key(p)
                                    && self.projects@[p].online
                                    && self.projects@[p].host.user_id == user_id ==> exists|
                                    jj: int,
                                | 0 <= jj < r@.len() && (#[trigger] r@[jj]).id == p,
                            forall|kk: int|
                                0 <= kk < k && self.projects@.contains_key(
                                    #[trigger] project_ids@[kk],
                                ) && self.projects@[project_ids@[kk]].online
                                    && self.projects@[project_ids@[kk]].host.user_id == user_id
                                    ==> exists|jj: int|
                                    0 <= jj < r@.len() && (#[trigger] r@[jj]).id
                                        == project_ids@[kk],
                        decreases m - k,
                    {
                        let p = project_ids[k];
                        let ghost prev_r = r@;
                        let ghost prev_e = emitted@;
                        match self.projects.get(p) {
                            Some(project) => {
                                if project.online && project.host.user_id == user_id {
                                    let dup = contains_id(&emitted, p);
                                    if !dup {
                                        proof {
                                            assert(self.projects@[p].wf());
                                        }
                                        let md = build_project_metadata(p, project);
                                        r.push(md);
                                        emitted.push(p);
                                        proof {
                                            assert(r@.last().id == p);
                                            assert(metadata_valid(*self, user_id, r@.last()));
                                            assert forall|j: int|
                                                0 <= j < r@.len() implies metadata_valid(
                                                *self,
                                                user_id,
                                                #[trigger] r@[j],
                                            ) by {
                                                if j < r@.len() - 1 {
                                                    assert(r@[j] == prev_r[j]);
                                                }
                                            }
                                            assert forall|j: int|
                                                0 <= j < r@.len() implies #[trigger] emitted@[j]
                                                == r@[j].id by {
                                                if j < r@.len() - 1 {
                                                    assert(emitted@[j] == prev_e[j]);
                                                    assert(r@[j] == prev_r[j]);
                                                }
                                            }
                                            assert forall|a: int, b: int|
                                                0 <= a < b < r@.len() implies (
                                            #[trigger] r@[a]).id != (#[trigger] r@[b]).id by {
                                                if b == r@.len() - 1 {
                                                    assert(r@[a] == prev_r[a]);
                                                    assert(prev_e[a] == prev_r[a].id);
                                                    assert(prev_e[a] != p) by {
                                                        if prev_e[a] == p {
                                                            assert(prev_e.contains(p));
                                                        }
                                                    }
                                                } else {
                                                    assert(r@[a] == prev_r[a]);
                                                    assert(r@[b] == prev_r[b]);
                                                }
                                            }
                                        }
                                    }
                                    proof {
                                        assert(exists|jj: int|
                                            0 <= jj < r@.len() && (#[trigger] r@[jj]).id == p)
                                            by {
                                            if dup {
                                                assert(prev_e.contains(p));
                                                let ee = choose|ee: int|
                                                    0 <= ee < prev_e.len() && prev_e[ee] == p;
                                                assert(prev_r[ee].id == p);
                                                assert(r@[ee] == prev_r[ee]);
                                            } else {
                                                assert(r@[r@.len() - 1].id == p);
                                            }
                                        }
                                    }
                                }
                            },
                            None => {},
                        }
                        proof {
                            assert forall|p2: u64, j2: int|
                                0 <= j2 < i && self.connections@.contains_key(
                                    #[trigger] connection_ids@[j2],
                                ) && (
                                #[trigger] self.connections@[connection_ids@[j2]].projects@.contains(
                                    p2,
                                )) && self.projects@.contains_key(p2)
                                && self.projects@[p2].online && self.projects@[p2].host.user_id
                                == user_id implies exists|jj: int|
                                0 <= jj < r@.len() && (#[trigger] r@[jj]).id == p2 by {
                                let jj = choose|jj: int|
                                    0 <= jj < prev_r.len() && (#[trigger] prev_r[jj]).id == p2;
                                assert(r@[jj] == prev_r[jj]);
                                assert(r@[jj].id == p2);
                            }
                            assert forall|kk: int|
                                0 <= kk < k + 1 && self.projects@.contains_key(
                                    #[trigger] project_ids@[kk],
                                ) && self.projects@[project_ids@[kk]].online
                                && self.projects@[project_ids@[kk]].host.user_id == user_id
                                implies exists|jj: int|
                                0 <= jj < r@.len() && (#[trigger] r@[jj]).id
                                    == project_ids@[kk] by {
                                if kk < k {
                                    let jj = choose|jj: int|
                                        0 <= jj < prev_r.len() && (#[trigger] prev_r[jj]).id
                                            == project_ids@[kk];
                                    assert(r@[jj] == prev_r[jj]);
                                    assert(r@[jj].id == project_ids@[kk]);
                                } else {
                                    assert(project_ids@[kk] == p);
                                }
                            }
                        }
                        k = k + 1;
                    }
                    proof {
                        let cseq = self.connections@[c].projects.seq();
                        self.connections@[c].projects.lemma_view();
                        assert forall|p: u64, j: int|
                            0 <= j < i + 1 && self.connections@.contains_key(
                                #[trigger] connection_ids@[j],
                            ) && (#[trigger] self.connections@[connection_ids@[j]].projects@.contains(
                                p,
                            )) && self.projects@.contains_key(p) && self.projects@[p].online
                                && self.projects@[p].host.user_id == user_id implies exists|
                            jj: int,
                        | 0 <= jj < r@.len() && (#[trigger] r@[jj]).id == p by {
                            if j == i {
                                assert(connection_ids@[j] == c);
                                assert(cseq.contains(p));
                                let kk = choose|kk: int|
                                    0 <= kk < cseq.len() && cseq[kk] == p;
                                assert(project_ids@[kk] == p);
                            }
                        }
                    }
                },
                None => {
                    proof {
                        assert forall|p: u64, j: int|
                            0 <= j < i + 1 && self.connections@.contains_key(
                                #[trigger] connection_ids@[j],
                            ) && (#[trigger] self.connections@[connection_ids@[j]].projects@.contains(
                                p,
                            )) && self.projects@.contains_key(p) && self.projects@[p].online
                                && self.projects@[p].host.user_id == user_id implies exists|
                            jj: int,
                        | 0 <= jj < r@.len() && (#[trigger] r@[jj]).id == p by {
                            if j == i {
                                assert(connection_ids@[j] == c);
                                assert(false);
                            }
                        }
                    }
                },
            }
            i = i + 1;
        }
        proof {
            assert forall|p: u64|
                #[trigger] self.projects@.contains_key(p) && self.projects@[p].online
                    && self.projects@[p].host.user_id == user_id
                    && self.connections@.contains_key(self.projects@[p].host_connection_id)
                    && self.connections@[self.projects@[p].host_connection_id].user_id == user_id
                    implies exists|jj: int| 0 <= jj < r@.len() && (#[trigger] r@[jj]).id == p by {
                let host = self.projects@[p].host_connection_id;
                assert(self.connections_by_user_id@.contains_key(user_id));
                assert(self.connections_by_user_id@[user_id].connection_ids@.contains(host));
                self.connections_by_user_id@[user_id].connection_ids.lemma_view();
                assert(connection_ids@ == self.connections_by_user_id@[user_id].connection_ids.seq());
                let j = choose|j: int|
                    0 <= j < connection_ids@.len() && connection_ids@[j] == host;
                assert(self.connections@[host].projects@.contains(p));
            }
        }
        r
    }

    /// A user-facing contact record: whether the user is online and which
    /// online projects the user hosts.
    pub fn contact_for_user(&self, user_id: UserId, should_notify: bool) -> (r: Contact)
        requires
            self.wf(),
            self.links_ok(),
        ensures
            r.user_id == user_id,
            r.should_notify == should_notify,
            r.online == (self.connections_by_user_id@.contains_key(user_id)
                && self.connections_by_user_id@[user_id].connection_ids.seq().len() > 0),
            metadata_list_valid(*self, user_id, r.projects@),
    {
        let projects = self.project_metadata_for_user(user_id);
        let online = self.is_user_online(user_id);
        Contact { user_id, projects, online, should_notify }
    }

    /// The initial contact listing for a client: a contact record for each
    /// accepted contact (built as by [`Store::contact_for_user`]), and the
    /// raw id lists for outgoing and incoming requests. Every entry of the
    /// input is answered in the matching output list.
    pub fn build_initial_contacts_update(&self, contacts: Vec<ContactSource>) -> (r:
        UpdateContacts)
        requires
            self.wf(),
            self.links_ok(),
        ensures
            r.contacts@.len() + r.outgoing_requests@.len() + r.incoming_requests@.len()
                == contacts@.len(),
            r.contacts@.len() == accepted_pairs(contacts@).len(),
            forall|k: int|
                0 <= k < r.contacts@.len() ==> {
                    let c = #[trigger] r.contacts@[k];
                    &&& c.user_id == accepted_pairs(contacts@)[k].0
                    &&& c.should_notify == accepted_pairs(contacts@)[k].1
                    &&& c.online == (self.connections_by_user_id@.contains_key(c.user_id)
                        && self.connections_by_user_id@[c.user_id].connection_ids.seq().len()
                        > 0)
                    &&& metadata_list_valid(*self, c.user_id, c.projects@)
                },
            r.outgoing_requests@ == outgoing_ids(contacts@),
            r.incoming_requests@.len() == incoming_pairs(contacts@).len(),
            forall|k: int|
                0 <= k < r.incoming_requests@.len() ==> {
                    let c = #[trigger] r.incoming_requests@[k];
                    &&& c.requester_id == incoming_pairs(contacts@)[k].0
                    &&& c.should_notify == incoming_pairs(contacts@)[k].1
                },
            forall|j: int|
                0 <= j < contacts@.len() ==> match #[trigger] contacts@[j] {
                    ContactSource::Accepted { user_id, should_notify } => exists|i: int|
                        0 <= i < r.contacts@.len() && (#[trigger] r.contacts@[i]).user_id
                            == user_id && r.contacts@[i].should_notify == should_notify
                            && r.contacts@[i].online == (
                        self.connections_by_user_id@.contains_key(user_id)
                            && self.connections_by_user_id@[user_id].connection_ids.seq().len()
                            > 0) && metadata_list_valid(*self, user_id, r.contacts@[i].projects@),
                    ContactSource::Outgoing { user_id } => r.outgoing_requests@.contains(
                        user_id,
                    ),
                    ContactSource::Incoming { user_id, should_notify } => exists|i: int|
                        0 <= i < r.incoming_requests@.len() && (
                        #[trigger] r.incoming_requests@[i]).requester_id == user_id
                            && r.incoming_requests@[i].should_notify == should_notify,
                },
    {
        let mut update = UpdateContacts {
            contacts: Vec::new(),
            incoming_requests: Vec::new(),
            outgoing_requests: Vec::new(),
        };
        let n = contacts.len();
        let mut i: usize = 0;
        while i < n
            invariant
                self.wf(),
                self.links_ok(),
                n == contacts@.len(),
                i <= n,
                update.contacts@.len() + update.outgoing_requests@.len()
                    + update.incoming_requests@.len() == i,
                update.contacts@.len() == accepted_pairs(contacts@.subrange(0, i as int)).len(),
                forall|k: int|
                    0 <= k < update.contacts@.len() ==> {
                        let c = #[trigger] update.contacts@[k];
                        &&& c.user_id == accepted_pairs(contacts@.subrange(0, i as int))[k].0
                        &&& c.should_notify == accepted_pairs(
                            contacts@.subrange(0, i as int),
                        )[k].1
                        &&& c.online == (self.connections_by_user_id@.contains_key(c.user_id)
                            && self.connections_by_user_id@[c.user_id].connection_ids.seq().len()
                            > 0)
                        &&& metadata_list_valid(*self, c.user_id, c.projects@)
                    },
                update.outgoing_requests@ == outgoing_ids(contacts@.subrange(0, i as int)),
                update.incoming_requests@.len() == incoming_pairs(
                    contacts@.subrange(0, i as int),
                ).len(),
                forall|k: int|
                    0 <= k < update.incoming_requests@.len() ==> {
                        let c = #[trigger] update.incoming_requests@[k];
                        &&& c.requester_id == incoming_pairs(
                            contacts@.subrange(0, i as int),
                        )[k].0
                        &&& c.should_notify == incoming_pairs(
                            contacts@.subrange(0, i as int),
                        )[k].1
                    },
                forall|j: int|
                    0 <= j < i ==> match #[trigger] contacts@[j] {
                        ContactSource::Accepted { user_id, should_notify } => exists|k: int|
                            0 <= k < update.contacts@.len() && (
                            #[trigger] update.contacts@[k]).user_id == user_id
                                && update.contacts@[k].should_notify == should_notify
                                && update.contacts@[k].online == (
                            self.connections_by_user_id@.contains_key(user_id)
                                && self.connections_by_user_id@[user_id].connection_ids.seq().len()
                                > 0) && metadata_list_valid(
                                *self,
                                user_id,
                                update.contacts@[k].projects@,
                            ),
                        ContactSource::Outgoing { user_id } => update.outgoing_requests@.contains(
                            user_id,
                        ),
                        ContactSource::Incoming { user_id, should_notify } => exists|k: int|
                            0 <= k < update.incoming_requests@.len() && (
                            #[trigger] update.incoming_requests@[k]).requester_id == user_id
                                && update.incoming_requests@[k].should_notify == should_notify,
                    },
            decreases n - i,
        {
            let ghost prev = update;
            match contacts[i] {
                ContactSource::Accepted { user_id, should_notify } => {
                    let contact = self.contact_for_user(user_id, should_notify);
                    update.contacts.push(contact);
                },
                ContactSource::Outgoing { user_id } => {
                    update.outgoing_requests.push(user_id);
                },
                ContactSource::Incoming { user_id, should_notify } => {
                    update.incoming_requests.push(
                        IncomingContactRequest { requester_id: user_id, should_notify },
                    );
                },
            }
            proof {
                let pre = contacts@.subrange(0, i as int);
                let pre1 = contacts@.subrange(0, i + 1 as int);
                assert(pre1.drop_last() =~= pre);
                assert(pre1.last() == contacts@[i as int]);
                assert forall|k: int|
                    0 <= k < update.contacts@.len() implies {
                    let c = #[trigger] update.contacts@[k];
                    &&& c.user_id == accepted_pairs(pre1)[k].0
                    &&& c.should_notify == accepted_pairs(pre1)[k].1
                    &&& c.online == (self.connections_by_user_id@.contains_key(c.user_id)
                        && self.connections_by_user_id@[c.user_id].connection_ids.seq().len()
                        > 0)
                    &&& metadata_list_valid(*self, c.user_id, c.projects@)
                } by {
                    if k < prev.contacts@.len() {
                        assert(update.contacts@[k] == prev.contacts@[k]);
                        assert(accepted_pairs(pre1)[k] == accepted_pairs(pre)[k]);
                    } else {
                        assert(update.contacts@[k] == update.contacts@.last());
                        assert(accepted_pairs(pre1)[k] == accepted_pairs(pre1).last());
                    }
                }
                assert(update.contacts@.len() == accepted_pairs(pre1).len());
                assert(update.outgoing_requests@ == outgoing_ids(pre1)) by {
                    assert(update.outgoing_requests@ =~= outgoing_ids(pre1));
                }
                assert(update.incoming_requests@.len() == incoming_pairs(pre1).len());
                assert forall|k: int|
                    0 <= k < update.incoming_requests@.len() implies {
                    let c = #[trigger] update.incoming_requests@[k];
                    &&& c.requester_id == incoming_pairs(pre1)[k].0
                    &&& c.should_notify == incoming_pairs(pre1)[k].1
                } by {
                    if k < prev.incoming_requests@.len() {
                        assert(update.incoming_requests@[k] == prev.incoming_requests@[k]);
                        assert(incoming_pairs(pre1)[k] == incoming_pairs(pre)[k]);
                    } else {
                        assert(update.incoming_requests@[k] == update.incoming_requests@.last());
                        assert(incoming_pairs(pre1)[k] == incoming_pairs(pre1).last());
                    }
                }
                assert forall|j: int|
                    0 <= j < i + 1 implies match #[trigger] contacts@[j] {
                    ContactSource::Accepted { user_id, should_notify } => exists|k: int|
                        0 <= k < update.contacts@.len() && (
                        #[trigger] update.contacts@[k]).user_id == user_id
                            && update.contacts@[k].should_notify == should_notify
                            && update.contacts@[k].online == (
                        self.connections_by_user_id@.contains_key(user_id)
                            && self.connections_by_user_id@[user_id].connection_ids.seq().len()
                            > 0) && metadata_list_valid(
                            *self,
                            user_id,
                            update.contacts@[k].projects@,
                        ),
                    ContactSource::Outgoing { user_id } => update.outgoing_requests@.contains(
                        user_id,
                    ),
                    ContactSource::Incoming { user_id, should_notify } => exists|k: int|
                        0 <= k < update.incoming_requests@.len() && (
                        #[trigger] update.incoming_requests@[k]).requester_id == user_id
                            && update.incoming_requests@[k].should_notify == should_notify,
                } by {
                    if j < i {
                        match contacts@[j] {
                            ContactSource::Accepted { user_id, should_notify } => {
                                let k = choose|k: int|
                                    0 <= k < prev.contacts@.len() && (
                                    #[trigger] prev.contacts@[k]).user_id == user_id
                                        && prev.contacts@[k].should_notify == should_notify
                                        && prev.contacts@[k].online == (
                                    self.connections_by_user_id@.contains_key(user_id)
                                        && self.connections_by_user_id@[user_id].connection_ids.seq().len()
                                        > 0) && metadata_list_valid(
                                        *self,
                                        user_id,
                                        prev.contacts@[k].projects@,
                                    );
                                assert(update.contacts@[k] == prev.contacts@[k]);
                            },
                            ContactSource::Outgoing { user_id } => {
                                let k = choose|k: int|
                                    0 <= k < prev.outgoing_requests@.len()
                                        && prev.outgoing_requests@[k] == user_id;
                                assert(update.outgoing_requests@[k] == user_id);
                            },
                            ContactSource::Incoming { user_id, should_notify } => {
                                let k = choose|k: int|
                                    0 <= k < prev.incoming_requests@.len() && (
                                    #[trigger] prev.incoming_requests@[k]).requester_id
                                        == user_id && prev.incoming_requests@[k].should_notify
                                        == should_notify;
                                assert(update.incoming_requests@[k]
                                    == prev.incoming_requests@[k]);
                            },
                        }
                    } else {
                        match contacts@[j] {
                            ContactSource::Accepted { user_id, should_notify } => {
                                assert(update.contacts@[update.contacts@.len() - 1].user_id
                                    == user_id);
                            },
                            ContactSource::Outgoing { user_id } => {
                                assert(update.outgoing_requests@[update.outgoing_requests@.len()
                                    - 1] == user_id);
                            },
                            ContactSource::Incoming { user_id, should_notify } => {
                                assert(update.incoming_requests@[update.incoming_requests@.len()
                                    - 1].requester_id == user_id);
                            },
                        }
                    }
                }
            }
            i = i + 1;
        }
        proof {
            assert(contacts@.subrange(0, n as int) =~= contacts@);
        }
        update
    }
}

} // verus!
