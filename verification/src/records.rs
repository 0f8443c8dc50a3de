//! Plain value records exchanged between the store and the surrounding RPC
//! layer: receipts, room and participant records, worktree entries,
//! diagnostics, language servers, and contact records.

use vstd::prelude::*;

use crate::{ConnectionId, ProjectId, RoomId, UserId};

verus! {

/// Opaque handle identifying a single in-flight join request, carried from
/// the RPC layer; it records the originating connection and enough context to
/// answer the request exactly once. The store never interprets `request_id`.
#[derive(Clone, Copy, PartialEq, Eq, Structural, Debug)]
pub struct Receipt {
    pub sender_id: ConnectionId,
    pub request_id: u64,
}

/// Call state of one user: either in a room, or invited to one.
#[derive(Clone, Copy, PartialEq, Eq, Structural, Debug)]
pub enum RoomState {
    Joined,
    Calling { room_id: RoomId },
}

/// Where a room participant currently is; the store only ever records the
/// external location (not inside any project).
#[derive(Clone, Copy, PartialEq, Eq, Structural, Debug)]
pub enum ParticipantLocation {
    External,
}

/// One member of a room who has already joined.
pub struct Participant {
    pub user_id: UserId,
    pub peer_id: ConnectionId,
    pub project_ids: Vec<ProjectId>,
    pub location: ParticipantLocation,
}

/// A call session: members that joined, and invited users that have not yet
/// joined, declined, or failed.
pub struct Room {
    pub participants: Vec<Participant>,
    pub pending_user_ids: Vec<UserId>,
}

/// One file-system entry of a worktree.
pub struct Entry {
    pub id: u64,
    pub path: String,
    pub is_dir: bool,
    pub is_ignored: bool,
}

/// Diagnostic counts reported for one path of a worktree.
pub struct DiagnosticSummary {
    pub path: String,
    pub language_server_id: u64,
    pub error_count: u64,
    pub warning_count: u64,
}

/// A language server started by the host of a project.
pub struct LanguageServer {
    pub id: u64,
    pub name: String,
}

/// Metadata describing one worktree in a project update.
pub struct WorktreeMetadata {
    pub id: u64,
    pub root_name: String,
    pub visible: bool,
}

/// A user-facing summary of one online, host-owned project.
pub struct ProjectMetadata {
    pub id: ProjectId,
    pub visible_worktree_root_names: Vec<String>,
    pub guests: Vec<UserId>,
}

/// A user-facing contact record.
pub struct Contact {
    pub user_id: UserId,
    pub projects: Vec<ProjectMetadata>,
    pub online: bool,
    pub should_notify: bool,
}

/// A contact request some other user has sent to this user.
pub struct IncomingContactRequest {
    pub requester_id: UserId,
    pub should_notify: bool,
}

/// The initial contact listing pushed to a client after it connects.
pub struct UpdateContacts {
    pub contacts: Vec<Contact>,
    pub incoming_requests: Vec<IncomingContactRequest>,
    pub outgoing_requests: Vec<UserId>,
}

/// A database-supplied contact classification.
#[derive(Clone, Copy, PartialEq, Eq, Structural, Debug)]
pub enum ContactSource {
    Accepted { user_id: UserId, should_notify: bool },
    Outgoing { user_id: UserId },
    Incoming { user_id: UserId, should_notify: bool },
}

/// Spec-level sameness of participants: every field agrees, vectors by view.
pub open spec fn participant_like(a: Participant, b: Participant) -> bool {
    &&& a.user_id == b.user_id
    &&& a.peer_id == b.peer_id
    &&& a.project_ids@ == b.project_ids@
    &&& a.location == b.location
}

/// Spec-level sameness of rooms: same participants and same pending invites.
pub open spec fn room_like(a: Room, b: Room) -> bool {
    &&& a.participants@.len() == b.participants@.len()
    &&& forall|i: int|
        0 <= i < a.participants@.len() ==> participant_like(
            #[trigger] a.participants@[i],
            b.participants@[i],
        )
    &&& a.pending_user_ids@ == b.pending_user_ids@
}

fn copy_ids(v: &Vec<u64>) -> (r: Vec<u64>)
    ensures
        r@ == v@,
{
    let n = v.len();
    let mut r: Vec<u64> = Vec::new();
    let mut i: usize = 0;
    while i < n
        invariant
            n == v@.len(),
            i <= n,
            r@ =~= v@.subrange(0, i as int),
        decreases n - i,
    {
        r.push(v[i]);
        proof {
            assert(r@ =~= v@.subrange(0, i + 1 as int));
        }
        i = i + 1;
    }
    proof {
        assert(r@ =~= v@);
    }
    r
}

fn copy_participant(p: &Participant) -> (r: Participant)
    ensures
        participant_like(r, *p),
{
    Participant {
        user_id: p.user_id,
        peer_id: p.peer_id,
        project_ids: copy_ids(&p.project_ids),
        location: p.location,
    }
}

/// An owned snapshot of a room, handed to callers that must forward the room
/// record after a mutation.
pub fn copy_room(room: &Room) -> (r: Room)
    ensures
        room_like(r, *room),
{
    let n = room.participants.len();
    let mut participants: Vec<Participant> = Vec::new();
    let mut i: usize = 0;
    while i < n
        invariant
            n == room.participants@.len(),
            i <= n,
            participants@.len() == i,
            forall|j: int|
                0 <= j < i ==> participant_like(
                    #[trigger] participants@[j],
                    room.participants@[j],
                ),
        decreases n - i,
    {
        participants.push(copy_participant(&room.participants[i]));
        i = i + 1;
    }
    Room { participants, pending_user_ids: copy_ids(&room.pending_user_ids) }
}

/// An owned copy of a worktree entry.
pub fn copy_entry(e: &Entry) -> (r: Entry)
    ensures
        r.id == e.id,
        r.path@ == e.path@,
        r.is_dir == e.is_dir,
        r.is_ignored == e.is_ignored,
{
    Entry { id: e.id, path: e.path.clone(), is_dir: e.is_dir, is_ignored: e.is_ignored }
}

} // verus!
