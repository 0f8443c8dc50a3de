//! The executable invariant checker: walks every table and decides whether
//! the cross-table links and the worktree path uniqueness hold. Meant for
//! test suites to call at quiesce points, never on the hot path.

use vstd::prelude::*;

use crate::records::RoomState;
use crate::store::{room_has_participant, Project, Store};

verus! {

fn check_project_replicas(project: &Project) -> (r: bool)
    requires
        project.guests.wf(),
        project.active_replica_ids.wf(),
    ensures
        r == project.replicas_ok(),
{
    proof {
        project.guests.lemma_pairs();
        project.active_replica_ids.lemma_view();
    }
    let gn = project.guests.len();
    let mut i: usize = 0;
    while i < gn
        invariant
            project.guests.wf(),
            project.active_replica_ids.wf(),
            gn == project.guests.pairs().len(),
            i <= gn,
            forall|j: int|
                0 <= j < i ==> project.active_replica_ids@.contains(
                    (#[trigger] project.guests.pairs()[j]).1.replica_id as u64,
                ),
        decreases gn - i,
    {
        if !project.active_replica_ids.contains(project.guests.val_at(i).replica_id as u64) {
            proof {
                project.guests.lemma_pairs();
                let g = project.guests.pairs()[i as int].0;
                assert(project.guests@.contains_key(g));
                assert(project.guests@[g] == project.guests.pairs()[i as int].1);
                assert(!project.replicas_ok());
            }
            return false;
        }
        i = i + 1;
    }
    let an = project.active_replica_ids.len();
    let active = project.active_replica_ids.to_vec();
    let mut i2: usize = 0;
    while i2 < an
        invariant
            project.guests.wf(),
            project.active_replica_ids.wf(),
            an == project.active_replica_ids.seq().len(),
            active@ == project.active_replica_ids.seq(),
            i2 <= an,
            forall|j: int|
                0 <= j < i2 ==> {
                    let rr = #[trigger] active@[j];
                    exists|g: u64|
                        #[trigger] project.guests@.contains_key(g)
                            && project.guests@[g].replica_id as u64 == rr
                },
        decreases an - i2,
    {
        let rr = active[i2];
        let gn2 = project.guests.len();
        let mut k: usize = 0;
        let mut found = false;
        while k < gn2
            invariant
                project.guests.wf(),
                gn2 == project.guests.pairs().len(),
                k <= gn2,
                !found ==> forall|kk: int|
                    0 <= kk < k ==> (#[trigger] project.guests.pairs()[kk]).1.replica_id as u64
                        != rr,
                found ==> exists|g: u64|
                    #[trigger] project.guests@.contains_key(g) && project.guests@[g].replica_id
                        as u64 == rr,
            decreases gn2 - k,
        {
            if project.guests.val_at(k).replica_id as u64 == rr {
                proof {
                    project.guests.lemma_pairs();
                    let g = project.guests.pairs()[k as int].0;
                    assert(project.guests@.contains_key(g));
                    assert(project.guests@[g] == project.guests.pairs()[k as int].1);
                }
                found = true;
            }
            k = k + 1;
        }
        if !found {
            proof {
                project.guests.lemma_pairs();
                project.guests.lemma_dom();
                project.active_replica_ids.lemma_view();
                assert(project.active_replica_ids.seq()[i2 as int] == rr);
                assert(project.active_replica_ids@.contains(rr));
                assert(!(exists|g: u64|
                    #[trigger] project.guests@.contains_key(g) && project.guests@[g].replica_id
                        as u64 == rr)) by {
                    if exists|g: u64|
                        #[trigger] project.guests@.contains_key(g)
                            && project.guests@[g].replica_id as u64 == rr {
                        let g = choose|g: u64|
                            #[trigger] project.guests@.contains_key(g)
                                && project.guests@[g].replica_id as u64 == rr;
                        assert(project.guests.key_seq().contains(g));
                        let kk = choose|kk: int|
                            0 <= kk < project.guests.key_seq().len()
                                && project.guests.key_seq()[kk] == g;
                        assert(project.guests.pairs()[kk].0 == g);
                        assert(project.guests.pairs()[kk].1 == project.guests@[g]);
                    }
                }
                assert(!project.replicas_ok());
            }
            return false;
        }
        i2 = i2 + 1;
    }
    let mut a: usize = 0;
    while a < gn
        invariant
            project.guests.wf(),
            gn == project.guests.pairs().len(),
            a <= gn,
            forall|x: int, y: int|
                0 <= x < y < gn && x < a ==> (#[trigger] project.guests.pairs()[x]).1.replica_id
                    != (#[trigger] project.guests.pairs()[y]).1.replica_id,
        decreases gn - a,
    {
        let mut b: usize = a + 1;
        while b < gn
            invariant
                project.guests.wf(),
                gn == project.guests.pairs().len(),
                a < gn,
                a < b <= gn,
                forall|y: int|
                    a < y < b ==> (#[trigger] project.guests.pairs()[y]).1.replica_id
                        != project.guests.pairs()[a as int].1.replica_id,
            decreases gn - b,
        {
            if project.guests.val_at(a).replica_id == project.guests.val_at(b).replica_id {
                proof {
                    project.guests.lemma_pairs();
                    let g1 = project.guests.pairs()[a as int].0;
                    let g2 = project.guests.pairs()[b as int].0;
                    assert(project.guests.key_seq()[a as int] == g1);
                    assert(project.guests.key_seq()[b as int] == g2);
                    assert(g1 != g2);
                    assert(project.guests@.contains_key(g1));
                    assert(project.guests@.contains_key(g2));
                    assert(project.guests@[g1] == project.guests.pairs()[a as int].1);
                    assert(project.guests@[g2] == project.guests.pairs()[b as int].1);
                    assert(!project.replicas_ok());
                }
                return false;
            }
            b = b + 1;
        }
        a = a + 1;
    }
    if project.active_replica_ids.len() != project.guests.len() {
        proof {
            project.guests.lemma_pairs();
            project.active_replica_ids.lemma_view();
            assert(!project.replicas_ok());
        }
        return false;
    }
    proof {
        project.guests.lemma_pairs();
        project.guests.lemma_dom();
        project.active_replica_ids.lemma_view();
        assert forall|g: u64| project.guests@.contains_key(g)
            implies project.active_replica_ids@.contains(
            (#[trigger] project.guests@[g]).replica_id as u64,
        ) by {
            assert(project.guests.key_seq().contains(g));
            let j = choose|j: int|
                0 <= j < project.guests.key_seq().len() && project.guests.key_seq()[j] == g;
            assert(project.guests.pairs()[j].0 == g);
            assert(project.guests.pairs()[j].1 == project.guests@[g]);
        }
        assert forall|rr: u64| #[trigger] project.active_replica_ids@.contains(rr)
            implies exists|g: u64|
            #[trigger] project.guests@.contains_key(g) && project.guests@[g].replica_id as u64
                == rr by {
            assert(project.active_replica_ids.seq().contains(rr));
            let j = choose|j: int|
                0 <= j < project.active_replica_ids.seq().len()
                    && project.active_replica_ids.seq()[j] == rr;
        }
        assert forall|g1: u64, g2: u64|
            project.guests@.contains_key(g1) && project.guests@.contains_key(g2) && g1 != g2
                implies (#[trigger] project.guests@[g1]).replica_id != (
        #[trigger] project.guests@[g2]).replica_id by {
            assert(project.guests.key_seq().contains(g1));
            assert(project.guests.key_seq().contains(g2));
            let x = choose|x: int|
                0 <= x < project.guests.key_seq().len() && project.guests.key_seq()[x] == g1;
            let y = choose|y: int|
                0 <= y < project.guests.key_seq().len() && project.guests.key_seq()[y] == g2;
            assert(project.guests.pairs()[x].0 == g1);
            assert(project.guests.pairs()[y].0 == g2);
            assert(x != y);
            assert(project.guests.pairs()[x].1 == project.guests@[g1]);
            assert(project.guests.pairs()[y].1 == project.guests@[g2]);
            if x < y {
                assert(project.guests.pairs()[x].1.replica_id
                    != project.guests.pairs()[y].1.replica_id);
            } else {
                assert(project.guests.pairs()[y].1.replica_id
                    != project.guests.pairs()[x].1.replica_id);
            }
        }
        assert(project.active_replica_ids@.len() == project.guests@.dom().len());
    }
    true
}

impl Store {
    fn check_connection_projects(&self) -> (r: bool)
        requires
            self.wf(),
        ensures
            r == self.connection_projects_consistent(),
    {
        proof {
            self.connections.lemma_pairs();
            self.connections.lemma_dom();
        }
        let n = self.connections.len();
        let mut i: usize = 0;
        while i < n
            invariant
                self.wf(),
                n == self.connections.pairs().len(),
                i <= n,
                forall|j: int, p: u64|
                    0 <= j < i && (#[trigger] self.connections.pairs()[j].1.projects@.contains(
                        p,
                    )) ==> self.projects@.contains_key(p) && (
                    self.projects@[p].host_connection_id == self.connections.pairs()[j].0
                        || self.projects@[p].guests@.contains_key(
                        self.connections.pairs()[j].0,
                    )),
            decreases n - i,
        {
            let c = self.connections.key_at(i);
            let ids = self.connections.val_at(i).projects.to_vec();
            proof {
                self.connections.lemma_pairs();
                self.connections.pairs()[i as int].1.projects.lemma_view();
            }
            let m = ids.len();
            let mut k: usize = 0;
            while k < m
                invariant
                    self.wf(),
                    i < n,
                    n == self.connections.pairs().len(),
                    c == self.connections.pairs()[i as int].0,
                    ids@ == self.connections.pairs()[i as int].1.projects.seq(),
                    m == ids@.len(),
                    k <= m,
                    forall|kk: int|
                        0 <= kk < k ==> self.projects@.contains_key(#[trigger] ids@[kk]) && (
                        self.projects@[ids@[kk]].host_connection_id == c
                            || self.projects@[ids@[kk]].guests@.contains_key(c)),
                decreases m - k,
            {
                let p = ids[k];
                let ok = match self.projects.get(p) {
                    Some(pr) => pr.host_connection_id == c || pr.guests.contains_key(c),
                    None => false,
                };
                if !ok {
                    proof {
                        self.connections.lemma_pairs();
                        let conn = self.connections.pairs()[i as int].1;
                        conn.projects.lemma_view();
                        assert(conn.projects.seq()[k as int] == p);
                        assert(conn.projects@.contains(p));
                        assert(self.connections@.contains_key(c));
                        assert(self.connections@[c] == conn);
                        assert(self.connections@[c].projects@.contains(p));
                        assert(!self.connection_projects_consistent());
                    }
                    return false;
                }
                k = k + 1;
            }
            proof {
                self.connections.lemma_pairs();
                let conn = self.connections.pairs()[i as int].1;
                conn.projects.lemma_view();
                assert forall|p: u64|
                    (#[trigger] self.connections.pairs()[i as int].1.projects@.contains(p))
                        implies self.projects@.contains_key(p) && (
                    self.projects@[p].host_connection_id == c
                        || self.projects@[p].guests@.contains_key(c)) by {
                    assert(conn.projects.seq().contains(p));
                    let kk = choose|kk: int|
                        0 <= kk < conn.projects.seq().len() && conn.projects.seq()[kk] == p;
                    assert(ids@[kk] == p);
                }
            }
            i = i + 1;
        }
        proof {
            self.connections.lemma_pairs();
            self.connections.lemma_dom();
            assert forall|c: u64, p: u64|
                self.connections@.contains_key(c) && (
                #[trigger] self.connections@[c].projects@.contains(p))
                    implies self.projects@.contains_key(p) && (
                self.projects@[p].host_connection_id == c
                    || self.projects@[p].guests@.contains_key(c)) by {
                assert(self.connections.key_seq().contains(c));
                let j = choose|j: int|
                    0 <= j < self.connections.key_seq().len() && self.connections.key_seq()[j]
                        == c;
                assert(self.connections.pairs()[j].0 == c);
                assert(self.connections.pairs()[j].1 == self.connections@[c]);
            }
        }
        true
    }

    fn check_project_members(&self) -> (r: bool)
        requires
            self.wf(),
        ensures
            r == self.project_members_consistent(),
    {
        proof {
            self.projects.lemma_pairs();
        }
        let n = self.projects.len();
        let mut i: usize = 0;
        while i < n
            invariant
                self.wf(),
                n == self.projects.pairs().len(),
                i <= n,
                forall|j: int|
                    0 <= j < i ==> {
                        let pid = (#[trigger] self.projects.pairs()[j]).0;
                        let pr = self.projects.pairs()[j].1;
                        &&& self.connections@.contains_key(pr.host_connection_id)
                        &&& self.connections@[pr.host_connection_id].projects@.contains(pid)
                        &&& forall|g: u64|
                            #[trigger] pr.guests@.contains_key(g)
                                ==> self.connections@.contains_key(g)
                                && self.connections@[g].projects@.contains(pid)
                    },
            decreases n - i,
        {
            let pid = self.projects.key_at(i);
            let project = self.projects.val_at(i);
            let host_ok = match self.connections.get(project.host_connection_id) {
                Some(conn) => conn.projects.contains(pid),
                None => false,
            };
            if !host_ok {
                proof {
                    self.projects.lemma_pairs();
                    assert(self.projects@.contains_key(pid));
                    assert(self.projects@[pid] == *project);
                    assert(!self.project_members_consistent());
                }
                return false;
            }
            let guest_ids = project.guest_connection_ids();
            proof {
                self.projects.lemma_pairs();
                project.guests.lemma_dom();
            }
            let m = guest_ids.len();
            let mut k: usize = 0;
            while k < m
                invariant
                    self.wf(),
                    i < n,
                    n == self.projects.pairs().len(),
                    pid == self.projects.pairs()[i as int].0,
                    *project == self.projects.pairs()[i as int].1,
                    guest_ids@ == project.guests.key_seq(),
                    m == guest_ids@.len(),
                    k <= m,
                    forall|kk: int|
                        0 <= kk < k ==> self.connections@.contains_key(
                            #[trigger] guest_ids@[kk],
                        ) && self.connections@[guest_ids@[kk]].projects@.contains(pid),
                decreases m - k,
            {
                let g = guest_ids[k];
                let ok = match self.connections.get(g) {
                    Some(conn) => conn.projects.contains(pid),
                    None => false,
                };
                if !ok {
                    proof {
                        self.projects.lemma_pairs();
                        project.guests.lemma_dom();
                        assert(project.guests.key_seq()[k as int] == g);
                        assert(project.guests@.contains_key(g));
                        assert(self.projects@.contains_key(pid));
                        assert(self.projects@[pid] == *project);
                        assert(!self.project_members_consistent());
                    }
                    return false;
                }
                k = k + 1;
            }
            proof {
                self.projects.lemma_pairs();
                project.guests.lemma_dom();
                assert forall|g: u64|
                    #[trigger] project.guests@.contains_key(g) implies self.connections@.contains_key(
                    g,
                ) && self.connections@[g].projects@.contains(pid) by {
                    assert(project.guests.key_seq().contains(g));
                    let kk = choose|kk: int|
                        0 <= kk < project.guests.key_seq().len() && project.guests.key_seq()[kk]
                            == g;
                    assert(guest_ids@[kk] == g);
                }
            }
            i = i + 1;
        }
        proof {
            self.projects.lemma_pairs();
            self.projects.lemma_dom();
            assert forall|p: u64| #[trigger] self.projects@.contains_key(p) implies {
                let pr = self.projects@[p];
                &&& self.connections@.contains_key(pr.host_connection_id)
                &&& self.connections@[pr.host_connection_id].projects@.contains(p)
                &&& forall|g: u64|
                    #[trigger] pr.guests@.contains_key(g) ==> self.connections@.contains_key(g)
                        && self.connections@[g].projects@.contains(p)
            } by {
                assert(self.projects.key_seq().contains(p));
                let j = choose|j: int|
                    0 <= j < self.projects.key_seq().len() && self.projects.key_seq()[j] == p;
                assert(self.projects.pairs()[j].0 == p);
                assert(self.projects.pairs()[j].1 == self.projects@[p]);
            }
        }
        true
    }

    fn check_replicas(&self) -> (r: bool)
        requires
            self.wf(),
        ensures
            r == self.replicas_consistent(),
    {
        proof {
            self.projects.lemma_pairs();
        }
        let n = self.projects.len();
        let mut i: usize = 0;
        while i < n
            invariant
                self.wf(),
                n == self.projects.pairs().len(),
                i <= n,
                forall|j: int|
                    0 <= j < i ==> (#[trigger] self.projects.pairs()[j]).1.replicas_ok(),
            decreases n - i,
        {
            let project = self.projects.val_at(i);
            proof {
                self.projects.lemma_pairs();
                assert(self.projects@.contains_key(self.projects.pairs()[i as int].0));
                assert(self.projects@[self.projects.pairs()[i as int].0].wf());
            }
            if !check_project_replicas(project) {
                proof {
                    self.projects.lemma_pairs();
                    let pid = self.projects.pairs()[i as int].0;
                    assert(self.projects@.contains_key(pid));
                    assert(self.projects@[pid] == *project);
                    assert(!self.replicas_consistent());
                }
                return false;
            }
            i = i + 1;
        }
        proof {
            self.projects.lemma_pairs();
            self.projects.lemma_dom();
            assert forall|p: u64| #[trigger] self.projects@.contains_key(p) implies self.projects@[p].replicas_ok() by {
                assert(self.projects.key_seq().contains(p));
                let j = choose|j: int|
                    0 <= j < self.projects.key_seq().len() && self.projects.key_seq()[j] == p;
                assert(self.projects.pairs()[j].0 == p);
                assert(self.projects.pairs()[j].1 == self.projects@[p]);
            }
        }
        true
    }

    fn check_channels(&self) -> (r: bool)
        requires
            self.wf(),
        ensures
            r == self.channels_consistent(),
    {
        proof {
            self.connections.lemma_pairs();
            self.channels.lemma_pairs();
        }
        let n = self.connections.len();
        let mut i: usize = 0;
        while i < n
            invariant
                self.wf(),
                n == self.connections.pairs().len(),
                i <= n,
                forall|j: int, ch: u64|
                    0 <= j < i && (#[trigger] self.connections.pairs()[j].1.channels@.contains(
                        ch,
                    )) ==> self.channels@.contains_key(ch)
                        && self.channels@[ch].connection_ids@.contains(
                        self.connections.pairs()[j].0,
                    ),
            decreases n - i,
        {
            let c = self.connections.key_at(i);
            let chans = self.connections.val_at(i).channels.to_vec();
            proof {
                self.connections.lemma_pairs();
                self.connections.pairs()[i as int].1.channels.lemma_view();
            }
            let m = chans.len();
            let mut k: usize = 0;
            while k < m
                invariant
                    self.wf(),
                    i < n,
                    n == self.connections.pairs().len(),
                    c == self.connections.pairs()[i as int].0,
                    chans@ == self.connections.pairs()[i as int].1.channels.seq(),
                    m == chans@.len(),
                    k <= m,
                    forall|kk: int|
                        0 <= kk < k ==> self.channels@.contains_key(#[trigger] chans@[kk])
                            && self.channels@[chans@[kk]].connection_ids@.contains(c),
                decreases m - k,
            {
                let ch = chans[k];
                let ok = match self.channels.get(ch) {
                    Some(channel) => channel.connection_ids.contains(c),
                    None => false,
                };
                if !ok {
                    proof {
                        self.connections.lemma_pairs();
                        let conn = self.connections.pairs()[i as int].1;
                        conn.channels.lemma_view();
                        assert(conn.channels.seq()[k as int] == ch);
                        assert(conn.channels@.contains(ch));
                        assert(self.connections@.contains_key(c));
                        assert(self.connections@[c] == conn);
                        assert(!self.channels_consistent());
                    }
                    return false;
                }
                k = k + 1;
            }
            proof {
                self.connections.lemma_pairs();
                let conn = self.connections.pairs()[i as int].1;
                conn.channels.lemma_view();
                assert forall|ch: u64|
                    (#[trigger] self.connections.pairs()[i as int].1.channels@.contains(ch))
                        implies self.channels@.contains_key(ch)
                        && self.channels@[ch].connection_ids@.contains(c) by {
                    assert(conn.channels.seq().contains(ch));
                    let kk = choose|kk: int|
                        0 <= kk < conn.channels.seq().len() && conn.channels.seq()[kk] == ch;
                    assert(chans@[kk] == ch);
                }
            }
            i = i + 1;
        }
        let cn = self.channels.len();
        let mut i2: usize = 0;
        while i2 < cn
            invariant
                self.wf(),
                cn == self.channels.pairs().len(),
                i2 <= cn,
                forall|j: int, c: u64|
                    0 <= j < i2 && (
                    #[trigger] self.channels.pairs()[j].1.connection_ids@.contains(c))
                        ==> self.connections@.contains_key(c)
                        && self.connections@[c].channels@.contains(
                        self.channels.pairs()[j].0,
                    ),
                forall|j: int|
                    0 <= j < i2 ==> (#[trigger] self.channels.pairs()[j]).1.connection_ids.seq().len()
                        > 0,
                forall|j: int, ch: u64|
                    0 <= j < self.connections.pairs().len() && (
                    #[trigger] self.connections.pairs()[j].1.channels@.contains(ch))
                        ==> self.channels@.contains_key(ch)
                        && self.channels@[ch].connection_ids@.contains(
                        self.connections.pairs()[j].0,
                    ),
            decreases cn - i2,
        {
            let ch = self.channels.key_at(i2);
            let channel = self.channels.val_at(i2);
            if channel.connection_ids.len() == 0 {
                proof {
                    self.channels.lemma_pairs();
                    channel.connection_ids.lemma_view();
                    assert(self.channels@.contains_key(ch));
                    assert(self.channels@[ch] == *channel);
                    assert(!(exists|c: u64|
                        #[trigger] self.channels@[ch].connection_ids@.contains(c))) by {
                        if exists|c: u64|
                            #[trigger] self.channels@[ch].connection_ids@.contains(c) {
                            let c = choose|c: u64|
                                #[trigger] self.channels@[ch].connection_ids@.contains(c);
                            assert(channel.connection_ids.seq().contains(c));
                        }
                    }
                    assert(!self.channels_consistent());
                }
                return false;
            }
            let members = channel.connection_ids.to_vec();
            proof {
                self.channels.lemma_pairs();
                channel.connection_ids.lemma_view();
            }
            let m = members.len();
            let mut k: usize = 0;
            while k < m
                invariant
                    self.wf(),
                    i2 < cn,
                    cn == self.channels.pairs().len(),
                    ch == self.channels.pairs()[i2 as int].0,
                    *channel == self.channels.pairs()[i2 as int].1,
                    members@ == channel.connection_ids.seq(),
                    m == members@.len(),
                    k <= m,
                    forall|kk: int|
                        0 <= kk < k ==> self.connections@.contains_key(#[trigger] members@[kk])
                            && self.connections@[members@[kk]].channels@.contains(ch),
                decreases m - k,
            {
                let c = members[k];
                let ok = match self.connections.get(c) {
                    Some(conn) => conn.channels.contains(ch),
                    None => false,
                };
                if !ok {
                    proof {
                        self.channels.lemma_pairs();
                        channel.connection_ids.lemma_view();
                        assert(channel.connection_ids.seq()[k as int] == c);
                        assert(channel.connection_ids@.contains(c));
                        assert(self.channels@.contains_key(ch));
                        assert(self.channels@[ch] == *channel);
                        assert(!self.channels_consistent());
                    }
                    return false;
                }
                k = k + 1;
            }
            proof {
                self.channels.lemma_pairs();
                channel.connection_ids.lemma_view();
                assert forall|c: u64|
                    (#[trigger] self.channels.pairs()[i2 as int].1.connection_ids@.contains(c))
                        implies self.connections@.contains_key(c)
                        && self.connections@[c].channels@.contains(ch) by {
                    assert(channel.connection_ids.seq().contains(c));
                    let kk = choose|kk: int|
                        0 <= kk < channel.connection_ids.seq().len()
                            && channel.connection_ids.seq()[kk] == c;
                    assert(members@[kk] == c);
                }
                channel.connection_ids.lemma_view();
                assert(self.channels.pairs()[i2 as int].1.connection_ids.seq().len() > 0);
            }
            i2 = i2 + 1;
        }
        proof {
            self.connections.lemma_pairs();
            self.connections.lemma_dom();
            self.channels.lemma_pairs();
            self.channels.lemma_dom();
            assert forall|c: u64, ch: u64|
                self.connections@.contains_key(c) && (
                #[trigger] self.connections@[c].channels@.contains(ch))
                    implies self.channels@.contains_key(ch)
                    && self.channels@[ch].connection_ids@.contains(c) by {
                assert(self.connections.key_seq().contains(c));
                let j = choose|j: int|
                    0 <= j < self.connections.key_seq().len() && self.connections.key_seq()[j]
                        == c;
                assert(self.connections.pairs()[j].0 == c);
                assert(self.connections.pairs()[j].1 == self.connections@[c]);
            }
            assert forall|ch: u64, c: u64|
                self.channels@.contains_key(ch) && (
                #[trigger] self.channels@[ch].connection_ids@.contains(c))
                    implies self.connections@.contains_key(c)
                    && self.connections@[c].channels@.contains(ch) by {
                assert(self.channels.key_seq().contains(ch));
                let j = choose|j: int|
                    0 <= j < self.channels.key_seq().len() && self.channels.key_seq()[j] == ch;
                assert(self.channels.pairs()[j].0 == ch);
                assert(self.channels.pairs()[j].1 == self.channels@[ch]);
            }
            assert forall|ch: u64| #[trigger] self.channels@.contains_key(ch) implies exists|
                c: u64,
            | #[trigger] self.channels@[ch].connection_ids@.contains(c) by {
                assert(self.channels.key_seq().contains(ch));
                let j = choose|j: int|
                    0 <= j < self.channels.key_seq().len() && self.channels.key_seq()[j] == ch;
                assert(self.channels.pairs()[j].1 == self.channels@[ch]);
                let st = self.channels@[ch].connection_ids;
                st.lemma_view();
                assert(st.seq().len() > 0);
                assert(st@.contains(st.seq()[0]));
            }
        }
        true
    }

    fn check_users(&self) -> (r: bool)
        requires
            self.wf(),
        ensures
            r == self.users_consistent(),
    {
        proof {
            self.connections.lemma_pairs();
            self.connections_by_user_id.lemma_pairs();
        }
        let n = self.connections.len();
        let mut i: usize = 0;
        while i < n
            invariant
                self.wf(),
                n == self.connections.pairs().len(),
                i <= n,
                forall|j: int|
                    0 <= j < i ==> {
                        let c = (#[trigger] self.connections.pairs()[j]).0;
                        let u = self.connections.pairs()[j].1.user_id;
                        self.connections_by_user_id@.contains_key(u)
                            && self.connections_by_user_id@[u].connection_ids@.contains(c)
                    },
            decreases n - i,
        {
            let c = self.connections.key_at(i);
            let u = self.connections.val_at(i).user_id;
            let ok = match self.connections_by_user_id.get(u) {
                Some(state) => state.connection_ids.contains(c),
                None => false,
            };
            if !ok {
                proof {
                    self.connections.lemma_pairs();
                    assert(self.connections@.contains_key(c));
                    assert(self.connections@[c] == self.connections.pairs()[i as int].1);
                    assert(!self.users_consistent());
                }
                return false;
            }
            i = i + 1;
        }
        let un = self.connections_by_user_id.len();
        let mut i2: usize = 0;
        while i2 < un
            invariant
                self.wf(),
                un == self.connections_by_user_id.pairs().len(),
                i2 <= un,
                forall|j: int, c: u64|
                    0 <= j < i2 && (
                    #[trigger] self.connections_by_user_id.pairs()[j].1.connection_ids@.contains(
                        c,
                    )) ==> self.connections@.contains_key(c) && self.connections@[c].user_id
                        == self.connections_by_user_id.pairs()[j].0,
                forall|j: int|
                    0 <= j < i2 ==> (
                    #[trigger] self.connections_by_user_id.pairs()[j]).1.connection_ids.seq().len()
                        > 0,
                forall|j: int|
                    0 <= j < self.connections.pairs().len() ==> {
                        let c = (#[trigger] self.connections.pairs()[j]).0;
                        let u = self.connections.pairs()[j].1.user_id;
                        self.connections_by_user_id@.contains_key(u)
                            && self.connections_by_user_id@[u].connection_ids@.contains(c)
                    },
            decreases un - i2,
        {
            let u = self.connections_by_user_id.key_at(i2);
            let state = self.connections_by_user_id.val_at(i2);
            if state.connection_ids.len() == 0 {
                proof {
                    self.connections_by_user_id.lemma_pairs();
                    state.connection_ids.lemma_view();
                    assert(self.connections_by_user_id@.contains_key(u));
                    assert(self.connections_by_user_id@[u] == *state);
                    assert(!(exists|c: u64|
                        #[trigger] self.connections_by_user_id@[u].connection_ids@.contains(
                            c,
                        ))) by {
                        if exists|c: u64|
                            #[trigger] self.connections_by_user_id@[u].connection_ids@.contains(
                                c,
                            ) {
                            let c = choose|c: u64|
                                #[trigger] self.connections_by_user_id@[u].connection_ids@.contains(
                                    c,
                                );
                            assert(state.connection_ids.seq().contains(c));
                        }
                    }
                    assert(!self.users_consistent());
                }
                return false;
            }
            let members = state.connection_ids.to_vec();
            proof {
                self.connections_by_user_id.lemma_pairs();
                state.connection_ids.lemma_view();
            }
            let m = members.len();
            let mut k: usize = 0;
            while k < m
                invariant
                    self.wf(),
                    i2 < un,
                    un == self.connections_by_user_id.pairs().len(),
                    u == self.connections_by_user_id.pairs()[i2 as int].0,
                    *state == self.connections_by_user_id.pairs()[i2 as int].1,
                    members@ == state.connection_ids.seq(),
                    m == members@.len(),
                    k <= m,
                    forall|kk: int|
                        0 <= kk < k ==> self.connections@.contains_key(#[trigger] members@[kk])
                            && self.connections@[members@[kk]].user_id == u,
                decreases m - k,
            {
                let c = members[k];
                let ok = match self.connections.get(c) {
                    Some(conn) => conn.user_id == u,
                    None => false,
                };
                if !ok {
                    proof {
                        self.connections_by_user_id.lemma_pairs();
                        state.connection_ids.lemma_view();
                        assert(state.connection_ids.seq()[k as int] == c);
                        assert(state.connection_ids@.contains(c));
                        assert(self.connections_by_user_id@.contains_key(u));
                        assert(self.connections_by_user_id@[u] == *state);
                        assert(!self.users_consistent());
                    }
                    return false;
                }
                k = k + 1;
            }
            proof {
                self.connections_by_user_id.lemma_pairs();
                state.connection_ids.lemma_view();
                assert forall|c: u64|
                    (#[trigger] self.connections_by_user_id.pairs()[i2 as int].1.connection_ids@.contains(
                        c,
                    )) implies self.connections@.contains_key(c) && self.connections@[c].user_id
                    == u by {
                    assert(state.connection_ids.seq().contains(c));
                    let kk = choose|kk: int|
                        0 <= kk < state.connection_ids.seq().len()
                            && state.connection_ids.seq()[kk] == c;
                    assert(members@[kk] == c);
                }
                assert(self.connections_by_user_id.pairs()[i2 as int].1.connection_ids.seq().len()
                    > 0);
            }
            i2 = i2 + 1;
        }
        proof {
            self.connections.lemma_pairs();
            self.connections.lemma_dom();
            self.connections_by_user_id.lemma_pairs();
            self.connections_by_user_id.lemma_dom();
            assert forall|c: u64|
                #[trigger] self.connections@.contains_key(c)
                    implies self.connections_by_user_id@.contains_key(
                self.connections@[c].user_id,
            )
                    && self.connections_by_user_id@[self.connections@[c].user_id].connection_ids@.contains(
                c,
            ) by {
                assert(self.connections.key_seq().contains(c));
                let j = choose|j: int|
                    0 <= j < self.connections.key_seq().len() && self.connections.key_seq()[j]
                        == c;
                assert(self.connections.pairs()[j].0 == c);
                assert(self.connections.pairs()[j].1 == self.connections@[c]);
            }
            assert forall|u: u64, c: u64|
                self.connections_by_user_id@.contains_key(u) && (
                #[trigger] self.connections_by_user_id@[u].connection_ids@.contains(c))
                    implies self.connections@.contains_key(c) && self.connections@[c].user_id
                == u by {
                assert(self.connections_by_user_id.key_seq().contains(u));
                let j = choose|j: int|
                    0 <= j < self.connections_by_user_id.key_seq().len()
                        && self.connections_by_user_id.key_seq()[j] == u;
                assert(self.connections_by_user_id.pairs()[j].0 == u);
                assert(self.connections_by_user_id.pairs()[j].1
                    == self.connections_by_user_id@[u]);
            }
            assert forall|u: u64| #[trigger] self.connections_by_user_id@.contains_key(u)
                implies exists|c: u64|
                #[trigger] self.connections_by_user_id@[u].connection_ids@.contains(c) by {
                assert(self.connections_by_user_id.key_seq().contains(u));
                let j = choose|j: int|
                    0 <= j < self.connections_by_user_id.key_seq().len()
                        && self.connections_by_user_id.key_seq()[j] == u;
                assert(self.connections_by_user_id.pairs()[j].1
                    == self.connections_by_user_id@[u]);
                let st = self.connections_by_user_id@[u].connection_ids;
                st.lemma_view();
                assert(st.seq().len() > 0);
                assert(st@.contains(st.seq()[0]));
            }
        }
        true
    }

    fn room_with_participant(&self, user_id: u64) -> (r: bool)
        requires
            self.wf(),
        ensures
            r == exists|rr: u64|
                #[trigger] self.rooms@.contains_key(rr) && room_has_participant(
                    self.rooms@[rr],
                    user_id,
                ),
    {
        proof {
            self.rooms.lemma_pairs();
            self.rooms.lemma_dom();
        }
        let n = self.rooms.len();
        let mut i: usize = 0;
        while i < n
            invariant
                self.wf(),
                n == self.rooms.pairs().len(),
                i <= n,
                forall|j: int|
                    0 <= j < i ==> !room_has_participant(
                        (#[trigger] self.rooms.pairs()[j]).1,
                        user_id,
                    ),
            decreases n - i,
        {
            let room = self.rooms.val_at(i);
            let m = room.participants.len();
            let mut k: usize = 0;
            while k < m
                invariant
                    self.wf(),
                    i < n,
                    n == self.rooms.pairs().len(),
                    *room == self.rooms.pairs()[i as int].1,
                    m == room.participants@.len(),
                    k <= m,
                    forall|kk: int|
                        0 <= kk < k ==> (#[trigger] room.participants@[kk]).user_id != user_id,
                decreases m - k,
            {
                if room.participants[k].user_id == user_id {
                    proof {
                        self.rooms.lemma_pairs();
                        let rr = self.rooms.pairs()[i as int].0;
                        assert(self.rooms@.contains_key(rr));
                        assert(self.rooms@[rr] == *room);
                        assert(room_has_participant(self.rooms@[rr], user_id));
                    }
                    return true;
                }
                k = k + 1;
            }
            proof {
                assert(!room_has_participant(self.rooms.pairs()[i as int].1, user_id));
            }
            i = i + 1;
        }
        proof {
            self.rooms.lemma_pairs();
            self.rooms.lemma_dom();
            assert forall|rr: u64| #[trigger] self.rooms@.contains_key(rr)
                implies !room_has_participant(self.rooms@[rr], user_id) by {
                assert(self.rooms.key_seq().contains(rr));
                let j = choose|j: int|
                    0 <= j < self.rooms.key_seq().len() && self.rooms.key_seq()[j] == rr;
                assert(self.rooms.pairs()[j].0 == rr);
                assert(self.rooms.pairs()[j].1 == self.rooms@[rr]);
            }
        }
        false
    }

    fn check_rooms(&self) -> (r: bool)
        requires
            self.wf(),
        ensures
            r == self.rooms_consistent(),
    {
        proof {
            self.connections_by_user_id.lemma_pairs();
            self.rooms.lemma_pairs();
        }
        let n = self.connections_by_user_id.len();
        let mut i: usize = 0;
        while i < n
            invariant
                self.wf(),
                n == self.connections_by_user_id.pairs().len(),
                i <= n,
                forall|j: int|
                    0 <= j < i ==> {
                        let u = (#[trigger] self.connections_by_user_id.pairs()[j]).0;
                        match self.connections_by_user_id.pairs()[j].1.room {
                            Some(RoomState::Joined) => exists|rr: u64|
                                #[trigger] self.rooms@.contains_key(rr) && room_has_participant(
                                    self.rooms@[rr],
                                    u,
                                ),
                            Some(RoomState::Calling { room_id }) => self.rooms@.contains_key(
                                room_id,
                            ) && self.rooms@[room_id].pending_user_ids@.contains(u),
                            None => true,
                        }
                    },
            decreases n - i,
        {
            let u = self.connections_by_user_id.key_at(i);
            let state = self.connections_by_user_id.val_at(i);
            let ok = match state.room {
                Some(RoomState::Joined) => self.room_with_participant(u),
                Some(RoomState::Calling { room_id }) => match self.rooms.get(room_id) {
                    Some(room) => crate::store::contains_id(&room.pending_user_ids, u),
                    None => false,
                },
                None => true,
            };
            if !ok {
                proof {
                    self.connections_by_user_id.lemma_pairs();
                    assert(self.connections_by_user_id@.contains_key(u));
                    assert(self.connections_by_user_id@[u] == *state);
                    assert(!self.rooms_consistent());
                }
                return false;
            }
            i = i + 1;
        }
        let rn = self.rooms.len();
        let mut i2: usize = 0;
        while i2 < rn
            invariant
                self.wf(),
                rn == self.rooms.pairs().len(),
                i2 <= rn,
                forall|j: int|
                    0 <= j < i2 ==> (#[trigger] self.rooms.pairs()[j]).0 < self.next_room_id,
                forall|j: int|
                    0 <= j < self.connections_by_user_id.pairs().len() ==> {
                        let u = (#[trigger] self.connections_by_user_id.pairs()[j]).0;
                        match self.connections_by_user_id.pairs()[j].1.room {
                            Some(RoomState::Joined) => exists|rr: u64|
                                #[trigger] self.rooms@.contains_key(rr) && room_has_participant(
                                    self.rooms@[rr],
                                    u,
                                ),
                            Some(RoomState::Calling { room_id }) => self.rooms@.contains_key(
                                room_id,
                            ) && self.rooms@[room_id].pending_user_ids@.contains(u),
                            None => true,
                        }
                    },
            decreases rn - i2,
        {
            let rr = self.rooms.key_at(i2);
            if !(rr < self.next_room_id) {
                proof {
                    self.rooms.lemma_pairs();
                    assert(self.rooms@.contains_key(rr));
                    assert(!self.rooms_consistent());
                }
                return false;
            }
            i2 = i2 + 1;
        }
        proof {
            self.connections_by_user_id.lemma_pairs();
            self.connections_by_user_id.lemma_dom();
            self.rooms.lemma_pairs();
            self.rooms.lemma_dom();
            assert forall|u: u64|
                self.connections_by_user_id@.contains_key(u) implies (match (
            #[trigger] self.connections_by_user_id@[u]).room {
                Some(RoomState::Joined) => exists|rr: u64|
                    #[trigger] self.rooms@.contains_key(rr) && room_has_participant(
                        self.rooms@[rr],
                        u,
                    ),
                Some(RoomState::Calling { room_id }) => self.rooms@.contains_key(room_id)
                    && self.rooms@[room_id].pending_user_ids@.contains(u),
                None => true,
            }) by {
                assert(self.connections_by_user_id.key_seq().contains(u));
                let j = choose|j: int|
                    0 <= j < self.connections_by_user_id.key_seq().len()
                        && self.connections_by_user_id.key_seq()[j] == u;
                assert(self.connections_by_user_id.pairs()[j].0 == u);
                assert(self.connections_by_user_id.pairs()[j].1
                    == self.connections_by_user_id@[u]);
            }
            assert forall|rr: u64| #[trigger] self.rooms@.contains_key(rr) implies rr
                < self.next_room_id by {
                assert(self.rooms.key_seq().contains(rr));
                let j = choose|j: int|
                    0 <= j < self.rooms.key_seq().len() && self.rooms.key_seq()[j] == rr;
                assert(self.rooms.pairs()[j].0 == rr);
            }
        }
        true
    }

    fn check_paths(&self) -> (r: bool)
        requires
            self.wf(),
        ensures
            r == self.paths_ok(),
    {
        proof {
            self.projects.lemma_pairs();
        }
        let n = self.projects.len();
        let mut i: usize = 0;
        while i < n
            invariant
                self.wf(),
                n == self.projects.pairs().len(),
                i <= n,
                forall|j: int, w: u64|
                    0 <= j < i && (#[trigger] self.projects.pairs()[j].1.worktrees@.contains_key(
                        w,
                    )) ==> self.projects.pairs()[j].1.worktrees@[w].paths_unique(),
            decreases n - i,
        {
            let project = self.projects.val_at(i);
            proof {
                self.projects.lemma_pairs();
                assert(self.projects@.contains_key(self.projects.pairs()[i as int].0));
                assert(self.projects@[self.projects.pairs()[i as int].0].wf());
            }
            let wn = project.worktrees.len();
            let mut k: usize = 0;
            while k < wn
                invariant
                    self.wf(),
                    i < n,
                    n == self.projects.pairs().len(),
                    *project == self.projects.pairs()[i as int].1,
                    project.worktrees.wf(),
                    forall|w: u64|
                        project.worktrees@.contains_key(w) ==> (
                        #[trigger] project.worktrees@[w]).wf(),
                    wn == project.worktrees.pairs().len(),
                    k <= wn,
                    forall|kk: int|
                        0 <= kk < k ==> (
                        #[trigger] project.worktrees.pairs()[kk]).1.paths_unique(),
                decreases wn - k,
            {
                let worktree = project.worktrees.val_at(k);
                proof {
                    project.worktrees.lemma_pairs();
                    assert(project.worktrees@.contains_key(project.worktrees.pairs()[k as int].0));
                    assert(project.worktrees@[project.worktrees.pairs()[k as int].0].wf());
                }
                if !crate::store::worktree_paths_unique(worktree) {
                    proof {
                        self.projects.lemma_pairs();
                        project.worktrees.lemma_pairs();
                        let pid = self.projects.pairs()[i as int].0;
                        let wid = project.worktrees.pairs()[k as int].0;
                        assert(self.projects@.contains_key(pid));
                        assert(self.projects@[pid] == *project);
                        assert(project.worktrees@.contains_key(wid));
                        assert(project.worktrees@[wid] == *worktree);
                        assert(!self.paths_ok());
                    }
                    return false;
                }
                k = k + 1;
            }
            proof {
                project.worktrees.lemma_pairs();
                project.worktrees.lemma_dom();
                assert forall|w: u64|
                    (#[trigger] self.projects.pairs()[i as int].1.worktrees@.contains_key(w))
                        implies self.projects.pairs()[i as int].1.worktrees@[w].paths_unique()
                    by {
                    assert(project.worktrees.key_seq().contains(w));
                    let kk = choose|kk: int|
                        0 <= kk < project.worktrees.key_seq().len()
                            && project.worktrees.key_seq()[kk] == w;
                    assert(project.worktrees.pairs()[kk].0 == w);
                    assert(project.worktrees.pairs()[kk].1 == project.worktrees@[w]);
                }
            }
            i = i + 1;
        }
        proof {
            self.projects.lemma_pairs();
            self.projects.lemma_dom();
            assert forall|p: u64, w: u64|
                self.projects@.contains_key(p) && (
                #[trigger] self.projects@[p].worktrees@.contains_key(w))
                    implies self.projects@[p].worktrees@[w].paths_unique() by {
                assert(self.projects.key_seq().contains(p));
                let j = choose|j: int|
                    0 <= j < self.projects.key_seq().len() && self.projects.key_seq()[j] == p;
                assert(self.projects.pairs()[j].0 == p);
                assert(self.projects.pairs()[j].1 == self.projects@[p]);
            }
        }
        true
    }

    /// Walks every table and decides whether the cross-table links and the
    /// worktree path uniqueness hold, exactly as the store's own invariant
    /// states them.
    pub fn check_invariants(&self) -> (r: bool)
        requires
            self.wf(),
        ensures
            r == (self.links_ok() && self.paths_ok()),
    {
        self.check_connection_projects() && self.check_project_members() && self.check_replicas()
            && self.check_channels() && self.check_users() && self.check_rooms()
            && self.check_paths()
    }
}

} // verus!
