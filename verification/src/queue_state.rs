//! The queue state: one role pool per configured role plus the composition
//! requirement, with the join, leave and try-form-group operations.
//!
//! Every operation is specified against a mathematical model of the state
//! (`PoolsModel`) and a pure transition function (`join_model`, `leave_model`,
//! `drained`/`extracted`), so that laws about sequences of calls can be proved
//! once about the model and carried to the executable code by the contracts.
//!
//! The engine itself is single-threaded; callers that serve concurrent
//! requests must run every operation, reads included, inside one exclusive
//! section covering the whole state, so that the mutate-then-check step of
//! `join` is indivisible.

use vstd::prelude::*;
use crate::participant::{Participant, Roles, role_of_name};
use crate::pool::{Pool, has_id, unique_ids, remove_id, labels_of, label_views};

verus! {

/// The composition requirement: how many participants of each role form one
/// group. Immutable after startup.
#[derive(Clone, Copy, PartialEq, Eq, Structural, Debug)]
pub struct Requirement {
    pub tank: usize,
    pub healer: usize,
    pub dps: usize,
}

impl Requirement {
    /// The required count of one role.
    pub open spec fn spec_required(self, role: Roles) -> usize {
        match role {
            Roles::Tank => self.tank,
            Roles::Healer => self.healer,
            Roles::DPS => self.dps,
        }
    }

    /// The required count of one role.
    pub fn required(&self, role: Roles) -> (n: usize)
        ensures
            n == self.spec_required(role),
    {
        match role {
            Roles::Tank => self.tank,
            Roles::Healer => self.healer,
            Roles::DPS => self.dps,
        }
    }
}

/// The mathematical model of the pools: one sequence of waiting participants
/// per role, oldest first. It also models a formed group, which has the same
/// shape: one batch of extracted participants per role.
#[verifier::ext_equal]
pub struct PoolsModel {
    pub tank: Seq<Participant>,
    pub healer: Seq<Participant>,
    pub dps: Seq<Participant>,
}

/// The model of a queue state with no one waiting.
pub open spec fn empty_model() -> PoolsModel {
    PoolsModel { tank: Seq::empty(), healer: Seq::empty(), dps: Seq::empty() }
}

/// The pool of one role.
pub open spec fn pool_of(m: PoolsModel, role: Roles) -> Seq<Participant> {
    match role {
        Roles::Tank => m.tank,
        Roles::Healer => m.healer,
        Roles::DPS => m.dps,
    }
}

/// The model with the pool of one role replaced.
pub open spec fn with_pool(m: PoolsModel, role: Roles, s: Seq<Participant>) -> PoolsModel {
    match role {
        Roles::Tank => PoolsModel { tank: s, ..m },
        Roles::Healer => PoolsModel { healer: s, ..m },
        Roles::DPS => PoolsModel { dps: s, ..m },
    }
}

/// No identity appears at a position of `a` and a position of `b`.
pub open spec fn disjoint_ids(a: Seq<Participant>, b: Seq<Participant>) -> bool {
    forall|i: int, j: int| 0 <= i < a.len() && 0 <= j < b.len() ==> a[i].id != b[j].id
}

/// Well-formedness of the state: within each pool every identity occurs at
/// most once, and no identity waits in two pools at once.
pub open spec fn wf_model(m: PoolsModel) -> bool {
    &&& unique_ids(m.tank)
    &&& unique_ids(m.healer)
    &&& unique_ids(m.dps)
    &&& disjoint_ids(m.tank, m.healer)
    &&& disjoint_ids(m.tank, m.dps)
    &&& disjoint_ids(m.healer, m.dps)
}

/// The role whose pool holds identity `id`, if any.
pub open spec fn queued_role(m: PoolsModel, id: u64) -> Option<Roles> {
    if has_id(m.tank, id) {
        Some(Roles::Tank)
    } else if has_id(m.healer, id) {
        Some(Roles::Healer)
    } else if has_id(m.dps, id) {
        Some(Roles::DPS)
    } else {
        None
    }
}

/// Every role pool simultaneously holds at least its required count.
pub open spec fn meets(m: PoolsModel, req: Requirement) -> bool {
    &&& m.tank.len() >= req.tank
    &&& m.healer.len() >= req.healer
    &&& m.dps.len() >= req.dps
}

/// What group formation extracts: the oldest required count of each role.
pub open spec fn extracted(m: PoolsModel, req: Requirement) -> PoolsModel {
    PoolsModel {
        tank: m.tank.take(req.tank as int),
        healer: m.healer.take(req.healer as int),
        dps: m.dps.take(req.dps as int),
    }
}

/// What group formation leaves behind: each pool minus its oldest required
/// count, order kept.
pub open spec fn drained(m: PoolsModel, req: Requirement) -> PoolsModel {
    PoolsModel {
        tank: m.tank.skip(req.tank as int),
        healer: m.healer.skip(req.healer as int),
        dps: m.dps.skip(req.dps as int),
    }
}

/// The abstract outcome of a join.
pub enum JoinOutcome {
    /// Appended to the requested pool; no group formed.
    Joined,
    /// Appended, and that made every pool meet its requirement: the extracted
    /// group is carried here.
    Formed(PoolsModel),
    /// The identity already waits in the named role's pool; nothing changed.
    AlreadyQueued(Roles),
}

/// The transition of one join: reject a duplicate identity wherever it waits;
/// otherwise append at the tail of the requested pool and, if every pool now
/// meets its requirement, extract one group at once.
pub open spec fn join_model(m: PoolsModel, req: Requirement, p: Participant, role: Roles) -> (
    PoolsModel,
    JoinOutcome,
) {
    match queued_role(m, p.id) {
        Some(r) => (m, JoinOutcome::AlreadyQueued(r)),
        None => {
            let m1 = with_pool(m, role, pool_of(m, role).push(p));
            if meets(m1, req) {
                (drained(m1, req), JoinOutcome::Formed(extracted(m1, req)))
            } else {
                (m1, JoinOutcome::Joined)
            }
        },
    }
}

/// The transition of one leave: the identity is removed from every pool that
/// holds it (at most one, in a well-formed state); absent identities are a
/// no-op.
pub open spec fn leave_model(m: PoolsModel, id: u64) -> PoolsModel {
    PoolsModel {
        tank: remove_id(m.tank, id),
        healer: remove_id(m.healer, id),
        dps: remove_id(m.dps, id),
    }
}

/// Appending one participant keeps per-pool uniqueness, provided the
/// identity is not waiting there already.
proof fn lemma_unique_push(s: Seq<Participant>, p: Participant)
    requires
        unique_ids(s),
        !has_id(s, p.id),
    ensures
        unique_ids(s.push(p)),
{
    let sp = s.push(p);
    assert forall|i: int, j: int| 0 <= i < j < sp.len() implies sp[i].id != sp[j].id by {
        if j < sp.len() - 1 {
            assert(s[i].id != s[j].id);
        } else {
            assert(sp[j] == p);
            if sp[i].id == p.id {
                assert(s[i].id == p.id);
                assert(has_id(s, p.id));
            }
        }
    }
}

/// Appending to the left pool keeps two pools disjoint, provided the right
/// pool does not hold the identity.
proof fn lemma_disjoint_push_left(a: Seq<Participant>, b: Seq<Participant>, p: Participant)
    requires
        disjoint_ids(a, b),
        !has_id(b, p.id),
    ensures
        disjoint_ids(a.push(p), b),
{
    let ap = a.push(p);
    assert forall|i: int, j: int| 0 <= i < ap.len() && 0 <= j < b.len() implies ap[i].id
        != b[j].id by {
        if i < ap.len() - 1 {
            assert(a[i].id != b[j].id);
        } else {
            assert(ap[i] == p);
            if b[j].id == p.id {
                assert(has_id(b, p.id));
            }
        }
    }
}

/// Appending to the right pool keeps two pools disjoint, provided the left
/// pool does not hold the identity.
proof fn lemma_disjoint_push_right(a: Seq<Participant>, b: Seq<Participant>, p: Participant)
    requires
        disjoint_ids(a, b),
        !has_id(a, p.id),
    ensures
        disjoint_ids(a, b.push(p)),
{
    let bp = b.push(p);
    assert forall|i: int, j: int| 0 <= i < a.len() && 0 <= j < bp.len() implies a[i].id
        != bp[j].id by {
        if j < bp.len() - 1 {
            assert(a[i].id != b[j].id);
        } else {
            assert(bp[j] == p);
            if a[i].id == p.id {
                assert(has_id(a, p.id));
            }
        }
    }
}

/// Appending a fresh identity to one pool keeps the state well formed.
pub proof fn lemma_append_wf(m: PoolsModel, p: Participant, role: Roles)
    requires
        wf_model(m),
        queued_role(m, p.id) is None,
    ensures
        wf_model(with_pool(m, role, pool_of(m, role).push(p))),
{
    assert(!has_id(m.tank, p.id));
    assert(!has_id(m.healer, p.id));
    assert(!has_id(m.dps, p.id));
    lemma_unique_push(pool_of(m, role), p);
    match role {
        Roles::Tank => {
            lemma_disjoint_push_left(m.tank, m.healer, p);
            lemma_disjoint_push_left(m.tank, m.dps, p);
        },
        Roles::Healer => {
            lemma_disjoint_push_right(m.tank, m.healer, p);
            lemma_disjoint_push_left(m.healer, m.dps, p);
        },
        Roles::DPS => {
            lemma_disjoint_push_right(m.tank, m.dps, p);
            lemma_disjoint_push_right(m.healer, m.dps, p);
        },
    }
}

/// Dropping a prefix of a pool keeps it duplicate-free.
proof fn lemma_unique_skip(s: Seq<Participant>, n: int)
    requires
        unique_ids(s),
        0 <= n <= s.len(),
    ensures
        unique_ids(s.skip(n)),
{
    assert forall|i: int, j: int| 0 <= i < j < s.skip(n).len() implies s.skip(n)[i].id != s.skip(
        n,
    )[j].id by {
        assert(s.skip(n)[i] == s[i + n]);
        assert(s.skip(n)[j] == s[j + n]);
    }
}

/// Dropping prefixes of two pools keeps them disjoint.
proof fn lemma_disjoint_skip(a: Seq<Participant>, b: Seq<Participant>, n: int, k: int)
    requires
        disjoint_ids(a, b),
        0 <= n <= a.len(),
        0 <= k <= b.len(),
    ensures
        disjoint_ids(a.skip(n), b.skip(k)),
{
    assert forall|i: int, j: int| 0 <= i < a.skip(n).len() && 0 <= j < b.skip(k).len() implies a.skip(
        n,
    )[i].id != b.skip(k)[j].id by {
        assert(a.skip(n)[i] == a[i + n]);
        assert(b.skip(k)[j] == b[j + k]);
    }
}

/// Dropping a prefix of every pool keeps the state well formed.
pub proof fn lemma_drained_wf(m: PoolsModel, req: Requirement)
    requires
        wf_model(m),
        meets(m, req),
    ensures
        wf_model(drained(m, req)),
{
    lemma_unique_skip(m.tank, req.tank as int);
    lemma_unique_skip(m.healer, req.healer as int);
    lemma_unique_skip(m.dps, req.dps as int);
    lemma_disjoint_skip(m.tank, m.healer, req.tank as int, req.healer as int);
    lemma_disjoint_skip(m.tank, m.dps, req.tank as int, req.dps as int);
    lemma_disjoint_skip(m.healer, m.dps, req.healer as int, req.dps as int);
}

/// What one join returns and leaves behind, related to the model transition.
pub open spec fn join_matches(
    m: PoolsModel,
    req: Requirement,
    p: Participant,
    role: Roles,
    m2: PoolsModel,
    r: JoinResult,
) -> bool {
    {
        let step = join_model(m, req, p, role);
        &&& m2 == step.0
        &&& match r {
            JoinResult::Joined => step.1 is Joined,
            JoinResult::JoinedAndGroupFormed(g) => step.1 matches JoinOutcome::Formed(gm)
                && g@ == gm,
            JoinResult::AlreadyQueued(a) => step.1 matches JoinOutcome::AlreadyQueued(b) && a == b,
            JoinResult::InvalidRole => false,
        }
    }
}

/// A formed group: for each role, the participants extracted for it, oldest
/// first, exactly the required count. Ephemeral: it is returned to the caller
/// and not retained in the state.
pub struct FormedGroup {
    pub tank: Vec<Participant>,
    pub healer: Vec<Participant>,
    pub dps: Vec<Participant>,
}

impl View for FormedGroup {
    type V = PoolsModel;

    open spec fn view(&self) -> PoolsModel {
        PoolsModel { tank: self.tank@, healer: self.healer@, dps: self.dps@ }
    }
}

/// What a join request returns.
pub enum JoinResult {
    /// Appended to the requested pool; the composition is not yet complete.
    Joined,
    /// Appended, and the composition became complete: one group was formed
    /// and extracted at the same moment.
    JoinedAndGroupFormed(FormedGroup),
    /// The identity already waits in the named role's pool; nothing changed.
    AlreadyQueued(Roles),
    /// The requested role names no configured role; nothing changed.
    InvalidRole,
}

/// A consistent read-only view of the pools: the display labels per role,
/// oldest first.
pub struct Snapshot {
    pub tank: Vec<String>,
    pub healer: Vec<String>,
    pub dps: Vec<String>,
}

/// The queue state: one pool per role plus the immutable composition
/// requirement.
pub struct QueueState {
    requirement: Requirement,
    tank: Pool,
    healer: Pool,
    dps: Pool,
}

impl View for QueueState {
    type V = PoolsModel;

    closed spec fn view(&self) -> PoolsModel {
        PoolsModel { tank: self.tank@, healer: self.healer@, dps: self.dps@ }
    }
}

impl QueueState {
    /// The configured composition requirement.
    pub closed spec fn spec_requirement(self) -> Requirement {
        self.requirement
    }

    /// Well-formedness: the duplicate-prevention invariant over all pools.
    pub open spec fn wf(self) -> bool {
        wf_model(self@)
    }

    /// A fresh queue state: the given requirement, all pools empty.
    pub fn new(requirement: Requirement) -> (r: QueueState)
        ensures
            r@ == empty_model(),
            r.spec_requirement() == requirement,
            r.wf(),
    {
        let r = QueueState { requirement, tank: Pool::new(), healer: Pool::new(), dps: Pool::new() };
        proof {
            assert(r@ =~= empty_model());
        }
        r
    }

    /// The configured composition requirement.
    pub fn requirement(&self) -> (r: Requirement)
        ensures
            r == self.spec_requirement(),
    {
        self.requirement
    }

    /// How many participants wait in the pool of one role.
    pub fn pool_len(&self, role: Roles) -> (n: usize)
        ensures
            n == pool_of(self@, role).len(),
    {
        match role {
            Roles::Tank => self.tank.size(),
            Roles::Healer => self.healer.size(),
            Roles::DPS => self.dps.size(),
        }
    }

    /// The role an identity currently waits for, if any.
    pub fn queued_role_of(&self, id: u64) -> (r: Option<Roles>)
        ensures
            r == queued_role(self@, id),
    {
        if self.tank.contains(id) {
            Some(Roles::Tank)
        } else if self.healer.contains(id) {
            Some(Roles::Healer)
        } else if self.dps.contains(id) {
            Some(Roles::DPS)
        } else {
            None
        }
    }

    /// If every pool holds at least its required count, extracts the oldest
    /// required count of each role as one formed group, all pools at once;
    /// otherwise changes nothing and returns `None`.
    pub fn try_form_group(&mut self) -> (r: Option<FormedGroup>)
        requires
            old(self).wf(),
        ensures
            final(self).wf(),
            final(self).spec_requirement() == old(self).spec_requirement(),
            meets(old(self)@, old(self).spec_requirement()) ==> (r matches Some(g) && g@
                == extracted(old(self)@, old(self).spec_requirement()) && final(self)@ == drained(
                old(self)@,
                old(self).spec_requirement(),
            )),
            !meets(old(self)@, old(self).spec_requirement()) ==> r is None && final(self)@ == old(
                self,
            )@,
    {
        let nt = self.requirement.tank;
        let nh = self.requirement.healer;
        let nd = self.requirement.dps;
        if self.tank.size() >= nt && self.healer.size() >= nh && self.dps.size() >= nd {
            let ghost m0 = self@;
            let gt = self.tank.pop_oldest(nt);
            let gh = self.healer.pop_oldest(nh);
            let gd = self.dps.pop_oldest(nd);
            let g = FormedGroup { tank: gt, healer: gh, dps: gd };
            proof {
                lemma_drained_wf(m0, old(self).spec_requirement());
                assert(g@ =~= extracted(m0, old(self).spec_requirement()));
                assert(self@ =~= drained(m0, old(self).spec_requirement()));
            }
            Some(g)
        } else {
            proof {
                assert(self@ =~= old(self)@);
            }
            None
        }
    }

    /// One join request: validates the duplicate-prevention rule, appends the
    /// participant at the tail of the requested role's pool, and evaluates
    /// group formation in the same indivisible step, so that the check sees
    /// the just-added participant.
    pub fn join(&mut self, p: Participant, role: Roles) -> (r: JoinResult)
        requires
            old(self).wf(),
        ensures
            final(self).wf(),
            final(self).spec_requirement() == old(self).spec_requirement(),
            join_matches(old(self)@, old(self).spec_requirement(), p, role, final(self)@, r),
            !(r is InvalidRole),
    {
        let ghost m0 = self@;
        let ghost req = self.requirement;
        match self.queued_role_of(p.id) {
            Some(where_queued) => JoinResult::AlreadyQueued(where_queued),
            None => {
                let ghost pp = p;
                match role {
                    Roles::Tank => self.tank.append(p),
                    Roles::Healer => self.healer.append(p),
                    Roles::DPS => self.dps.append(p),
                }
                proof {
                    assert(self@ =~= with_pool(m0, role, pool_of(m0, role).push(pp)));
                    lemma_append_wf(m0, pp, role);
                }
                match self.try_form_group() {
                    Some(g) => JoinResult::JoinedAndGroupFormed(g),
                    None => JoinResult::Joined,
                }
            },
        }
    }

    /// One join request arriving with a role name instead of a role: an
    /// unrecognized name is rejected with `InvalidRole` and changes nothing;
    /// otherwise this is `join` of a participant with that identity and label.
    pub fn join_by_name(&mut self, id: u64, label: String, role_name: String) -> (r: JoinResult)
        requires
            old(self).wf(),
        ensures
            final(self).wf(),
            final(self).spec_requirement() == old(self).spec_requirement(),
            match role_of_name(role_name@) {
                None => r is InvalidRole && final(self)@ == old(self)@,
                Some(role) => join_matches(
                    old(self)@,
                    old(self).spec_requirement(),
                    (Participant { id, label: label }),
                    role,
                    final(self)@,
                    r,
                ),
            },
    {
        match crate::participant::string_to_role(role_name) {
            Some(role) => self.join(Participant { id, label }, role),
            None => JoinResult::InvalidRole,
        }
    }

    /// One leave request: removes the identity from every pool that holds it;
    /// absent identities are a no-op. Returns whether anything was removed.
    pub fn leave(&mut self, id: u64) -> (removed: bool)
        requires
            old(self).wf(),
        ensures
            final(self).wf(),
            final(self).spec_requirement() == old(self).spec_requirement(),
            final(self)@ == leave_model(old(self)@, id),
            removed == (queued_role(old(self)@, id) is Some),
    {
        let ghost m0 = self@;
        let a = self.tank.remove_by_identity(id);
        let b = self.healer.remove_by_identity(id);
        let c = self.dps.remove_by_identity(id);
        proof {
            assert(self@ =~= leave_model(m0, id));
            crate::pool::lemma_remove_id_props(m0.tank, id);
            crate::pool::lemma_remove_id_props(m0.healer, id);
            crate::pool::lemma_remove_id_props(m0.dps, id);
            lemma_leave_wf(m0, id);
        }
        a || b || c
    }

    /// A read-only view for display: the labels waiting per role, oldest
    /// first. Never mutates; callers serving concurrent requests must still
    /// take it inside the exclusive section, so it cannot observe a
    /// half-applied join or extraction.
    pub fn snapshot(&self) -> (r: Snapshot)
        ensures
            label_views(r.tank@) == labels_of(self@.tank),
            label_views(r.healer@) == labels_of(self@.healer),
            label_views(r.dps@) == labels_of(self@.dps),
    {
        Snapshot { tank: self.tank.labels(), healer: self.healer.labels(), dps: self.dps.labels() }
    }
}

/// Removing one identity from both keeps two pools disjoint.
proof fn lemma_disjoint_remove(a: Seq<Participant>, b: Seq<Participant>, id: u64)
    requires
        disjoint_ids(a, b),
    ensures
        disjoint_ids(remove_id(a, id), remove_id(b, id)),
{
    let ra = remove_id(a, id);
    let rb = remove_id(b, id);
    assert forall|i: int, j: int| 0 <= i < ra.len() && 0 <= j < rb.len() implies ra[i].id
        != rb[j].id by {
        crate::pool::lemma_remove_id_props(a, id);
        crate::pool::lemma_remove_id_props(b, id);
        let x = ra[i].id;
        let y = rb[j].id;
        assert(has_id(ra, x));
        assert(has_id(rb, y));
        if x == y {
            assert(x != id);
            assert(has_id(a, x));
            assert(has_id(b, y));
            let ia = choose|k: int| 0 <= k < a.len() && a[k].id == x;
            let ib = choose|k: int| 0 <= k < b.len() && b[k].id == y;
            assert(a[ia].id != b[ib].id);
        }
    }
}

/// Removing one identity everywhere keeps the state well formed.
proof fn lemma_leave_wf(m: PoolsModel, id: u64)
    requires
        wf_model(m),
    ensures
        wf_model(leave_model(m, id)),
{
    crate::pool::lemma_remove_id_props(m.tank, id);
    crate::pool::lemma_remove_id_props(m.healer, id);
    crate::pool::lemma_remove_id_props(m.dps, id);
    lemma_disjoint_remove(m.tank, m.healer, id);
    lemma_disjoint_remove(m.tank, m.dps, id);
    lemma_disjoint_remove(m.healer, m.dps, id);
}

} // verus!
