//! The laws of the matchmaking engine, proved once against the model
//! transitions that the executable operations are specified by.

use vstd::prelude::*;
use crate::participant::{Participant, Roles};
use crate::pool::{
    has_id, count_id, lemma_count_id_props, lemma_remove_id_props, lemma_has_id_push,
};
use crate::queue_state::{
    PoolsModel, Requirement, JoinOutcome, wf_model, queued_role, pool_of, with_pool, meets,
    join_model, leave_model, empty_model, lemma_append_wf,
};

verus! {

/// How many participants wait in the whole state.
pub open spec fn total_len(m: PoolsModel) -> nat {
    m.tank.len() + m.healer.len() + m.dps.len()
}

/// In a well-formed state no identity waits in two pools at once.
pub proof fn lemma_at_most_one_pool(m: PoolsModel, id: u64)
    requires
        wf_model(m),
    ensures
        !(has_id(m.tank, id) && has_id(m.healer, id)),
        !(has_id(m.tank, id) && has_id(m.dps, id)),
        !(has_id(m.healer, id) && has_id(m.dps, id)),
{
    if has_id(m.tank, id) && has_id(m.healer, id) {
        let i = choose|i: int| 0 <= i < m.tank.len() && m.tank[i].id == id;
        let j = choose|j: int| 0 <= j < m.healer.len() && m.healer[j].id == id;
        assert(m.tank[i].id != m.healer[j].id);
    }
    if has_id(m.tank, id) && has_id(m.dps, id) {
        let i = choose|i: int| 0 <= i < m.tank.len() && m.tank[i].id == id;
        let j = choose|j: int| 0 <= j < m.dps.len() && m.dps[j].id == id;
        assert(m.tank[i].id != m.dps[j].id);
    }
    if has_id(m.healer, id) && has_id(m.dps, id) {
        let i = choose|i: int| 0 <= i < m.healer.len() && m.healer[i].id == id;
        let j = choose|j: int| 0 <= j < m.dps.len() && m.dps[j].id == id;
        assert(m.healer[i].id != m.dps[j].id);
    }
}

/// No duplicate membership: in a well-formed queue state — and every state
/// the operations produce is well formed, by their contracts — a participant
/// identity occurs at most once across all role pools together.
pub proof fn lemma_no_duplicate_membership(m: PoolsModel, id: u64)
    requires
        wf_model(m),
    ensures
        count_id(m.tank, id) + count_id(m.healer, id) + count_id(m.dps, id) <= 1,
{
    lemma_count_id_props(m.tank, id);
    lemma_count_id_props(m.healer, id);
    lemma_count_id_props(m.dps, id);
    lemma_at_most_one_pool(m, id);
}

/// Idempotent duplicate join: when a join of `p` was acknowledged with a
/// plain `Joined`, joining `p` again for the same role, with no leave in
/// between, is rejected as already queued for that role, changes nothing,
/// and the requested pool has grown by exactly one entry over the state
/// before the first join.
pub proof fn lemma_idempotent_duplicate_join(
    m: PoolsModel,
    req: Requirement,
    p: Participant,
    role: Roles,
)
    requires
        wf_model(m),
        join_model(m, req, p, role).1 is Joined,
    ensures
        join_model(join_model(m, req, p, role).0, req, p, role).1 == JoinOutcome::AlreadyQueued(
            role,
        ),
        join_model(join_model(m, req, p, role).0, req, p, role).0 == join_model(m, req, p, role).0,
        pool_of(join_model(m, req, p, role).0, role).len() == pool_of(m, role).len() + 1,
{
    let m1 = join_model(m, req, p, role).0;
    assert(queued_role(m, p.id) is None);
    assert(m1 == with_pool(m, role, pool_of(m, role).push(p)));
    lemma_has_id_push(pool_of(m, role), p, p.id);
    assert(has_id(pool_of(m1, role), p.id));
    assert(queued_role(m1, p.id) == Some(role)) by {
        match role {
            Roles::Tank => {
            },
            Roles::Healer => {
                assert(!has_id(m1.tank, p.id));
            },
            Roles::DPS => {
                assert(!has_id(m1.tank, p.id));
                assert(!has_id(m1.healer, p.id));
            },
        }
    }
}

/// Leave removes exactly one entry: leaving removes the identity's single
/// entry from the one pool that holds it and touches no other pool; leaving
/// an identity that is not waiting changes nothing, and leaving twice is a
/// no-op the second time.
pub proof fn lemma_leave_removes_exactly_one(m: PoolsModel, id: u64)
    requires
        wf_model(m),
    ensures
        queued_role(m, id) is Some ==> total_len(leave_model(m, id)) == total_len(m) - 1,
        queued_role(m, id) is None ==> leave_model(m, id) == m,
        queued_role(leave_model(m, id), id) is None,
        leave_model(leave_model(m, id), id) == leave_model(m, id),
        forall|r: Roles|
            queued_role(m, id) != Some(r) ==> pool_of(leave_model(m, id), r) == pool_of(m, r),
{
    lemma_remove_id_props(m.tank, id);
    lemma_remove_id_props(m.healer, id);
    lemma_remove_id_props(m.dps, id);
    lemma_at_most_one_pool(m, id);
    let l = leave_model(m, id);
    lemma_remove_id_props(l.tank, id);
    lemma_remove_id_props(l.healer, id);
    lemma_remove_id_props(l.dps, id);
    assert(leave_model(l, id) =~= l);
    if queued_role(m, id) is None {
        assert(l =~= m);
    }
    assert forall|r: Roles| queued_role(m, id) != Some(r) implies pool_of(l, r) == pool_of(
        m,
        r,
    ) by {
        match r {
            Roles::Tank => {
                assert(!has_id(m.tank, id));
            },
            Roles::Healer => {
                assert(!has_id(m.healer, id));
            },
            Roles::DPS => {
                assert(!has_id(m.dps, id));
            },
        }
    }
}

/// How many of the calls request the given role.
pub open spec fn count_role(calls: Seq<(Participant, Roles)>, role: Roles) -> nat
    decreases calls.len(),
{
    if calls.len() == 0 {
        0
    } else {
        (if calls[0].1 == role {
            1nat
        } else {
            0nat
        }) + count_role(calls.drop_first(), role)
    }
}

/// The state left behind by a sequence of join calls, served one after the
/// other, as the exclusive section serializes concurrent callers.
pub open spec fn apply_joins(
    m: PoolsModel,
    req: Requirement,
    calls: Seq<(Participant, Roles)>,
) -> PoolsModel
    decreases calls.len(),
{
    if calls.len() == 0 {
        m
    } else {
        apply_joins(join_model(m, req, calls[0].0, calls[0].1).0, req, calls.drop_first())
    }
}

/// How many of the join calls in the sequence form a group.
pub open spec fn formed_count(
    m: PoolsModel,
    req: Requirement,
    calls: Seq<(Participant, Roles)>,
) -> nat
    decreases calls.len(),
{
    if calls.len() == 0 {
        0
    } else {
        (if join_model(m, req, calls[0].0, calls[0].1).1 is Formed {
            1nat
        } else {
            0nat
        }) + formed_count(join_model(m, req, calls[0].0, calls[0].1).0, req, calls.drop_first())
    }
}

/// No two of the calls carry the same participant identity.
pub open spec fn distinct_ids(calls: Seq<(Participant, Roles)>) -> bool {
    forall|i: int, j: int| 0 <= i < j < calls.len() ==> calls[i].0.id != calls[j].0.id
}

/// None of the callers is waiting in the state already.
pub open spec fn fresh_ids(m: PoolsModel, calls: Seq<(Participant, Roles)>) -> bool {
    forall|i: int| 0 <= i < calls.len() ==> #[trigger] queued_role(m, calls[i].0.id) is None
}

/// One group from an exact fill: when the calls still to be served are by
/// fresh, pairwise distinct participants and together fill each pool exactly
/// to its required count, then — in whatever order they arrive — exactly one
/// of them forms a group, never zero and never two, and the pools end empty.
pub proof fn lemma_exact_fill_run(m: PoolsModel, req: Requirement, calls: Seq<(Participant, Roles)>)
    requires
        wf_model(m),
        distinct_ids(calls),
        fresh_ids(m, calls),
        pool_of(m, Roles::Tank).len() + count_role(calls, Roles::Tank) == req.tank,
        pool_of(m, Roles::Healer).len() + count_role(calls, Roles::Healer) == req.healer,
        pool_of(m, Roles::DPS).len() + count_role(calls, Roles::DPS) == req.dps,
        calls.len() > 0,
    ensures
        formed_count(m, req, calls) == 1,
        apply_joins(m, req, calls) == empty_model(),
    decreases calls.len(),
{
    let p = calls[0].0;
    let role = calls[0].1;
    let rest = calls.drop_first();
    assert(queued_role(m, p.id) is None);
    let m1 = with_pool(m, role, pool_of(m, role).push(p));
    lemma_append_wf(m, p, role);
    assert(pool_of(m1, role).len() == pool_of(m, role).len() + 1);
    if calls.len() == 1 {
        assert(rest.len() == 0);
        assert(count_role(rest, Roles::Tank) == 0);
        assert(count_role(rest, Roles::Healer) == 0);
        assert(count_role(rest, Roles::DPS) == 0);
        assert(meets(m1, req));
        let step = join_model(m, req, p, role);
        assert(step.1 is Formed);
        assert(step.0 == crate::queue_state::drained(m1, req));
        assert(step.0 =~= empty_model());
        assert(formed_count(m, req, calls) == 1nat + formed_count(step.0, req, rest));
        assert(apply_joins(m, req, calls) == apply_joins(step.0, req, rest));
    } else {
        let r1 = rest[0].1;
        assert(count_role(rest, r1) >= 1);
        assert(count_role(calls, r1) == (if role == r1 {
            1nat
        } else {
            0nat
        }) + count_role(rest, r1));
        assert(pool_of(m1, r1).len() + count_role(rest, r1) == req.spec_required(r1)) by {
            assert(pool_of(m, r1).len() + count_role(calls, r1) == req.spec_required(r1));
        }
        assert(!meets(m1, req)) by {
            assert(pool_of(m1, r1).len() < req.spec_required(r1));
        }
        let step = join_model(m, req, p, role);
        assert(step.1 is Joined);
        assert(step.0 == m1);
        assert(distinct_ids(rest)) by {
            assert forall|i: int, j: int| 0 <= i < j < rest.len() implies rest[i].0.id
                != rest[j].0.id by {
                assert(rest[i] == calls[i + 1]);
                assert(rest[j] == calls[j + 1]);
            }
        }
        assert(fresh_ids(m1, rest)) by {
            assert forall|i: int| 0 <= i < rest.len() implies #[trigger] queued_role(
                m1,
                rest[i].0.id,
            ) is None by {
                assert(rest[i] == calls[i + 1]);
                let id = calls[i + 1].0.id;
                assert(calls[0].0.id != calls[i + 1].0.id);
                assert(queued_role(m, id) is None);
                lemma_has_id_push(pool_of(m, role), p, id);
                assert(!has_id(pool_of(m, role).push(p), id));
            }
        }
        assert(pool_of(m1, Roles::Tank).len() + count_role(rest, Roles::Tank) == req.tank);
        assert(pool_of(m1, Roles::Healer).len() + count_role(rest, Roles::Healer) == req.healer);
        assert(pool_of(m1, Roles::DPS).len() + count_role(rest, Roles::DPS) == req.dps);
        lemma_exact_fill_run(m1, req, rest);
        assert(formed_count(m, req, calls) == 0nat + formed_count(m1, req, rest));
        assert(apply_joins(m, req, calls) == apply_joins(m1, req, rest));
    }
}

/// The race-free group formation law, from startup: joins by distinct
/// participants whose roles together make up exactly one composition
/// requirement, served in any order from the empty state, produce exactly
/// one formed group — never zero, never more than one — and leave every
/// pool empty.
pub proof fn lemma_exact_fill_forms_one_group(req: Requirement, calls: Seq<(Participant, Roles)>)
    requires
        distinct_ids(calls),
        count_role(calls, Roles::Tank) == req.tank,
        count_role(calls, Roles::Healer) == req.healer,
        count_role(calls, Roles::DPS) == req.dps,
        calls.len() > 0,
    ensures
        formed_count(empty_model(), req, calls) == 1,
        apply_joins(empty_model(), req, calls) == empty_model(),
{
    lemma_exact_fill_run(empty_model(), req, calls);
}

} // verus!
