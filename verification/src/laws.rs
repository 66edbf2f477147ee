//! The laws of the matching engine, stated and proved over the engine's
//! mathematical model: conservation of prices and splits, respected
//! capacities, round isolation without subdivision, and round precedence.

use vstd::prelude::*;

use crate::contract::ContractView;
use crate::matching::{
    distinct_split_ids, initial_pool, lemma_run_round_nid, pool_fresh, requesting_users_from,
    run_round, run_round_from, spec_matchings, step_user, tier_a_ok, tier_a_pick, tier_b_pick,
    StepResult,
};
use crate::object_storage::distinct_user_ids;
use crate::rental_space::{spec_can_subsplit, spec_space_split, RentalSpaceView, SplitView};
use crate::user::UserView;

verus! {

/// Split `s` descends from rental space `r`: it names `r` as its parent
/// office and inherits `r`'s owner and per-workstation price.
pub open spec fn split_descends(s: SplitView, r: RentalSpaceView) -> bool {
    s.parent_office_id == r.id && s.owner_id == r.owner_id && s.price_per_workstation
        == r.price_per_workstation
}

/// Split `s` descends from one of the given rental spaces.
pub open spec fn descends_from_some(s: SplitView, spaces: Seq<RentalSpaceView>) -> bool {
    exists|x: int| 0 <= x < spaces.len() && split_descends(s, #[trigger] spaces[x])
}

/// Every split of the pool descends from one of the given rental spaces.
pub open spec fn pool_from_spaces(pool: Seq<SplitView>, spaces: Seq<RentalSpaceView>) -> bool {
    forall|j: int| 0 <= j < pool.len() ==> descends_from_some(#[trigger] pool[j], spaces)
}

/// The contract charges exactly its workstation count times the parent
/// rental space's per-workstation price, payable to that space's owner.
pub open spec fn contract_descends(c: ContractView, r: RentalSpaceView) -> bool {
    c.rental_space_id == r.id && c.host_id == r.owner_id && c.price == c.nb_workstations
        * r.price_per_workstation
}

/// The contract descends from one of the given rental spaces.
pub open spec fn contract_from_spaces(c: ContractView, spaces: Seq<RentalSpaceView>) -> bool {
    exists|x: int| 0 <= x < spaces.len() && contract_descends(c, #[trigger] spaces[x])
}

/// The contract consumes one of the given rental spaces whole: it names the
/// space and covers the space's full workstation count.
pub open spec fn contract_whole_space(c: ContractView, spaces: Seq<RentalSpaceView>) -> bool {
    exists|x: int|
        0 <= x < spaces.len() && (#[trigger] spaces[x]).id == c.rental_space_id
            && c.nb_workstations == spaces[x].nb_workstations
}

/// The contract serves user `u`: `u` is the guest and receives at least the
/// workstation count `u` requested.
pub open spec fn contract_serves(c: ContractView, u: UserView) -> bool {
    u.id == c.guest_id && match u.workspace_request {
        Some(r) => c.nb_workstations >= r.nb_workstations,
        None => false,
    }
}

/// Some split of the pool carries identifier `id`.
pub open spec fn pool_has_id(pool: Seq<SplitView>, id: int) -> bool {
    exists|j: int| 0 <= j < pool.len() && (#[trigger] pool[j]).id == id
}

proof fn lemma_step_from_spaces(
    pool: Seq<SplitView>,
    u: UserView,
    with_subsplit: bool,
    nid: int,
    spaces: Seq<RentalSpaceView>,
)
    requires
        pool_from_spaces(pool, spaces),
    ensures
        ({
            let st = step_user(pool, u, with_subsplit, nid);
            &&& pool_from_spaces(st.pool, spaces)
            &&& (st.contract matches Some(c) ==> contract_from_spaces(c, spaces))
            &&& (st.contract matches Some(c) ==> contract_serves(c, u))
        }),
{
    let st = step_user(pool, u, with_subsplit, nid);
    match u.workspace_request {
        None => {},
        Some(req) => {
            match tier_a_pick(pool, req, with_subsplit) {
                Some(i) => {
                    assert(tier_a_ok(pool[i], req, with_subsplit));
                    let x = choose|x: int|
                        0 <= x < spaces.len() && split_descends(pool[i], spaces[x]);
                    assert(contract_descends(contract_for_view(st), spaces[x]));
                    assert(contract_from_spaces(contract_for_view(st), spaces));
                    lemma_remove_from_spaces(pool, i, spaces);
                },
                None => {
                    if with_subsplit {
                        match tier_b_pick(pool, req.nb_workstations as int) {
                            Some(i) => {
                                assert(spec_can_subsplit(pool[i], req.nb_workstations as int));
                                let x = choose|x: int|
                                    0 <= x < spaces.len() && split_descends(pool[i], spaces[x]);
                                assert(contract_descends(contract_for_view(st), spaces[x]));
                                lemma_remove_from_spaces(pool, i, spaces);
                                let np = st.pool;
                                assert forall|j: int| 0 <= j < np.len() implies descends_from_some(
                                    #[trigger] np[j],
                                    spaces,
                                ) by {
                                    if j < np.len() - 1 {
                                        assert(np[j] == pool.remove(i)[j]);
                                        assert(descends_from_some(pool.remove(i)[j], spaces));
                                    } else {
                                        assert(split_descends(np[j], spaces[x]));
                                    }
                                }
                            },
                            None => {},
                        }
                    }
                },
            }
        },
    }
}

/// The contract inside a step result, where there is one.
spec fn contract_for_view(st: StepResult) -> ContractView {
    st.contract.unwrap()
}

proof fn lemma_remove_from_spaces(pool: Seq<SplitView>, i: int, spaces: Seq<RentalSpaceView>)
    requires
        pool_from_spaces(pool, spaces),
        0 <= i < pool.len(),
    ensures
        pool_from_spaces(pool.remove(i), spaces),
{
    let np = pool.remove(i);
    assert forall|j: int| 0 <= j < np.len() implies descends_from_some(#[trigger] np[j], spaces) by {
        if j < i {
            assert(np[j] == pool[j]);
        } else {
            assert(np[j] == pool[j + 1]);
        }
    }
}

proof fn lemma_round_from_spaces(
    users: Seq<UserView>,
    k: int,
    pool: Seq<SplitView>,
    with_subsplit: bool,
    nid: int,
    spaces: Seq<RentalSpaceView>,
)
    requires
        0 <= k <= users.len(),
        pool_from_spaces(pool, spaces),
    ensures
        ({
            let rr = run_round_from(users, k, pool, with_subsplit, nid);
            &&& forall|t: int|
                0 <= t < rr.contracts.len() ==> contract_from_spaces(
                    #[trigger] rr.contracts[t],
                    spaces,
                )
            &&& forall|t: int|
                0 <= t < rr.contracts.len() ==> exists|a: int|
                    k <= a < users.len() && contract_serves(#[trigger] rr.contracts[t], users[a])
        }),
    decreases users.len() - k,
{
    if k < users.len() {
        let st = step_user(pool, users[k], with_subsplit, nid);
        lemma_step_from_spaces(pool, users[k], with_subsplit, nid, spaces);
        lemma_round_from_spaces(users, k + 1, st.pool, with_subsplit, st.nid, spaces);
        let rr = run_round_from(users, k, pool, with_subsplit, nid);
        let rest = run_round_from(users, k + 1, st.pool, with_subsplit, st.nid);
        match st.contract {
            Some(c) => {
                assert forall|t: int| 0 <= t < rr.contracts.len() implies contract_from_spaces(
                    #[trigger] rr.contracts[t],
                    spaces,
                ) && exists|a: int|
                    k <= a < users.len() && contract_serves(rr.contracts[t], users[a]) by {
                    if t == 0 {
                        assert(rr.contracts[0] == c);
                        assert(contract_serves(c, users[k]));
                    } else {
                        assert(rr.contracts[t] == rest.contracts[t - 1]);
                        let a = choose|a: int|
                            k + 1 <= a < users.len() && contract_serves(
                                rest.contracts[t - 1],
                                users[a],
                            );
                        assert(contract_serves(rr.contracts[t], users[a]));
                    }
                }
            },
            None => {},
        }
    }
}

/// The fresh pool of a round descends from the rental spaces it was built
/// from, holds one split per space with that space's workstation count, and
/// carries distinct identifiers all below `nid + spaces.len()`.
proof fn lemma_initial_pool_wf(spaces: Seq<RentalSpaceView>, nid: int)
    ensures
        pool_from_spaces(initial_pool(spaces, nid), spaces),
        pool_mirrors_spaces(initial_pool(spaces, nid), spaces),
        distinct_split_ids(initial_pool(spaces, nid)),
        pool_fresh(initial_pool(spaces, nid), nid + spaces.len()),
{
    let p = initial_pool(spaces, nid);
    assert forall|j: int| 0 <= j < p.len() implies descends_from_some(#[trigger] p[j], spaces)
        && mirrors_some(#[trigger] p[j], spaces) by {
        assert(p[j] == spec_space_split(spaces[j], nid + j));
        assert(split_descends(p[j], spaces[j]));
        assert(split_mirrors(p[j], spaces[j]));
    }
    assert forall|a: int, b: int| 0 <= a < b < p.len() implies p[a].id != p[b].id by {
        assert(p[a].id == nid + a);
        assert(p[b].id == nid + b);
    }
    assert forall|j: int| 0 <= j < p.len() implies (#[trigger] p[j]).id < nid + spaces.len() by {
        assert(p[j].id == nid + j);
    }
}

/// Law — conservation.  Every contract of a run charges exactly the
/// consumed split's workstation count times the per-workstation price of
/// the rental space it descends from, payable to that space's owner; and no
/// split, original or cut, is consumed by two contracts of the same run:
/// the consumed-split identifiers of both rounds are pairwise distinct,
/// one per contract.
pub proof fn lemma_conservation(
    users: Seq<UserView>,
    spaces: Seq<RentalSpaceView>,
    with_subsplit: bool,
)
    ensures
        ({
            let m = spec_matchings(users, spaces, with_subsplit);
            &&& forall|t: int|
                0 <= t < m.year_1_contracts.len() ==> contract_from_spaces(
                    #[trigger] m.year_1_contracts[t],
                    spaces,
                )
            &&& forall|t: int|
                0 <= t < m.year_2_contracts.len() ==> contract_from_spaces(
                    #[trigger] m.year_2_contracts[t],
                    spaces,
                )
        }),
        ({
            let cands = requesting_users_from(users, 0);
            let r1 = run_round(cands, initial_pool(spaces, 0), with_subsplit, spaces.len() as int);
            let r2 = run_round(
                r1.unmatched,
                initial_pool(spaces, r1.nid),
                with_subsplit,
                r1.nid + spaces.len(),
            );
            let consumed = r1.consumed + r2.consumed;
            &&& r1.consumed.len() == r1.contracts.len()
            &&& r2.consumed.len() == r2.contracts.len()
            &&& forall|a: int, b: int| 0 <= a < b < consumed.len() ==> consumed[a] != consumed[b]
        }),
{
    let cands = requesting_users_from(users, 0);
    let p1 = initial_pool(spaces, 0);
    let nid1: int = spaces.len() as int;
    let r1 = run_round(cands, p1, with_subsplit, nid1);
    let p2 = initial_pool(spaces, r1.nid);
    let nid2 = r1.nid + spaces.len();
    let r2 = run_round(r1.unmatched, p2, with_subsplit, nid2);
    lemma_initial_pool_wf(spaces, 0);
    lemma_initial_pool_wf(spaces, r1.nid);
    lemma_round_from_spaces(cands, 0, p1, with_subsplit, nid1, spaces);
    lemma_round_from_spaces(r1.unmatched, 0, p2, with_subsplit, nid2, spaces);
    lemma_run_round_nid(cands, 0, p1, with_subsplit, nid1);
    lemma_round_consumed(cands, 0, p1, with_subsplit, nid1);
    lemma_round_consumed(r1.unmatched, 0, p2, with_subsplit, nid2);
    let consumed = r1.consumed + r2.consumed;
    assert forall|a: int, b: int| 0 <= a < b < consumed.len() implies consumed[a] != consumed[b] by {
        if b < r1.consumed.len() {
            assert(consumed[a] == r1.consumed[a]);
            assert(consumed[b] == r1.consumed[b]);
        } else if a >= r1.consumed.len() {
            assert(consumed[a] == r2.consumed[a - r1.consumed.len()]);
            assert(consumed[b] == r2.consumed[b - r1.consumed.len()]);
        } else {
            assert(consumed[a] == r1.consumed[a]);
            assert(consumed[b] == r2.consumed[b - r1.consumed.len()]);
            assert(consumed[a] < r1.nid);
            let t = b - r1.consumed.len();
            assert(pool_has_id(p2, r2.consumed[t]) || r2.consumed[t] >= nid2);
            if pool_has_id(p2, r2.consumed[t]) {
                let j = choose|j: int| 0 <= j < p2.len() && (#[trigger] p2[j]).id == r2.consumed[t];
                assert(p2[j] == spec_space_split(spaces[j], r1.nid + j));
                assert(r2.consumed[t] >= r1.nid);
            }
        }
    }
}

proof fn lemma_round_consumed(
    users: Seq<UserView>,
    k: int,
    pool: Seq<SplitView>,
    with_subsplit: bool,
    nid: int,
)
    requires
        0 <= k <= users.len(),
        distinct_split_ids(pool),
        pool_fresh(pool, nid),
    ensures
        ({
            let rr = run_round_from(users, k, pool, with_subsplit, nid);
            &&& rr.consumed.len() == rr.contracts.len()
            &&& forall|a: int, b: int|
                0 <= a < b < rr.consumed.len() ==> rr.consumed[a] != rr.consumed[b]
            &&& forall|t: int|
                0 <= t < rr.consumed.len() ==> #[trigger] rr.consumed[t] < rr.nid && (pool_has_id(
                    pool,
                    rr.consumed[t],
                ) || rr.consumed[t] >= nid)
        }),
    decreases users.len() - k,
{
    if k < users.len() {
        let st = step_user(pool, users[k], with_subsplit, nid);
        crate::matching::lemma_step_user_wf(pool, users[k], with_subsplit, nid);
        lemma_round_consumed(users, k + 1, st.pool, with_subsplit, st.nid);
        lemma_run_round_nid(users, k + 1, st.pool, with_subsplit, st.nid);
        let rr = run_round_from(users, k, pool, with_subsplit, nid);
        let rest = run_round_from(users, k + 1, st.pool, with_subsplit, st.nid);
        match users[k].workspace_request {
            None => {},
            Some(req) => {
                match tier_a_pick(pool, req, with_subsplit) {
                    Some(i) => {
                        lemma_consumed_cons(pool, st, rest, rr, i, nid);
                    },
                    None => {
                        if with_subsplit {
                            match tier_b_pick(pool, req.nb_workstations as int) {
                                Some(i) => {
                                    lemma_consumed_cons(pool, st, rest, rr, i, nid);
                                },
                                None => {},
                            }
                        }
                    },
                }
            },
        }
    }
}

/// The shared argument of both consuming step shapes: the consumed
/// identifier is a pool identifier below `nid`, and everything the rest of
/// the round consumes is either another identifier of the stepped pool or
/// was minted later, so the whole consumed list stays distinct.
proof fn lemma_consumed_cons(
    pool: Seq<SplitView>,
    st: StepResult,
    rest: crate::matching::RoundResult,
    rr: crate::matching::RoundResult,
    i: int,
    nid: int,
)
    requires
        0 <= i < pool.len(),
        distinct_split_ids(pool),
        pool_fresh(pool, nid),
        nid <= st.nid,
        st.consumed == seq![pool[i].id],
        st.pool == pool.remove(i) || st.pool == pool.remove(i).push(
            st.pool.last(),
        ) && st.pool.len() == pool.len() && st.pool.last().id == nid + 1,
        rr.consumed == st.consumed + rest.consumed,
        rr.contracts.len() == 1 + rest.contracts.len(),
        rr.nid == rest.nid,
        st.nid <= rest.nid,
        rest.consumed.len() == rest.contracts.len(),
        forall|a: int, b: int| 0 <= a < b < rest.consumed.len() ==> rest.consumed[a]
            != rest.consumed[b],
        forall|t: int|
            0 <= t < rest.consumed.len() ==> #[trigger] rest.consumed[t] < rest.nid && (pool_has_id(
                st.pool,
                rest.consumed[t],
            ) || rest.consumed[t] >= st.nid),
    ensures
        rr.consumed.len() == rr.contracts.len(),
        forall|a: int, b: int| 0 <= a < b < rr.consumed.len() ==> rr.consumed[a] != rr.consumed[b],
        forall|t: int|
            0 <= t < rr.consumed.len() ==> #[trigger] rr.consumed[t] < rr.nid && (pool_has_id(
                pool,
                rr.consumed[t],
            ) || rr.consumed[t] >= nid),
{
    let cid = pool[i].id;
    assert(cid < nid);
    assert(rr.consumed[0] == cid);
    assert(pool_has_id(pool, cid));
    assert forall|t: int|
        0 <= t < rest.consumed.len() implies rest.consumed[t] != cid && (pool_has_id(
        pool,
        #[trigger] rest.consumed[t],
    ) || rest.consumed[t] >= nid) by {
        let x = rest.consumed[t];
        if pool_has_id(st.pool, x) {
            let j = choose|j: int| 0 <= j < st.pool.len() && (#[trigger] st.pool[j]).id == x;
            if st.pool == pool.remove(i) || j < st.pool.len() - 1 {
                let rj = if j < i {
                    j
                } else {
                    j + 1
                };
                assert(pool.remove(i)[j] == pool[rj]);
                assert(st.pool[j] == pool[rj]);
                assert(x == pool[rj].id);
                assert(rj != i);
                if rj < i {
                    assert(pool[rj].id != pool[i].id);
                } else {
                    assert(pool[i].id != pool[rj].id);
                }
                assert(pool_has_id(pool, x));
            } else {
                assert(st.pool[j] == st.pool.last());
                assert(x == nid + 1);
            }
        } else {
            assert(x >= st.nid);
            assert(st.nid >= nid);
            assert(x > cid);
        }
    }
    assert forall|a: int, b: int| 0 <= a < b < rr.consumed.len() implies rr.consumed[a]
        != rr.consumed[b] by {
        if a == 0 {
            assert(rr.consumed[b] == rest.consumed[b - 1]);
        } else {
            assert(rr.consumed[a] == rest.consumed[a - 1]);
            assert(rr.consumed[b] == rest.consumed[b - 1]);
        }
    }
    assert forall|t: int|
        0 <= t < rr.consumed.len() implies #[trigger] rr.consumed[t] < rr.nid && (pool_has_id(
        pool,
        rr.consumed[t],
    ) || rr.consumed[t] >= nid) by {
        if t == 0 {
            assert(rr.consumed[0] == cid);
        } else {
            assert(rr.consumed[t] == rest.consumed[t - 1]);
        }
    }
}

/// Split `s` mirrors rental space `r`: it descends from `r` and still has
/// `r`'s full workstation count.
pub open spec fn split_mirrors(s: SplitView, r: RentalSpaceView) -> bool {
    split_descends(s, r) && s.nb_workstations == r.nb_workstations
}

/// Split `s` mirrors one of the given rental spaces.
pub open spec fn mirrors_some(s: SplitView, spaces: Seq<RentalSpaceView>) -> bool {
    exists|x: int| 0 <= x < spaces.len() && split_mirrors(s, #[trigger] spaces[x])
}

/// Every split of the pool mirrors one of the given rental spaces.
pub open spec fn pool_mirrors_spaces(pool: Seq<SplitView>, spaces: Seq<RentalSpaceView>) -> bool {
    forall|j: int| 0 <= j < pool.len() ==> mirrors_some(#[trigger] pool[j], spaces)
}

proof fn lemma_round_whole(
    users: Seq<UserView>,
    k: int,
    pool: Seq<SplitView>,
    nid: int,
    spaces: Seq<RentalSpaceView>,
)
    requires
        0 <= k <= users.len(),
        pool_mirrors_spaces(pool, spaces),
    ensures
        ({
            let rr = run_round_from(users, k, pool, false, nid);
            forall|t: int|
                0 <= t < rr.contracts.len() ==> contract_whole_space(
                    #[trigger] rr.contracts[t],
                    spaces,
                )
        }),
    decreases users.len() - k,
{
    if k < users.len() {
        let st = step_user(pool, users[k], false, nid);
        match users[k].workspace_request {
            None => {},
            Some(req) => {
                match tier_a_pick(pool, req, false) {
                    Some(i) => {
                        let x = choose|x: int|
                            0 <= x < spaces.len() && split_mirrors(pool[i], spaces[x]);
                        assert(contract_whole_space(contract_for_view(st), spaces));
                        let np = pool.remove(i);
                        assert forall|j: int| 0 <= j < np.len() implies mirrors_some(
                            #[trigger] np[j],
                            spaces,
                        ) by {
                            if j < i {
                                assert(np[j] == pool[j]);
                            } else {
                                assert(np[j] == pool[j + 1]);
                            }
                        }
                    },
                    None => {},
                }
            },
        }
        lemma_round_whole(users, k + 1, st.pool, st.nid, spaces);
        let rr = run_round_from(users, k, pool, false, nid);
        let rest = run_round_from(users, k + 1, st.pool, false, st.nid);
        match st.contract {
            Some(c) => {
                assert forall|t: int| 0 <= t < rr.contracts.len() implies contract_whole_space(
                    #[trigger] rr.contracts[t],
                    spaces,
                ) by {
                    if t > 0 {
                        assert(rr.contracts[t] == rest.contracts[t - 1]);
                    }
                }
            },
            None => {},
        }
    }
}

/// Law — idempotent round isolation.  With subdivision off, splits are
/// consumed whole: every contract of either round covers the full
/// workstation count of the rental space it names.
pub proof fn lemma_round_isolation(users: Seq<UserView>, spaces: Seq<RentalSpaceView>)
    ensures
        ({
            let m = spec_matchings(users, spaces, false);
            &&& forall|t: int|
                0 <= t < m.year_1_contracts.len() ==> contract_whole_space(
                    #[trigger] m.year_1_contracts[t],
                    spaces,
                )
            &&& forall|t: int|
                0 <= t < m.year_2_contracts.len() ==> contract_whole_space(
                    #[trigger] m.year_2_contracts[t],
                    spaces,
                )
        }),
{
    let cands = requesting_users_from(users, 0);
    let p1 = initial_pool(spaces, 0);
    let nid1: int = spaces.len() as int;
    let r1 = run_round(cands, p1, false, nid1);
    let p2 = initial_pool(spaces, r1.nid);
    lemma_initial_pool_wf(spaces, 0);
    lemma_initial_pool_wf(spaces, r1.nid);
    lemma_round_whole(cands, 0, p1, nid1, spaces);
    lemma_round_whole(r1.unmatched, 0, p2, r1.nid + spaces.len(), spaces);
}

/// Law — capacity respected.  Every contract of a run assigns its guest at
/// least the workstation count the guest requested (exactly that count when
/// it came from a subdivision, by construction of the cut piece).
pub proof fn lemma_capacity(
    users: Seq<UserView>,
    spaces: Seq<RentalSpaceView>,
    with_subsplit: bool,
)
    ensures
        ({
            let m = spec_matchings(users, spaces, with_subsplit);
            let cands = requesting_users_from(users, 0);
            &&& forall|t: int|
                0 <= t < m.year_1_contracts.len() ==> exists|a: int|
                    0 <= a < cands.len() && contract_serves(
                        #[trigger] m.year_1_contracts[t],
                        cands[a],
                    )
            &&& forall|t: int|
                0 <= t < m.year_2_contracts.len() ==> exists|a: int|
                    0 <= a < cands.len() && contract_serves(
                        #[trigger] m.year_2_contracts[t],
                        cands[a],
                    )
        }),
{
    let cands = requesting_users_from(users, 0);
    let p1 = initial_pool(spaces, 0);
    let nid1: int = spaces.len() as int;
    let r1 = run_round(cands, p1, with_subsplit, nid1);
    let p2 = initial_pool(spaces, r1.nid);
    let nid2 = r1.nid + spaces.len();
    lemma_initial_pool_wf(spaces, 0);
    lemma_initial_pool_wf(spaces, r1.nid);
    lemma_round_from_spaces(cands, 0, p1, with_subsplit, nid1, spaces);
    lemma_round_from_spaces(r1.unmatched, 0, p2, with_subsplit, nid2, spaces);
    crate::matching::lemma_run_round_unmatched(cands, 0, p1, with_subsplit, nid1);
    let r2 = run_round(r1.unmatched, p2, with_subsplit, nid2);
    assert forall|t: int| 0 <= t < r2.contracts.len() implies exists|a: int|
        0 <= a < cands.len() && contract_serves(#[trigger] r2.contracts[t], cands[a]) by {
        let b = choose|b: int|
            0 <= b < r1.unmatched.len() && contract_serves(r2.contracts[t], r1.unmatched[b]);
        assert(cands.contains(r1.unmatched[b]));
        let a = choose|a: int| 0 <= a < cands.len() && cands[a] == r1.unmatched[b];
        assert(contract_serves(r2.contracts[t], cands[a]));
    }
}

/// Law — capacity is exact in the subdivision tier.  When a user's turn
/// produces a contract although no whole split was eligible, the contract
/// came from cutting a split, and it assigns exactly the requested
/// workstation count.
pub proof fn lemma_subdivision_exact_fit(
    pool: Seq<SplitView>,
    u: UserView,
    with_subsplit: bool,
    nid: int,
)
    ensures
        ({
            let st = step_user(pool, u, with_subsplit, nid);
            match (u.workspace_request, st.contract) {
                (Some(req), Some(c)) => tier_a_pick(pool, req, with_subsplit) is None
                    ==> c.nb_workstations == req.nb_workstations,
                _ => true,
            }
        }),
{
}

proof fn lemma_requesting_distinct(users: Seq<UserView>, k: int)
    requires
        0 <= k <= users.len(),
        distinct_user_ids(users),
    ensures
        ({
            let c = requesting_users_from(users, k);
            &&& forall|t: int|
                0 <= t < c.len() ==> exists|a: int| k <= a < users.len() && users[a] == #[trigger] c[t]
            &&& distinct_user_ids(c)
        }),
    decreases users.len() - k,
{
    if k < users.len() {
        lemma_requesting_distinct(users, k + 1);
        let c = requesting_users_from(users, k);
        let rest = requesting_users_from(users, k + 1);
        if users[k].workspace_request is Some {
            assert forall|t: int| 0 <= t < c.len() implies exists|a: int|
                k <= a < users.len() && users[a] == #[trigger] c[t] by {
                if t == 0 {
                    assert(users[k] == c[0]);
                } else {
                    assert(c[t] == rest[t - 1]);
                    let a = choose|a: int| k + 1 <= a < users.len() && users[a] == rest[t - 1];
                    assert(users[a] == c[t]);
                }
            }
            assert forall|a: int, b: int| 0 <= a < b < c.len() implies c[a].id != c[b].id by {
                if a == 0 {
                    assert(c[b] == rest[b - 1]);
                    let x = choose|x: int| k + 1 <= x < users.len() && users[x] == rest[b - 1];
                    assert(users[k].id != users[x].id);
                } else {
                    assert(c[a] == rest[a - 1]);
                    assert(c[b] == rest[b - 1]);
                }
            }
        } else {
            assert forall|t: int| 0 <= t < c.len() implies exists|a: int|
                k <= a < users.len() && users[a] == #[trigger] c[t] by {
                let a = choose|a: int| k + 1 <= a < users.len() && users[a] == rest[t];
                assert(users[a] == c[t]);
            }
        }
    }
}

proof fn lemma_round_precedence_from(
    users: Seq<UserView>,
    k: int,
    pool: Seq<SplitView>,
    with_subsplit: bool,
    nid: int,
)
    requires
        0 <= k <= users.len(),
        distinct_user_ids(users),
    ensures
        ({
            let rr = run_round_from(users, k, pool, with_subsplit, nid);
            &&& forall|a: int|
                0 <= a < rr.contracts.len() ==> exists|t: int|
                    k <= t < users.len() && (#[trigger] rr.contracts[a]).guest_id == users[t].id
            &&& forall|b: int|
                0 <= b < rr.unmatched.len() ==> exists|t: int|
                    k <= t < users.len() && #[trigger] rr.unmatched[b] == users[t]
            &&& forall|a: int, b: int|
                0 <= a < rr.contracts.len() && 0 <= b < rr.unmatched.len() ==> (
                #[trigger] rr.contracts[a]).guest_id != (#[trigger] rr.unmatched[b]).id
        }),
    decreases users.len() - k,
{
    if k < users.len() {
        let st = step_user(pool, users[k], with_subsplit, nid);
        lemma_round_precedence_from(users, k + 1, st.pool, with_subsplit, st.nid);
        let rr = run_round_from(users, k, pool, with_subsplit, nid);
        let rest = run_round_from(users, k + 1, st.pool, with_subsplit, st.nid);
        match st.contract {
            Some(c) => {
                assert(c.guest_id == users[k].id) by {
                    lemma_step_guest(pool, users[k], with_subsplit, nid);
                }
                assert forall|a: int| 0 <= a < rr.contracts.len() implies exists|t: int|
                    k <= t < users.len() && (#[trigger] rr.contracts[a]).guest_id == users[t].id by {
                    if a == 0 {
                        assert(rr.contracts[0].guest_id == users[k].id);
                    } else {
                        assert(rr.contracts[a] == rest.contracts[a - 1]);
                        let t = choose|t: int|
                            k + 1 <= t < users.len() && rest.contracts[a - 1].guest_id
                                == users[t].id;
                        assert(rr.contracts[a].guest_id == users[t].id);
                    }
                }
                assert forall|a: int, b: int|
                    0 <= a < rr.contracts.len() && 0 <= b < rr.unmatched.len() implies (
                #[trigger] rr.contracts[a]).guest_id != (#[trigger] rr.unmatched[b]).id by {
                    assert(rr.unmatched[b] == rest.unmatched[b]);
                    let t = choose|t: int|
                        k + 1 <= t < users.len() && rest.unmatched[b] == users[t];
                    assert(rr.unmatched[b] == users[t]);
                    if a == 0 {
                        assert(users[k].id != users[t].id);
                    } else {
                        assert(rr.contracts[a] == rest.contracts[a - 1]);
                    }
                }
            },
            None => {
                assert forall|b: int| 0 <= b < rr.unmatched.len() implies exists|t: int|
                    k <= t < users.len() && #[trigger] rr.unmatched[b] == users[t] by {
                    if b == 0 {
                        assert(rr.unmatched[0] == users[k]);
                    } else {
                        assert(rr.unmatched[b] == rest.unmatched[b - 1]);
                        let t = choose|t: int|
                            k + 1 <= t < users.len() && rest.unmatched[b - 1] == users[t];
                        assert(rr.unmatched[b] == users[t]);
                    }
                }
                assert forall|a: int, b: int|
                    0 <= a < rr.contracts.len() && 0 <= b < rr.unmatched.len() implies (
                #[trigger] rr.contracts[a]).guest_id != (#[trigger] rr.unmatched[b]).id by {
                    assert(rr.contracts[a] == rest.contracts[a]);
                    let t = choose|t: int|
                        k + 1 <= t < users.len() && rest.contracts[a].guest_id == users[t].id;
                    assert(rr.contracts[a].guest_id == users[t].id);
                    if b == 0 {
                        assert(rr.unmatched[0] == users[k]);
                        assert(users[k].id != users[t].id);
                    } else {
                        assert(rr.unmatched[b] == rest.unmatched[b - 1]);
                    }
                }
            },
        }
    }
}

proof fn lemma_step_guest(pool: Seq<SplitView>, u: UserView, with_subsplit: bool, nid: int)
    ensures
        ({
            let st = step_user(pool, u, with_subsplit, nid);
            st.contract matches Some(c) ==> c.guest_id == u.id
        }),
{
}

/// Law — round precedence.  A user matched in round one never appears in
/// round two's candidate set: no guest of a first-round contract carries
/// the identifier of a first-round survivor, and the survivors are exactly
/// round two's candidates.
pub proof fn lemma_round_precedence(
    users: Seq<UserView>,
    spaces: Seq<RentalSpaceView>,
    with_subsplit: bool,
)
    requires
        distinct_user_ids(users),
    ensures
        ({
            let cands = requesting_users_from(users, 0);
            let r1 = run_round(cands, initial_pool(spaces, 0), with_subsplit, spaces.len() as int);
            forall|a: int, b: int|
                0 <= a < r1.contracts.len() && 0 <= b < r1.unmatched.len() ==> (
                #[trigger] r1.contracts[a]).guest_id != (#[trigger] r1.unmatched[b]).id
        }),
{
    let cands = requesting_users_from(users, 0);
    lemma_requesting_distinct(users, 0);
    lemma_round_precedence_from(
        cands,
        0,
        initial_pool(spaces, 0),
        with_subsplit,
        spaces.len() as int,
    );
}

} // verus!
