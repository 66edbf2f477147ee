//! The greedy two-round matching engine.
//!
//! One run reads every user and rental space from storage and makes two
//! rounds (year one, year two).  Each round starts from a fresh pool holding
//! one split per rental space and walks its candidate users in order: round
//! one over every user with a workspace request, round two over the users
//! left unmatched by round one.  A user's turn first looks for the smallest
//! whole split that covers the request within budget (when subdivision is
//! on, only splits that cannot be cut at the requested size are taken
//! whole); failing that, and only when subdivision is on, it cuts the
//! largest subdividable split at the requested size, contracts the exact
//! piece — deliberately without a budget check — and pools the remainder.
//! Ties on workstation count are broken towards the smaller identifier.

use vstd::prelude::*;

use crate::contract::{Contract, ContractView};
use crate::object_storage::{space_views, ObjectStorage};
use crate::rental_space::{
    spec_can_subsplit, spec_price, spec_space_split, spec_subsplit_piece, RentalSpace,
    RentalSpaceView, Split, SplitView,
};
use crate::user::{UserId, UserView, WorkspaceRequest};
use crate::IdGen;

verus! {

/// The mathematical values of a pool of splits.
pub open spec fn split_views(pool: Seq<Split>) -> Seq<SplitView> {
    pool.map_values(|s: Split| s@)
}

/// The mathematical values of a sequence of contracts.
pub open spec fn contract_views(contracts: Seq<Contract>) -> Seq<ContractView> {
    contracts.map_values(|c: Contract| c@)
}

/// No two splits of the pool share an identifier.
pub open spec fn distinct_split_ids(pool: Seq<SplitView>) -> bool {
    forall|i: int, j: int| 0 <= i < j < pool.len() ==> pool[i].id != pool[j].id
}

/// Every split of the pool carries an identifier below `nid`, the counter's
/// next value; a freshly minted identifier therefore never collides.
pub open spec fn pool_fresh(pool: Seq<SplitView>, nid: int) -> bool {
    forall|j: int| 0 <= j < pool.len() ==> (#[trigger] pool[j]).id < nid
}

/// Whether split `s` satisfies the request outright: at least the requested
/// seats, within budget.
pub open spec fn fits_request(s: SplitView, req: WorkspaceRequest) -> bool {
    s.nb_workstations >= req.nb_workstations && spec_price(s) <= req.budget
}

/// Whether `s` may be taken whole for the request.  With subdivision on,
/// splits that could instead be cut at the requested size are left to the
/// subdivision tier.
pub open spec fn tier_a_ok(s: SplitView, req: WorkspaceRequest, with_subsplit: bool) -> bool {
    fits_request(s, req) && (with_subsplit ==> !spec_can_subsplit(
        s,
        req.nb_workstations as int,
    ))
}

/// Strict preference of the whole-split tier: fewer workstations first,
/// smaller identifier on ties.
pub open spec fn a_before(x: SplitView, y: SplitView) -> bool {
    x.nb_workstations < y.nb_workstations || (x.nb_workstations == y.nb_workstations && x.id
        < y.id)
}

/// Strict preference of the subdivision tier: more workstations first,
/// smaller identifier on ties.
pub open spec fn b_before(x: SplitView, y: SplitView) -> bool {
    x.nb_workstations > y.nb_workstations || (x.nb_workstations == y.nb_workstations && x.id
        < y.id)
}

/// `i` points at the eligible split that every other eligible split comes
/// after in the whole-split tier's preference order.
pub open spec fn is_tier_a_pick(
    pool: Seq<SplitView>,
    req: WorkspaceRequest,
    with_subsplit: bool,
    i: int,
) -> bool {
    &&& 0 <= i < pool.len()
    &&& tier_a_ok(pool[i], req, with_subsplit)
    &&& forall|j: int|
        0 <= j < pool.len() && j != i && tier_a_ok(#[trigger] pool[j], req, with_subsplit)
            ==> a_before(pool[i], pool[j])
}

/// `i` points at the subdividable split that every other subdividable split
/// comes after in the subdivision tier's preference order.
pub open spec fn is_tier_b_pick(pool: Seq<SplitView>, n: int, i: int) -> bool {
    &&& 0 <= i < pool.len()
    &&& spec_can_subsplit(pool[i], n)
    &&& forall|j: int|
        0 <= j < pool.len() && j != i && spec_can_subsplit(#[trigger] pool[j], n) ==> b_before(
            pool[i],
            pool[j],
        )
}

/// The whole-split tier's choice, if any split is eligible.
pub open spec fn tier_a_pick(
    pool: Seq<SplitView>,
    req: WorkspaceRequest,
    with_subsplit: bool,
) -> Option<int> {
    if exists|i: int| is_tier_a_pick(pool, req, with_subsplit, i) {
        Some(choose|i: int| is_tier_a_pick(pool, req, with_subsplit, i))
    } else {
        None
    }
}

/// The subdivision tier's choice, if any split can be cut at size `n`.
pub open spec fn tier_b_pick(pool: Seq<SplitView>, n: int) -> Option<int> {
    if exists|i: int| is_tier_b_pick(pool, n, i) {
        Some(choose|i: int| is_tier_b_pick(pool, n, i))
    } else {
        None
    }
}

proof fn lemma_tier_a_pick_unique(
    pool: Seq<SplitView>,
    req: WorkspaceRequest,
    with_subsplit: bool,
    i: int,
    j: int,
)
    requires
        is_tier_a_pick(pool, req, with_subsplit, i),
        is_tier_a_pick(pool, req, with_subsplit, j),
    ensures
        i == j,
{
    if i != j {
        assert(a_before(pool[i], pool[j]));
        assert(a_before(pool[j], pool[i]));
    }
}

proof fn lemma_tier_b_pick_unique(pool: Seq<SplitView>, n: int, i: int, j: int)
    requires
        is_tier_b_pick(pool, n, i),
        is_tier_b_pick(pool, n, j),
    ensures
        i == j,
{
    if i != j {
        assert(b_before(pool[i], pool[j]));
        assert(b_before(pool[j], pool[i]));
    }
}

/// What one user's turn leaves behind: the pool, the contract if the user
/// was matched, the moved-on identifier counter, and the identifier of the
/// split consumed by the contract, if any.
pub struct StepResult {
    pub pool: Seq<SplitView>,
    pub contract: Option<ContractView>,
    pub nid: int,
    pub consumed: Seq<int>,
}

/// The contract recorded when `guest` takes the whole of split `s`, under
/// contract identifier `cid`: the split's parent office, owner, workstation
/// count and price.
pub open spec fn contract_for(s: SplitView, guest: int, cid: int) -> ContractView {
    ContractView {
        id: cid,
        rental_space_id: s.parent_office_id,
        host_id: s.owner_id,
        guest_id: guest,
        nb_workstations: s.nb_workstations,
        price: spec_price(s),
    }
}

/// One user's turn.  The whole-split tier is tried first; with subdivision
/// on, a failed first tier falls through to cutting the subdivision tier's
/// choice at the requested size: the exact piece is contracted (without a
/// budget check, deliberately) and the remainder re-enters the pool.
pub open spec fn step_user(
    pool: Seq<SplitView>,
    u: UserView,
    with_subsplit: bool,
    nid: int,
) -> StepResult {
    match u.workspace_request {
        None => StepResult { pool, contract: None, nid, consumed: seq![] },
        Some(req) => match tier_a_pick(pool, req, with_subsplit) {
            Some(i) => StepResult {
                pool: pool.remove(i),
                contract: Some(contract_for(pool[i], u.id, nid)),
                nid: nid + 1,
                consumed: seq![pool[i].id],
            },
            None => {
                if with_subsplit {
                    match tier_b_pick(pool, req.nb_workstations as int) {
                        Some(i) => {
                            let s = pool[i];
                            let piece1 = spec_subsplit_piece(s, req.nb_workstations as int, nid);
                            let piece2 = spec_subsplit_piece(
                                s,
                                s.nb_workstations - req.nb_workstations,
                                nid + 1,
                            );
                            StepResult {
                                pool: pool.remove(i).push(piece2),
                                contract: Some(contract_for(piece1, u.id, nid + 2)),
                                nid: nid + 3,
                                consumed: seq![s.id],
                            }
                        },
                        None => StepResult { pool, contract: None, nid, consumed: seq![] },
                    }
                } else {
                    StepResult { pool, contract: None, nid, consumed: seq![] }
                }
            },
        },
    }
}

/// What one round leaves behind: the contracts in the order they were
/// agreed, the candidates left unmatched in candidate order, the final
/// pool, the moved-on identifier counter, and the identifiers of all
/// consumed splits.
pub struct RoundResult {
    pub contracts: Seq<ContractView>,
    pub unmatched: Seq<UserView>,
    pub pool: Seq<SplitView>,
    pub nid: int,
    pub consumed: Seq<int>,
}

/// Run one round over the candidates `users[k..]`, front to back.
pub open spec fn run_round_from(
    users: Seq<UserView>,
    k: int,
    pool: Seq<SplitView>,
    with_subsplit: bool,
    nid: int,
) -> RoundResult
    decreases users.len() - k,
{
    if k < 0 || k >= users.len() {
        RoundResult { contracts: seq![], unmatched: seq![], pool, nid, consumed: seq![] }
    } else {
        let st = step_user(pool, users[k], with_subsplit, nid);
        let rest = run_round_from(users, k + 1, st.pool, with_subsplit, st.nid);
        RoundResult {
            contracts: match st.contract {
                Some(c) => seq![c] + rest.contracts,
                None => rest.contracts,
            },
            unmatched: match st.contract {
                Some(_) => rest.unmatched,
                None => seq![users[k]] + rest.unmatched,
            },
            pool: rest.pool,
            nid: rest.nid,
            consumed: st.consumed + rest.consumed,
        }
    }
}

/// Run one round over all its candidates.
pub open spec fn run_round(
    users: Seq<UserView>,
    pool: Seq<SplitView>,
    with_subsplit: bool,
    nid: int,
) -> RoundResult {
    run_round_from(users, 0, pool, with_subsplit, nid)
}

/// The users at or after position `k` that carry a workspace request, in
/// order: one round's candidate set.
pub open spec fn requesting_users_from(users: Seq<UserView>, k: int) -> Seq<UserView>
    decreases users.len() - k,
{
    if k < 0 || k >= users.len() {
        seq![]
    } else if users[k].workspace_request is Some {
        seq![users[k]] + requesting_users_from(users, k + 1)
    } else {
        requesting_users_from(users, k + 1)
    }
}

/// The fresh pool of one round: rental space `i` becomes the whole-space
/// split with identifier `nid + i`.
pub open spec fn initial_pool(spaces: Seq<RentalSpaceView>, nid: int) -> Seq<SplitView> {
    Seq::new(spaces.len(), |i: int| spec_space_split(spaces[i], nid + i))
}

/// The percentage of requesting users that ended up matched, rounded to the
/// nearest integer with halves rounding up.  Defined as 100 when no user
/// requested workspace: nobody was left unserved.
pub open spec fn spec_percentage(total: int, unmatched: int) -> int {
    if total == 0 {
        100
    } else {
        ((total - unmatched) * 200 + total) / (2 * total)
    }
}

/// The complete two-round outcome on the given users and rental spaces:
/// round one over every requesting user, round two over the survivors with
/// a rebuilt pool, then the match-rate statistic over the final unmatched
/// set.
pub open spec fn spec_matchings(
    users: Seq<UserView>,
    spaces: Seq<RentalSpaceView>,
    with_subsplit: bool,
) -> MatchingsView {
    let candidates = requesting_users_from(users, 0);
    let r1 = run_round(candidates, initial_pool(spaces, 0), with_subsplit, spaces.len() as int);
    let r2 = run_round(
        r1.unmatched,
        initial_pool(spaces, r1.nid),
        with_subsplit,
        r1.nid + spaces.len(),
    );
    MatchingsView {
        year_1_contracts: r1.contracts,
        year_2_contracts: r2.contracts,
        percentage_of_matched_users: spec_percentage(
            candidates.len() as int,
            r2.unmatched.len() as int,
        ),
    }
}

/// The result of one engine run: the contracts of each round and the
/// match-rate statistic.
#[derive(Debug)]
pub struct Matchings {
    pub year_1_contracts: Vec<Contract>,
    pub year_2_contracts: Vec<Contract>,
    pub percentage_of_matched_users: i32,
}

/// The mathematical value of a [`Matchings`].
pub struct MatchingsView {
    pub year_1_contracts: Seq<ContractView>,
    pub year_2_contracts: Seq<ContractView>,
    pub percentage_of_matched_users: int,
}

impl View for Matchings {
    type V = MatchingsView;

    open spec fn view(&self) -> MatchingsView {
        MatchingsView {
            year_1_contracts: contract_views(self.year_1_contracts@),
            year_2_contracts: contract_views(self.year_2_contracts@),
            percentage_of_matched_users: self.percentage_of_matched_users as int,
        }
    }
}

pub(crate) proof fn lemma_step_user_wf(pool: Seq<SplitView>, u: UserView, with_subsplit: bool, nid: int)
    requires
        distinct_split_ids(pool),
        pool_fresh(pool, nid),
    ensures
        ({
            let st = step_user(pool, u, with_subsplit, nid);
            &&& distinct_split_ids(st.pool)
            &&& pool_fresh(st.pool, st.nid)
            &&& nid <= st.nid <= nid + 3
        }),
{
    let st = step_user(pool, u, with_subsplit, nid);
    match u.workspace_request {
        None => {},
        Some(req) => {
            match tier_a_pick(pool, req, with_subsplit) {
                Some(i) => {
                    lemma_remove_keeps_ids(pool, i, nid);
                },
                None => {
                    if with_subsplit {
                        match tier_b_pick(pool, req.nb_workstations as int) {
                            Some(i) => {
                                lemma_remove_keeps_ids(pool, i, nid);
                                let piece2 = spec_subsplit_piece(
                                    pool[i],
                                    pool[i].nb_workstations - req.nb_workstations,
                                    nid + 1,
                                );
                                let np = pool.remove(i).push(piece2);
                                assert forall|a: int, b: int|
                                    0 <= a < b < np.len() implies np[a].id != np[b].id by {
                                    if b < np.len() - 1 {
                                        assert(np[a] == pool.remove(i)[a]);
                                        assert(np[b] == pool.remove(i)[b]);
                                    } else {
                                        assert(np[b] == piece2);
                                        assert(np[a] == pool.remove(i)[a]);
                                        assert(np[a].id < nid);
                                    }
                                }
                                assert(pool_fresh(np, nid + 3));
                            },
                            None => {},
                        }
                    }
                },
            }
        },
    }
}

pub(crate) proof fn lemma_remove_keeps_ids(pool: Seq<SplitView>, i: int, nid: int)
    requires
        distinct_split_ids(pool),
        pool_fresh(pool, nid),
        0 <= i < pool.len(),
    ensures
        distinct_split_ids(pool.remove(i)),
        pool_fresh(pool.remove(i), nid),
        forall|t: int| 0 <= t < pool.remove(i).len() ==> pool.contains(#[trigger] pool.remove(i)[t]),
{
    let np = pool.remove(i);
    assert forall|a: int, b: int| 0 <= a < b < np.len() implies np[a].id != np[b].id by {
        let ra = if a < i {
            a
        } else {
            a + 1
        };
        let rb = if b < i {
            b
        } else {
            b + 1
        };
        assert(np[a] == pool[ra]);
        assert(np[b] == pool[rb]);
    }
    assert forall|t: int| 0 <= t < np.len() implies (#[trigger] np[t]).id < nid && pool.contains(
        np[t],
    ) by {
        let rt = if t < i {
            t
        } else {
            t + 1
        };
        assert(np[t] == pool[rt]);
    }
}

proof fn lemma_split_views_remove(v: Seq<Split>, i: int)
    requires
        0 <= i < v.len(),
    ensures
        split_views(v.remove(i)) =~= split_views(v).remove(i),
{
    assert forall|j: int| 0 <= j < v.remove(i).len() implies split_views(v.remove(i))[j]
        == split_views(v).remove(i)[j] by {
        if j < i {
            assert(v.remove(i)[j] == v[j]);
        } else {
            assert(v.remove(i)[j] == v[j + 1]);
        }
    }
}

proof fn lemma_split_views_push(v: Seq<Split>, s: Split)
    ensures
        split_views(v.push(s)) =~= split_views(v).push(s@),
{
    assert forall|j: int| 0 <= j < v.push(s).len() implies split_views(v.push(s))[j]
        == split_views(v).push(s@)[j] by {
        if j < v.len() {
            assert(v.push(s)[j] == v[j]);
        } else {
            assert(v.push(s)[j] == s);
        }
    }
}

proof fn lemma_contract_views_push(v: Seq<Contract>, c: Contract)
    ensures
        contract_views(v.push(c)) =~= contract_views(v).push(c@),
{
    assert forall|j: int| 0 <= j < v.push(c).len() implies contract_views(v.push(c))[j]
        == contract_views(v).push(c@)[j] by {
        if j < v.len() {
            assert(v.push(c)[j] == v[j]);
        } else {
            assert(v.push(c)[j] == c);
        }
    }
}

/// The identifier counter never goes backwards over a round, and mints at
/// most three identifiers per candidate.
pub(crate) proof fn lemma_run_round_nid(
    users: Seq<UserView>,
    k: int,
    pool: Seq<SplitView>,
    with_subsplit: bool,
    nid: int,
)
    requires
        0 <= k <= users.len(),
    ensures
        nid <= run_round_from(users, k, pool, with_subsplit, nid).nid <= nid + 3 * (users.len()
            - k),
    decreases users.len() - k,
{
    if k < users.len() {
        let st = step_user(pool, users[k], with_subsplit, nid);
        assert(nid <= st.nid <= nid + 3);
        lemma_run_round_nid(users, k + 1, st.pool, with_subsplit, st.nid);
    }
}

/// Whoever a round leaves unmatched was one of its candidates, and no
/// candidate is left unmatched twice.
pub(crate) proof fn lemma_run_round_unmatched(
    users: Seq<UserView>,
    k: int,
    pool: Seq<SplitView>,
    with_subsplit: bool,
    nid: int,
)
    requires
        0 <= k <= users.len(),
    ensures
        ({
            let rr = run_round_from(users, k, pool, with_subsplit, nid);
            &&& rr.unmatched.len() <= users.len() - k
            &&& forall|t: int|
                0 <= t < rr.unmatched.len() ==> users.contains(#[trigger] rr.unmatched[t])
        }),
    decreases users.len() - k,
{
    if k < users.len() {
        let st = step_user(pool, users[k], with_subsplit, nid);
        lemma_run_round_unmatched(users, k + 1, st.pool, with_subsplit, st.nid);
        let rr = run_round_from(users, k, pool, with_subsplit, nid);
        let rest = run_round_from(users, k + 1, st.pool, with_subsplit, st.nid);
        match st.contract {
            Some(_) => {},
            None => {
                assert forall|t: int| 0 <= t < rr.unmatched.len() implies users.contains(
                    #[trigger] rr.unmatched[t],
                ) by {
                    if t == 0 {
                        assert(rr.unmatched[0] == users[k]);
                    } else {
                        assert(rr.unmatched[t] == rest.unmatched[t - 1]);
                    }
                }
            },
        }
    }
}

/// Round the match rate to a percentage.
fn compute_percentage(total: usize, unmatched: usize) -> (p: i32)
    requires
        unmatched <= total,
    ensures
        p as int == spec_percentage(total as int, unmatched as int),
        0 <= p <= 100,
{
    if total == 0 {
        100
    } else {
        let t = total as u128;
        let m = (total - unmatched) as u128;
        let q = (m * 200 + t) / (2 * t);
        proof {
            assert((m * 200 + t) / (2 * t) <= 100) by (nonlinear_arith)
                requires
                    0 < t,
                    0 <= m <= t,
            ;
        }
        q as i32
    }
}

/// Run one round: walk the candidates in order, each taking one turn on
/// the shared pool.  `cand_ids` and `cands` name the same candidates, by
/// identifier and by value; every candidate is a stored user and carries a
/// workspace request.
#[verifier::loop_isolation(false)]
fn run_round_exec(
    storage: &ObjectStorage,
    cand_ids: &Vec<UserId>,
    Ghost(cands): Ghost<Seq<UserView>>,
    pool: &mut Vec<Split>,
    with_subsplit: bool,
    ids: &mut IdGen,
) -> (r: (Vec<Contract>, Vec<UserId>))
    requires
        cand_ids@.len() == cands.len(),
        forall|t: int| 0 <= t < cands.len() ==> storage@.users.contains(#[trigger] cands[t]),
        forall|t: int| 0 <= t < cands.len() ==> (#[trigger] cands[t]).workspace_request is Some,
        forall|t: int| 0 <= t < cands.len() ==> (#[trigger] cand_ids@[t])@ == cands[t].id,
        distinct_split_ids(split_views(old(pool)@)),
        pool_fresh(split_views(old(pool)@), old(ids).spec_next()),
        old(ids).spec_next() + 3 * cands.len() <= u64::MAX,
    ensures
        ({
            let rr = run_round(cands, split_views(old(pool)@), with_subsplit, old(ids).spec_next());
            &&& contract_views(r.0@) == rr.contracts
            &&& r.1@.len() == rr.unmatched.len()
            &&& forall|t: int|
                0 <= t < rr.unmatched.len() ==> (#[trigger] r.1@[t])@ == rr.unmatched[t].id
            &&& split_views(final(pool)@) == rr.pool
            &&& final(ids).spec_next() == rr.nid
        }),
{
    proof {
        use_type_invariant(&*storage);
    }
    let ghost pool0 = split_views(pool@);
    let ghost nid0 = ids.spec_next();
    let ghost rr = run_round(cands, pool0, with_subsplit, nid0);
    let mut contracts: Vec<Contract> = Vec::new();
    let mut unmatched: Vec<UserId> = Vec::new();
    let ghost mut unm_ghost: Seq<UserView> = Seq::empty();
    let mut k: usize = 0;
    proof {
        assert(contract_views(contracts@) =~= Seq::<ContractView>::empty());
        assert(contract_views(contracts@) + rr.contracts =~= rr.contracts);
        assert(unm_ghost + rr.unmatched =~= rr.unmatched);
    }
    while k < cand_ids.len()
        invariant
            0 <= k <= cands.len(),
            distinct_split_ids(split_views(pool@)),
            pool_fresh(split_views(pool@), ids.spec_next()),
            ids.spec_next() + 3 * (cands.len() - k) <= u64::MAX,
            ({
                let rem = run_round_from(
                    cands,
                    k as int,
                    split_views(pool@),
                    with_subsplit,
                    ids.spec_next(),
                );
                &&& rr.contracts == contract_views(contracts@) + rem.contracts
                &&& rr.unmatched == unm_ghost + rem.unmatched
                &&& rr.pool == rem.pool
                &&& rr.nid == rem.nid
            }),
            unmatched@.len() == unm_ghost.len(),
            forall|t: int| 0 <= t < unm_ghost.len() ==> (#[trigger] unmatched@[t])@ == unm_ghost[t].id,
        decreases cand_ids.len() - k,
    {
        let ghost pv = split_views(pool@);
        let ghost nid_now = ids.spec_next();
        let ghost st = step_user(pv, cands[k as int], with_subsplit, nid_now);
        let ghost rest = run_round_from(cands, k as int + 1, st.pool, with_subsplit, st.nid);
        proof {
            lemma_step_user_wf(pv, cands[k as int], with_subsplit, nid_now);
        }
        let uid = cand_ids[k];
        let u_opt = storage.get_user(uid);
        proof {
            let us = storage@.users;
            assert(us.contains(cands[k as int]));
            let a = choose|a: int| 0 <= a < us.len() && us[a] == cands[k as int];
            if u_opt is None {
                assert(us[a].id != uid@);
                assert(false);
            }
            let uv = u_opt->Some_0@;
            let b = choose|b: int| 0 <= b < us.len() && us[b] == uv;
            assert(us[a].id == us[b].id);
            assert(a == b);
            assert(uv == cands[k as int]);
        }
        let u = u_opt.unwrap();
        let req = u.workspace_request.unwrap();
        proof {
            assert(Some(req) == cands[k as int].workspace_request);
        }
        let pick = find_tier_a(pool, req, with_subsplit);
        let ghost old_cv = contract_views(contracts@);
        match pick {
            Some(i) => {
                proof {
                    assert(st.pool == pv.remove(i as int));
                    assert(st.contract == Some(contract_for(pv[i as int], cands[k as int].id, nid_now)));
                    assert(st.nid == nid_now + 1);
                }
                let ghost pre_pool = pool@;
                let s = pool.remove(i);
                let price = s.price();
                let c = Contract::new(
                    s.parent_office_id(),
                    s.owner_id(),
                    uid,
                    s.nb_workstations(),
                    price,
                    ids,
                );
                proof {
                    lemma_split_views_remove(pre_pool, i as int);
                }
                let ghost pre_contracts = contracts@;
                contracts.push(c);
                proof {
                    assert(s@ == pv[i as int]);
                    assert(c@ == contract_for(pv[i as int], cands[k as int].id, nid_now));
                    assert(split_views(pool@) == st.pool);
                    lemma_contract_views_push(pre_contracts, c);
                    assert(contract_views(contracts@) == old_cv.push(c@));
                    assert(old_cv + (seq![c@] + rest.contracts) =~= old_cv.push(c@)
                        + rest.contracts);
                }
            },
            None => {
                if with_subsplit {
                    let bpick = find_tier_b(pool, req.nb_workstations);
                    match bpick {
                        Some(i) => {
                            proof {
                                assert(spec_can_subsplit(pv[i as int], req.nb_workstations as int));
                            }
                            let ghost pre_pool = pool@;
                            let s = pool.remove(i);
                            proof {
                                lemma_split_views_remove(pre_pool, i as int);
                                assert(s@ == pv[i as int]);
                            }
                            let (piece1, piece2) = s.subsplit(req.nb_workstations, ids);
                            let price1 = piece1.price();
                            let c = Contract::new(
                                piece1.parent_office_id(),
                                piece1.owner_id(),
                                uid,
                                piece1.nb_workstations(),
                                price1,
                                ids,
                            );
                            let ghost mid_pool = pool@;
                            pool.push(piece2);
                            let ghost pre_contracts = contracts@;
                            contracts.push(c);
                            proof {
                                lemma_split_views_push(mid_pool, piece2);
                                assert(piece1@ == spec_subsplit_piece(
                                    pv[i as int],
                                    req.nb_workstations as int,
                                    nid_now,
                                ));
                                assert(piece2@ == spec_subsplit_piece(
                                    pv[i as int],
                                    pv[i as int].nb_workstations - req.nb_workstations,
                                    nid_now + 1,
                                ));
                                assert(st.pool == pv.remove(i as int).push(piece2@));
                                assert(st.contract == Some(contract_for(piece1@, cands[k as int].id, nid_now + 2)));
                                assert(st.nid == nid_now + 3);
                                assert(split_views(pool@) == st.pool);
                                assert(c@ == contract_for(piece1@, cands[k as int].id, nid_now + 2));
                                lemma_contract_views_push(pre_contracts, c);
                                assert(contract_views(contracts@) == old_cv.push(c@));
                                assert(old_cv + (seq![c@] + rest.contracts) =~= old_cv.push(c@)
                                    + rest.contracts);
                            }
                        },
                        None => {
                            proof {
                                assert(st.pool == pv);
                                assert(st.contract is None);
                                assert(st.nid == nid_now);
                            }
                            unmatched.push(uid);
                            proof {
                                let old_unm = unm_ghost;
                                unm_ghost = unm_ghost + seq![cands[k as int]];
                                assert(old_unm + (seq![cands[k as int]] + rest.unmatched)
                                    =~= unm_ghost + rest.unmatched);
                            }
                        },
                    }
                } else {
                    proof {
                        assert(st.pool == pv);
                        assert(st.contract is None);
                        assert(st.nid == nid_now);
                    }
                    unmatched.push(uid);
                    proof {
                        let old_unm = unm_ghost;
                        unm_ghost = unm_ghost + seq![cands[k as int]];
                        assert(old_unm + (seq![cands[k as int]] + rest.unmatched)
                            =~= unm_ghost + rest.unmatched);
                    }
                }
            },
        }
        k = k + 1;
    }
    proof {
        let rem = run_round_from(cands, k as int, split_views(pool@), with_subsplit, ids.spec_next());
        assert(rem.contracts =~= Seq::<ContractView>::empty());
        assert(rem.unmatched =~= Seq::<UserView>::empty());
        assert(contract_views(contracts@) + rem.contracts =~= contract_views(contracts@));
        assert(unm_ghost + rem.unmatched =~= unm_ghost);
    }
    (contracts, unmatched)
}

/// Build one round's fresh pool: every rental space becomes one whole-space
/// split, in storage order, under consecutive fresh identifiers.
#[verifier::loop_isolation(false)]
fn build_pool(spaces_vec: &Vec<RentalSpace>, ids: &mut IdGen) -> (pool: Vec<Split>)
    requires
        old(ids).spec_next() + spaces_vec@.len() <= u64::MAX,
    ensures
        split_views(pool@) == initial_pool(space_views(spaces_vec@), old(ids).spec_next()),
        final(ids).spec_next() == old(ids).spec_next() + spaces_vec@.len(),
        distinct_split_ids(split_views(pool@)),
        pool_fresh(split_views(pool@), final(ids).spec_next()),
{
    let ghost spacesv = space_views(spaces_vec@);
    let ghost nid0 = ids.spec_next();
    let mut pool: Vec<Split> = Vec::new();
    let mut j: usize = 0;
    while j < spaces_vec.len()
        invariant
            0 <= j <= spaces_vec.len(),
            ids.spec_next() == nid0 + j,
            split_views(pool@).len() == j,
            forall|t: int|
                0 <= t < j ==> split_views(pool@)[t] == spec_space_split(spacesv[t], nid0 + t),
        decreases spaces_vec.len() - j,
    {
        let ghost pre_pool = pool@;
        let s = spaces_vec[j].to_split(ids);
        pool.push(s);
        proof {
            lemma_split_views_push(pre_pool, s);
            assert(spacesv[j as int] == spaces_vec@[j as int]@);
            assert(s@ == spec_space_split(spacesv[j as int], nid0 + j));
        }
        j = j + 1;
    }
    proof {
        assert(split_views(pool@) =~= initial_pool(spacesv, nid0));
        assert forall|a: int, b: int|
            0 <= a < b < split_views(pool@).len() implies split_views(pool@)[a].id != split_views(
            pool@,
        )[b].id by {
            assert(split_views(pool@)[a].id == nid0 + a);
            assert(split_views(pool@)[b].id == nid0 + b);
        }
        assert forall|t: int| 0 <= t < split_views(pool@).len() implies (#[trigger] split_views(
            pool@,
        )[t]).id < ids.spec_next() by {
            assert(split_views(pool@)[t].id == nid0 + t);
        }
    }
    pool
}

/// The matching engine: borrows the storage read-only for the duration of
/// one or more runs.
pub struct MatchingEngine<'a> {
    pub storage: &'a ObjectStorage,
}

impl<'a> MatchingEngine<'a> {
    pub fn new(storage: &'a ObjectStorage) -> (e: MatchingEngine<'a>)
        ensures
            e.storage == storage,
    {
        MatchingEngine { storage }
    }

    /// One complete greedy run over the stored users and rental spaces.
    /// The size bound on the storage merely keeps the identifier counter
    /// within its machine word.
    #[verifier::loop_isolation(false)]
    pub fn get_greedy_matchings(&self, with_subsplit: bool) -> (m: Matchings)
        requires
            self.storage@.users.len() + self.storage@.rental_spaces.len() <= 0x1000_0000,
        ensures
            m@ == spec_matchings(
                self.storage@.users,
                self.storage@.rental_spaces,
                with_subsplit,
            ),
    {
        let storage = self.storage;
        proof {
            use_type_invariant(storage);
        }
        let ghost usersv = storage@.users;
        let ghost spacesv = storage@.rental_spaces;
        let mut ids = IdGen::new();

        // Candidate set of round one: every user with a workspace request.
        let users_vec = storage.users();
        let ghost cands = requesting_users_from(usersv, 0);
        let mut cand_ids: Vec<UserId> = Vec::new();
        let ghost mut cacc: Seq<UserView> = Seq::empty();
        let mut i: usize = 0;
        proof {
            assert(cacc + requesting_users_from(usersv, 0) =~= requesting_users_from(usersv, 0));
        }
        while i < users_vec.len()
            invariant
                0 <= i <= users_vec.len(),
                cands == cacc + requesting_users_from(usersv, i as int),
                cand_ids@.len() == cacc.len(),
                cacc.len() <= i,
                forall|t: int| 0 <= t < cacc.len() ==> (#[trigger] cand_ids@[t])@ == cacc[t].id,
                forall|t: int| 0 <= t < cacc.len() ==> usersv.contains(#[trigger] cacc[t]),
                forall|t: int|
                    0 <= t < cacc.len() ==> (#[trigger] cacc[t]).workspace_request is Some,
            decreases users_vec.len() - i,
        {
            let u = &users_vec[i];
            proof {
                assert(u@ == usersv[i as int]);
            }
            if u.workspace_request.is_some() {
                cand_ids.push(u.id());
                proof {
                    let old_cacc = cacc;
                    cacc = cacc + seq![usersv[i as int]];
                    assert(usersv.contains(usersv[i as int]));
                    assert(old_cacc + (seq![usersv[i as int]] + requesting_users_from(
                        usersv,
                        i + 1,
                    )) =~= cacc + requesting_users_from(usersv, i + 1));
                }
            }
            i = i + 1;
        }
        proof {
            assert(requesting_users_from(usersv, i as int) =~= Seq::<UserView>::empty());
            assert(cacc + requesting_users_from(usersv, i as int) =~= cacc);
            assert(cacc == cands);
        }

        // Round one: fresh pool, all requesting users.
        let spaces_vec = storage.rental_spaces();
        let mut pool1 = build_pool(spaces_vec, &mut ids);
        let ghost nid1 = ids.spec_next();
        let ghost rr1 = run_round(cands, initial_pool(spacesv, 0), with_subsplit, nid1);
        let (year_1_contracts, unmatched1) = run_round_exec(
            storage,
            &cand_ids,
            Ghost(cands),
            &mut pool1,
            with_subsplit,
            &mut ids,
        );
        proof {
            lemma_run_round_nid(cands, 0, initial_pool(spacesv, 0), with_subsplit, nid1);
            lemma_run_round_unmatched(cands, 0, initial_pool(spacesv, 0), with_subsplit, nid1);
            assert forall|t: int| 0 <= t < rr1.unmatched.len() implies usersv.contains(
                #[trigger] rr1.unmatched[t],
            ) && rr1.unmatched[t].workspace_request is Some by {
                assert(cands.contains(rr1.unmatched[t]));
                let x = choose|x: int| 0 <= x < cands.len() && cands[x] == rr1.unmatched[t];
                assert(usersv.contains(cands[x]));
            }
        }

        // Round two: rebuilt pool, the unmatched survivors of round one.
        let mut pool2 = build_pool(spaces_vec, &mut ids);
        let ghost nid2 = ids.spec_next();
        let ghost rr2 = run_round(rr1.unmatched, initial_pool(spacesv, rr1.nid), with_subsplit, nid2);
        let (year_2_contracts, unmatched2) = run_round_exec(
            storage,
            &unmatched1,
            Ghost(rr1.unmatched),
            &mut pool2,
            with_subsplit,
            &mut ids,
        );
        proof {
            lemma_run_round_unmatched(
                rr1.unmatched,
                0,
                initial_pool(spacesv, rr1.nid),
                with_subsplit,
                nid2,
            );
        }

        let percentage_of_matched_users = compute_percentage(cand_ids.len(), unmatched2.len());
        let m = Matchings { year_1_contracts, year_2_contracts, percentage_of_matched_users };
        proof {
            assert(nid1 == spacesv.len() as int);
            assert(rr2 == run_round(
                rr1.unmatched,
                initial_pool(spacesv, rr1.nid),
                with_subsplit,
                rr1.nid + spacesv.len(),
            ));
            assert(m@.year_1_contracts == rr1.contracts);
            assert(m@.year_2_contracts == rr2.contracts);
            assert(m@.percentage_of_matched_users == spec_percentage(
                cands.len() as int,
                rr2.unmatched.len() as int,
            ));
        }
        m
    }
}

/// Scan the pool for the whole-split tier's choice.
fn find_tier_a(pool: &Vec<Split>, req: WorkspaceRequest, with_subsplit: bool) -> (r: Option<usize>)
    requires
        distinct_split_ids(split_views(pool@)),
    ensures
        tier_a_pick(split_views(pool@), req, with_subsplit) == match r {
            Some(i) => Some(i as int),
            None => None::<int>,
        },
        r matches Some(i) ==> is_tier_a_pick(split_views(pool@), req, with_subsplit, i as int),
{
    let ghost pv = split_views(pool@);
    let mut best: Option<usize> = None;
    let mut i: usize = 0;
    while i < pool.len()
        invariant
            0 <= i <= pool.len(),
            pv == split_views(pool@),
            pv.len() == pool.len(),
            distinct_split_ids(pv),
            match best {
                Some(b) => b < i && tier_a_ok(pv[b as int], req, with_subsplit) && forall|j: int|
                    0 <= j < i && j != b && tier_a_ok(#[trigger] pv[j], req, with_subsplit)
                        ==> a_before(pv[b as int], pv[j]),
                None => forall|j: int|
                    0 <= j < i ==> !tier_a_ok(#[trigger] pv[j], req, with_subsplit),
            },
        decreases pool.len() - i,
    {
        let s = &pool[i];
        let eligible = s.nb_workstations() >= req.nb_workstations && s.price() <= req.budget && (
        !with_subsplit || !s.can_be_subsplit(req.nb_workstations));
        proof {
            assert(pv[i as int] == s@);
            assert(eligible == tier_a_ok(pv[i as int], req, with_subsplit));
        }
        if eligible {
            match best {
                None => {
                    best = Some(i);
                },
                Some(b) => {
                    let sb = &pool[b];
                    proof {
                        assert(pv[b as int] == sb@);
                    }
                    if s.nb_workstations() < sb.nb_workstations() || (s.nb_workstations()
                        == sb.nb_workstations() && s.id_value() < sb.id_value()) {
                        best = Some(i);
                    }
                },
            }
        }
        i = i + 1;
    }
    proof {
        match best {
            Some(b) => {
                assert(is_tier_a_pick(pv, req, with_subsplit, b as int));
                let w = choose|x: int| is_tier_a_pick(pv, req, with_subsplit, x);
                lemma_tier_a_pick_unique(pv, req, with_subsplit, w, b as int);
            },
            None => {
                if exists|x: int| is_tier_a_pick(pv, req, with_subsplit, x) {
                    let w = choose|x: int| is_tier_a_pick(pv, req, with_subsplit, x);
                    assert(tier_a_ok(pv[w], req, with_subsplit));
                    assert(false);
                }
            },
        }
    }
    best
}

/// Scan the pool for the subdivision tier's choice.
fn find_tier_b(pool: &Vec<Split>, n: u32) -> (r: Option<usize>)
    requires
        distinct_split_ids(split_views(pool@)),
    ensures
        tier_b_pick(split_views(pool@), n as int) == match r {
            Some(i) => Some(i as int),
            None => None::<int>,
        },
        r matches Some(i) ==> is_tier_b_pick(split_views(pool@), n as int, i as int),
{
    let ghost pv = split_views(pool@);
    let mut best: Option<usize> = None;
    let mut i: usize = 0;
    while i < pool.len()
        invariant
            0 <= i <= pool.len(),
            pv == split_views(pool@),
            pv.len() == pool.len(),
            distinct_split_ids(pv),
            match best {
                Some(b) => b < i && spec_can_subsplit(pv[b as int], n as int) && forall|j: int|
                    0 <= j < i && j != b && spec_can_subsplit(#[trigger] pv[j], n as int)
                        ==> b_before(pv[b as int], pv[j]),
                None => forall|j: int| 0 <= j < i ==> !spec_can_subsplit(#[trigger] pv[j], n as int),
            },
        decreases pool.len() - i,
    {
        let s = &pool[i];
        let eligible = s.can_be_subsplit(n);
        proof {
            assert(pv[i as int] == s@);
        }
        if eligible {
            match best {
                None => {
                    best = Some(i);
                },
                Some(b) => {
                    let sb = &pool[b];
                    proof {
                        assert(pv[b as int] == sb@);
                    }
                    if s.nb_workstations() > sb.nb_workstations() || (s.nb_workstations()
                        == sb.nb_workstations() && s.id_value() < sb.id_value()) {
                        best = Some(i);
                    }
                },
            }
        }
        i = i + 1;
    }
    proof {
        match best {
            Some(b) => {
                assert(is_tier_b_pick(pv, n as int, b as int));
                let w = choose|x: int| is_tier_b_pick(pv, n as int, x);
                lemma_tier_b_pick_unique(pv, n as int, w, b as int);
            },
            None => {
                if exists|x: int| is_tier_b_pick(pv, n as int, x) {
                    let w = choose|x: int| is_tier_b_pick(pv, n as int, x);
                    assert(spec_can_subsplit(pv[w], n as int));
                    assert(false);
                }
            },
        }
    }
    best
}

} // verus!
