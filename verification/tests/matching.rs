use office_space_split::matching::{Matchings, MatchingEngine};
use office_space_split::object_storage::ObjectStorage;
use office_space_split::rental_space::{AddRentalSpaceRequest, RentalSpaceId};
use office_space_split::user::{AddUserRequest, User, UserId, WorkspaceRequest};
use office_space_split::IdGen;

struct Setup {
    storage: ObjectStorage,
    ids: IdGen,
}

impl Setup {
    fn new() -> Setup {
        Setup { storage: ObjectStorage::new(), ids: IdGen::new() }
    }

    fn host(&mut self) -> UserId {
        self.user(None)
    }

    fn guest(&mut self, nb_workstations: u32, budget: u32) -> UserId {
        self.user(Some(WorkspaceRequest { nb_workstations, budget }))
    }

    fn user(&mut self, workspace_request: Option<WorkspaceRequest>) -> UserId {
        let user = User::new(
            AddUserRequest {
                first_name: "John".to_string(),
                last_name: "Doe".to_string(),
                workspace_request,
            },
            &mut self.ids,
        );
        let id = user.id();
        self.storage.add_user(user);
        id
    }

    fn space(
        &mut self,
        owner: UserId,
        surface: u32,
        nb_workstations: u32,
        price_per_workstation: u32,
    ) -> RentalSpaceId {
        let space = office_space_split::rental_space::RentalSpace::new(
            AddRentalSpaceRequest {
                name: "Rental Space".to_string(),
                address: "123 Main St".to_string(),
                surface,
                nb_workstations,
                price_per_workstation,
                owner_id: owner.value,
            },
            owner,
            &mut self.ids,
        )
        .unwrap();
        let id = space.id();
        self.storage.add_rental_space(space);
        id
    }

    fn run(&self, with_subsplit: bool) -> Matchings {
        MatchingEngine::new(&self.storage).get_greedy_matchings(with_subsplit)
    }
}

#[test]
fn whole_space_is_contracted_when_it_fits() {
    let mut setup = Setup::new();
    let host = setup.host();
    let guest = setup.guest(50, 1_000_000);
    let space = setup.space(host, 140, 100, 400);
    let m = setup.run(false);
    assert_eq!(m.year_1_contracts.len(), 1);
    let c = m.year_1_contracts[0];
    assert_eq!(c.rental_space_id, space);
    assert_eq!(c.host_id, host);
    assert_eq!(c.guest_id, guest);
    assert_eq!(c.nb_workstations, 100);
    assert_eq!(c.price, 40_000);
    // One engine run mints its own identifiers from zero: the single
    // first-round split takes 0, the contract takes 1.
    assert_eq!(c.id.value, 1);
    assert_eq!(m.year_2_contracts.len(), 0);
    assert_eq!(m.percentage_of_matched_users, 100);
}

#[test]
fn an_unsubdividable_space_is_taken_whole_even_with_subsplit_on() {
    let mut setup = Setup::new();
    let host = setup.host();
    let guest = setup.guest(50, 1_000_000);
    // 100 workstations at high density: the minimum piece is 60, so the
    // space cannot be cut and the first tier takes it whole.
    let space = setup.space(host, 140, 100, 400);
    let m = setup.run(true);
    assert_eq!(m.year_1_contracts.len(), 1);
    let c = m.year_1_contracts[0];
    assert_eq!(c.rental_space_id, space);
    assert_eq!(c.guest_id, guest);
    assert_eq!(c.nb_workstations, 100);
    assert_eq!(c.price, 40_000);
    assert_eq!(m.percentage_of_matched_users, 100);
}

#[test]
fn no_spaces_leaves_the_requesting_user_unmatched() {
    let mut setup = Setup::new();
    setup.guest(50, 1_000_000);
    for with_subsplit in [false, true] {
        let m = setup.run(with_subsplit);
        assert_eq!(m.year_1_contracts.len(), 0);
        assert_eq!(m.year_2_contracts.len(), 0);
        assert_eq!(m.percentage_of_matched_users, 0);
    }
}

#[test]
fn no_requesting_users_counts_as_fully_matched() {
    let mut setup = Setup::new();
    let host = setup.host();
    setup.space(host, 300, 100, 400);
    let m = setup.run(false);
    assert_eq!(m.year_1_contracts.len(), 0);
    assert_eq!(m.year_2_contracts.len(), 0);
    assert_eq!(m.percentage_of_matched_users, 100);
}

#[test]
fn subdivision_serves_the_exact_request_without_a_budget_check() {
    let mut setup = Setup::new();
    let host = setup.host();
    let guest = setup.guest(50, 100);
    let space = setup.space(host, 300, 180, 400);

    // Whole splits respect the budget, so nothing matches without
    // subdivision.
    let m = setup.run(false);
    assert_eq!(m.year_1_contracts.len(), 0);
    assert_eq!(m.year_2_contracts.len(), 0);
    assert_eq!(m.percentage_of_matched_users, 0);

    // With subdivision the cut piece is contracted at its full price even
    // though it exceeds the budget: a deliberate asymmetry of the second
    // tier.
    let m = setup.run(true);
    assert_eq!(m.year_1_contracts.len(), 1);
    let c = m.year_1_contracts[0];
    assert_eq!(c.rental_space_id, space);
    assert_eq!(c.host_id, host);
    assert_eq!(c.guest_id, guest);
    assert_eq!(c.nb_workstations, 50);
    assert_eq!(c.price, 20_000);
    // The cut mints two piece identifiers after the pool's single split,
    // so the contract takes the fourth value.
    assert_eq!(c.id.value, 3);
    assert_eq!(m.percentage_of_matched_users, 100);
}

#[test]
fn the_remainder_of_a_cut_returns_to_the_pool() {
    let mut setup = Setup::new();
    let host = setup.host();
    let first = setup.guest(50, 100);
    let second = setup.guest(130, 1_000_000);
    let space = setup.space(host, 300, 180, 400);
    let m = setup.run(true);
    assert_eq!(m.year_1_contracts.len(), 2);
    let cut = m.year_1_contracts[0];
    assert_eq!(cut.guest_id, first);
    assert_eq!(cut.nb_workstations, 50);
    assert_eq!(cut.price, 50 * 400);
    let rest = m.year_1_contracts[1];
    assert_eq!(rest.guest_id, second);
    assert_eq!(rest.nb_workstations, 130);
    assert_eq!(rest.price, 130 * 400);
    assert_eq!(rest.rental_space_id, space);
    assert_eq!(rest.host_id, host);
    assert_eq!(m.year_2_contracts.len(), 0);
    assert_eq!(m.percentage_of_matched_users, 100);
}

#[test]
fn the_smallest_sufficient_split_wins_the_first_tier() {
    let mut setup = Setup::new();
    let host = setup.host();
    let guest = setup.guest(50, 1_000_000);
    setup.space(host, 300, 100, 400);
    let small = setup.space(host, 96, 60, 400);
    let m = setup.run(false);
    assert_eq!(m.year_1_contracts.len(), 1);
    let c = m.year_1_contracts[0];
    assert_eq!(c.guest_id, guest);
    assert_eq!(c.rental_space_id, small);
    assert_eq!(c.nb_workstations, 60);
    assert_eq!(c.price, 24_000);
}

#[test]
fn a_split_over_budget_loses_to_a_larger_affordable_one() {
    let mut setup = Setup::new();
    let host = setup.host();
    setup.guest(50, 35_000);
    setup.space(host, 96, 60, 800);
    let large = setup.space(host, 140, 100, 300);
    let m = setup.run(false);
    assert_eq!(m.year_1_contracts.len(), 1);
    let c = m.year_1_contracts[0];
    assert_eq!(c.rental_space_id, large);
    assert_eq!(c.nb_workstations, 100);
    assert_eq!(c.price, 30_000);
}

#[test]
fn equal_splits_tie_towards_the_earlier_space() {
    let mut setup = Setup::new();
    let host = setup.host();
    setup.guest(50, 1_000_000);
    let first = setup.space(host, 300, 100, 400);
    setup.space(host, 300, 100, 400);
    let m = setup.run(false);
    assert_eq!(m.year_1_contracts.len(), 1);
    assert_eq!(m.year_1_contracts[0].rental_space_id, first);
}

#[test]
fn a_survivor_is_served_again_from_a_rebuilt_pool_in_round_two() {
    let mut setup = Setup::new();
    let host = setup.host();
    let first = setup.guest(50, 1_000_000);
    let second = setup.guest(50, 1_000_000);
    let space = setup.space(host, 140, 100, 400);
    let m = setup.run(false);
    // Round one: the space goes whole to the first guest; the second is
    // left unmatched.  Round two rebuilds the pool from the same space and
    // serves the survivor.
    assert_eq!(m.year_1_contracts.len(), 1);
    assert_eq!(m.year_1_contracts[0].guest_id, first);
    assert_eq!(m.year_2_contracts.len(), 1);
    let c = m.year_2_contracts[0];
    assert_eq!(c.guest_id, second);
    assert_eq!(c.rental_space_id, space);
    assert_eq!(c.nb_workstations, 100);
    assert_eq!(m.percentage_of_matched_users, 100);
}

#[test]
fn a_matched_user_never_returns_in_round_two() {
    let mut setup = Setup::new();
    let host = setup.host();
    let lucky = setup.guest(50, 1_000_000);
    setup.guest(200, 1_000_000);
    setup.space(host, 140, 100, 400);
    let m = setup.run(false);
    assert_eq!(m.year_1_contracts.len(), 1);
    assert_eq!(m.year_1_contracts[0].guest_id, lucky);
    // The pool is rebuilt for round two, yet the already-served guest is
    // not a candidate again: the space stays free for the survivor, whose
    // request is too large for it.
    assert_eq!(m.year_2_contracts.len(), 0);
    assert_eq!(m.percentage_of_matched_users, 50);
}

#[test]
fn assigned_seats_always_cover_the_request() {
    let mut setup = Setup::new();
    let host = setup.host();
    setup.guest(50, 100);
    setup.guest(41, 1_000_000);
    setup.space(host, 300, 180, 400);
    setup.space(host, 96, 60, 400);
    let m = setup.run(true);
    for c in m.year_1_contracts.iter().chain(m.year_2_contracts.iter()) {
        let wanted = if c.guest_id.value == 1 { 50 } else { 41 };
        assert!(c.nb_workstations >= wanted);
        assert_eq!(c.price, c.nb_workstations * 400);
    }
}

#[test]
fn the_match_rate_rounds_to_the_nearest_percent() {
    let mut setup = Setup::new();
    let host = setup.host();
    setup.guest(50, 1_000_000);
    setup.guest(50, 1_000_000);
    setup.guest(50, 1_000_000);
    setup.space(host, 140, 100, 400);
    // One match per round, one guest left over: 2 of 3 served, 66.67
    // percent rounds to 67.
    let m = setup.run(false);
    assert_eq!(m.year_1_contracts.len(), 1);
    assert_eq!(m.year_2_contracts.len(), 1);
    assert_eq!(m.percentage_of_matched_users, 67);
}

#[test]
fn the_match_rate_rounds_halves_up() {
    let mut setup = Setup::new();
    let host = setup.host();
    setup.guest(50, 1_000_000);
    for _ in 0..7 {
        setup.guest(200, 1_000_000);
    }
    setup.space(host, 140, 100, 400);
    // 1 of 8 served: 12.5 percent rounds up to 13.
    let m = setup.run(false);
    assert_eq!(m.year_1_contracts.len(), 1);
    assert_eq!(m.year_2_contracts.len(), 0);
    assert_eq!(m.percentage_of_matched_users, 13);
}
