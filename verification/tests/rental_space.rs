use office_space_split::rental_space::{
    AddRentalSpaceRequest, RentalSpace, Split, ValidationError,
};
use office_space_split::user::UserId;
use office_space_split::IdGen;

fn request(surface: u32, nb_workstations: u32, price_per_workstation: u32) -> AddRentalSpaceRequest {
    AddRentalSpaceRequest {
        name: "Rental Space".to_string(),
        address: "123 Main St".to_string(),
        surface,
        nb_workstations,
        price_per_workstation,
        owner_id: 0,
    }
}

fn space(surface: u32, nb_workstations: u32, price: u32, ids: &mut IdGen) -> RentalSpace {
    RentalSpace::new(request(surface, nb_workstations, price), UserId { value: 0 }, ids).unwrap()
}

#[test]
fn accepts_a_valid_space_and_copies_the_request() {
    let mut ids = IdGen::new();
    let owner = UserId { value: 9 };
    let space = RentalSpace::new(request(300, 100, 400), owner, &mut ids).unwrap();
    assert_eq!(space.name(), "Rental Space");
    assert_eq!(space.address(), "123 Main St");
    assert_eq!(space.surface(), 300);
    assert_eq!(space.nb_workstations(), 100);
    assert_eq!(space.price_per_workstation(), 400);
    assert_eq!(space.owner_id(), owner);
    assert_eq!(space.id_value(), 0);
}

#[test]
fn rejects_workstation_count_out_of_range() {
    let mut ids = IdGen::new();
    let owner = UserId { value: 0 };
    let err = RentalSpace::new(request(300, 39, 400), owner, &mut ids).unwrap_err();
    assert_eq!(err, ValidationError::NbWorkstationsOutOfRange);
    let err = RentalSpace::new(request(300, 181, 400), owner, &mut ids).unwrap_err();
    assert_eq!(err, ValidationError::NbWorkstationsOutOfRange);
    assert!(RentalSpace::new(request(300, 40, 400), owner, &mut ids).is_ok());
    assert!(RentalSpace::new(request(300, 180, 400), owner, &mut ids).is_ok());
}

#[test]
fn rejects_price_out_of_range() {
    let mut ids = IdGen::new();
    let owner = UserId { value: 0 };
    let err = RentalSpace::new(request(300, 100, 299), owner, &mut ids).unwrap_err();
    assert_eq!(err, ValidationError::PricePerWorkstationOutOfRange);
    let err = RentalSpace::new(request(300, 100, 801), owner, &mut ids).unwrap_err();
    assert_eq!(err, ValidationError::PricePerWorkstationOutOfRange);
    assert!(RentalSpace::new(request(300, 100, 300), owner, &mut ids).is_ok());
    assert!(RentalSpace::new(request(300, 100, 800), owner, &mut ids).is_ok());
}

#[test]
fn workstation_count_is_checked_before_price() {
    let mut ids = IdGen::new();
    let owner = UserId { value: 0 };
    let err = RentalSpace::new(request(300, 39, 299), owner, &mut ids).unwrap_err();
    assert_eq!(err, ValidationError::NbWorkstationsOutOfRange);
}

#[test]
fn density_tier_below_sixty_allows_five_seats_per_eight_units() {
    let mut ids = IdGen::new();
    let owner = UserId { value: 0 };
    // 59 workstations need 59 * 8 <= surface * 5, so at least 95 area units.
    assert!(RentalSpace::new(request(95, 59, 400), owner, &mut ids).is_ok());
    let err = RentalSpace::new(request(94, 59, 400), owner, &mut ids).unwrap_err();
    assert_eq!(err, ValidationError::WorkstationDensityTooHigh);
}

#[test]
fn density_tier_from_sixty_allows_five_seats_per_seven_units() {
    let mut ids = IdGen::new();
    let owner = UserId { value: 0 };
    // 60 workstations need 60 * 7 <= surface * 5, so at least 84 area units.
    assert!(RentalSpace::new(request(84, 60, 400), owner, &mut ids).is_ok());
    let err = RentalSpace::new(request(83, 60, 400), owner, &mut ids).unwrap_err();
    assert_eq!(err, ValidationError::WorkstationDensityTooHigh);
}

#[test]
fn no_identifier_is_minted_on_a_rejected_request() {
    let mut ids = IdGen::new();
    let owner = UserId { value: 0 };
    let _ = RentalSpace::new(request(300, 39, 400), owner, &mut ids);
    let space = RentalSpace::new(request(300, 100, 400), owner, &mut ids).unwrap();
    assert_eq!(space.id_value(), 0);
}

#[test]
fn a_split_offers_the_whole_space() {
    let mut ids = IdGen::new();
    let owner = UserId { value: 77 };
    let space = RentalSpace::new(request(300, 100, 400), owner, &mut ids).unwrap();
    let split: Split = space.to_split(&mut ids);
    assert_eq!(split.name(), "Rental Space");
    assert_eq!(split.address(), "123 Main St");
    assert_eq!(split.surface(), 300);
    assert_eq!(split.nb_workstations(), 100);
    assert_eq!(split.price_per_workstation(), 400);
    assert_eq!(split.parent_office_id(), space.id());
    assert_eq!(split.owner_id(), owner);
    assert_ne!(split.id_value(), space.id_value());
}

#[test]
fn price_is_count_times_per_workstation_price() {
    let mut ids = IdGen::new();
    let split = space(300, 180, 800, &mut ids).to_split(&mut ids);
    assert_eq!(split.price(), 144_000);
}

#[test]
fn low_density_split_subdivides_in_pieces_of_forty() {
    let mut ids = IdGen::new();
    // 180 * 8 = 1440 < 300 * 5 = 1500: low density, minimum piece 40.
    let split = space(300, 180, 400, &mut ids).to_split(&mut ids);
    assert_eq!(split.subsplit_min_nb_workstations(), Some(40));
    assert_eq!(split.subsplit_max_nb_workstations(), Some(140));
    assert!(!split.can_be_subsplit(39));
    assert!(split.can_be_subsplit(40));
    assert!(split.can_be_subsplit(140));
    assert!(!split.can_be_subsplit(141));
}

#[test]
fn high_density_split_subdivides_in_pieces_of_sixty() {
    let mut ids = IdGen::new();
    // 180 * 8 = 1440 >= 255 * 5 = 1275: high density, minimum piece 60.
    let split = space(255, 180, 400, &mut ids).to_split(&mut ids);
    assert_eq!(split.subsplit_min_nb_workstations(), Some(60));
    assert_eq!(split.subsplit_max_nb_workstations(), Some(120));
    assert!(!split.can_be_subsplit(59));
    assert!(split.can_be_subsplit(60));
    assert!(split.can_be_subsplit(120));
    assert!(!split.can_be_subsplit(121));
}

#[test]
fn too_small_a_split_cannot_be_subdivided() {
    let mut ids = IdGen::new();
    // Both pieces must reach the minimum: 80 workstations are not enough
    // for two pieces of 40.
    let split = space(300, 80, 400, &mut ids).to_split(&mut ids);
    assert_eq!(split.subsplit_min_nb_workstations(), None);
    assert_eq!(split.subsplit_max_nb_workstations(), None);
    assert!(!split.can_be_subsplit(40));
}

#[test]
fn subsplit_cuts_exactly_and_apportions_surface_with_truncation() {
    let mut ids = IdGen::new();
    let split = space(130, 81, 400, &mut ids).to_split(&mut ids);
    assert_eq!(split.subsplit_min_nb_workstations(), Some(40));
    assert!(split.can_be_subsplit(41));
    let (piece, rest) = split.subsplit(41, &mut ids);
    assert_eq!(piece.nb_workstations(), 41);
    // 130 * 41 / 81 = 65.80..., truncated.
    assert_eq!(piece.surface(), 65);
    assert_eq!(rest.nb_workstations(), 40);
    // 130 * 40 / 81 = 64.19..., truncated.
    assert_eq!(rest.surface(), 64);
    assert_eq!(piece.price_per_workstation(), 400);
    assert_eq!(rest.price_per_workstation(), 400);
    assert_eq!(piece.parent_office_id(), split.parent_office_id());
    assert_eq!(rest.parent_office_id(), split.parent_office_id());
    assert_eq!(piece.owner_id(), split.owner_id());
    assert_eq!(rest.owner_id(), split.owner_id());
    assert_ne!(piece.id_value(), rest.id_value());
    assert_ne!(piece.id_value(), split.id_value());
    assert_ne!(rest.id_value(), split.id_value());
}

#[test]
fn exact_subdivision_keeps_both_pieces_within_the_density_rule() {
    let mut ids = IdGen::new();
    // 180 workstations on 300 area units; cutting at 60 divides the
    // surface exactly: 300 * 60 / 180 = 100 and 300 * 120 / 180 = 200.
    let split = space(300, 180, 400, &mut ids).to_split(&mut ids);
    let (piece, rest) = split.subsplit(60, &mut ids);
    assert_eq!(piece.surface(), 100);
    assert_eq!(rest.surface(), 200);
    // Both pieces have at least 60 seats, so each falls under the tier
    // allowing at most 5 seats per 7 area units: nb * 7 <= surface * 5.
    assert!(piece.nb_workstations() * 7 <= piece.surface() * 5);
    assert!(rest.nb_workstations() * 7 <= rest.surface() * 5);
}

#[test]
fn subsplit_pieces_sum_to_the_original_count() {
    let mut ids = IdGen::new();
    let split = space(300, 180, 400, &mut ids).to_split(&mut ids);
    let (piece, rest) = split.subsplit(70, &mut ids);
    assert_eq!(piece.nb_workstations() + rest.nb_workstations(), 180);
    assert_eq!(piece.price(), 70 * 400);
    assert_eq!(rest.price(), 110 * 400);
}
