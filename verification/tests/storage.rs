use office_space_split::object_storage::ObjectStorage;
use office_space_split::rental_space::{AddRentalSpaceRequest, RentalSpace};
use office_space_split::user::{AddUserRequest, User, UserId, WorkspaceRequest};
use office_space_split::IdGen;

fn user(name: &str, request: Option<WorkspaceRequest>, ids: &mut IdGen) -> User {
    User::new(
        AddUserRequest {
            first_name: name.to_string(),
            last_name: "Doe".to_string(),
            workspace_request: request,
        },
        ids,
    )
}

fn space(owner: UserId, ids: &mut IdGen) -> RentalSpace {
    RentalSpace::new(
        AddRentalSpaceRequest {
            name: "Rental Space".to_string(),
            address: "123 Main St".to_string(),
            surface: 300,
            nb_workstations: 100,
            price_per_workstation: 400,
            owner_id: owner.value,
        },
        owner,
        ids,
    )
    .unwrap()
}

#[test]
fn new_user_carries_the_request_and_a_fresh_identifier() {
    let mut ids = IdGen::new();
    let request = WorkspaceRequest { nb_workstations: 10, budget: 5000 };
    let u = user("John", Some(request), &mut ids);
    let v = user("Jane", None, &mut ids);
    assert_eq!(u.first_name, "John");
    assert_eq!(u.last_name, "Doe");
    assert_eq!(u.workspace_request, Some(request));
    assert_eq!(u.id_value(), 0);
    assert_eq!(v.workspace_request, None);
    assert_eq!(v.id_value(), 1);
    assert_ne!(u.id(), v.id());
}

#[test]
fn storage_returns_what_was_added_in_insertion_order() {
    let mut ids = IdGen::new();
    let mut storage = ObjectStorage::new();
    let u = user("John", None, &mut ids);
    let v = user("Jane", None, &mut ids);
    let uid = u.id();
    let vid = v.id();
    storage.add_user(u);
    storage.add_user(v);
    let users = storage.users();
    assert_eq!(users.len(), 2);
    assert_eq!(users[0].id(), uid);
    assert_eq!(users[1].id(), vid);
    assert_eq!(storage.get_user(uid).unwrap().first_name, "John");
    assert_eq!(storage.get_user(vid).unwrap().first_name, "Jane");
    assert!(storage.get_user(UserId { value: 99 }).is_none());
}

#[test]
fn adding_under_a_taken_identifier_replaces_the_record() {
    let mut ids = IdGen::new();
    let mut storage = ObjectStorage::new();
    let u = user("John", None, &mut ids);
    let uid = u.id();
    storage.add_user(u);
    let mut replacement = user("Johannes", None, &mut ids);
    replacement.id = uid;
    storage.add_user(replacement);
    assert_eq!(storage.users().len(), 1);
    assert_eq!(storage.get_user(uid).unwrap().first_name, "Johannes");
}

#[test]
fn rental_spaces_are_stored_and_looked_up() {
    let mut ids = IdGen::new();
    let mut storage = ObjectStorage::new();
    let owner = user("John", None, &mut ids);
    let owner_id = owner.id();
    storage.add_user(owner);
    let s = space(owner_id, &mut ids);
    let sid = s.id();
    storage.add_rental_space(s);
    assert_eq!(storage.rental_spaces().len(), 1);
    let found = storage.get_rental_space(sid).unwrap();
    assert_eq!(found.owner_id(), owner_id);
    assert_eq!(found.nb_workstations(), 100);
}

#[test]
fn merge_appends_new_records_and_replaces_clashing_ones() {
    let mut ids = IdGen::new();
    let mut storage = ObjectStorage::new();
    let u = user("John", None, &mut ids);
    let uid = u.id();
    storage.add_user(u);
    let v = user("Jane", None, &mut ids);
    let vid = v.id();

    let mut other = ObjectStorage::new();
    let mut shadow = user("Johannes", None, &mut ids);
    shadow.id = uid;
    other.add_user(shadow);
    other.add_user(v);
    let s = space(uid, &mut ids);
    let sid = s.id();
    other.add_rental_space(s);

    storage.merge(other);
    assert_eq!(storage.users().len(), 2);
    assert_eq!(storage.get_user(uid).unwrap().first_name, "Johannes");
    assert_eq!(storage.get_user(vid).unwrap().first_name, "Jane");
    assert_eq!(storage.users()[0].id(), uid);
    assert_eq!(storage.users()[1].id(), vid);
    assert!(storage.get_rental_space(sid).is_some());
}
