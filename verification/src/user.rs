//! Users of the system: hosts who own rental spaces and guests who request
//! workspace.  A user carries at most one [`WorkspaceRequest`]; a user with
//! none is a pure host.

use vstd::prelude::*;

use crate::IdGen;

verus! {

/// Identifier of a [`User`].
#[derive(Clone, Copy, PartialEq, Eq, Structural, Hash, Debug)]
pub struct UserId {
    pub value: u64,
}

impl View for UserId {
    type V = int;

    open spec fn view(&self) -> int {
        self.value as int
    }
}

/// A request for `nb_workstations` seats within `budget` currency units.
#[derive(Clone, Copy, PartialEq, Eq, Structural, Debug)]
pub struct WorkspaceRequest {
    pub nb_workstations: u32,
    pub budget: u32,
}

/// The plain data from which a [`User`] is created.
#[derive(Clone, Debug)]
pub struct AddUserRequest {
    pub first_name: String,
    pub last_name: String,
    pub workspace_request: Option<WorkspaceRequest>,
}

/// A registered user.  Immutable after creation; the matching engine only
/// ever reads it.
#[derive(Clone, Debug)]
pub struct User {
    pub id: UserId,
    pub first_name: String,
    pub last_name: String,
    pub workspace_request: Option<WorkspaceRequest>,
}

/// The mathematical value of a [`User`].
pub struct UserView {
    pub id: int,
    pub first_name: Seq<char>,
    pub last_name: Seq<char>,
    pub workspace_request: Option<WorkspaceRequest>,
}

impl View for User {
    type V = UserView;

    open spec fn view(&self) -> UserView {
        UserView {
            id: self.id@,
            first_name: self.first_name@,
            last_name: self.last_name@,
            workspace_request: self.workspace_request,
        }
    }
}

impl User {
    /// Create a user carrying the requested data, under a fresh identifier.
    pub fn new(request: AddUserRequest, ids: &mut IdGen) -> (u: User)
        requires
            old(ids).spec_next() < u64::MAX,
        ensures
            u@.id == old(ids).spec_next(),
            u@.first_name == request.first_name@,
            u@.last_name == request.last_name@,
            u@.workspace_request == request.workspace_request,
            final(ids).spec_next() == old(ids).spec_next() + 1,
    {
        let id = UserId { value: ids.fresh() };
        User {
            id,
            first_name: request.first_name,
            last_name: request.last_name,
            workspace_request: request.workspace_request,
        }
    }

    pub fn id(&self) -> (id: UserId)
        ensures
            id@ == self@.id,
    {
        self.id
    }

    pub fn id_value(&self) -> (v: u64)
        ensures
            v as int == self@.id,
    {
        self.id.value
    }
}

} // verus!
