//! Contracts: the immutable record of one successful assignment of a
//! space (or a piece of it) to a guest user.

use vstd::prelude::*;

use crate::rental_space::RentalSpaceId;
use crate::user::UserId;
use crate::IdGen;

verus! {

/// Identifier of a [`Contract`].
#[derive(Clone, Copy, PartialEq, Eq, Structural, Hash, Debug)]
pub struct ContractId {
    pub value: u64,
}

impl View for ContractId {
    type V = int;

    open spec fn view(&self) -> int {
        self.value as int
    }
}

/// An agreed assignment: the guest takes `nb_workstations` seats in the
/// named rental space from its host, at the given total price.  Created
/// exactly once per successful match and never changed.
#[derive(Clone, Copy, PartialEq, Eq, Structural, Debug)]
pub struct Contract {
    pub id: ContractId,
    pub rental_space_id: RentalSpaceId,
    pub host_id: UserId,
    pub guest_id: UserId,
    pub nb_workstations: u32,
    pub price: u32,
}

/// The mathematical value of a [`Contract`].
pub struct ContractView {
    pub id: int,
    pub rental_space_id: int,
    pub host_id: int,
    pub guest_id: int,
    pub nb_workstations: int,
    pub price: int,
}

impl View for Contract {
    type V = ContractView;

    open spec fn view(&self) -> ContractView {
        ContractView {
            id: self.id@,
            rental_space_id: self.rental_space_id@,
            host_id: self.host_id@,
            guest_id: self.guest_id@,
            nb_workstations: self.nb_workstations as int,
            price: self.price as int,
        }
    }
}

impl Contract {
    /// Record an assignment, under a fresh identifier.
    pub fn new(
        rental_space_id: RentalSpaceId,
        host_id: UserId,
        guest_id: UserId,
        nb_workstations: u32,
        price: u32,
        ids: &mut IdGen,
    ) -> (c: Contract)
        requires
            old(ids).spec_next() < u64::MAX,
        ensures
            c@.id == old(ids).spec_next(),
            c@.rental_space_id == rental_space_id@,
            c@.host_id == host_id@,
            c@.guest_id == guest_id@,
            c@.nb_workstations == nb_workstations as int,
            c@.price == price as int,
            final(ids).spec_next() == old(ids).spec_next() + 1,
    {
        Contract {
            id: ContractId { value: ids.fresh() },
            rental_space_id,
            host_id,
            guest_id,
            nb_workstations,
            price,
        }
    }
}

} // verus!
