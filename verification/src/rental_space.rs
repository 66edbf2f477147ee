//! Rental spaces and splits.
//!
//! A [`RentalSpace`] is a physical office offering a fixed number of
//! workstations at a fixed per-workstation price.  Creation validates the
//! offering: the workstation count and price must lie in their allowed
//! ranges, and the workstation density must not exceed 5 seats per 8 area
//! units below 60 workstations, or 5 seats per 7 area units at or above 60.
//!
//! A [`Split`] is an allocatable unit derived from a rental space, possibly
//! a proper sub-fraction of it.  A split whose current density is low enough
//! can be subdivided into two pieces, each of at least a minimum size; the
//! surface is apportioned proportionally to the workstation count with
//! truncating division.

use vstd::prelude::*;

use crate::user::UserId;
use crate::IdGen;

verus! {

/// Identifier of a [`RentalSpace`].
#[derive(Clone, Copy, PartialEq, Eq, Structural, Hash, Debug)]
pub struct RentalSpaceId {
    pub value: u64,
}

impl View for RentalSpaceId {
    type V = int;

    open spec fn view(&self) -> int {
        self.value as int
    }
}

/// Identifier of a [`Split`].
#[derive(Clone, Copy, PartialEq, Eq, Structural, Hash, Debug)]
pub struct SplitId {
    pub value: u64,
}

impl View for SplitId {
    type V = int;

    open spec fn view(&self) -> int {
        self.value as int
    }
}

/// The plain data from which a [`RentalSpace`] is created.  `owner_id` is
/// the raw identifier under which the caller looks the owning user up; the
/// resolved identifier is passed to [`RentalSpace::new`] separately.
#[derive(Clone, Debug)]
pub struct AddRentalSpaceRequest {
    pub name: String,
    pub address: String,
    pub surface: u32,
    pub nb_workstations: u32,
    pub price_per_workstation: u32,
    pub owner_id: u64,
}

/// Why creating a rental space was rejected.  The checks are made in the
/// order of the variants below and the first failure is reported.
#[derive(Clone, Copy, PartialEq, Eq, Structural, Debug)]
pub enum ValidationError {
    /// The workstation count lies outside `[40, 180]`.
    NbWorkstationsOutOfRange,
    /// The per-workstation price lies outside `[300, 800]`.
    PricePerWorkstationOutOfRange,
    /// The workstation density exceeds the tier rule for the count.
    WorkstationDensityTooHigh,
}

/// The allowed range of a rental space's workstation count.
pub open spec fn nb_workstations_in_range(nb: int) -> bool {
    40 <= nb <= 180
}

/// The allowed range of a rental space's per-workstation price.
pub open spec fn price_in_range(price: int) -> bool {
    300 <= price <= 800
}

/// The density tier rule: at most 5 workstations per 8 area units below 60
/// workstations, at most 5 per 7 area units at or above 60.
pub open spec fn density_ok(nb: int, surface: int) -> bool {
    if nb < 60 {
        nb * 8 <= surface * 5
    } else {
        nb * 7 <= surface * 5
    }
}

/// A physical office offering.  Validated at creation; immutable afterwards.
#[derive(Debug)]
pub struct RentalSpace {
    id: RentalSpaceId,
    name: String,
    address: String,
    surface: u32,
    nb_workstations: u32,
    price_per_workstation: u32,
    owner_id: UserId,
}

/// The mathematical value of a [`RentalSpace`].
pub struct RentalSpaceView {
    pub id: int,
    pub name: Seq<char>,
    pub address: Seq<char>,
    pub surface: int,
    pub nb_workstations: int,
    pub price_per_workstation: int,
    pub owner_id: int,
}

impl View for RentalSpace {
    type V = RentalSpaceView;

    closed spec fn view(&self) -> RentalSpaceView {
        RentalSpaceView {
            id: self.id@,
            name: self.name@,
            address: self.address@,
            surface: self.surface as int,
            nb_workstations: self.nb_workstations as int,
            price_per_workstation: self.price_per_workstation as int,
            owner_id: self.owner_id@,
        }
    }
}

/// An allocatable unit derived from a rental space.  Splits are scratch
/// state of one matching run; they are never stored.
#[derive(Debug)]
pub struct Split {
    id: SplitId,
    name: String,
    address: String,
    surface: u32,
    nb_workstations: u32,
    price_per_workstation: u32,
    parent_office_id: RentalSpaceId,
    owner_id: UserId,
}

/// The mathematical value of a [`Split`].
pub struct SplitView {
    pub id: int,
    pub name: Seq<char>,
    pub address: Seq<char>,
    pub surface: int,
    pub nb_workstations: int,
    pub price_per_workstation: int,
    pub parent_office_id: int,
    pub owner_id: int,
}

impl View for Split {
    type V = SplitView;

    closed spec fn view(&self) -> SplitView {
        SplitView {
            id: self.id@,
            name: self.name@,
            address: self.address@,
            surface: self.surface as int,
            nb_workstations: self.nb_workstations as int,
            price_per_workstation: self.price_per_workstation as int,
            parent_office_id: self.parent_office_id@,
            owner_id: self.owner_id@,
        }
    }
}

/// A split's price: workstation count times per-workstation price, computed,
/// never stored.
pub open spec fn spec_price(s: SplitView) -> int {
    s.nb_workstations * s.price_per_workstation
}

/// The minimum piece size a subdivision of `s` must respect: 40 workstations
/// while the split's current density stays below 5 per 8 area units, 60 from
/// that density on.
pub open spec fn spec_min_unit(s: SplitView) -> int {
    if s.nb_workstations * 8 < s.surface * 5 {
        40
    } else {
        60
    }
}

/// Whether `s` can be subdivided at all: both pieces must individually reach
/// the minimum size.
pub open spec fn spec_subdivisible(s: SplitView) -> bool {
    s.nb_workstations > 2 * spec_min_unit(s)
}

/// Whether `s` can be partitioned so that one piece has exactly `n`
/// workstations.
pub open spec fn spec_can_subsplit(s: SplitView, n: int) -> bool {
    spec_subdivisible(s) && spec_min_unit(s) <= n <= s.nb_workstations - spec_min_unit(s)
}

/// The piece with `n` workstations cut from `s`, under the fresh identifier
/// `id`: the surface is apportioned proportionally with truncating division,
/// everything else is inherited.
pub open spec fn spec_subsplit_piece(s: SplitView, n: int, id: int) -> SplitView {
    SplitView {
        id,
        name: s.name,
        address: s.address,
        surface: s.surface * n / s.nb_workstations,
        nb_workstations: n,
        price_per_workstation: s.price_per_workstation,
        parent_office_id: s.parent_office_id,
        owner_id: s.owner_id,
    }
}

/// The split that offers the whole of rental space `r`, under the fresh
/// identifier `id`.
pub open spec fn spec_space_split(r: RentalSpaceView, id: int) -> SplitView {
    SplitView {
        id,
        name: r.name,
        address: r.address,
        surface: r.surface,
        nb_workstations: r.nb_workstations,
        price_per_workstation: r.price_per_workstation,
        parent_office_id: r.id,
        owner_id: r.owner_id,
    }
}

proof fn lemma_piece_density_slack(s: SplitView, k: int, id: int)
    requires
        density_ok(s.nb_workstations, s.surface),
        0 <= s.surface,
        spec_subdivisible(s),
        spec_min_unit(s) <= k <= s.nb_workstations - spec_min_unit(s),
    ensures
        ({
            let p = spec_subsplit_piece(s, k, id);
            if p.nb_workstations < 60 {
                8 * p.nb_workstations <= 5 * p.surface + 4
            } else {
                7 * p.nb_workstations <= 5 * p.surface + 4
            }
        }),
{
    let nb = s.nb_workstations;
    let su = s.surface;
    let q = su * k / nb;
    let r = (su * k) % nb;
    vstd::arithmetic::div_mod::lemma_fundamental_div_mod(su * k, nb);
    vstd::arithmetic::div_mod::lemma_mod_division_less_than_divisor(su * k, nb);
    if spec_min_unit(s) == 40 {
        assert(5 * q > 8 * k - 5) by (nonlinear_arith)
            requires
                su * k == nb * q + r,
                0 <= r < nb,
                8 * nb < 5 * su,
                0 < k,
                0 < nb,
        ;
    } else {
        assert(7 * nb <= 5 * su);
        assert(5 * q > 7 * k - 5) by (nonlinear_arith)
            requires
                su * k == nb * q + r,
                0 <= r < nb,
                7 * nb <= 5 * su,
                0 < k,
                0 < nb,
        ;
    }
}

/// Law: a subdivision respects the density tier rule of each piece up to
/// the area lost to truncating division.  For a split that itself satisfies
/// the density rule and any cut allowed by [`spec_can_subsplit`], each
/// piece's tier bound (8 seats per 5 area units below 60 seats, 7 at or
/// above) overshoots five times the piece's truncated surface by at most 4.
/// Truncation alone can break the exact rule; with exact proportional
/// division it holds, see [`lemma_subsplit_density_exact`].
pub proof fn lemma_subsplit_density_within_slack(s: SplitView, n: int, id1: int, id2: int)
    requires
        density_ok(s.nb_workstations, s.surface),
        0 <= s.surface,
        spec_can_subsplit(s, n),
    ensures
        ({
            let p = spec_subsplit_piece(s, n, id1);
            if p.nb_workstations < 60 {
                8 * p.nb_workstations <= 5 * p.surface + 4
            } else {
                7 * p.nb_workstations <= 5 * p.surface + 4
            }
        }),
        ({
            let p = spec_subsplit_piece(s, s.nb_workstations - n, id2);
            if p.nb_workstations < 60 {
                8 * p.nb_workstations <= 5 * p.surface + 4
            } else {
                7 * p.nb_workstations <= 5 * p.surface + 4
            }
        }),
{
    lemma_piece_density_slack(s, n, id1);
    lemma_piece_density_slack(s, s.nb_workstations - n, id2);
}

proof fn lemma_piece_density_exact(s: SplitView, k: int, id: int)
    requires
        density_ok(s.nb_workstations, s.surface),
        0 <= s.surface,
        spec_subdivisible(s),
        spec_min_unit(s) <= k <= s.nb_workstations - spec_min_unit(s),
        (s.surface * k) % s.nb_workstations == 0,
    ensures
        ({
            let p = spec_subsplit_piece(s, k, id);
            density_ok(p.nb_workstations, p.surface)
        }),
{
    let nb = s.nb_workstations;
    let su = s.surface;
    let q = su * k / nb;
    vstd::arithmetic::div_mod::lemma_fundamental_div_mod(su * k, nb);
    if spec_min_unit(s) == 40 {
        assert(5 * q >= 8 * k) by (nonlinear_arith)
            requires
                su * k == nb * q,
                8 * nb < 5 * su,
                0 < k,
                0 < nb,
        ;
    } else {
        assert(7 * nb <= 5 * su);
        assert(5 * q >= 7 * k) by (nonlinear_arith)
            requires
                su * k == nb * q,
                7 * nb <= 5 * su,
                0 < k,
                0 < nb,
        ;
    }
}

/// Law: when the proportional surface division is exact, both pieces of a
/// subdivision independently satisfy the density tier rule relative to
/// their own scaled surface.  Exactness for the first piece carries over to
/// the remainder, so a single divisibility premise suffices.
pub proof fn lemma_subsplit_density_exact(s: SplitView, n: int, id1: int, id2: int)
    requires
        density_ok(s.nb_workstations, s.surface),
        0 <= s.surface,
        spec_can_subsplit(s, n),
        (s.surface * n) % s.nb_workstations == 0,
    ensures
        ({
            let p = spec_subsplit_piece(s, n, id1);
            density_ok(p.nb_workstations, p.surface)
        }),
        ({
            let p = spec_subsplit_piece(s, s.nb_workstations - n, id2);
            density_ok(p.nb_workstations, p.surface)
        }),
{
    let nb = s.nb_workstations;
    let su = s.surface;
    assert(su * (nb - n) == su * nb - su * n) by (nonlinear_arith);
    vstd::arithmetic::div_mod::lemma_mod_multiples_basic(su, nb);
    vstd::arithmetic::div_mod::lemma_sub_mod_noop(su * nb, su * n, nb);
    assert((su * (nb - n)) % nb == 0);
    lemma_piece_density_exact(s, n, id1);
    lemma_piece_density_exact(s, nb - n, id2);
}

/// Check the density tier rule of a creation request.
pub fn validate_workstation_density(request: &AddRentalSpaceRequest) -> (r: Result<(), ValidationError>)
    ensures
        r == if density_ok(request.nb_workstations as int, request.surface as int) {
            Result::<(), ValidationError>::Ok(())
        } else {
            Result::<(), ValidationError>::Err(ValidationError::WorkstationDensityTooHigh)
        },
{
    let nb = request.nb_workstations as u64;
    let surface = request.surface as u64;
    let ok = if request.nb_workstations < 60 {
        nb * 8 <= surface * 5
    } else {
        nb * 7 <= surface * 5
    };
    if ok {
        Ok(())
    } else {
        Err(ValidationError::WorkstationDensityTooHigh)
    }
}

impl RentalSpace {
    #[verifier::type_invariant]
    spec fn type_wf(self) -> bool {
        nb_workstations_in_range(self@.nb_workstations)
            && price_in_range(self@.price_per_workstation)
            && density_ok(self@.nb_workstations, self@.surface)
    }

    /// Validate a creation request and, on success, create the rental space
    /// under a fresh identifier.  Exactly the first failed check is
    /// reported; on failure no identifier is minted.
    pub fn new(request: AddRentalSpaceRequest, owner_id: UserId, ids: &mut IdGen) -> (r: Result<
        RentalSpace,
        ValidationError,
    >)
        requires
            old(ids).spec_next() < u64::MAX,
        ensures
            r is Ok <==> (nb_workstations_in_range(request.nb_workstations as int)
                && price_in_range(request.price_per_workstation as int)
                && density_ok(request.nb_workstations as int, request.surface as int)),
            r matches Ok(space) ==> {
                &&& space@.id == old(ids).spec_next()
                &&& space@.name == request.name@
                &&& space@.address == request.address@
                &&& space@.surface == request.surface as int
                &&& space@.nb_workstations == request.nb_workstations as int
                &&& space@.price_per_workstation == request.price_per_workstation as int
                &&& space@.owner_id == owner_id@
                &&& final(ids).spec_next() == old(ids).spec_next() + 1
            },
            r is Err ==> *final(ids) == *old(ids),
            r == Result::<RentalSpace, ValidationError>::Err(
                ValidationError::NbWorkstationsOutOfRange,
            ) <==> !nb_workstations_in_range(request.nb_workstations as int),
            r == Result::<RentalSpace, ValidationError>::Err(
                ValidationError::PricePerWorkstationOutOfRange,
            ) <==> (nb_workstations_in_range(request.nb_workstations as int)
                && !price_in_range(request.price_per_workstation as int)),
            r == Result::<RentalSpace, ValidationError>::Err(
                ValidationError::WorkstationDensityTooHigh,
            ) <==> (nb_workstations_in_range(request.nb_workstations as int)
                && price_in_range(request.price_per_workstation as int)
                && !density_ok(request.nb_workstations as int, request.surface as int)),
    {
        if request.nb_workstations < 40 || request.nb_workstations > 180 {
            return Err(ValidationError::NbWorkstationsOutOfRange);
        }
        if request.price_per_workstation < 300 || request.price_per_workstation > 800 {
            return Err(ValidationError::PricePerWorkstationOutOfRange);
        }
        validate_workstation_density(&request)?;
        Ok(
            RentalSpace {
                id: RentalSpaceId { value: ids.fresh() },
                name: request.name,
                address: request.address,
                surface: request.surface,
                nb_workstations: request.nb_workstations,
                price_per_workstation: request.price_per_workstation,
                owner_id,
            },
        )
    }

    pub fn id(&self) -> (id: RentalSpaceId)
        ensures
            id@ == self@.id,
    {
        self.id
    }

    pub fn id_value(&self) -> (v: u64)
        ensures
            v as int == self@.id,
    {
        self.id.value
    }

    pub fn name(&self) -> (n: &String)
        ensures
            n@ == self@.name,
    {
        &self.name
    }

    pub fn address(&self) -> (a: &String)
        ensures
            a@ == self@.address,
    {
        &self.address
    }

    pub fn surface(&self) -> (s: u32)
        ensures
            s as int == self@.surface,
    {
        self.surface
    }

    pub fn nb_workstations(&self) -> (n: u32)
        ensures
            n as int == self@.nb_workstations,
    {
        self.nb_workstations
    }

    pub fn price_per_workstation(&self) -> (p: u32)
        ensures
            p as int == self@.price_per_workstation,
    {
        self.price_per_workstation
    }

    pub fn owner_id(&self) -> (id: UserId)
        ensures
            id@ == self@.owner_id,
    {
        self.owner_id
    }

    /// The split that offers this whole space, under a fresh identifier.
    /// Each matching round converts every rental space through here anew.
    pub fn to_split(&self, ids: &mut IdGen) -> (s: Split)
        requires
            old(ids).spec_next() < u64::MAX,
        ensures
            s@ == spec_space_split(self@, old(ids).spec_next()),
            final(ids).spec_next() == old(ids).spec_next() + 1,
    {
        proof {
            use_type_invariant(self);
        }
        Split {
            id: SplitId { value: ids.fresh() },
            name: self.name.clone(),
            address: self.address.clone(),
            surface: self.surface,
            nb_workstations: self.nb_workstations,
            price_per_workstation: self.price_per_workstation,
            parent_office_id: self.id,
            owner_id: self.owner_id,
        }
    }
}

impl Split {
    #[verifier::type_invariant]
    spec fn type_wf(self) -> bool {
        nb_workstations_in_range(self@.nb_workstations) && price_in_range(
            self@.price_per_workstation,
        )
    }

    pub fn id(&self) -> (id: SplitId)
        ensures
            id@ == self@.id,
    {
        self.id
    }

    pub fn id_value(&self) -> (v: u64)
        ensures
            v as int == self@.id,
    {
        self.id.value
    }

    pub fn name(&self) -> (n: &String)
        ensures
            n@ == self@.name,
    {
        &self.name
    }

    pub fn address(&self) -> (a: &String)
        ensures
            a@ == self@.address,
    {
        &self.address
    }

    pub fn surface(&self) -> (s: u32)
        ensures
            s as int == self@.surface,
    {
        self.surface
    }

    pub fn nb_workstations(&self) -> (n: u32)
        ensures
            n as int == self@.nb_workstations,
    {
        self.nb_workstations
    }

    pub fn price_per_workstation(&self) -> (p: u32)
        ensures
            p as int == self@.price_per_workstation,
    {
        self.price_per_workstation
    }

    pub fn parent_office_id(&self) -> (id: RentalSpaceId)
        ensures
            id@ == self@.parent_office_id,
    {
        self.parent_office_id
    }

    pub fn owner_id(&self) -> (id: UserId)
        ensures
            id@ == self@.owner_id,
    {
        self.owner_id
    }

    /// The price of taking this whole split.
    pub fn price(&self) -> (p: u32)
        ensures
            p as int == spec_price(self@),
    {
        proof {
            use_type_invariant(self);
            assert(self@.nb_workstations * self@.price_per_workstation <= 180 * 800)
                by (nonlinear_arith)
                requires
                    40 <= self@.nb_workstations <= 180,
                    300 <= self@.price_per_workstation <= 800,
            ;
        }
        self.nb_workstations * self.price_per_workstation
    }

    /// The minimum piece size a subdivision must respect, or `None` when
    /// this split cannot be subdivided at all.
    pub fn subsplit_min_nb_workstations(&self) -> (r: Option<u32>)
        ensures
            r is Some <==> spec_subdivisible(self@),
            r matches Some(m) ==> m as int == spec_min_unit(self@),
    {
        let min: u32 = if (self.nb_workstations as u64) * 8 < (self.surface as u64) * 5 {
            40
        } else {
            60
        };
        if self.nb_workstations > 2 * min {
            Some(min)
        } else {
            None
        }
    }

    /// The largest piece size a subdivision can cut, or `None` when this
    /// split cannot be subdivided at all.
    pub fn subsplit_max_nb_workstations(&self) -> (r: Option<u32>)
        ensures
            r is Some <==> spec_subdivisible(self@),
            r matches Some(m) ==> m as int == self@.nb_workstations - spec_min_unit(self@),
    {
        match self.subsplit_min_nb_workstations() {
            Some(min) => Some(self.nb_workstations - min),
            None => None,
        }
    }

    /// Whether this split can be partitioned so that one piece has exactly
    /// `nb_workstations` workstations.
    pub fn can_be_subsplit(&self, nb_workstations: u32) -> (b: bool)
        ensures
            b == spec_can_subsplit(self@, nb_workstations as int),
    {
        match self.subsplit_min_nb_workstations() {
            Some(min) => nb_workstations >= min && nb_workstations <= self.nb_workstations - min,
            None => false,
        }
    }

    /// Cut this split in two: a piece with exactly `nb_workstations`
    /// workstations and the remainder, each under a fresh identifier.  Only
    /// callable once [`Self::can_be_subsplit`] has answered yes.
    pub fn subsplit(&self, nb_workstations: u32, ids: &mut IdGen) -> (pieces: (Split, Split))
        requires
            spec_can_subsplit(self@, nb_workstations as int),
            old(ids).spec_next() + 2 <= u64::MAX,
        ensures
            pieces.0@ == spec_subsplit_piece(self@, nb_workstations as int, old(ids).spec_next()),
            pieces.1@ == spec_subsplit_piece(
                self@,
                self@.nb_workstations - nb_workstations as int,
                old(ids).spec_next() + 1,
            ),
            final(ids).spec_next() == old(ids).spec_next() + 2,
    {
        proof {
            use_type_invariant(self);
        }
        let id1 = SplitId { value: ids.fresh() };
        let id2 = SplitId { value: ids.fresh() };
        let rest = self.nb_workstations - nb_workstations;
        proof {
            assert((self.surface as int) * (nb_workstations as int) <= 0xffff_ffff * 180)
                by (nonlinear_arith)
                requires
                    0 <= self.surface <= 0xffff_ffff,
                    0 <= nb_workstations <= 180,
            ;
            assert((self.surface as int) * (rest as int) <= 0xffff_ffff * 180) by (nonlinear_arith)
                requires
                    0 <= self.surface <= 0xffff_ffff,
                    0 <= rest <= 180,
            ;
            assert((self.surface as int) * (nb_workstations as int) <= (self.surface as int) * (
            self.nb_workstations as int)) by (nonlinear_arith)
                requires
                    0 <= self.surface,
                    0 <= nb_workstations <= self.nb_workstations,
            ;
            assert((self.surface as int) * (rest as int) <= (self.surface as int) * (
            self.nb_workstations as int)) by (nonlinear_arith)
                requires
                    0 <= self.surface,
                    0 <= rest <= self.nb_workstations,
            ;
            vstd::arithmetic::div_mod::lemma_div_is_ordered(
                (self.surface as int) * (nb_workstations as int),
                (self.surface as int) * (self.nb_workstations as int),
                self.nb_workstations as int,
            );
            vstd::arithmetic::div_mod::lemma_div_is_ordered(
                (self.surface as int) * (rest as int),
                (self.surface as int) * (self.nb_workstations as int),
                self.nb_workstations as int,
            );
            vstd::arithmetic::div_mod::lemma_div_by_multiple(
                self.surface as int,
                self.nb_workstations as int,
            );
        }
        let surface1 = ((self.surface as u64) * (nb_workstations as u64) / (self.nb_workstations
            as u64)) as u32;
        let surface2 = ((self.surface as u64) * (rest as u64) / (self.nb_workstations as u64))
            as u32;
        let piece1 = Split {
            id: id1,
            name: self.name.clone(),
            address: self.address.clone(),
            surface: surface1,
            nb_workstations,
            price_per_workstation: self.price_per_workstation,
            parent_office_id: self.parent_office_id,
            owner_id: self.owner_id,
        };
        let piece2 = Split {
            id: id2,
            name: self.name.clone(),
            address: self.address.clone(),
            surface: surface2,
            nb_workstations: rest,
            price_per_workstation: self.price_per_workstation,
            parent_office_id: self.parent_office_id,
            owner_id: self.owner_id,
        };
        (piece1, piece2)
    }
}

} // verus!
