//! In-memory record storage: users and rental spaces, each collection keyed
//! by identifier.  Adding a record under an identifier that is already
//! present replaces the old record, so identifiers stay unique throughout.

use vstd::prelude::*;

use crate::rental_space::{RentalSpace, RentalSpaceId, RentalSpaceView};
use crate::user::{User, UserId, UserView};

verus! {

/// The mathematical values of a sequence of users.
pub open spec fn user_views(users: Seq<User>) -> Seq<UserView> {
    users.map_values(|u: User| u@)
}

/// The mathematical values of a sequence of rental spaces.
pub open spec fn space_views(spaces: Seq<RentalSpace>) -> Seq<RentalSpaceView> {
    spaces.map_values(|r: RentalSpace| r@)
}

/// No two users share an identifier.
pub open spec fn distinct_user_ids(users: Seq<UserView>) -> bool {
    forall|i: int, j: int| 0 <= i < j < users.len() ==> users[i].id != users[j].id
}

/// No two rental spaces share an identifier.
pub open spec fn distinct_space_ids(spaces: Seq<RentalSpaceView>) -> bool {
    forall|i: int, j: int| 0 <= i < j < spaces.len() ==> spaces[i].id != spaces[j].id
}

/// The position of the first user with identifier `id` at or after `k`.
pub open spec fn find_user_from(users: Seq<UserView>, id: int, k: int) -> Option<int>
    decreases users.len() - k,
{
    if k < 0 || k >= users.len() {
        None
    } else if users[k].id == id {
        Some(k)
    } else {
        find_user_from(users, id, k + 1)
    }
}

/// The position of the first rental space with identifier `id` at or after
/// `k`.
pub open spec fn find_space_from(spaces: Seq<RentalSpaceView>, id: int, k: int) -> Option<int>
    decreases spaces.len() - k,
{
    if k < 0 || k >= spaces.len() {
        None
    } else if spaces[k].id == id {
        Some(k)
    } else {
        find_space_from(spaces, id, k + 1)
    }
}

/// Insert a user, replacing the record already stored under the same
/// identifier if there is one.
pub open spec fn upsert_user(users: Seq<UserView>, u: UserView) -> Seq<UserView> {
    match find_user_from(users, u.id, 0) {
        Some(i) => users.update(i, u),
        None => users.push(u),
    }
}

/// Insert a rental space, replacing the record already stored under the
/// same identifier if there is one.
pub open spec fn upsert_space(spaces: Seq<RentalSpaceView>, r: RentalSpaceView) -> Seq<
    RentalSpaceView,
> {
    match find_space_from(spaces, r.id, 0) {
        Some(i) => spaces.update(i, r),
        None => spaces.push(r),
    }
}

/// The users after upserting `b[k]`, `b[k+1]`, ... in order into `a`.
pub open spec fn merge_users_from(a: Seq<UserView>, b: Seq<UserView>, k: int) -> Seq<UserView>
    decreases b.len() - k,
{
    if k < 0 || k >= b.len() {
        a
    } else {
        merge_users_from(upsert_user(a, b[k]), b, k + 1)
    }
}

/// The rental spaces after upserting `b[k]`, `b[k+1]`, ... in order into
/// `a`.
pub open spec fn merge_spaces_from(
    a: Seq<RentalSpaceView>,
    b: Seq<RentalSpaceView>,
    k: int,
) -> Seq<RentalSpaceView>
    decreases b.len() - k,
{
    if k < 0 || k >= b.len() {
        a
    } else {
        merge_spaces_from(upsert_space(a, b[k]), b, k + 1)
    }
}

proof fn lemma_find_user_from_props(users: Seq<UserView>, id: int, k: int)
    requires
        0 <= k <= users.len(),
    ensures
        match find_user_from(users, id, k) {
            Some(i) => k <= i < users.len() && users[i].id == id && forall|j: int|
                k <= j < i ==> users[j].id != id,
            None => forall|j: int| k <= j < users.len() ==> users[j].id != id,
        },
    decreases users.len() - k,
{
    if k < users.len() && users[k].id != id {
        lemma_find_user_from_props(users, id, k + 1);
    }
}

proof fn lemma_find_space_from_props(spaces: Seq<RentalSpaceView>, id: int, k: int)
    requires
        0 <= k <= spaces.len(),
    ensures
        match find_space_from(spaces, id, k) {
            Some(i) => k <= i < spaces.len() && spaces[i].id == id && forall|j: int|
                k <= j < i ==> spaces[j].id != id,
            None => forall|j: int| k <= j < spaces.len() ==> spaces[j].id != id,
        },
    decreases spaces.len() - k,
{
    if k < spaces.len() && spaces[k].id != id {
        lemma_find_space_from_props(spaces, id, k + 1);
    }
}

proof fn lemma_upsert_user_distinct(users: Seq<UserView>, u: UserView)
    requires
        distinct_user_ids(users),
    ensures
        distinct_user_ids(upsert_user(users, u)),
{
    lemma_find_user_from_props(users, u.id, 0);
    let nv = upsert_user(users, u);
    match find_user_from(users, u.id, 0) {
        Some(i) => {
            assert forall|a: int, b: int| 0 <= a < b < nv.len() implies nv[a].id != nv[b].id by {
                assert(users[a].id != users[b].id);
                assert(nv[a].id == users[a].id);
                assert(nv[b].id == users[b].id);
            }
        },
        None => {
            assert forall|a: int, b: int| 0 <= a < b < nv.len() implies nv[a].id != nv[b].id by {
                if b < users.len() {
                    assert(users[a].id != users[b].id);
                } else {
                    assert(users[a].id != u.id);
                }
            }
        },
    }
}

proof fn lemma_upsert_space_distinct(spaces: Seq<RentalSpaceView>, r: RentalSpaceView)
    requires
        distinct_space_ids(spaces),
    ensures
        distinct_space_ids(upsert_space(spaces, r)),
{
    lemma_find_space_from_props(spaces, r.id, 0);
    let nv = upsert_space(spaces, r);
    match find_space_from(spaces, r.id, 0) {
        Some(i) => {
            assert forall|a: int, b: int| 0 <= a < b < nv.len() implies nv[a].id != nv[b].id by {
                assert(spaces[a].id != spaces[b].id);
                assert(nv[a].id == spaces[a].id);
                assert(nv[b].id == spaces[b].id);
            }
        },
        None => {
            assert forall|a: int, b: int| 0 <= a < b < nv.len() implies nv[a].id != nv[b].id by {
                if b < spaces.len() {
                    assert(spaces[a].id != spaces[b].id);
                } else {
                    assert(spaces[a].id != r.id);
                }
            }
        },
    }
}

fn upsert_user_vec(users: &mut Vec<User>, user: User)
    ensures
        user_views(final(users)@) == upsert_user(user_views(old(users)@), user@),
{
    let ghost old_views = user_views(users@);
    let id = user.id();
    let mut i: usize = 0;
    while i < users.len()
        invariant
            0 <= i <= users.len(),
            users@ == old(users)@,
            old_views == user_views(users@),
            id@ == user@.id,
            forall|j: int| 0 <= j < i ==> old_views[j].id != user@.id,
            find_user_from(old_views, user@.id, 0) == find_user_from(
                old_views,
                user@.id,
                i as int,
            ),
        decreases users.len() - i,
    {
        if users[i].id() == id {
            assert(find_user_from(old_views, user@.id, i as int) == Some(i as int));
            users[i] = user;
            proof {
                assert(user_views(users@) =~= old_views.update(i as int, user@));
            }
            return ;
        }
        i = i + 1;
    }
    assert(find_user_from(old_views, user@.id, 0) is None);
    users.push(user);
    proof {
        assert(user_views(users@) =~= old_views.push(user@));
    }
}

fn upsert_space_vec(spaces: &mut Vec<RentalSpace>, space: RentalSpace)
    ensures
        space_views(final(spaces)@) == upsert_space(space_views(old(spaces)@), space@),
{
    let ghost old_views = space_views(spaces@);
    let id = space.id();
    let mut i: usize = 0;
    while i < spaces.len()
        invariant
            0 <= i <= spaces.len(),
            spaces@ == old(spaces)@,
            old_views == space_views(spaces@),
            id@ == space@.id,
            forall|j: int| 0 <= j < i ==> old_views[j].id != space@.id,
            find_space_from(old_views, space@.id, 0) == find_space_from(
                old_views,
                space@.id,
                i as int,
            ),
        decreases spaces.len() - i,
    {
        if spaces[i].id() == id {
            assert(find_space_from(old_views, space@.id, i as int) == Some(i as int));
            spaces[i] = space;
            proof {
                assert(space_views(spaces@) =~= old_views.update(i as int, space@));
            }
            return ;
        }
        i = i + 1;
    }
    assert(find_space_from(old_views, space@.id, 0) is None);
    spaces.push(space);
    proof {
        assert(space_views(spaces@) =~= old_views.push(space@));
    }
}

/// The keyed collections of users and rental spaces.
pub struct ObjectStorage {
    users: Vec<User>,
    rental_spaces: Vec<RentalSpace>,
}

/// The mathematical value of an [`ObjectStorage`].
pub struct ObjectStorageView {
    pub users: Seq<UserView>,
    pub rental_spaces: Seq<RentalSpaceView>,
}

impl View for ObjectStorage {
    type V = ObjectStorageView;

    closed spec fn view(&self) -> ObjectStorageView {
        ObjectStorageView {
            users: user_views(self.users@),
            rental_spaces: space_views(self.rental_spaces@),
        }
    }
}

impl ObjectStorage {
    /// Identifiers are unique within each collection, at all times.
    #[verifier::type_invariant]
    pub open spec fn keyed(self) -> bool {
        distinct_user_ids(self@.users) && distinct_space_ids(self@.rental_spaces)
    }

    pub fn new() -> (s: ObjectStorage)
        ensures
            s@.users == Seq::<UserView>::empty(),
            s@.rental_spaces == Seq::<RentalSpaceView>::empty(),
    {
        let s = ObjectStorage { users: Vec::new(), rental_spaces: Vec::new() };
        proof {
            assert(s@.users =~= Seq::<UserView>::empty());
            assert(s@.rental_spaces =~= Seq::<RentalSpaceView>::empty());
        }
        s
    }

    /// Store a user: replace the record under the same identifier, or
    /// append the user if the identifier is new.
    pub fn add_user(&mut self, user: User)
        ensures
            final(self)@.users == upsert_user(old(self)@.users, user@),
            final(self)@.rental_spaces == old(self)@.rental_spaces,
    {
        proof {
            use_type_invariant(&*self);
            lemma_upsert_user_distinct(self@.users, user@);
        }
        let mut users: Vec<User> = Vec::new();
        std::mem::swap(&mut users, &mut self.users);
        upsert_user_vec(&mut users, user);
        self.users = users;
    }

    /// Store a rental space: replace the record under the same identifier,
    /// or append the space if the identifier is new.
    pub fn add_rental_space(&mut self, rental_space: RentalSpace)
        ensures
            final(self)@.rental_spaces == upsert_space(old(self)@.rental_spaces, rental_space@),
            final(self)@.users == old(self)@.users,
    {
        proof {
            use_type_invariant(&*self);
            lemma_upsert_space_distinct(self@.rental_spaces, rental_space@);
        }
        let mut spaces: Vec<RentalSpace> = Vec::new();
        std::mem::swap(&mut spaces, &mut self.rental_spaces);
        upsert_space_vec(&mut spaces, rental_space);
        self.rental_spaces = spaces;
    }

    /// Look a user up by identifier.
    pub fn get_user(&self, id: UserId) -> (r: Option<&User>)
        ensures
            match r {
                Some(u) => self@.users.contains(u@) && u@.id == id@,
                None => forall|j: int| 0 <= j < self@.users.len() ==> self@.users[j].id != id@,
            },
    {
        let mut i: usize = 0;
        while i < self.users.len()
            invariant
                0 <= i <= self.users.len(),
                forall|j: int| 0 <= j < i ==> self@.users[j].id != id@,
            decreases self.users.len() - i,
        {
            if self.users[i].id() == id {
                let u = &self.users[i];
                proof {
                    assert(self@.users[i as int] == u@);
                    assert(self@.users.contains(u@));
                }
                return Some(u);
            }
            i = i + 1;
        }
        None
    }

    /// Look a rental space up by identifier.
    pub fn get_rental_space(&self, id: RentalSpaceId) -> (r: Option<&RentalSpace>)
        ensures
            match r {
                Some(s) => self@.rental_spaces.contains(s@) && s@.id == id@,
                None => forall|j: int|
                    0 <= j < self@.rental_spaces.len() ==> self@.rental_spaces[j].id != id@,
            },
    {
        let mut i: usize = 0;
        while i < self.rental_spaces.len()
            invariant
                0 <= i <= self.rental_spaces.len(),
                forall|j: int| 0 <= j < i ==> self@.rental_spaces[j].id != id@,
            decreases self.rental_spaces.len() - i,
        {
            if self.rental_spaces[i].id() == id {
                let s = &self.rental_spaces[i];
                proof {
                    assert(self@.rental_spaces[i as int] == s@);
                    assert(self@.rental_spaces.contains(s@));
                }
                return Some(s);
            }
            i = i + 1;
        }
        None
    }

    /// All stored users, in insertion order.
    pub fn users(&self) -> (r: &Vec<User>)
        ensures
            user_views(r@) == self@.users,
    {
        &self.users
    }

    /// All stored rental spaces, in insertion order.
    pub fn rental_spaces(&self) -> (r: &Vec<RentalSpace>)
        ensures
            space_views(r@) == self@.rental_spaces,
    {
        &self.rental_spaces
    }

    /// Fold another storage into this one, record by record in the other's
    /// order; records of the other win on identifier clashes.
    pub fn merge(&mut self, other: ObjectStorage)
        ensures
            final(self)@.users == merge_users_from(old(self)@.users, other@.users, 0),
            final(self)@.rental_spaces == merge_spaces_from(
                old(self)@.rental_spaces,
                other@.rental_spaces,
                0,
            ),
    {
        proof {
            use_type_invariant(&*self);
            use_type_invariant(&other);
        }
        let ghost b_users = other@.users;
        let ghost b_spaces = other@.rental_spaces;
        let ObjectStorage { users: mut other_users, rental_spaces: mut other_spaces } = other;
        let mut users: Vec<User> = Vec::new();
        std::mem::swap(&mut users, &mut self.users);
        let ghost a0_users = user_views(users@);
        let ghost mut k: int = 0;
        while other_users.len() > 0
            invariant
                0 <= k <= b_users.len(),
                user_views(other_users@) =~= b_users.subrange(k, b_users.len() as int),
                merge_users_from(a0_users, b_users, 0) == merge_users_from(
                    user_views(users@),
                    b_users,
                    k,
                ),
                distinct_user_ids(user_views(users@)),
            decreases other_users.len(),
        {
            let ghost pre = user_views(other_users@);
            proof {
                assert(pre == b_users.subrange(k, b_users.len() as int));
                assert(pre.len() == other_users@.len());
                assert(pre.len() > 0);
                assert(k < b_users.len());
                assert(pre[0] == b_users.subrange(k, b_users.len() as int)[0]);
                assert(pre[0] == b_users[k]);
            }
            let ghost prev_vec = other_users@;
            let u = other_users.remove(0);
            proof {
                assert(pre[0] == u@);
                assert(u@ == b_users[k]);
                assert forall|j: int| 0 <= j < user_views(other_users@).len() implies user_views(
                    other_users@,
                )[j] == b_users.subrange(k + 1, b_users.len() as int)[j] by {
                    assert(other_users@[j] == prev_vec[j + 1]);
                    assert(user_views(other_users@)[j] == pre[j + 1]);
                    assert(pre[j + 1] == b_users[k + 1 + j]);
                }
                assert(user_views(other_users@) =~= b_users.subrange(k + 1, b_users.len() as int));
                lemma_upsert_user_distinct(user_views(users@), u@);
            }
            upsert_user_vec(&mut users, u);
            proof {
                k = k + 1;
            }
        }
        self.users = users;
        let mut spaces: Vec<RentalSpace> = Vec::new();
        std::mem::swap(&mut spaces, &mut self.rental_spaces);
        let ghost a0_spaces = space_views(spaces@);
        let ghost mut m: int = 0;
        while other_spaces.len() > 0
            invariant
                0 <= m <= b_spaces.len(),
                space_views(other_spaces@) =~= b_spaces.subrange(m, b_spaces.len() as int),
                merge_spaces_from(a0_spaces, b_spaces, 0) == merge_spaces_from(
                    space_views(spaces@),
                    b_spaces,
                    m,
                ),
                distinct_space_ids(space_views(spaces@)),
            decreases other_spaces.len(),
        {
            let ghost pre = space_views(other_spaces@);
            proof {
                assert(pre == b_spaces.subrange(m, b_spaces.len() as int));
                assert(pre.len() == other_spaces@.len());
                assert(pre.len() > 0);
                assert(m < b_spaces.len());
                assert(pre[0] == b_spaces.subrange(m, b_spaces.len() as int)[0]);
                assert(pre[0] == b_spaces[m]);
            }
            let ghost prev_vec = other_spaces@;
            let r = other_spaces.remove(0);
            proof {
                assert(pre[0] == r@);
                assert(r@ == b_spaces[m]);
                assert forall|j: int| 0 <= j < space_views(other_spaces@).len() implies space_views(
                    other_spaces@,
                )[j] == b_spaces.subrange(m + 1, b_spaces.len() as int)[j] by {
                    assert(other_spaces@[j] == prev_vec[j + 1]);
                    assert(space_views(other_spaces@)[j] == pre[j + 1]);
                    assert(pre[j + 1] == b_spaces[m + 1 + j]);
                }
                assert(space_views(other_spaces@) =~= b_spaces.subrange(
                    m + 1,
                    b_spaces.len() as int,
                ));
                lemma_upsert_space_distinct(space_views(spaces@), r@);
            }
            upsert_space_vec(&mut spaces, r);
            proof {
                m = m + 1;
            }
        }
        self.rental_spaces = spaces;
    }
}

} // verus!
