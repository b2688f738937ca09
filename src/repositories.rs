use vstd::prelude::*;
use crate::batch::{children_of_any, ids_of};
use crate::models::{CompanyWithUser, NewUser, StorageError, Tag, User};
use crate::store::{company_rows, create_fits, created, Store};

verus! {

/// Reads and writes of users.
pub struct UserRepository;

/// Batch reads of tags.
pub struct TagRepository;

/// Batch reads of companies through employments.
pub struct CompanyRepository;

/// The identities of `users`, in order.
fn ids_in(users: &[User]) -> (r: Vec<i32>)
    ensures
        r@ == ids_of(users@),
{
    let mut r: Vec<i32> = Vec::new();
    let mut i: usize = 0;
    while i < users.len()
        invariant
            i <= users@.len(),
            r@ == ids_of(users@.subrange(0, i as int)),
        decreases users@.len() - i,
    {
        r.push(users[i].id);
        assert(ids_of(users@.subrange(0, i + 1)) =~= ids_of(users@.subrange(0, i as int)).push(users@[i as int].id));
        i += 1;
    }
    assert(users@.subrange(0, users@.len() as int) =~= users@);
    r
}

impl UserRepository {
    /// Every user of the store, in the order they were inserted.
    pub fn all_users(store: &Store) -> (r: Result<Vec<User>, StorageError>)
        ensures
            r is Ok && r->Ok_0@ == store@.users,
    {
        let users = store.users();
        let mut r: Vec<User> = Vec::new();
        let mut i: usize = 0;
        while i < users.len()
            invariant
                users@ == store@.users,
                i <= users@.len(),
                r@ == users@.subrange(0, i as int),
            decreases users@.len() - i,
        {
            r.push(users[i].duplicate());
            assert(r@ =~= users@.subrange(0, i + 1));
            i += 1;
        }
        assert(users@.subrange(0, users@.len() as int) =~= users@);
        Ok(r)
    }

    /// Creates `new_user` with its tags and an employment at each of
    /// `companies`, finding each company by name or creating it, as one
    /// all-or-nothing step.
    pub fn insert_user(store: &mut Store, new_user: NewUser, tags: Vec<String>, companies: Vec<String>) -> (r: Result<User, StorageError>)
        requires
            old(store)@.well_formed(),
        ensures
            final(store)@.well_formed(),
            create_fits(old(store)@, tags@.len() as int, companies@) <==> r is Ok,
            r matches Ok(u) ==> u.name == new_user.name && created(old(store)@, final(store)@, u, tags@, companies@),
            r is Err ==> final(store)@ == old(store)@,
    {
        store.create_user(new_user.name, &tags, &companies)
    }
}

impl TagRepository {
    /// The tags of `users`, in the order they were inserted, in one read.
    pub fn user_tags(store: &Store, users: &[User]) -> (r: Result<Vec<Tag>, StorageError>)
        ensures
            r is Ok && r->Ok_0@ == children_of_any(store@.tags, ids_of(users@).to_set()),
    {
        let ids = ids_in(users);
        Ok(store.tags_of_users(&ids))
    }
}

impl CompanyRepository {
    /// One row per employment of one of `users`, carrying the company and the
    /// user it links, in one read.
    pub fn user_companies(store: &Store, users: &[User]) -> (r: Result<Vec<CompanyWithUser>, StorageError>)
        requires
            store@.well_formed(),
        ensures
            r is Ok && r->Ok_0@ == company_rows(store@.companies, store@.employments, ids_of(users@).to_set()),
    {
        let ids = ids_in(users);
        Ok(store.companies_of_users(&ids))
    }
}

} // verus!
