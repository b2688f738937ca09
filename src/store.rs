use vstd::prelude::*;
use crate::models::{Company, CompanyWithUser, Employment, StorageError, Tag, User};
use crate::batch::{children_of_any, contains_id, ids_of, rows_owned_by_any, BatchLoader, Relation};

verus! {

/// What a store holds: its four tables, the next identity of each, and the
/// batch loads it has served.
pub struct StoreModel {
    pub users: Seq<User>,
    pub tags: Seq<Tag>,
    pub companies: Seq<Company>,
    pub employments: Seq<Employment>,
    pub next_user: int,
    pub next_tag: int,
    pub next_company: int,
    pub next_employment: int,
    pub calls: Seq<Relation>,
}

/// The identities of `companies`, in order.
pub open spec fn company_ids(companies: Seq<Company>) -> Seq<i32> {
    companies.map_values(|c: Company| c.id)
}

/// Whether some company of `companies` is named `name`.
pub open spec fn has_company_named(companies: Seq<Company>, name: Seq<char>) -> bool {
    exists|k: int| 0 <= k < companies.len() && (#[trigger] companies[k]).name@ == name
}

/// Whether no two companies share a name.
pub open spec fn names_unique(companies: Seq<Company>) -> bool {
    forall|i: int, j: int|
        0 <= i < companies.len() && 0 <= j < companies.len() && i != j
            ==> (#[trigger] companies[i]).name@ != (#[trigger] companies[j]).name@
}

/// The tags that a bulk insert of `names` for `user_id` adds, numbered from `first`.
pub open spec fn new_tags(first: int, user_id: i32, names: Seq<String>) -> Seq<Tag> {
    Seq::new(names.len(), |k: int| Tag { id: (first + k) as i32, user_id: user_id, name: names[k] })
}

impl StoreModel {
    /// Identities strictly increase along each table and stay below the next one;
    /// every tag and employment points at rows that exist; company names are unique.
    pub open spec fn well_formed(self) -> bool {
        &&& forall|i: int, j: int| 0 <= i < j < self.users.len() ==> self.users[i].id < self.users[j].id
        &&& forall|i: int| 0 <= i < self.users.len() ==> self.users[i].id < self.next_user
        &&& forall|i: int, j: int| 0 <= i < j < self.tags.len() ==> self.tags[i].id < self.tags[j].id
        &&& forall|i: int| 0 <= i < self.tags.len() ==> self.tags[i].id < self.next_tag
        &&& forall|i: int, j: int| 0 <= i < j < self.companies.len() ==> self.companies[i].id < self.companies[j].id
        &&& forall|i: int| 0 <= i < self.companies.len() ==> self.companies[i].id < self.next_company
        &&& forall|i: int, j: int| 0 <= i < j < self.employments.len() ==> self.employments[i].id < self.employments[j].id
        &&& forall|i: int| 0 <= i < self.employments.len() ==> self.employments[i].id < self.next_employment
        &&& forall|i: int| 0 <= i < self.tags.len() ==> ids_of(self.users).contains(#[trigger] self.tags[i].user_id)
        &&& forall|i: int| 0 <= i < self.employments.len() ==> ids_of(self.users).contains(#[trigger] self.employments[i].user_id)
        &&& forall|i: int| 0 <= i < self.employments.len() ==> company_ids(self.companies).contains(#[trigger] self.employments[i].company_id)
        &&& names_unique(self.companies)
        &&& i32::MIN <= self.next_user <= i32::MAX
        &&& i32::MIN <= self.next_tag <= i32::MAX
        &&& i32::MIN <= self.next_company <= i32::MAX
        &&& i32::MIN <= self.next_employment <= i32::MAX
    }
}

/// An in-memory store of users, tags, companies and employments. Rows are only
/// ever appended; each table numbers its rows from its own sequence.
pub struct Store {
    users: Vec<User>,
    tags: Vec<Tag>,
    companies: Vec<Company>,
    employments: Vec<Employment>,
    next_user: i32,
    next_tag: i32,
    next_company: i32,
    next_employment: i32,
    calls: Vec<Relation>,
}

impl View for Store {
    type V = StoreModel;

    closed spec fn view(&self) -> StoreModel {
        StoreModel {
            users: self.users@,
            tags: self.tags@,
            companies: self.companies@,
            employments: self.employments@,
            next_user: self.next_user as int,
            next_tag: self.next_tag as int,
            next_company: self.next_company as int,
            next_employment: self.next_employment as int,
            calls: self.calls@,
        }
    }
}

impl Store {
    /// An empty store whose sequences all start at 1.
    pub fn new() -> (r: Store)
        ensures
            r@.well_formed(),
            r@.users.len() == 0 && r@.tags.len() == 0 && r@.companies.len() == 0,
            r@.employments.len() == 0 && r@.calls.len() == 0,
            r@.next_user == 1 && r@.next_tag == 1 && r@.next_company == 1 && r@.next_employment == 1,
    {
        Store::with_sequences(1, 1, 1, 1)
    }

    /// An empty store whose sequences start at the given identities.
    pub fn with_sequences(user: i32, tag: i32, company: i32, employment: i32) -> (r: Store)
        ensures
            r@.well_formed(),
            r@.users.len() == 0 && r@.tags.len() == 0 && r@.companies.len() == 0,
            r@.employments.len() == 0 && r@.calls.len() == 0,
            r@.next_user == user && r@.next_tag == tag,
            r@.next_company == company && r@.next_employment == employment,
    {
        Store {
            users: Vec::new(),
            tags: Vec::new(),
            companies: Vec::new(),
            employments: Vec::new(),
            next_user: user,
            next_tag: tag,
            next_company: company,
            next_employment: employment,
            calls: Vec::new(),
        }
    }

    /// All users, in the order they were inserted.
    pub fn users(&self) -> (r: &Vec<User>)
        ensures
            r@ == self@.users,
    {
        &self.users
    }

    /// All tags, in the order they were inserted.
    pub fn tags(&self) -> (r: &Vec<Tag>)
        ensures
            r@ == self@.tags,
    {
        &self.tags
    }

    /// All companies, in the order they were inserted.
    pub fn companies(&self) -> (r: &Vec<Company>)
        ensures
            r@ == self@.companies,
    {
        &self.companies
    }

    /// All employments, in the order they were inserted.
    pub fn employments(&self) -> (r: &Vec<Employment>)
        ensures
            r@ == self@.employments,
    {
        &self.employments
    }

    /// The batch loads served so far, in order.
    pub fn calls(&self) -> (r: &Vec<Relation>)
        ensures
            r@ == self@.calls,
    {
        &self.calls
    }
}


impl Store {
    /// Whether some user has the identity `id`.
    pub fn has_user(&self, id: i32) -> (r: bool)
        ensures
            r == ids_of(self@.users).contains(id),
    {
        let mut i: usize = 0;
        while i < self.users.len()
            invariant
                i <= self.users@.len(),
                forall|k: int| 0 <= k < i ==> self.users@[k].id != id,
            decreases self.users@.len() - i,
        {
            if self.users[i].id == id {
                assert(ids_of(self.users@)[i as int] == id);
                return true;
            }
            i += 1;
        }
        proof {
            if ids_of(self.users@).contains(id) {
                let k = choose|k: int| 0 <= k < ids_of(self.users@).len() && ids_of(self.users@)[k] == id;
                assert(self.users@[k].id == id);
            }
        }
        false
    }

    /// Whether some company has the identity `id`.
    pub fn has_company(&self, id: i32) -> (r: bool)
        ensures
            r == company_ids(self@.companies).contains(id),
    {
        let mut i: usize = 0;
        while i < self.companies.len()
            invariant
                i <= self.companies@.len(),
                forall|k: int| 0 <= k < i ==> self.companies@[k].id != id,
            decreases self.companies@.len() - i,
        {
            if self.companies[i].id == id {
                assert(company_ids(self.companies@)[i as int] == id);
                return true;
            }
            i += 1;
        }
        proof {
            if company_ids(self.companies@).contains(id) {
                let k = choose|k: int| 0 <= k < company_ids(self.companies@).len() && company_ids(self.companies@)[k] == id;
                assert(self.companies@[k].id == id);
            }
        }
        false
    }

    /// The position of the company named `name`, if there is one.
    fn company_position(&self, name: &String) -> (r: Option<usize>)
        ensures
            r matches Some(k) ==> k < self@.companies.len() && self@.companies[k as int].name@ == name@,
            r is None ==> !has_company_named(self@.companies, name@),
    {
        let mut i: usize = 0;
        while i < self.companies.len()
            invariant
                i <= self.companies@.len(),
                forall|k: int| 0 <= k < i ==> self.companies@[k].name@ != name@,
            decreases self.companies@.len() - i,
        {
            if self.companies[i].name == *name {
                return Some(i);
            }
            i += 1;
        }
        None
    }

    /// Inserts a user named `name` under the next user identity. Fails, changing
    /// nothing, when that sequence is exhausted.
    pub fn insert_user_row(&mut self, name: String) -> (r: Result<User, StorageError>)
        requires
            old(self)@.well_formed(),
        ensures
            final(self)@.well_formed(),
            old(self)@.next_user < i32::MAX ==> r == Ok::<User, StorageError>(User { id: old(self)@.next_user as i32, name: name })
                && final(self)@ == (StoreModel {
                    users: old(self)@.users.push(User { id: old(self)@.next_user as i32, name: name }),
                    next_user: old(self)@.next_user + 1,
                    ..old(self)@
                }),
            old(self)@.next_user == i32::MAX ==> r == Err::<User, StorageError>(StorageError::InsertUser)
                && final(self)@ == old(self)@,
    {
        if self.next_user == i32::MAX {
            return Err(StorageError::InsertUser);
        }
        let user = User { id: self.next_user, name: name };
        let row = user.duplicate();
        self.users.push(row);
        self.next_user = self.next_user + 1;
        proof {
            let m = self@;
            assert(forall|i: int| 0 <= i < old(self)@.users.len() ==> m.users[i] == old(self)@.users[i]);
            assert forall|i: int| 0 <= i < m.tags.len() implies ids_of(m.users).contains(#[trigger] m.tags[i].user_id) by {
                let k = choose|k: int| 0 <= k < ids_of(old(self)@.users).len() && ids_of(old(self)@.users)[k] == m.tags[i].user_id;
                assert(ids_of(m.users)[k] == m.tags[i].user_id);
            }
            assert forall|i: int| 0 <= i < m.employments.len() implies ids_of(m.users).contains(#[trigger] m.employments[i].user_id) by {
                let k = choose|k: int| 0 <= k < ids_of(old(self)@.users).len() && ids_of(old(self)@.users)[k] == m.employments[i].user_id;
                assert(ids_of(m.users)[k] == m.employments[i].user_id);
            }
        }
        Ok(user)
    }
}


impl Store {
    /// Inserts one tag per name for the user `user_id`, in order, numbered from
    /// the next tag identity, in one step. An empty list changes nothing. Fails,
    /// changing nothing, when no such user exists or the names do not fit in
    /// the tag sequence.
    pub fn insert_tags(&mut self, user_id: i32, names: &Vec<String>) -> (r: Result<(), StorageError>)
        requires
            old(self)@.well_formed(),
        ensures
            final(self)@.well_formed(),
            ({
                let o = old(self)@;
                if ids_of(o.users).contains(user_id) && o.next_tag + names@.len() <= i32::MAX {
                    r is Ok && final(self)@ == (StoreModel {
                        tags: o.tags + new_tags(o.next_tag, user_id, names@),
                        next_tag: o.next_tag + names@.len(),
                        ..o
                    })
                } else {
                    r == Err::<(), StorageError>(StorageError::InsertTag) && final(self)@ == o
                }
            }),
    {
        if !self.has_user(user_id) {
            return Err(StorageError::InsertTag);
        }
        let room: i64 = i32::MAX as i64 - self.next_tag as i64;
        if names.len() as u64 > room as u64 {
            return Err(StorageError::InsertTag);
        }
        let ghost o = self@;
        let mut k: usize = 0;
        while k < names.len()
            invariant
                o == old(self)@,
                o.well_formed(),
                ids_of(o.users).contains(user_id),
                o.next_tag + names@.len() <= i32::MAX,
                k <= names@.len(),
                self@ == (StoreModel {
                    tags: o.tags + new_tags(o.next_tag, user_id, names@.subrange(0, k as int)),
                    next_tag: o.next_tag + k,
                    ..o
                }),
            decreases names@.len() - k,
        {
            let tag = Tag { id: self.next_tag, user_id: user_id, name: names[k].clone() };
            self.tags.push(tag);
            self.next_tag = self.next_tag + 1;
            assert(new_tags(o.next_tag, user_id, names@.subrange(0, k as int)).push(self.tags@.last())
                =~= new_tags(o.next_tag, user_id, names@.subrange(0, k + 1)));
            k += 1;
        }
        assert(names@.subrange(0, names@.len() as int) =~= names@);
        proof {
            let m = self@;
            let added = new_tags(o.next_tag, user_id, names@);
            assert forall|i: int| 0 <= i < m.tags.len() implies ids_of(m.users).contains(#[trigger] m.tags[i].user_id) by {
                if i >= o.tags.len() {
                    assert(m.tags[i] == added[i - o.tags.len()]);
                }
            }
        }
        Ok(())
    }

    /// Finds the company named `name`; where there is none, inserts it under
    /// the next company identity. Fails, changing nothing, when a company must
    /// be inserted and that sequence is exhausted.
    pub fn find_or_create_company(&mut self, name: &String) -> (r: Result<Company, StorageError>)
        requires
            old(self)@.well_formed(),
        ensures
            final(self)@.well_formed(),
            ({
                let o = old(self)@;
                if has_company_named(o.companies, name@) {
                    final(self)@ == o && r is Ok && o.companies.contains(r->Ok_0) && r->Ok_0.name@ == name@
                } else if o.next_company < i32::MAX {
                    r == Ok::<Company, StorageError>(Company { id: o.next_company as i32, name: *name })
                        && final(self)@ == (StoreModel {
                            companies: o.companies.push(Company { id: o.next_company as i32, name: *name }),
                            next_company: o.next_company + 1,
                            ..o
                        })
                } else {
                    r == Err::<Company, StorageError>(StorageError::InsertCompany) && final(self)@ == o
                }
            }),
    {
        match self.company_position(name) {
            Some(k) => {
                let c = self.companies[k].duplicate();
                assert(self@.companies[k as int] == c);
                Ok(c)
            },
            None => {
                if self.next_company == i32::MAX {
                    return Err(StorageError::InsertCompany);
                }
                let company = Company { id: self.next_company, name: name.clone() };
                self.companies.push(company.duplicate());
                self.next_company = self.next_company + 1;
                proof {
                    let o = old(self)@;
                    let m = self@;
                    assert forall|i: int, j: int|
                        0 <= i < m.companies.len() && 0 <= j < m.companies.len() && i != j
                            implies (#[trigger] m.companies[i]).name@ != (#[trigger] m.companies[j]).name@ by {
                        if i < o.companies.len() && j < o.companies.len() {
                            assert(m.companies[i] == o.companies[i] && m.companies[j] == o.companies[j]);
                        } else if i < o.companies.len() {
                            assert(m.companies[i] == o.companies[i]);
                        } else {
                            assert(m.companies[j] == o.companies[j]);
                        }
                    }
                    assert forall|i: int| 0 <= i < m.employments.len()
                        implies company_ids(m.companies).contains(#[trigger] m.employments[i].company_id) by {
                        let k = choose|k: int| 0 <= k < company_ids(o.companies).len() && company_ids(o.companies)[k] == m.employments[i].company_id;
                        assert(company_ids(m.companies)[k] == m.employments[i].company_id);
                    }
                }
                Ok(company)
            },
        }
    }

    /// Links the user `user_id` to the company `company_id` under the next
    /// employment identity. Fails, changing nothing, when either does not
    /// exist or the sequence is exhausted.
    pub fn insert_employment(&mut self, user_id: i32, company_id: i32) -> (r: Result<Employment, StorageError>)
        requires
            old(self)@.well_formed(),
        ensures
            final(self)@.well_formed(),
            ({
                let o = old(self)@;
                let e = Employment { id: o.next_employment as i32, user_id: user_id, company_id: company_id };
                if ids_of(o.users).contains(user_id) && company_ids(o.companies).contains(company_id)
                    && o.next_employment < i32::MAX {
                    r == Ok::<Employment, StorageError>(e) && final(self)@ == (StoreModel {
                        employments: o.employments.push(e),
                        next_employment: o.next_employment + 1,
                        ..o
                    })
                } else {
                    r == Err::<Employment, StorageError>(StorageError::InsertEmployment { user_id: user_id })
                        && final(self)@ == o
                }
            }),
    {
        if !self.has_user(user_id) || !self.has_company(company_id) || self.next_employment == i32::MAX {
            return Err(StorageError::InsertEmployment { user_id: user_id });
        }
        let e = Employment { id: self.next_employment, user_id: user_id, company_id: company_id };
        self.employments.push(e);
        self.next_employment = self.next_employment + 1;
        proof {
            let o = old(self)@;
            let m = self@;
            assert(m.employments[o.employments.len() as int] == e);
        }
        Ok(e)
    }
}


/// The companies, and the next company identity, after finding or creating
/// each of `names` in turn, starting from `cs` and `next`.
pub open spec fn after_companies(cs: Seq<Company>, next: int, names: Seq<String>) -> (Seq<Company>, int)
    decreases names.len(),
{
    if names.len() == 0 {
        (cs, next)
    } else if has_company_named(cs, names[0]@) {
        after_companies(cs, next, names.drop_first())
    } else {
        after_companies(cs.push(Company { id: next as i32, name: names[0] }), next + 1, names.drop_first())
    }
}

/// Whether `e` links to a company of `cs` named `name`.
pub open spec fn employs_named(cs: Seq<Company>, e: Employment, name: Seq<char>) -> bool {
    exists|c: int| 0 <= c < cs.len() && (#[trigger] cs[c]).id == e.company_id && cs[c].name@ == name
}

/// Whether every sequence has room for creating a user with `n_tags` tags
/// and the companies `companies`.
pub open spec fn create_fits(o: StoreModel, n_tags: int, companies: Seq<String>) -> bool {
    &&& o.next_user < i32::MAX
    &&& o.next_tag + n_tags <= i32::MAX
    &&& after_companies(o.companies, o.next_company, companies).1 <= i32::MAX
    &&& o.next_employment + companies.len() <= i32::MAX
}

/// Whether `m` is `o` after creating `user` with the tags `tags` and one
/// employment per entry of `companies`, in order, each linking `user` to the
/// one company of that name.
pub open spec fn created(o: StoreModel, m: StoreModel, user: User, tags: Seq<String>, companies: Seq<String>) -> bool {
    let n = companies.len();
    &&& user.id == o.next_user
    &&& m.users == o.users.push(user)
    &&& m.next_user == o.next_user + 1
    &&& m.tags == o.tags + new_tags(o.next_tag, user.id, tags)
    &&& m.next_tag == o.next_tag + tags.len()
    &&& (m.companies, m.next_company) == after_companies(o.companies, o.next_company, companies)
    &&& m.employments.len() == o.employments.len() + n
    &&& m.employments.subrange(0, o.employments.len() as int) == o.employments
    &&& m.next_employment == o.next_employment + n
    &&& forall|j: int| 0 <= j < n ==> {
        let e = #[trigger] m.employments[o.employments.len() + j];
        &&& e.id == o.next_employment + j
        &&& e.user_id == user.id
        &&& employs_named(m.companies, e, companies[j]@)
    }
    &&& m.calls == o.calls
}

/// Finding or creating companies never lowers the next company identity, and
/// raises it where the first name is new.
pub proof fn lemma_after_companies_grows(cs: Seq<Company>, next: int, names: Seq<String>)
    ensures
        after_companies(cs, next, names).1 >= next,
        names.len() > 0 && !has_company_named(cs, names[0]@) ==> after_companies(cs, next, names).1 >= next + 1,
    decreases names.len(),
{
    if names.len() > 0 {
        if has_company_named(cs, names[0]@) {
            lemma_after_companies_grows(cs, next, names.drop_first());
        } else {
            lemma_after_companies_grows(cs.push(Company { id: next as i32, name: names[0] }), next + 1, names.drop_first());
        }
    }
}

impl Store {
    /// Cuts each table back to the length of `target` and resets the sequences.
    fn restore(&mut self, target: Ghost<StoreModel>, users: usize, tags: usize, companies: usize,
        employments: usize, next_user: i32, next_tag: i32, next_company: i32, next_employment: i32)
        requires
            users == target@.users.len() && users <= old(self)@.users.len()
                && old(self)@.users.subrange(0, users as int) == target@.users,
            tags == target@.tags.len() && tags <= old(self)@.tags.len()
                && old(self)@.tags.subrange(0, tags as int) == target@.tags,
            companies == target@.companies.len() && companies <= old(self)@.companies.len()
                && old(self)@.companies.subrange(0, companies as int) == target@.companies,
            employments == target@.employments.len() && employments <= old(self)@.employments.len()
                && old(self)@.employments.subrange(0, employments as int) == target@.employments,
            next_user == target@.next_user && next_tag == target@.next_tag,
            next_company == target@.next_company && next_employment == target@.next_employment,
            old(self)@.calls == target@.calls,
        ensures
            final(self)@ == target@,
    {
        self.users.truncate(users);
        self.tags.truncate(tags);
        self.companies.truncate(companies);
        self.employments.truncate(employments);
        self.next_user = next_user;
        self.next_tag = next_tag;
        self.next_company = next_company;
        self.next_employment = next_employment;
    }

    /// Creates a user named `name` with the tags `tags` and an employment at
    /// each company of `companies`, in order, finding each company by name or
    /// creating it. All or nothing: on failure the store is left as it was.
    pub fn create_user(&mut self, name: String, tags: &Vec<String>, companies: &Vec<String>) -> (r: Result<User, StorageError>)
        requires
            old(self)@.well_formed(),
        ensures
            final(self)@.well_formed(),
            ({
                let o = old(self)@;
                &&& create_fits(o, tags@.len() as int, companies@) <==> r is Ok
                &&& r matches Ok(u) ==> u.name == name && created(o, final(self)@, u, tags@, companies@)
                &&& r is Err ==> final(self)@ == o
                &&& r == Err::<User, StorageError>(StorageError::InsertUser) <==> o.next_user == i32::MAX
                &&& r == Err::<User, StorageError>(StorageError::InsertTag)
                    <==> o.next_user < i32::MAX && o.next_tag + tags@.len() > i32::MAX
                &&& r is Err && o.next_user < i32::MAX && o.next_tag + tags@.len() <= i32::MAX ==>
                    r == Err::<User, StorageError>(StorageError::InsertCompany)
                    || r == Err::<User, StorageError>(StorageError::InsertEmployment { user_id: o.next_user as i32 })
            }),
    {
        let ghost o = self@;
        let users_len = self.users.len();
        let tags_len = self.tags.len();
        let companies_len = self.companies.len();
        let employments_len = self.employments.len();
        let next_user = self.next_user;
        let next_tag = self.next_tag;
        let next_company = self.next_company;
        let next_employment = self.next_employment;
        assert(o.users.subrange(0, users_len as int) =~= o.users);
        assert(o.tags.subrange(0, tags_len as int) =~= o.tags);
        assert(o.companies.subrange(0, companies_len as int) =~= o.companies);
        assert(o.employments.subrange(0, employments_len as int) =~= o.employments);

        let user = match self.insert_user_row(name) {
            Ok(u) => u,
            Err(e) => {
                return Err(e);
            },
        };
        assert(ids_of(self@.users)[o.users.len() as int] == user.id);
        match self.insert_tags(user.id, tags) {
            Ok(()) => {},
            Err(e) => {
                assert(self@.users.subrange(0, users_len as int) =~= o.users);
                self.restore(Ghost(o), users_len, tags_len, companies_len, employments_len,
                    next_user, next_tag, next_company, next_employment);
                return Err(e);
            },
        }
        let ghost t = self@;
        proof {
            lemma_after_companies_grows(o.companies, o.next_company, companies@);
        }
        assert(companies@.subrange(0, companies@.len() as int) =~= companies@);
        let mut k: usize = 0;
        while k < companies.len()
            invariant
                o == old(self)@,
                o.well_formed(),
                self@.well_formed(),
                user.id == o.next_user && user.name == name,
                t.users == o.users.push(user),
                t.next_user == o.next_user + 1,
                t.tags == o.tags + new_tags(o.next_tag, user.id, tags@),
                t.next_tag == o.next_tag + tags@.len(),
                t.companies == o.companies && t.next_company == o.next_company,
                t.employments == o.employments && t.next_employment == o.next_employment,
                t.calls == o.calls,
                users_len == o.users.len() && tags_len == o.tags.len(),
                companies_len == o.companies.len() && employments_len == o.employments.len(),
                next_user == o.next_user && next_tag == o.next_tag,
                next_company == o.next_company && next_employment == o.next_employment,
                k <= companies@.len(),
                self@.users == t.users && self@.next_user == t.next_user,
                self@.tags == t.tags && self@.next_tag == t.next_tag,
                self@.calls == t.calls,
                self@.companies.len() >= o.companies.len(),
                self@.companies.subrange(0, o.companies.len() as int) == o.companies,
                after_companies(self@.companies, self@.next_company, companies@.subrange(k as int, companies@.len() as int))
                    == after_companies(o.companies, o.next_company, companies@),
                self@.next_company <= after_companies(o.companies, o.next_company, companies@).1,
                self@.employments.len() == o.employments.len() + k,
                self@.employments.subrange(0, o.employments.len() as int) == o.employments,
                self@.next_employment == o.next_employment + k,
                forall|j: int| 0 <= j < k ==> {
                    let e = #[trigger] self@.employments[o.employments.len() + j];
                    &&& e.id == o.next_employment + j
                    &&& e.user_id == user.id
                    &&& employs_named(self@.companies, e, companies@[j]@)
                },
            decreases companies@.len() - k,
        {
            let ghost before = self@;
            let rest = Ghost(companies@.subrange(k as int, companies@.len() as int));
            assert(rest@[0] == companies@[k as int]);
            assert(rest@.drop_first() =~= companies@.subrange(k + 1, companies@.len() as int));
            let company = match self.find_or_create_company(&companies[k]) {
                Ok(c) => c,
                Err(e) => {
                    proof {
                        lemma_after_companies_grows(before.companies, before.next_company, rest@);
                        assert(self@.users.subrange(0, users_len as int) =~= o.users);
                        assert(self@.tags.subrange(0, tags_len as int) =~= o.tags);
                    }
                    self.restore(Ghost(o), users_len, tags_len, companies_len, employments_len,
                        next_user, next_tag, next_company, next_employment);
                    return Err(e);
                },
            };
            let ghost mid = self@;
            proof {
                if !has_company_named(before.companies, rest@[0]@) {
                    lemma_after_companies_grows(mid.companies, mid.next_company, rest@.drop_first());
                    assert(mid.companies[before.companies.len() as int] == company);
                }
                assert(mid.companies.subrange(0, o.companies.len() as int) =~= o.companies);
                let c = choose|c: int| 0 <= c < mid.companies.len() && mid.companies[c] == company;
                assert(company_ids(mid.companies)[c] == company.id);
                assert(ids_of(mid.users)[o.users.len() as int] == user.id);
                assert forall|j: int| 0 <= j < k implies {
                    let e = #[trigger] mid.employments[o.employments.len() + j];
                    employs_named(mid.companies, e, companies@[j]@)
                } by {
                    let e = before.employments[o.employments.len() + j];
                    let w = choose|w: int| 0 <= w < before.companies.len() && (#[trigger] before.companies[w]).id == e.company_id
                        && before.companies[w].name@ == companies@[j]@;
                    assert(mid.companies[w] == before.companies[w]);
                }
            }
            match self.insert_employment(user.id, company.id) {
                Ok(_) => {},
                Err(e) => {
                    proof {
                        assert(self@.users.subrange(0, users_len as int) =~= o.users);
                        assert(self@.tags.subrange(0, tags_len as int) =~= o.tags);
                    }
                    self.restore(Ghost(o), users_len, tags_len, companies_len, employments_len,
                        next_user, next_tag, next_company, next_employment);
                    return Err(e);
                },
            }
            proof {
                let m = self@;
                assert(m.employments.subrange(0, o.employments.len() as int) =~= o.employments);
                let c = choose|c: int| 0 <= c < mid.companies.len() && mid.companies[c] == company;
                assert(m.companies[c].id == m.employments[o.employments.len() + k].company_id);
                assert forall|j: int| 0 <= j < k + 1 implies {
                    let e = #[trigger] m.employments[o.employments.len() + j];
                    &&& e.id == o.next_employment + j
                    &&& e.user_id == user.id
                    &&& employs_named(m.companies, e, companies@[j]@)
                } by {
                    if j < k {
                        assert(m.employments[o.employments.len() + j] == mid.employments[o.employments.len() + j]);
                    }
                }
            }
            k += 1;
        }
        assert(companies@.subrange(companies@.len() as int, companies@.len() as int) =~= Seq::<String>::empty());
        Ok(user)
    }
}


/// The name of the company whose identity is `id`.
pub open spec fn company_name(cs: Seq<Company>, id: i32) -> String {
    cs[choose|k: int| 0 <= k < cs.len() && cs[k].id == id].name
}

/// The predicate "links one of the users `ids`".
pub open spec fn employs_any(ids: Set<i32>) -> spec_fn(Employment) -> bool {
    |e: Employment| ids.contains(e.user_id)
}

/// The company that `e` links to, seen from its user.
pub open spec fn company_row(cs: Seq<Company>, e: Employment) -> CompanyWithUser {
    CompanyWithUser { id: e.company_id, user_id: e.user_id, name: company_name(cs, e.company_id) }
}

/// The join of companies through employments, one row per employment of one
/// of the users `ids`, in the order of the employments.
pub open spec fn company_rows(cs: Seq<Company>, employments: Seq<Employment>, ids: Set<i32>) -> Seq<CompanyWithUser> {
    employments.filter(employs_any(ids)).map_values(|e: Employment| company_row(cs, e))
}

impl Store {
    /// The position of the company whose identity is `id`, if there is one.
    fn company_at(&self, id: i32) -> (r: Option<usize>)
        ensures
            r matches Some(k) ==> k < self@.companies.len() && self@.companies[k as int].id == id,
            r is None ==> !company_ids(self@.companies).contains(id),
    {
        let mut i: usize = 0;
        while i < self.companies.len()
            invariant
                i <= self.companies@.len(),
                forall|k: int| 0 <= k < i ==> self.companies@[k].id != id,
            decreases self.companies@.len() - i,
        {
            if self.companies[i].id == id {
                return Some(i);
            }
            i += 1;
        }
        proof {
            if company_ids(self.companies@).contains(id) {
                let k = choose|k: int| 0 <= k < company_ids(self.companies@).len() && company_ids(self.companies@)[k] == id;
                assert(self.companies@[k].id == id);
            }
        }
        None
    }

    /// The tags of the users `ids`, in the order they were inserted.
    pub fn tags_of_users(&self, ids: &Vec<i32>) -> (r: Vec<Tag>)
        ensures
            r@ == children_of_any(self@.tags, ids@.to_set()),
    {
        rows_owned_by_any(&self.tags, ids)
    }

    /// One row per employment of one of the users `ids`, in the order of the
    /// employments, carrying the company's identity and name and the user's identity.
    pub fn companies_of_users(&self, ids: &Vec<i32>) -> (r: Vec<CompanyWithUser>)
        requires
            self@.well_formed(),
        ensures
            r@ == company_rows(self@.companies, self@.employments, ids@.to_set()),
    {
        let ghost cs = self@.companies;
        let ghost set = ids@.to_set();
        let mut r: Vec<CompanyWithUser> = Vec::new();
        let mut j: usize = 0;
        while j < self.employments.len()
            invariant
                self@.well_formed(),
                cs == self@.companies,
                set == ids@.to_set(),
                j <= self@.employments.len(),
                r@ == company_rows(cs, self@.employments.subrange(0, j as int), set),
            decreases self@.employments.len() - j,
        {
            let e = self.employments[j];
            let ghost before = self@.employments.subrange(0, j as int);
            proof {
                before.lemma_filter_push(e, employs_any(set));
                assert(before.push(e) =~= self@.employments.subrange(0, j + 1));
                let f = |x: Employment| company_row(cs, x);
                assert(before.filter(employs_any(set)).push(e).map_values(f)
                    =~= before.filter(employs_any(set)).map_values(f).push(f(e)));
                assert(self@.employments[j as int] == e);
            }
            if contains_id(ids, e.user_id) {
                match self.company_at(e.company_id) {
                    Some(k) => {
                        let row = CompanyWithUser { id: e.company_id, user_id: e.user_id, name: self.companies[k].name.clone() };
                        proof {
                            let c = choose|c: int| 0 <= c < cs.len() && cs[c].id == e.company_id;
                            if c < k {
                                assert(cs[c].id < cs[k as int].id);
                            } else if c > k {
                                assert(cs[k as int].id < cs[c].id);
                            }
                        }
                        r.push(row);
                    },
                    None => {},
                }
            }
            j += 1;
        }
        assert(self@.employments.subrange(0, self@.employments.len() as int) =~= self@.employments);
        r
    }
}

impl BatchLoader for Store {
    open spec fn loads(&self) -> Seq<Relation> {
        self@.calls
    }

    open spec fn ready(&self) -> bool {
        self@.well_formed()
    }

    open spec fn infallible(&self) -> bool {
        true
    }

    open spec fn contents(&self) -> StoreModel {
        StoreModel { calls: Seq::empty(), ..self@ }
    }

    open spec fn tag_rows(&self, ids: Set<i32>) -> Seq<Tag> {
        children_of_any(self@.tags, ids)
    }

    open spec fn company_rows(&self, ids: Set<i32>) -> Seq<CompanyWithUser> {
        company_rows(self@.companies, self@.employments, ids)
    }

    fn tags_for_users(&mut self, ids: &Vec<i32>) -> (r: Result<Vec<Tag>, StorageError>) {
        let rows = self.tags_of_users(ids);
        let ghost o = self@;
        self.calls.push(Relation::Tags);
        assert(self@ == StoreModel { calls: self@.calls, ..o });
        Ok(rows)
    }

    fn companies_for_users(&mut self, ids: &Vec<i32>) -> (r: Result<Vec<CompanyWithUser>, StorageError>) {
        let rows = self.companies_of_users(ids);
        let ghost o = self@;
        self.calls.push(Relation::Companies);
        assert(self@ == StoreModel { calls: self@.calls, ..o });
        Ok(rows)
    }
}


/// Whether exactly one company of `cs` is named `name`.
pub open spec fn one_company_named(cs: Seq<Company>, name: Seq<char>) -> bool {
    &&& has_company_named(cs, name)
    &&& forall|k: int, l: int| 0 <= k < cs.len() && 0 <= l < cs.len() && (#[trigger] cs[k]).name@ == name
        && (#[trigger] cs[l]).name@ == name ==> k == l
}

/// Companies are never duplicated: after a user is created, each company name
/// it listed belongs to exactly one company row, there is one new employment
/// per listed name, and two listings of one name link to the same company.
pub proof fn lemma_company_dedup(o: StoreModel, m: StoreModel, user: User, tags: Seq<String>, companies: Seq<String>)
    requires
        m.well_formed(),
        created(o, m, user, tags, companies),
    ensures
        m.employments.len() == o.employments.len() + companies.len(),
        forall|j: int| 0 <= j < companies.len() ==> one_company_named(m.companies, #[trigger] companies[j]@),
        forall|j1: int, j2: int| 0 <= j1 < companies.len() && 0 <= j2 < companies.len()
            && companies[j1]@ == companies[j2]@ ==>
            (#[trigger] m.employments[o.employments.len() + j1]).company_id
                == (#[trigger] m.employments[o.employments.len() + j2]).company_id,
{
    assert forall|j: int| 0 <= j < companies.len() implies one_company_named(m.companies, #[trigger] companies[j]@) by {
        let e = m.employments[o.employments.len() + j];
        let k = choose|k: int| 0 <= k < m.companies.len() && (#[trigger] m.companies[k]).id == e.company_id
            && m.companies[k].name@ == companies[j]@;
        assert(m.companies[k].name@ == companies[j]@);
    }
    assert forall|j1: int, j2: int| 0 <= j1 < companies.len() && 0 <= j2 < companies.len()
        && companies[j1]@ == companies[j2]@ implies
        (#[trigger] m.employments[o.employments.len() + j1]).company_id
            == (#[trigger] m.employments[o.employments.len() + j2]).company_id by {
        let e1 = m.employments[o.employments.len() + j1];
        let e2 = m.employments[o.employments.len() + j2];
        let k1 = choose|k: int| 0 <= k < m.companies.len() && (#[trigger] m.companies[k]).id == e1.company_id
            && m.companies[k].name@ == companies[j1]@;
        let k2 = choose|k: int| 0 <= k < m.companies.len() && (#[trigger] m.companies[k]).id == e2.company_id
            && m.companies[k].name@ == companies[j2]@;
        assert(m.companies[k1].name@ == m.companies[k2].name@);
    }
}

/// Creating a user with no tags and no companies adds the user and nothing
/// else, and succeeds whenever the user sequence has room.
pub proof fn lemma_create_with_nothing(o: StoreModel, m: StoreModel, user: User)
    requires
        created(o, m, user, Seq::empty(), Seq::empty()),
    ensures
        m.users == o.users.push(user),
        m.tags == o.tags,
        m.companies == o.companies,
        m.employments == o.employments,
        o.well_formed() ==> (create_fits(o, 0, Seq::empty()) <==> o.next_user < i32::MAX),
{
    assert(m.tags =~= o.tags);
    assert(m.employments =~= m.employments.subrange(0, o.employments.len() as int));
}

} // verus!
