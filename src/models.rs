use vstd::prelude::*;

verus! {

/// A stored user.
#[derive(Clone, Debug, PartialEq, Eq)]
pub struct User {
    pub id: i32,
    pub name: String,
}

/// The fields of a user before the store has given it an identity.
#[derive(Clone, Debug, PartialEq, Eq)]
pub struct NewUser {
    pub name: String,
}

/// A tag, owned by exactly one user.
#[derive(Clone, Debug, PartialEq, Eq)]
pub struct Tag {
    pub id: i32,
    pub user_id: i32,
    pub name: String,
}

/// A company; its name is the key under which it is found again.
#[derive(Clone, Debug, PartialEq, Eq)]
pub struct Company {
    pub id: i32,
    pub name: String,
}

/// A company seen through one employment of one user: built by reads only.
#[derive(Clone, Debug, PartialEq, Eq)]
pub struct CompanyWithUser {
    pub id: i32,
    pub user_id: i32,
    pub name: String,
}

/// A link between one user and one company.
#[derive(Clone, Copy, Debug, PartialEq, Eq)]
pub struct Employment {
    pub id: i32,
    pub user_id: i32,
    pub company_id: i32,
}

/// A failure of the store, naming the operation that failed.
#[derive(Clone, Copy, Debug, PartialEq, Eq)]
pub enum StorageError {
    /// Inserting the user failed: its identity sequence is exhausted.
    InsertUser,
    /// Inserting tags failed: the user is missing or the tag sequence is exhausted.
    InsertTag,
    /// Inserting a company failed: its identity sequence is exhausted.
    InsertCompany,
    /// Linking the user `user_id` to a company failed: a row is missing or
    /// the employment sequence is exhausted.
    InsertEmployment { user_id: i32 },
}

/// A row that belongs to one user through its `user_id`.
pub trait Owned: Sized {
    spec fn owner(&self) -> i32;

    fn owner_id(&self) -> (r: i32)
        ensures
            r == self.owner(),
    ;

    /// A copy equal to the original.
    fn duplicate(&self) -> (r: Self)
        ensures
            r == *self,
    ;
}

impl Owned for Tag {
    open spec fn owner(&self) -> i32 {
        self.user_id
    }

    fn owner_id(&self) -> (r: i32) {
        self.user_id
    }

    fn duplicate(&self) -> (r: Self) {
        Tag { id: self.id, user_id: self.user_id, name: self.name.clone() }
    }
}

impl Owned for CompanyWithUser {
    open spec fn owner(&self) -> i32 {
        self.user_id
    }

    fn owner_id(&self) -> (r: i32) {
        self.user_id
    }

    fn duplicate(&self) -> (r: Self) {
        CompanyWithUser { id: self.id, user_id: self.user_id, name: self.name.clone() }
    }
}

impl User {
    /// A copy equal to the original.
    pub fn duplicate(&self) -> (r: User)
        ensures
            r == *self,
    {
        User { id: self.id, name: self.name.clone() }
    }
}

impl Company {
    /// A copy equal to the original.
    pub fn duplicate(&self) -> (r: Company)
        ensures
            r == *self,
    {
        Company { id: self.id, name: self.name.clone() }
    }
}

} // verus!
