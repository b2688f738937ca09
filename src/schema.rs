use vstd::prelude::*;
use crate::batch::{children_of_any, ids_of, requested, resolve, resolved_from, Resolved, Selection};
use crate::models::{NewUser, StorageError, User};
use crate::repositories::UserRepository;
use crate::store::{company_rows, create_fits, created, Store, StoreModel};

verus! {

/// What every request works against.
pub struct Context {
    pub store: Store,
}

/// The read entry points.
pub struct Query;

/// The write entry points.
pub struct Mutation;

impl Query {
    /// Every user, each with the relations of `selection`, loaded with one
    /// batch read per relation.
    pub fn field_users(&self, context: &mut Context, selection: Selection) -> (r: Result<Vec<Resolved>, StorageError>)
        requires
            old(context).store@.well_formed(),
        ensures
            final(context).store@ == (StoreModel {
                calls: old(context).store@.calls + requested(selection),
                ..old(context).store@
            }),
            r is Ok,
            r matches Ok(nodes) ==> ({
                let o = old(context).store@;
                let ids = ids_of(o.users).to_set();
                resolved_from(nodes@, o.users, selection, children_of_any(o.tags, ids),
                    company_rows(o.companies, o.employments, ids))
            }),
    {
        let users = match UserRepository::all_users(&context.store) {
            Ok(users) => users,
            Err(e) => {
                return Err(e);
            },
        };
        let r = resolve(&mut context.store, &users, selection);
        assert(context.store@ =~= StoreModel {
            calls: old(context).store@.calls + requested(selection),
            ..old(context).store@
        });
        r
    }
}

impl Mutation {
    /// Creates a user named `name` with `tags` and an employment at each of
    /// `companies`, all or nothing, then loads the relations of `selection`
    /// for it.
    pub fn field_create_user(&self, context: &mut Context, selection: Selection, name: String,
        tags: Vec<String>, companies: Vec<String>) -> (r: Result<Resolved, StorageError>)
        requires
            old(context).store@.well_formed(),
        ensures
            final(context).store@.well_formed(),
            create_fits(old(context).store@, tags@.len() as int, companies@) <==> r is Ok,
            r is Err ==> final(context).store@ == old(context).store@,
            r matches Ok(node) ==> ({
                let m = final(context).store@;
                let ids = set![node.user.id];
                &&& node.user.name == name
                &&& created(old(context).store@, StoreModel { calls: old(context).store@.calls, ..m },
                        node.user, tags@, companies@)
                &&& m.calls == old(context).store@.calls + requested(selection)
                &&& resolved_from(seq![node], seq![node.user], selection, children_of_any(m.tags, ids),
                        company_rows(m.companies, m.employments, ids))
            }),
    {
        let user = match UserRepository::insert_user(&mut context.store, NewUser { name: name }, tags, companies) {
            Ok(u) => u,
            Err(e) => {
                return Err(e);
            },
        };
        let ghost mid = context.store@;
        let mut parents: Vec<User> = Vec::new();
        parents.push(user);
        let mut nodes = match resolve(&mut context.store, &parents, selection) {
            Ok(nodes) => nodes,
            Err(e) => {
                return Err(e);
            },
        };
        proof {
            assert(ids_of(parents@) =~= seq![parents@[0].id]);
            let a = parents@[0].id;
            assert forall|x: i32| seq![a].to_set().contains(x) <==> set![a].contains(x) by {
                if x == a {
                    assert(seq![a][0] == a);
                }
            }
            assert(seq![a].to_set() =~= set![a]);
        }
        let node = nodes.remove(0);
        Ok(node)
    }
}

} // verus!
