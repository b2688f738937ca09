use userdir::batch::{partition, resolve, unique_ids, Relation, Selection};
use userdir::models::{CompanyWithUser, StorageError, Tag, User};
use userdir::repositories::{CompanyRepository, TagRepository};
use userdir::schema::{Context, Mutation, Query};
use userdir::store::Store;

fn s(x: &str) -> String {
    x.to_string()
}

fn sample() -> Store {
    let mut store = Store::new();
    store.create_user(s("Ada"), &vec![s("eng"), s("math")], &vec![s("Acme")]).unwrap();
    store.create_user(s("Bob"), &vec![], &vec![s("Initech"), s("Acme")]).unwrap();
    store.create_user(s("Cy"), &vec![s("ops")], &vec![]).unwrap();
    store
}

fn tag(id: i32, user_id: i32, name: &str) -> Tag {
    Tag { id, user_id, name: s(name) }
}

#[test]
fn partition_groups_by_owner() {
    let parents = vec![User { id: 1, name: s("a") }, User { id: 2, name: s("b") }, User { id: 3, name: s("c") }];
    let rows = vec![tag(10, 2, "x"), tag(11, 1, "y"), tag(12, 2, "z")];
    let groups = partition(&parents, &rows);
    assert_eq!(groups, vec![vec![tag(11, 1, "y")], vec![tag(10, 2, "x"), tag(12, 2, "z")], vec![]]);
}

#[test]
fn unique_ids_drops_repeats() {
    let parents = vec![User { id: 2, name: s("a") }, User { id: 1, name: s("b") }, User { id: 2, name: s("a") }];
    assert_eq!(unique_ids(&parents), vec![2, 1]);
}

#[test]
fn one_load_per_relation_whatever_the_parents() {
    for n in [0usize, 1, 100] {
        let mut store = Store::new();
        let mut parents = Vec::new();
        for i in 0..n {
            parents.push(store.create_user(format!("u{}", i), &vec![s("t")], &vec![s("Acme")]).unwrap());
        }
        let both = Selection { tags: true, companies: true };
        let nodes = resolve(&mut store, &parents, both).unwrap();
        assert_eq!(nodes.len(), n);
        assert_eq!(store.calls().clone(), vec![Relation::Tags, Relation::Companies]);
        let only_tags = Selection { tags: true, companies: false };
        resolve(&mut store, &parents, only_tags).unwrap();
        assert_eq!(store.calls().len(), 3);
        let none = Selection { tags: false, companies: false };
        let bare = resolve(&mut store, &parents, none).unwrap();
        assert_eq!(store.calls().len(), 3);
        assert!(bare.iter().all(|r| r.tags.is_none() && r.companies.is_none()));
    }
}

#[test]
fn resolve_attaches_rows_to_owners() {
    let mut store = sample();
    let users = store.users().clone();
    let parents = vec![users[0].clone(), users[2].clone(), users[0].clone(), users[1].clone()];
    let nodes = resolve(&mut store, &parents, Selection { tags: true, companies: true }).unwrap();
    assert_eq!(nodes.len(), 4);
    assert_eq!(nodes[0].tags, Some(vec![tag(1, 1, "eng"), tag(2, 1, "math")]));
    assert_eq!(nodes[1].tags, Some(vec![tag(3, 3, "ops")]));
    assert_eq!(nodes[2], nodes[0]);
    assert_eq!(nodes[3].tags, Some(vec![]));
    assert_eq!(nodes[1].companies, Some(vec![]));
    assert_eq!(
        nodes[3].companies,
        Some(vec![
            CompanyWithUser { id: 2, user_id: 2, name: s("Initech") },
            CompanyWithUser { id: 1, user_id: 2, name: s("Acme") },
        ])
    );
    assert_eq!(nodes[0].companies, Some(vec![CompanyWithUser { id: 1, user_id: 1, name: s("Acme") }]));
}

#[test]
fn repositories_read_in_batches() {
    let store = sample();
    let users = store.users().clone();
    let tags = TagRepository::user_tags(&store, &users[1..]).unwrap();
    assert_eq!(tags, vec![tag(3, 3, "ops")]);
    let companies = CompanyRepository::user_companies(&store, &users[..1]).unwrap();
    assert_eq!(companies, vec![CompanyWithUser { id: 1, user_id: 1, name: s("Acme") }]);
}

#[test]
fn query_users_with_selection() {
    let mut context = Context { store: sample() };
    let nodes = Query.field_users(&mut context, Selection { tags: false, companies: true }).unwrap();
    assert_eq!(nodes.len(), 3);
    assert_eq!(nodes[2].user, User { id: 3, name: s("Cy") });
    assert!(nodes[2].tags.is_none());
    assert_eq!(nodes[2].companies, Some(vec![]));
    assert_eq!(context.store.calls().clone(), vec![Relation::Companies]);
}

#[test]
fn mutation_creates_and_loads() {
    let mut context = Context { store: Store::new() };
    let node = Mutation
        .field_create_user(
            &mut context,
            Selection { tags: true, companies: true },
            s("Ada"),
            vec![s("eng")],
            vec![s("Acme"), s("Acme")],
        )
        .unwrap();
    assert_eq!(node.user, User { id: 1, name: s("Ada") });
    assert_eq!(node.tags, Some(vec![tag(1, 1, "eng")]));
    assert_eq!(
        node.companies,
        Some(vec![
            CompanyWithUser { id: 1, user_id: 1, name: s("Acme") },
            CompanyWithUser { id: 1, user_id: 1, name: s("Acme") },
        ])
    );
    assert_eq!(context.store.companies().len(), 1);
}

#[test]
fn mutation_failure_returns_error() {
    let mut context = Context { store: Store::with_sequences(1, 1, 1, i32::MAX) };
    let r = Mutation.field_create_user(
        &mut context,
        Selection { tags: true, companies: false },
        s("Ada"),
        vec![s("eng")],
        vec![s("Acme")],
    );
    assert_eq!(r, Err(StorageError::InsertEmployment { user_id: 1 }));
    assert!(context.store.users().is_empty());
    assert!(context.store.calls().is_empty());
}
