use userdir::models::{Company, Employment, NewUser, StorageError, Tag, User};
use userdir::repositories::{CompanyRepository, TagRepository, UserRepository};
use userdir::store::Store;

fn names(items: &[&str]) -> Vec<String> {
    items.iter().map(|s| s.to_string()).collect()
}

#[test]
fn create_ada_end_to_end() {
    let mut store = Store::new();
    let user = UserRepository::insert_user(
        &mut store,
        NewUser { name: "Ada".to_string() },
        names(&["eng"]),
        names(&["Acme", "Acme"]),
    )
    .unwrap();
    assert_eq!(user, User { id: 1, name: "Ada".to_string() });
    assert_eq!(store.users().clone(), vec![user.clone()]);
    assert_eq!(
        store.tags().clone(),
        vec![Tag { id: 1, user_id: 1, name: "eng".to_string() }]
    );
    assert_eq!(
        store.companies().clone(),
        vec![Company { id: 1, name: "Acme".to_string() }]
    );
    assert_eq!(
        store.employments().clone(),
        vec![
            Employment { id: 1, user_id: 1, company_id: 1 },
            Employment { id: 2, user_id: 1, company_id: 1 },
        ]
    );
}

#[test]
fn two_users_share_one_company() {
    let mut store = Store::new();
    let a = store.create_user("Ada".to_string(), &names(&["eng"]), &names(&["Acme"])).unwrap();
    let b = store.create_user("Bob".to_string(), &names(&[]), &names(&["Acme", "Initech"])).unwrap();
    assert_eq!(a.id, 1);
    assert_eq!(b.id, 2);
    assert_eq!(
        store.companies().clone(),
        vec![
            Company { id: 1, name: "Acme".to_string() },
            Company { id: 2, name: "Initech".to_string() },
        ]
    );
    assert_eq!(
        store.employments().clone(),
        vec![
            Employment { id: 1, user_id: 1, company_id: 1 },
            Employment { id: 2, user_id: 2, company_id: 1 },
            Employment { id: 3, user_id: 2, company_id: 2 },
        ]
    );
}

#[test]
fn failed_second_employment_leaves_nothing() {
    let mut store = Store::with_sequences(1, 1, 1, i32::MAX - 1);
    let r = store.create_user("Ada".to_string(), &names(&["eng", "ops"]), &names(&["Acme", "Initech"]));
    assert_eq!(r, Err(StorageError::InsertEmployment { user_id: 1 }));
    assert!(store.users().is_empty());
    assert!(store.tags().is_empty());
    assert!(store.companies().is_empty());
    assert!(store.employments().is_empty());
    // the sequences were rolled back too
    let u = store.create_user("Ada".to_string(), &names(&[]), &names(&["Acme"])).unwrap();
    assert_eq!(u.id, 1);
    assert_eq!(
        store.employments().clone(),
        vec![Employment { id: i32::MAX - 1, user_id: 1, company_id: 1 }]
    );
}

#[test]
fn create_with_empty_lists() {
    let mut store = Store::new();
    let u = store.create_user("Ada".to_string(), &Vec::new(), &Vec::new()).unwrap();
    assert_eq!(u, User { id: 1, name: "Ada".to_string() });
    assert!(store.tags().is_empty());
    assert!(store.companies().is_empty());
    assert!(store.employments().is_empty());
}

#[test]
fn tags_for_no_users_is_empty() {
    let mut store = Store::new();
    store.create_user("Ada".to_string(), &names(&["eng"]), &names(&[])).unwrap();
    assert_eq!(TagRepository::user_tags(&store, &[]), Ok(vec![]));
    assert_eq!(store.tags_of_users(&vec![]), vec![]);
    assert_eq!(CompanyRepository::user_companies(&store, &[]), Ok(vec![]));
}

#[test]
fn user_sequence_exhausted() {
    let mut store = Store::with_sequences(i32::MAX, 1, 1, 1);
    let r = store.create_user("Ada".to_string(), &names(&["eng"]), &names(&["Acme"]));
    assert_eq!(r, Err(StorageError::InsertUser));
    assert!(store.users().is_empty());
}

#[test]
fn tag_sequence_exhausted() {
    let mut store = Store::with_sequences(1, i32::MAX - 1, 1, 1);
    let r = store.create_user("Ada".to_string(), &names(&["a", "b"]), &names(&[]));
    assert_eq!(r, Err(StorageError::InsertTag));
    assert!(store.users().is_empty());
    assert!(store.tags().is_empty());
    let ok = store.create_user("Ada".to_string(), &names(&["a"]), &names(&[])).unwrap();
    assert_eq!(store.tags().clone(), vec![Tag { id: i32::MAX - 1, user_id: ok.id, name: "a".to_string() }]);
}

#[test]
fn company_sequence_exhausted() {
    let mut store = Store::with_sequences(1, 1, i32::MAX, 1);
    let r = store.create_user("Ada".to_string(), &names(&["eng"]), &names(&["Acme"]));
    assert_eq!(r, Err(StorageError::InsertCompany));
    assert!(store.users().is_empty());
    assert!(store.tags().is_empty());
}

#[test]
fn find_or_create_reuses_by_name() {
    let mut store = Store::new();
    let a = store.find_or_create_company(&"Acme".to_string()).unwrap();
    let b = store.find_or_create_company(&"Initech".to_string()).unwrap();
    let c = store.find_or_create_company(&"Acme".to_string()).unwrap();
    assert_eq!(a, Company { id: 1, name: "Acme".to_string() });
    assert_eq!(b, Company { id: 2, name: "Initech".to_string() });
    assert_eq!(c, a);
    assert_eq!(store.companies().len(), 2);
}

#[test]
fn employment_needs_existing_rows() {
    let mut store = Store::new();
    let c = store.find_or_create_company(&"Acme".to_string()).unwrap();
    assert_eq!(store.insert_employment(7, c.id), Err(StorageError::InsertEmployment { user_id: 7 }));
    let u = store.insert_user_row("Ada".to_string()).unwrap();
    assert_eq!(store.insert_employment(u.id, 99), Err(StorageError::InsertEmployment { user_id: 1 }));
    assert_eq!(
        store.insert_employment(u.id, c.id),
        Ok(Employment { id: 1, user_id: 1, company_id: 1 })
    );
}

#[test]
fn insert_tags_checks_user_and_keeps_order() {
    let mut store = Store::new();
    assert_eq!(store.insert_tags(1, &names(&["x"])), Err(StorageError::InsertTag));
    let u = store.insert_user_row("Ada".to_string()).unwrap();
    assert_eq!(store.insert_tags(u.id, &names(&[])), Ok(()));
    assert!(store.tags().is_empty());
    assert_eq!(store.insert_tags(u.id, &names(&["x", "y"])), Ok(()));
    assert_eq!(
        store.tags().clone(),
        vec![
            Tag { id: 1, user_id: 1, name: "x".to_string() },
            Tag { id: 2, user_id: 1, name: "y".to_string() },
        ]
    );
}

#[test]
fn all_users_in_insertion_order() {
    let mut store = Store::new();
    store.create_user("Ada".to_string(), &vec![], &vec![]).unwrap();
    store.create_user("Bob".to_string(), &vec![], &vec![]).unwrap();
    assert_eq!(
        UserRepository::all_users(&store),
        Ok(vec![
            User { id: 1, name: "Ada".to_string() },
            User { id: 2, name: "Bob".to_string() },
        ])
    );
}
