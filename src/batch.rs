use vstd::prelude::*;
use crate::models::{CompanyWithUser, Owned, StorageError, Tag, User};
use crate::store::StoreModel;
use std::collections::HashMap;

verus! {

/// A relation of a user that a read may ask to have loaded.
#[derive(Clone, Copy, Debug, PartialEq, Eq)]
pub enum Relation {
    Tags,
    Companies,
}

/// The predicate "belongs to the user `id`".
pub open spec fn owned_by<C: Owned>(id: i32) -> spec_fn(C) -> bool {
    |c: C| c.owner() == id
}

/// The rows of `children` that belong to the user `id`, in their order.
pub open spec fn children_of<C: Owned>(children: Seq<C>, id: i32) -> Seq<C> {
    children.filter(owned_by::<C>(id))
}

/// The identities of `users`, in order.
pub open spec fn ids_of(users: Seq<User>) -> Seq<i32> {
    users.map_values(|u: User| u.id)
}

/// The predicate "belongs to one of the users `ids`".
pub open spec fn owned_by_any<C: Owned>(ids: Set<i32>) -> spec_fn(C) -> bool {
    |c: C| ids.contains(c.owner())
}

/// The rows of `children` that belong to one of the users `ids`, in their order.
pub open spec fn children_of_any<C: Owned>(children: Seq<C>, ids: Set<i32>) -> Seq<C> {
    children.filter(owned_by_any::<C>(ids))
}

/// Whether `ids` holds `id`.
pub fn contains_id(ids: &Vec<i32>, id: i32) -> (r: bool)
    ensures
        r == ids@.contains(id),
{
    let mut i: usize = 0;
    while i < ids.len()
        invariant
            i <= ids@.len(),
            forall|k: int| 0 <= k < i ==> ids@[k] != id,
        decreases ids@.len() - i,
    {
        if ids[i] == id {
            assert(ids@[i as int] == id);
            return true;
        }
        i += 1;
    }
    false
}

/// The rows of `children` that belong to one of the users `ids`, in their order.
pub fn rows_owned_by_any<C: Owned>(children: &Vec<C>, ids: &Vec<i32>) -> (r: Vec<C>)
    ensures
        r@ == children_of_any(children@, ids@.to_set()),
{
    let mut r: Vec<C> = Vec::new();
    let mut j: usize = 0;
    while j < children.len()
        invariant
            j <= children@.len(),
            r@ == children_of_any(children@.subrange(0, j as int), ids@.to_set()),
        decreases children@.len() - j,
    {
        let c = children[j].duplicate();
        proof {
            children@.subrange(0, j as int).lemma_filter_push(children@[j as int], owned_by_any::<C>(ids@.to_set()));
            assert(children@.subrange(0, j as int).push(children@[j as int])
                =~= children@.subrange(0, j + 1 as int));
        }
        if contains_id(ids, c.owner_id()) {
            r.push(c);
        }
        j += 1;
    }
    assert(children@.subrange(0, children@.len() as int) =~= children@);
    r
}

/// A source of child rows for a batch of users: one call per relation, for
/// all the users at once.
pub trait BatchLoader {
    /// The loads issued so far, in order.
    spec fn loads(&self) -> Seq<Relation>;

    /// Whether the loader is in working order.
    spec fn ready(&self) -> bool;

    /// Whether its loads never fail: true of a loader that holds its rows
    /// itself, not of one that asks another system.
    spec fn infallible(&self) -> bool;

    /// The rows the loader reads from, apart from its record of loads.
    spec fn contents(&self) -> StoreModel;

    /// The tags of the users `ids`.
    spec fn tag_rows(&self, ids: Set<i32>) -> Seq<Tag>;

    /// The companies of the users `ids`, one row per employment.
    spec fn company_rows(&self, ids: Set<i32>) -> Seq<CompanyWithUser>;

    /// Loads the tags of the users `ids` in one call.
    fn tags_for_users(&mut self, ids: &Vec<i32>) -> (r: Result<Vec<Tag>, StorageError>)
        requires
            old(self).ready(),
        ensures
            final(self).loads() == old(self).loads().push(Relation::Tags),
            final(self).ready(),
            final(self).infallible() == old(self).infallible(),
            old(self).infallible() ==> r is Ok,
            final(self).contents() == old(self).contents(),
            forall|s: Set<i32>| #[trigger] final(self).tag_rows(s) == old(self).tag_rows(s),
            forall|s: Set<i32>| #[trigger] final(self).company_rows(s) == old(self).company_rows(s),
            r matches Ok(rows) ==> rows@ == old(self).tag_rows(ids@.to_set()),
    ;

    /// Loads the companies of the users `ids` in one call.
    fn companies_for_users(&mut self, ids: &Vec<i32>) -> (r: Result<Vec<CompanyWithUser>, StorageError>)
        requires
            old(self).ready(),
        ensures
            final(self).loads() == old(self).loads().push(Relation::Companies),
            final(self).ready(),
            final(self).infallible() == old(self).infallible(),
            old(self).infallible() ==> r is Ok,
            final(self).contents() == old(self).contents(),
            forall|s: Set<i32>| #[trigger] final(self).tag_rows(s) == old(self).tag_rows(s),
            forall|s: Set<i32>| #[trigger] final(self).company_rows(s) == old(self).company_rows(s),
            r matches Ok(rows) ==> rows@ == old(self).company_rows(ids@.to_set()),
    ;
}


/// Which relations of each user a read asks to have loaded.
#[derive(Clone, Copy, Debug, PartialEq, Eq)]
pub struct Selection {
    pub tags: bool,
    pub companies: bool,
}

/// The relations that `selection` names, in the order they are loaded.
pub open spec fn requested(selection: Selection) -> Seq<Relation> {
    (if selection.tags { seq![Relation::Tags] } else { Seq::empty() })
        + (if selection.companies { seq![Relation::Companies] } else { Seq::empty() })
}

/// A user with the relations a read asked for; a relation left unasked is `None`.
#[derive(Clone, Debug, PartialEq, Eq)]
pub struct Resolved {
    pub user: User,
    pub tags: Option<Vec<Tag>>,
    pub companies: Option<Vec<CompanyWithUser>>,
}

/// Whether `nodes` are `parents` with the relations of `selection` attached,
/// each relation taken from `tags` or `companies` by owner.
pub open spec fn resolved_from(nodes: Seq<Resolved>, parents: Seq<User>, selection: Selection,
    tags: Seq<Tag>, companies: Seq<CompanyWithUser>) -> bool {
    &&& nodes.len() == parents.len()
    &&& forall|i: int| 0 <= i < parents.len() ==> {
        let n = #[trigger] nodes[i];
        &&& n.user == parents[i]
        &&& if selection.tags {
            n.tags is Some && n.tags->0@ == children_of(tags, parents[i].id)
        } else {
            n.tags is None
        }
        &&& if selection.companies {
            n.companies is Some && n.companies->0@ == children_of(companies, parents[i].id)
        } else {
            n.companies is None
        }
    }
}

/// Loads the relations of `selection` for all of `parents` with one call to
/// `loader` per relation, whatever the number of parents, and attaches to
/// each parent the rows it owns. A parent repeated in `parents` is asked for
/// once and answered at each of its places.
pub fn resolve<L: BatchLoader>(loader: &mut L, parents: &Vec<User>, selection: Selection) -> (r: Result<Vec<Resolved>, StorageError>)
    requires
        old(loader).ready(),
    ensures
        final(loader).ready(),
        final(loader).contents() == old(loader).contents(),
        r is Ok ==> final(loader).loads() == old(loader).loads() + requested(selection),
        final(loader).loads().len() <= old(loader).loads().len() + requested(selection).len(),
        old(loader).infallible() ==> r is Ok,
        r matches Ok(nodes) ==> resolved_from(nodes@, parents@, selection,
            old(loader).tag_rows(ids_of(parents@).to_set()),
            old(loader).company_rows(ids_of(parents@).to_set())),
{
    let ghost all = ids_of(parents@).to_set();
    let ids = unique_ids(parents);
    let tag_groups: Option<Vec<Vec<Tag>>> = if selection.tags {
        let rows = match loader.tags_for_users(&ids) {
            Ok(rows) => rows,
            Err(e) => {
                return Err(e);
            },
        };
        Some(partition(parents, &rows))
    } else {
        None
    };
    let company_groups: Option<Vec<Vec<CompanyWithUser>>> = if selection.companies {
        let rows = match loader.companies_for_users(&ids) {
            Ok(rows) => rows,
            Err(e) => {
                return Err(e);
            },
        };
        Some(partition(parents, &rows))
    } else {
        None
    };
    let mut nodes: Vec<Resolved> = Vec::new();
    let mut i: usize = 0;
    while i < parents.len()
        invariant
            i <= parents@.len(),
            nodes@.len() == i,
            tag_groups is Some <==> selection.tags,
            company_groups is Some <==> selection.companies,
            tag_groups matches Some(g) ==> g@.len() == parents@.len() && forall|k: int| 0 <= k < parents@.len()
                ==> #[trigger] g@[k]@ == children_of(old(loader).tag_rows(all), parents@[k].id),
            company_groups matches Some(g) ==> g@.len() == parents@.len() && forall|k: int| 0 <= k < parents@.len()
                ==> #[trigger] g@[k]@ == children_of(old(loader).company_rows(all), parents@[k].id),
            resolved_from(nodes@, parents@.subrange(0, i as int), selection,
                old(loader).tag_rows(all), old(loader).company_rows(all)),
        decreases parents@.len() - i,
    {
        let tags = match &tag_groups {
            Some(g) => Some(copy_rows(&g[i])),
            None => None,
        };
        let companies = match &company_groups {
            Some(g) => Some(copy_rows(&g[i])),
            None => None,
        };
        nodes.push(Resolved { user: parents[i].duplicate(), tags: tags, companies: companies });
        proof {
            let p = parents@.subrange(0, i + 1);
            assert forall|k: int| 0 <= k < i + 1 implies (#[trigger] p[k]) == parents@[k] by {}
        }
        i += 1;
    }
    assert(parents@.subrange(0, parents@.len() as int) =~= parents@);
    Ok(nodes)
}

/// A copy of `rows`, row for row.
pub fn copy_rows<C: Owned>(rows: &Vec<C>) -> (r: Vec<C>)
    ensures
        r@ == rows@,
{
    let mut r: Vec<C> = Vec::new();
    let mut i: usize = 0;
    while i < rows.len()
        invariant
            i <= rows@.len(),
            r@ == rows@.subrange(0, i as int),
        decreases rows@.len() - i,
    {
        r.push(rows[i].duplicate());
        assert(r@ =~= rows@.subrange(0, i + 1));
        i += 1;
    }
    assert(rows@.subrange(0, rows@.len() as int) =~= rows@);
    r
}


/// Each row lands with its true owner and nowhere else: the rows attached to
/// a parent are exactly the rows of `children` that this parent owns.
pub proof fn lemma_partition_complete<C: Owned>(children: Seq<C>, parents: Seq<User>, i: int, c: C)
    requires
        0 <= i < parents.len(),
    ensures
        children_of(children, parents[i].id).contains(c) <==> (children.contains(c) && c.owner() == parents[i].id),
{
    let pred = owned_by::<C>(parents[i].id);
    if children_of(children, parents[i].id).contains(c) {
        children.lemma_filter_contains_rev(pred, c);
        let k = choose|k: int| 0 <= k < children.filter(pred).len() && children.filter(pred)[k] == c;
        children.lemma_filter_pred(pred, k);
    }
    if children.contains(c) && c.owner() == parents[i].id {
        let k = choose|k: int| 0 <= k < children.len() && children[k] == c;
        children.lemma_filter_contains(pred, k);
    }
}

/// A parent that owns none of `children` gets an empty list.
pub proof fn lemma_partition_empty_group<C: Owned>(children: Seq<C>, id: i32)
    requires
        forall|k: int| 0 <= k < children.len() ==> (#[trigger] children[k]).owner() != id,
    ensures
        children_of(children, id) == Seq::<C>::empty(),
{
    let pred = owned_by::<C>(id);
    if children_of(children, id).len() > 0 {
        children.lemma_filter_pred(pred, 0);
        let c = children.filter(pred)[0];
        assert(children.filter(pred).contains(c));
        children.lemma_filter_contains_rev(pred, c);
    }
}

/// Asking for no user's rows gives no rows.
pub proof fn lemma_no_ids_no_rows<C: Owned>(children: Seq<C>)
    ensures
        children_of_any(children, Set::<i32>::empty()) == Seq::<C>::empty(),
{
    let pred = owned_by_any::<C>(Set::<i32>::empty());
    if children_of_any(children, Set::<i32>::empty()).len() > 0 {
        children.lemma_filter_pred(pred, 0);
    }
}


/// The identities of `users` without repeats, each where it first occurs,
/// and the position of each of them in that list.
fn index_ids(users: &Vec<User>) -> (r: (Vec<i32>, HashMap<i32, usize>))
    ensures
        r.0@.no_duplicates(),
        r.0@.to_set() == ids_of(users@).to_set(),
        forall|k: int| 0 <= k < r.0@.len() ==> r.1@.contains_key(#[trigger] r.0@[k]) && r.1@[r.0@[k]] == k,
        forall|id: i32| #[trigger] r.1@.contains_key(id) ==> r.1@[id] < r.0@.len() && r.0@[r.1@[id] as int] == id,
{
    broadcast use vstd::std_specs::hash::group_hash_axioms;
    let mut ids: Vec<i32> = Vec::new();
    let mut slot: HashMap<i32, usize> = HashMap::new();
    let mut i: usize = 0;
    while i < users.len()
        invariant
            i <= users@.len(),
            ids@.no_duplicates(),
            ids@.to_set() == ids_of(users@.subrange(0, i as int)).to_set(),
            forall|k: int| 0 <= k < ids@.len() ==> slot@.contains_key(#[trigger] ids@[k]) && slot@[ids@[k]] == k,
            forall|id: i32| #[trigger] slot@.contains_key(id) ==> slot@[id] < ids@.len() && ids@[slot@[id] as int] == id,
        decreases users@.len() - i,
    {
        let id = users[i].id;
        let ghost before = ids@;
        proof {
            assert(ids_of(users@.subrange(0, i + 1)) =~= ids_of(users@.subrange(0, i as int)).push(id));
            ids_of(users@.subrange(0, i as int)).lemma_push_to_set_commute(id);
            before.lemma_push_to_set_commute(id);
        }
        match slot.get(&id) {
            Some(_) => {
                assert(before.contains(id)) by {
                    assert(before[slot@[id] as int] == id);
                }
                assert(before.to_set().insert(id) =~= before.to_set());
            },
            None => {
                assert(!before.contains(id)) by {
                    if before.contains(id) {
                        let k = choose|k: int| 0 <= k < before.len() && before[k] == id;
                        assert(slot@.contains_key(before[k]));
                    }
                }
                slot.insert(id, ids.len());
                ids.push(id);
                assert forall|k: int| 0 <= k < ids@.len() implies slot@.contains_key(#[trigger] ids@[k]) && slot@[ids@[k]] == k by {
                    if k < before.len() {
                        assert(ids@[k] == before[k]);
                        assert(before[k] != id);
                    }
                }
            },
        }
        i += 1;
    }
    assert(users@.subrange(0, users@.len() as int) =~= users@);
    (ids, slot)
}

/// The identities of `users` without repeats, each where it first occurs.
pub fn unique_ids(users: &Vec<User>) -> (r: Vec<i32>)
    ensures
        r@.no_duplicates(),
        r@.to_set() == ids_of(users@).to_set(),
{
    let (ids, _) = index_ids(users);
    ids
}

/// Splits `children` over `parents` by owner: entry `i` holds, in order, the
/// rows whose owner is the `i`-th parent, and is empty where it has none.
/// Rows are grouped by owner in one pass, then handed to each parent.
pub fn partition<C: Owned>(parents: &Vec<User>, children: &Vec<C>) -> (r: Vec<Vec<C>>)
    ensures
        r@.len() == parents@.len(),
        forall|i: int| 0 <= i < parents@.len() ==> #[trigger] r@[i]@ == children_of(children@, parents@[i].id),
{
    broadcast use vstd::std_specs::hash::group_hash_axioms;
    let (ids, slot) = index_ids(parents);
    let mut groups: Vec<Vec<C>> = Vec::new();
    let mut k: usize = 0;
    while k < ids.len()
        invariant
            k <= ids@.len(),
            groups@.len() == k,
            forall|g: int| 0 <= g < k ==> (#[trigger] groups@[g])@ == Seq::<C>::empty(),
        decreases ids@.len() - k,
    {
        groups.push(Vec::new());
        k += 1;
    }
    assert forall|g: int| 0 <= g < ids@.len() implies
        (#[trigger] groups@[g])@ == children_of(children@.subrange(0, 0), ids@[g]) by {
        reveal(Seq::filter);
    }
    let mut j: usize = 0;
    while j < children.len()
        invariant
            j <= children@.len(),
            groups@.len() == ids@.len(),
            forall|k: int| 0 <= k < ids@.len() ==> slot@.contains_key(#[trigger] ids@[k]) && slot@[ids@[k]] == k,
            forall|id: i32| #[trigger] slot@.contains_key(id) ==> slot@[id] < ids@.len() && ids@[slot@[id] as int] == id,
            forall|g: int| 0 <= g < ids@.len() ==>
                (#[trigger] groups@[g])@ == children_of(children@.subrange(0, j as int), ids@[g]),
        decreases children@.len() - j,
    {
        let c = children[j].duplicate();
        let owner = c.owner_id();
        let ghost before = groups@;
        let ghost prefix = children@.subrange(0, j as int);
        proof {
            assert(prefix.push(children@[j as int]) =~= children@.subrange(0, j + 1));
        }
        match slot.get(&owner) {
            Some(g) => {
                let g = *g;
                groups[g].push(c);
                assert forall|h: int| 0 <= h < ids@.len() implies
                    (#[trigger] groups@[h])@ == children_of(children@.subrange(0, j + 1), ids@[h]) by {
                    prefix.lemma_filter_push(children@[j as int], owned_by::<C>(ids@[h]));
                    if h != g {
                        assert(groups@[h] == before[h]);
                    }
                }
            },
            None => {
                assert forall|h: int| 0 <= h < ids@.len() implies
                    (#[trigger] groups@[h])@ == children_of(children@.subrange(0, j + 1), ids@[h]) by {
                    prefix.lemma_filter_push(children@[j as int], owned_by::<C>(ids@[h]));
                    assert(slot@.contains_key(ids@[h]));
                }
            },
        }
        j += 1;
    }
    assert(children@.subrange(0, children@.len() as int) =~= children@);
    let mut r: Vec<Vec<C>> = Vec::new();
    let mut i: usize = 0;
    while i < parents.len()
        invariant
            i <= parents@.len(),
            r@.len() == i,
            ids@.to_set() == ids_of(parents@).to_set(),
            groups@.len() == ids@.len(),
            forall|id: i32| #[trigger] slot@.contains_key(id) ==> slot@[id] < ids@.len() && ids@[slot@[id] as int] == id,
            forall|k: int| 0 <= k < ids@.len() ==> slot@.contains_key(#[trigger] ids@[k]) && slot@[ids@[k]] == k,
            forall|g: int| 0 <= g < ids@.len() ==> (#[trigger] groups@[g])@ == children_of(children@, ids@[g]),
            forall|k: int| 0 <= k < i ==> #[trigger] r@[k]@ == children_of(children@, parents@[k].id),
        decreases parents@.len() - i,
    {
        let id = parents[i].id;
        proof {
            assert(ids_of(parents@)[i as int] == id);
            assert(ids_of(parents@).to_set().contains(id));
            let k = choose|k: int| 0 <= k < ids@.len() && ids@[k] == id;
            assert(slot@.contains_key(ids@[k]));
        }
        let g = match slot.get(&id) {
            Some(g) => *g,
            None => 0,
        };
        r.push(copy_rows(&groups[g]));
        i += 1;
    }
    r
}

} // verus!
