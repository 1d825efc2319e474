//! Queries: requests for access to several kinds of components at once.
use vstd::prelude::*;
use std::collections::HashSet;
use crate::component::ComponentId;
use crate::error::BorrowMutError;

verus! {

broadcast use vstd::std_specs::hash::group_hash_axioms;

/// Represents one part of a query.
#[derive(Debug, Clone, Copy, PartialEq, Eq, Structural)]
pub struct ComponentQuery {
    pub id: ComponentId,
    pub mutable: bool,
    /// Entities without this kind of component still match the query.
    pub optional: bool,
}

/// No kind of component is requested twice with at least one of the requests mutable.
pub open spec fn access_valid(cs: Seq<ComponentQuery>) -> bool {
    forall|i: int, j: int|
        0 <= i < j < cs.len() && (cs[i].mutable || cs[j].mutable) ==> #[trigger] cs[i].id != #[trigger] cs[j].id
}

/// The `k`-th request is mutable and an earlier request for the same kind is mutable too.
pub open spec fn mut_dup_at(cs: Seq<ComponentQuery>, k: int) -> bool {
    &&& cs[k].mutable
    &&& exists|i: int| 0 <= i < k && (#[trigger] cs[i]).mutable && cs[i].id == cs[k].id
}

/// The `k`-th request is immutable and some request for the same kind is mutable.
pub open spec fn conflict_at(cs: Seq<ComponentQuery>, k: int) -> bool {
    &&& !cs[k].mutable
    &&& exists|m: int| 0 <= m < cs.len() && (#[trigger] cs[m]).mutable && cs[m].id == cs[k].id
}

/// The first position at or after `k` that repeats a mutable request.
pub open spec fn first_mut_dup(cs: Seq<ComponentQuery>, k: int) -> Option<int>
    decreases cs.len() - k,
{
    if k < 0 || k >= cs.len() {
        None
    } else if mut_dup_at(cs, k) {
        Some(k)
    } else {
        first_mut_dup(cs, k + 1)
    }
}

/// The first position at or after `k` of an immutable request for a mutably requested kind.
pub open spec fn first_conflict(cs: Seq<ComponentQuery>, k: int) -> Option<int>
    decreases cs.len() - k,
{
    if k < 0 || k >= cs.len() {
        None
    } else if conflict_at(cs, k) {
        Some(k)
    } else {
        first_conflict(cs, k + 1)
    }
}

/// The kind of component that `Query::new` reports for the requests `cs`, or `None` if they are
/// valid: the first repeated mutable request if there is one, else the first immutable request
/// for a mutably requested kind.
pub open spec fn query_error(cs: Seq<ComponentQuery>) -> Option<ComponentId> {
    match first_mut_dup(cs, 0) {
        Some(k) => Some(cs[k].id),
        None => match first_conflict(cs, 0) {
            Some(k) => Some(cs[k].id),
            None => None,
        },
    }
}

proof fn lemma_first_mut_dup_none(cs: Seq<ComponentQuery>, k: int)
    requires
        0 <= k,
        forall|j: int| k <= j < cs.len() ==> !mut_dup_at(cs, j),
    ensures
        first_mut_dup(cs, k) is None,
    decreases cs.len() - k,
{
    if k < cs.len() {
        lemma_first_mut_dup_none(cs, k + 1);
    }
}

proof fn lemma_first_mut_dup_some(cs: Seq<ComponentQuery>, k: int, found: int)
    requires
        0 <= k <= found < cs.len(),
        forall|j: int| k <= j < found ==> !mut_dup_at(cs, j),
        mut_dup_at(cs, found),
    ensures
        first_mut_dup(cs, k) == Some(found),
    decreases found - k,
{
    if k < found {
        lemma_first_mut_dup_some(cs, k + 1, found);
    }
}

proof fn lemma_first_conflict_none(cs: Seq<ComponentQuery>, k: int)
    requires
        0 <= k,
        forall|j: int| k <= j < cs.len() ==> !conflict_at(cs, j),
    ensures
        first_conflict(cs, k) is None,
    decreases cs.len() - k,
{
    if k < cs.len() {
        lemma_first_conflict_none(cs, k + 1);
    }
}

proof fn lemma_first_conflict_some(cs: Seq<ComponentQuery>, k: int, found: int)
    requires
        0 <= k <= found < cs.len(),
        forall|j: int| k <= j < found ==> !conflict_at(cs, j),
        conflict_at(cs, found),
    ensures
        first_conflict(cs, k) == Some(found),
    decreases found - k,
{
    if k < found {
        lemma_first_conflict_some(cs, k + 1, found);
    }
}

proof fn lemma_first_mut_dup_all(cs: Seq<ComponentQuery>, k: int)
    requires
        0 <= k,
        first_mut_dup(cs, k) is None,
    ensures
        forall|j: int| k <= j < cs.len() ==> !mut_dup_at(cs, j),
    decreases cs.len() - k,
{
    if k < cs.len() {
        lemma_first_mut_dup_all(cs, k + 1);
    }
}

proof fn lemma_first_conflict_all(cs: Seq<ComponentQuery>, k: int)
    requires
        0 <= k,
        first_conflict(cs, k) is None,
    ensures
        forall|j: int| k <= j < cs.len() ==> !conflict_at(cs, j),
    decreases cs.len() - k,
{
    if k < cs.len() {
        lemma_first_conflict_all(cs, k + 1);
    }
}

/// `Query::new` accepts a list of requests exactly when no kind of component is requested twice
/// with at least one of the two requests mutable.
pub proof fn lemma_query_error_iff_invalid(cs: Seq<ComponentQuery>)
    ensures
        query_error(cs) is None <==> access_valid(cs),
{
    if access_valid(cs) {
        assert forall|j: int| 0 <= j < cs.len() implies !mut_dup_at(cs, j) by {
            if mut_dup_at(cs, j) {
                let i = choose|i: int| 0 <= i < j && (#[trigger] cs[i]).mutable && cs[i].id == cs[j].id;
                assert(cs[i].id != cs[j].id);
            }
        }
        assert forall|j: int| 0 <= j < cs.len() implies !conflict_at(cs, j) by {
            if conflict_at(cs, j) {
                let m = choose|m: int| 0 <= m < cs.len() && (#[trigger] cs[m]).mutable && cs[m].id == cs[j].id;
                if m < j {
                    assert(cs[m].id != cs[j].id);
                } else {
                    assert(cs[j].id != cs[m].id);
                }
            }
        }
        lemma_first_mut_dup_none(cs, 0);
        lemma_first_conflict_none(cs, 0);
    }
    if query_error(cs) is None {
        lemma_first_mut_dup_all(cs, 0);
        lemma_first_conflict_all(cs, 0);
        assert forall|i: int, j: int|
            0 <= i < j < cs.len() && (cs[i].mutable || cs[j].mutable) implies #[trigger] cs[i].id
            != #[trigger] cs[j].id by {
            if cs[i].id == cs[j].id {
                if cs[i].mutable && cs[j].mutable {
                    assert(mut_dup_at(cs, j));
                } else if cs[i].mutable {
                    assert(conflict_at(cs, j));
                } else {
                    assert(conflict_at(cs, i));
                }
            }
        }
    }
}

/// Represents a valid query for components without multiple mutable access to the same type of
/// component.
#[derive(Debug, Clone, PartialEq)]
pub struct Query {
    components: Vec<ComponentQuery>,
}

impl Query {
    /// The requests of this query, in order.
    pub closed spec fn spec_components(&self) -> Seq<ComponentQuery> {
        self.components@
    }

    /// Builds a query from `components`, or reports a kind of component that would be borrowed
    /// more than once with at least one of the borrows mutable.
    pub fn new(components: Vec<ComponentQuery>) -> (r: Result<Self, BorrowMutError>)
        ensures
            r is Ok <==> query_error(components@) is None,
            r matches Ok(q) ==> q.spec_components() == components@,
            r matches Err(e) ==> query_error(components@) == Some(e.spec_component_id()),
    {
        let ghost cs = components@;
        let n = components.len();
        let mut mutable_access_to: HashSet<usize> = HashSet::new();
        let mut i: usize = 0;
        while i < n
            invariant
                cs == components@,
                n == cs.len(),
                i <= n,
                forall|x: usize| #[trigger] mutable_access_to@.contains(x) <==> exists|j: int|
                    0 <= j < i && (#[trigger] cs[j]).mutable && cs[j].id.index() == x,
                forall|j: int| 0 <= j < i ==> !mut_dup_at(cs, j),
            decreases n - i,
        {
            let c = components[i];
            if c.mutable {
                if !mutable_access_to.insert(c.id.as_index()) {
                    proof {
                        let j = choose|j: int| 0 <= j < i && (#[trigger] cs[j]).mutable && cs[j].id.index() == c.id.index();
                        ComponentId::lemma_index_injective(cs[j].id, c.id);
                        assert(mut_dup_at(cs, i as int));
                        lemma_first_mut_dup_some(cs, 0, i as int);
                    }
                    return Err(BorrowMutError::new(c.id));
                }
            }
            proof {
                if mut_dup_at(cs, i as int) {
                    let j = choose|j: int| 0 <= j < i && (#[trigger] cs[j]).mutable && cs[j].id == cs[i as int].id;
                    assert(mutable_access_to@.contains(c.id.index() as usize));
                }
                assert forall|x: usize| #[trigger] mutable_access_to@.contains(x) <==> exists|j: int|
                    0 <= j < i + 1 && (#[trigger] cs[j]).mutable && cs[j].id.index() == x by {
                    if x == c.id.index() && c.mutable {
                        assert(cs[i as int].mutable && cs[i as int].id.index() == x);
                    }
                    if exists|j: int| 0 <= j < i + 1 && (#[trigger] cs[j]).mutable && cs[j].id.index() == x {
                        let j = choose|j: int| 0 <= j < i + 1 && (#[trigger] cs[j]).mutable && cs[j].id.index() == x;
                        if j < i {
                            assert(exists|j: int| 0 <= j < i && (#[trigger] cs[j]).mutable && cs[j].id.index() == x);
                        }
                    }
                }
            }
            i = i + 1;
        }
        proof {
            lemma_first_mut_dup_none(cs, 0);
        }
        let mut i: usize = 0;
        while i < n
            invariant
                cs == components@,
                n == cs.len(),
                i <= n,
                forall|x: usize| #[trigger] mutable_access_to@.contains(x) <==> exists|j: int|
                    0 <= j < n && (#[trigger] cs[j]).mutable && cs[j].id.index() == x,
                forall|j: int| 0 <= j < i ==> !conflict_at(cs, j),
                first_mut_dup(cs, 0) is None,
            decreases n - i,
        {
            let c = components[i];
            if !c.mutable && mutable_access_to.contains(&c.id.as_index()) {
                proof {
                    let m = choose|m: int| 0 <= m < n && (#[trigger] cs[m]).mutable && cs[m].id.index() == c.id.index();
                    ComponentId::lemma_index_injective(cs[m].id, c.id);
                    assert(conflict_at(cs, i as int));
                    lemma_first_conflict_some(cs, 0, i as int);
                }
                return Err(BorrowMutError::new(c.id));
            }
            proof {
                if conflict_at(cs, i as int) {
                    let m = choose|m: int| 0 <= m < cs.len() && (#[trigger] cs[m]).mutable && cs[m].id == cs[i as int].id;
                    assert(mutable_access_to@.contains(c.id.index() as usize));
                }
            }
            i = i + 1;
        }
        proof {
            lemma_first_conflict_none(cs, 0);
        }
        Ok(Self { components })
    }

    /// Returns `true` if no part of this query requires mutable access.
    pub fn is_immutable(&self) -> (b: bool)
        ensures
            b == forall|i: int| 0 <= i < self.spec_components().len() ==> !(#[trigger] self.spec_components()[i]).mutable,
    {
        let n = self.components.len();
        let mut i: usize = 0;
        while i < n
            invariant
                n == self.spec_components().len(),
                i <= n,
                forall|j: int| 0 <= j < i ==> !(#[trigger] self.spec_components()[j]).mutable,
            decreases n - i,
        {
            if self.components[i].mutable {
                return false;
            }
            i = i + 1;
        }
        true
    }

    /// Get a reference to the query's components.
    pub fn components(&self) -> (r: &[ComponentQuery])
        ensures
            r@ == self.spec_components(),
    {
        self.components.as_slice()
    }
}

} // verus!
