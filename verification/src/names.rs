//! Ascending lists of distinct names.

use vstd::prelude::*;

use crate::order::{before, lemma_before_irreflexive, lemma_before_transitive, relate, Relation};

verus! {

/// Values that can be copied without changing what they stand for.
pub trait Duplicate: DeepView + Sized {
    fn duplicate(&self) -> (r: Self)
        ensures
            r.deep_view() == self.deep_view(),
    ;
}

impl Duplicate for u32 {
    fn duplicate(&self) -> (r: Self) {
        *self
    }
}

impl Duplicate for u64 {
    fn duplicate(&self) -> (r: Self) {
        *self
    }
}

impl Duplicate for String {
    fn duplicate(&self) -> (r: Self) {
        self.clone()
    }
}

impl<T: Duplicate> Duplicate for Vec<T> {
    fn duplicate(&self) -> (r: Self) {
        let mut r: Vec<T> = Vec::new();
        for i in 0..self.len()
            invariant
                r@.len() == i,
                forall|j: int| 0 <= j < i ==> (#[trigger] r@[j]).deep_view() == self@[j].deep_view(),
        {
            r.push(self[i].duplicate());
        }
        assert(r.deep_view() =~= self.deep_view());
        r
    }
}

/// Every name comes strictly before all later ones.
pub open spec fn ascending(q: Seq<Seq<char>>) -> bool {
    forall|i: int, j: int| 0 <= i < j < q.len() ==> before(#[trigger] q[i], #[trigger] q[j])
}

/// `q` is the listing of `s`: its names in ascending order, each once.
pub open spec fn lists(q: Seq<Seq<char>>, s: Set<Seq<char>>) -> bool {
    &&& ascending(q)
    &&& q.to_set() == s
}

/// What a listing is: every name of the set and no other, each before all that
/// follow it.
pub proof fn law_listing_is_sorted_and_complete(q: Seq<Seq<char>>, s: Set<Seq<char>>)
    ensures
        lists(q, s) <==> {
            &&& forall|i: int, j: int| 0 <= i < j < q.len() ==> before(#[trigger] q[i], #[trigger] q[j])
            &&& forall|n: Seq<char>| #[trigger] q.contains(n) <==> s.contains(n)
        },
{
    if lists(q, s) {
        assert forall|n: Seq<char>| #[trigger] q.contains(n) <==> s.contains(n) by {
            assert(q.to_set().contains(n) == q.contains(n));
        }
    }
    if forall|n: Seq<char>| #[trigger] q.contains(n) <==> s.contains(n) {
        assert(q.to_set() =~= s);
    }
}

/// An ascending list holds no name twice.
pub proof fn lemma_ascending_distinct(q: Seq<Seq<char>>)
    requires
        ascending(q),
    ensures
        q.no_duplicates(),
{
    assert forall|i: int, j: int| 0 <= i < q.len() && 0 <= j < q.len() && i != j implies q[i] != q[j] by {
        lemma_before_irreflexive(q[i]);
        if i < j {
            assert(before(q[i], q[j]));
        } else {
            assert(before(q[j], q[i]));
        }
    }
}

/// A set of names has at most one listing, so a contract that gives the listed
/// set gives the list itself.
pub proof fn lemma_listing_unique(p: Seq<Seq<char>>, q: Seq<Seq<char>>, s: Set<Seq<char>>)
    requires
        lists(p, s),
        lists(q, s),
    ensures
        p == q,
    decreases p.len(),
{
    if p.len() == 0 {
        if q.len() > 0 {
            assert(q.to_set().contains(q[0]));
            assert(p.contains(q[0]));
        }
        assert(p =~= q);
    } else {
        assert(p.to_set().contains(p.last()));
        assert(q.contains(p.last()));
        let a = p.drop_last();
        let b = q.drop_last();
        assert(q.to_set().contains(q.last()));
        assert(p.contains(q.last()));
        // The last names agree: each list holds the other's last name.
        let i = choose|i: int| 0 <= i < q.len() && q[i] == p.last();
        let j = choose|j: int| 0 <= j < p.len() && p[j] == q.last();
        if p.last() != q.last() {
            assert(before(q[i], q[q.len() - 1]));
            assert(before(p[j], p[p.len() - 1]));
            lemma_before_transitive(p.last(), q.last(), p.last());
            lemma_before_irreflexive(p.last());
        }
        lemma_ascending_distinct(p);
        lemma_ascending_distinct(q);
        assert(a.to_set() =~= s.remove(p.last())) by {
            lemma_drop_last_set(p);
        }
        assert(b.to_set() =~= s.remove(p.last())) by {
            lemma_drop_last_set(q);
        }
        lemma_listing_unique(a, b, s.remove(p.last()));
        assert(p =~= a.push(p.last()));
        assert(q =~= b.push(q.last()));
    }
}

proof fn lemma_drop_last_set(q: Seq<Seq<char>>)
    requires
        q.no_duplicates(),
        q.len() > 0,
    ensures
        q.drop_last().to_set() =~= q.to_set().remove(q.last()),
{
    assert forall|n: Seq<char>| q.to_set().remove(q.last()).contains(n) implies q.drop_last().to_set().contains(n) by {
        assert(q.contains(n));
        let i = choose|i: int| 0 <= i < q.len() && q[i] == n;
        assert(q.drop_last()[i] == n);
    }
    assert forall|n: Seq<char>| q.drop_last().to_set().contains(n) implies q.to_set().remove(q.last()).contains(n) by {
        let i = choose|i: int| 0 <= i < q.drop_last().len() && q.drop_last()[i] == n;
        assert(q[i] == n);
    }
}

/// The first `i + 1` names are the first `i` and the next one.
pub proof fn lemma_prefix_set(q: Seq<Seq<char>>, i: int)
    requires
        0 <= i < q.len(),
    ensures
        q.take(i + 1).to_set() =~= q.take(i).to_set().insert(q[i]),
{
    assert(q.take(i + 1) =~= q.take(i).push(q[i]));
    q.take(i).lemma_push_to_set_commute(q[i]);
}

/// A name of an ascending list is not among the earlier ones.
pub proof fn lemma_prefix_fresh(q: Seq<Seq<char>>, i: int)
    requires
        ascending(q),
        0 <= i < q.len(),
    ensures
        !q.take(i).to_set().contains(q[i]),
{
    lemma_ascending_distinct(q);
    if q.take(i).contains(q[i]) {
        let j = choose|j: int| 0 <= j < q.take(i).len() && q.take(i)[j] == q[i];
        assert(q[j] == q[i]);
    }
}

/// Finds where a name stands in an ascending list, or where it would go.
pub fn locate(names: &Vec<String>, name: &str) -> (r: (bool, usize))
    requires
        ascending(names.deep_view()),
    ensures
        r.1 <= names@.len(),
        r.0 <==> names.deep_view().contains(name@),
        r.0 ==> r.1 < names@.len() && names@[r.1 as int]@ == name@,
        forall|i: int| 0 <= i < r.1 ==> before(#[trigger] names.deep_view()[i], name@),
        !r.0 ==> forall|i: int| r.1 <= i < names@.len() ==> before(name@, #[trigger] names.deep_view()[i]),
{
    let ghost q = names.deep_view();
    let mut lo: usize = 0;
    let mut hi: usize = names.len();
    while lo < hi
        invariant
            q == names.deep_view(),
            ascending(q),
            lo <= hi <= names@.len(),
            forall|i: int| 0 <= i < lo ==> before(#[trigger] q[i], name@),
            forall|i: int| hi <= i < q.len() ==> before(name@, #[trigger] q[i]),
        decreases hi - lo,
    {
        let mid: usize = lo + (hi - lo) / 2;
        match relate(names[mid].as_str(), name) {
            Relation::Same => {
                assert(q[mid as int] == name@);
                return (true, mid);
            },
            Relation::Before => {
                assert forall|i: int| 0 <= i < mid + 1 implies before(#[trigger] q[i], name@) by {
                    if i < mid {
                        lemma_before_transitive(q[i], q[mid as int], name@);
                    }
                }
                lo = mid + 1;
            },
            Relation::After => {
                assert forall|i: int| mid <= i < q.len() implies before(name@, #[trigger] q[i]) by {
                    if mid < i {
                        lemma_before_transitive(name@, q[mid as int], q[i]);
                    }
                }
                hi = mid;
            },
        }
    }
    proof {
        if q.contains(name@) {
            let i = choose|i: int| 0 <= i < q.len() && q[i] == name@;
            lemma_before_irreflexive(name@);
        }
    }
    (false, lo)
}

/// Whether two lists hold the same names in the same order.
pub fn same_names(a: &Vec<String>, b: &Vec<String>) -> (r: bool)
    ensures
        r <==> a.deep_view() == b.deep_view(),
{
    if a.len() != b.len() {
        assert(a.deep_view().len() != b.deep_view().len());
        return false;
    }
    for i in 0..a.len()
        invariant
            a@.len() == b@.len(),
            forall|j: int| 0 <= j < i ==> a.deep_view()[j] == b.deep_view()[j],
    {
        if a[i] != b[i] {
            assert(a.deep_view()[i as int] != b.deep_view()[i as int]);
            return false;
        }
    }
    assert(a.deep_view() =~= b.deep_view());
    true
}

/// Inserting an absent name at its place keeps a list ascending.
pub proof fn lemma_insert_ascending(q: Seq<Seq<char>>, pos: int, n: Seq<char>)
    requires
        ascending(q),
        0 <= pos <= q.len(),
        forall|i: int| 0 <= i < pos ==> before(#[trigger] q[i], n),
        forall|i: int| pos <= i < q.len() ==> before(n, #[trigger] q[i]),
    ensures
        ascending(q.insert(pos, n)),
        q.insert(pos, n).to_set() =~= q.to_set().insert(n),
{
    let r = q.insert(pos, n);
    assert forall|i: int, j: int| 0 <= i < j < r.len() implies before(#[trigger] r[i], #[trigger] r[j]) by {
        let a = if i < pos {
            i
        } else {
            i - 1
        };
        let b = if j < pos {
            j
        } else {
            j - 1
        };
        if i != pos && j != pos {
            assert(before(q[a], q[b]));
        }
    }
    assert forall|m: Seq<char>| q.to_set().insert(n).contains(m) implies r.to_set().contains(m) by {
        if m == n {
            assert(r[pos] == n);
        } else {
            let i = choose|i: int| 0 <= i < q.len() && q[i] == m;
            if i < pos {
                assert(r[i] == m);
            } else {
                assert(r[i + 1] == m);
            }
        }
    }
    assert forall|m: Seq<char>| r.to_set().contains(m) implies q.to_set().insert(n).contains(m) by {
        let i = choose|i: int| 0 <= i < r.len() && r[i] == m;
        if i < pos {
            assert(q[i] == m);
        } else if i > pos {
            assert(q[i - 1] == m);
        }
    }
}

/// Taking one name out keeps a list ascending.
pub proof fn lemma_remove_ascending(q: Seq<Seq<char>>, pos: int)
    requires
        ascending(q),
        0 <= pos < q.len(),
    ensures
        ascending(q.remove(pos)),
        q.remove(pos).to_set() =~= q.to_set().remove(q[pos]),
{
    let r = q.remove(pos);
    lemma_ascending_distinct(q);
    assert forall|i: int, j: int| 0 <= i < j < r.len() implies before(#[trigger] r[i], #[trigger] r[j]) by {
        let a = if i < pos {
            i
        } else {
            i + 1
        };
        let b = if j < pos {
            j
        } else {
            j + 1
        };
        assert(before(q[a], q[b]));
    }
    assert forall|m: Seq<char>| q.to_set().remove(q[pos]).contains(m) implies r.to_set().contains(m) by {
        let i = choose|i: int| 0 <= i < q.len() && q[i] == m;
        if i < pos {
            assert(r[i] == m);
        } else {
            assert(r[i - 1] == m);
        }
    }
    assert forall|m: Seq<char>| r.to_set().contains(m) implies q.to_set().remove(q[pos]).contains(m) by {
        let i = choose|i: int| 0 <= i < r.len() && r[i] == m;
        if i < pos {
            assert(q[i] == m);
        } else {
            assert(q[i + 1] == m);
        }
    }
}

/// Adds a name to an ascending list; tells whether it was absent before.
pub fn insert_sorted(names: &mut Vec<String>, name: String) -> (r: bool)
    requires
        ascending(old(names).deep_view()),
    ensures
        lists(final(names).deep_view(), old(names).deep_view().to_set().insert(name@)),
        r <==> !old(names).deep_view().contains(name@),
{
    let ghost q = names.deep_view();
    let (found, pos) = locate(names, name.as_str());
    if found {
        assert(q.to_set().insert(name@) =~= q.to_set());
    } else {
        proof {
            lemma_insert_ascending(q, pos as int, name@);
        }
        let ghost n = name@;
        names.insert(pos, name);
        assert(names.deep_view() =~= q.insert(pos as int, n));
    }
    !found
}

/// A set of names, kept as its ascending listing.
#[derive(Debug, PartialEq, Eq)]
pub struct NameList {
    names: Vec<String>,
}

impl View for NameList {
    type V = Seq<Seq<char>>;

    closed spec fn view(&self) -> Seq<Seq<char>> {
        self.names.deep_view()
    }
}

impl DeepView for NameList {
    type V = Seq<Seq<char>>;

    open spec fn deep_view(&self) -> Seq<Seq<char>> {
        self.view()
    }
}

impl NameList {
    #[verifier::type_invariant]
    closed spec fn inv(self) -> bool {
        ascending(self.names.deep_view())
    }

    /// The empty set.
    pub fn new() -> (r: Self)
        ensures
            r@ == Seq::<Seq<char>>::empty(),
            lists(r@, Set::empty()),
    {
        let names: Vec<String> = Vec::new();
        assert(names.deep_view() =~= Seq::<Seq<char>>::empty());
        assert(names.deep_view().to_set() =~= Set::<Seq<char>>::empty());
        NameList { names }
    }

    /// The number of names.
    pub fn len(&self) -> (r: usize)
        ensures
            r == self@.len(),
            ascending(self@),
    {
        proof {
            use_type_invariant(self);
        }
        self.names.len()
    }

    /// The `i`-th name in ascending order.
    pub fn at(&self, i: usize) -> (r: &String)
        requires
            i < self@.len(),
        ensures
            r@ == self@[i as int],
    {
        &self.names[i]
    }

    /// Whether the set holds `name`.
    pub fn contains(&self, name: &str) -> (r: bool)
        ensures
            r <==> self@.contains(name@),
            ascending(self@),
    {
        proof {
            use_type_invariant(self);
        }
        locate(&self.names, name).0
    }

    /// Adds a name; tells whether it was absent before.
    pub fn insert(&mut self, name: String) -> (r: bool)
        ensures
            lists(final(self)@, old(self)@.to_set().insert(name@)),
            r <==> !old(self)@.contains(name@),
    {
        proof {
            use_type_invariant(&*self);
        }
        let mut names: Vec<String> = Vec::new();
        std::mem::swap(&mut names, &mut self.names);
        let added = insert_sorted(&mut names, name);
        self.names = names;
        added
    }

    /// The listing as a plain vector.
    pub fn to_vec(&self) -> (r: Vec<String>)
        ensures
            r.deep_view() == self@,
            ascending(self@),
    {
        proof {
            use_type_invariant(self);
        }
        self.names.duplicate()
    }

    /// The set of the names in `names`, in whatever order and however often they stand there.
    pub fn from_vec(names: &Vec<String>) -> (r: Self)
        ensures
            lists(r@, names.deep_view().to_set()),
    {
        let mut r = NameList::new();
        let ghost q = names.deep_view();
        assert(q.take(0).to_set() =~= Set::<Seq<char>>::empty());
        for i in 0..names.len()
            invariant
                q == names.deep_view(),
                lists(r@, q.take(i as int).to_set()),
        {
            r.insert(names[i].clone());
            assert(q.take(i + 1) =~= q.take(i as int).push(q[i as int]));
            assert(q.take(i + 1).to_set() =~= q.take(i as int).to_set().insert(q[i as int])) by {
                q.take(i as int).lemma_push_to_set_commute(q[i as int]);
            }
        }
        assert(q.take(q.len() as int) =~= q);
        r
    }

    /// Whether two sets hold the same names.
    pub fn same(&self, other: &Self) -> (r: bool)
        ensures
            r <==> self@.to_set() == other@.to_set(),
            r <==> self@ == other@,
    {
        proof {
            use_type_invariant(self);
            use_type_invariant(other);
            if self@.to_set() == other@.to_set() {
                lemma_listing_unique(self@, other@, self@.to_set());
            }
        }
        same_names(&self.names, &other.names)
    }
}

impl Duplicate for NameList {
    fn duplicate(&self) -> (r: Self) {
        proof {
            use_type_invariant(self);
        }
        NameList { names: self.names.duplicate() }
    }
}

impl Clone for NameList {
    fn clone(&self) -> (r: Self)
        ensures
            r@ == self@,
    {
        self.duplicate()
    }
}

} // verus!
