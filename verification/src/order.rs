//! The order in which names are listed: lexicographic by Unicode code point.

use vstd::prelude::*;

verus! {

/// How one name stands to another in the listing order.
#[derive(Debug, Clone, Copy, PartialEq, Eq, Structural)]
pub enum Relation {
    Before,
    Same,
    After,
}

/// `a` comes strictly before `b`: lexicographic order by code point.
pub open spec fn before(a: Seq<char>, b: Seq<char>) -> bool
    decreases a.len(),
{
    if b.len() == 0 {
        false
    } else if a.len() == 0 {
        true
    } else if a[0] != b[0] {
        (a[0] as int) < (b[0] as int)
    } else {
        before(a.drop_first(), b.drop_first())
    }
}

/// No name comes before itself.
pub proof fn lemma_before_irreflexive(a: Seq<char>)
    ensures
        !before(a, a),
    decreases a.len(),
{
    if a.len() > 0 {
        lemma_before_irreflexive(a.drop_first());
    }
}

/// The listing order is transitive.
pub proof fn lemma_before_transitive(a: Seq<char>, b: Seq<char>, c: Seq<char>)
    requires
        before(a, b),
        before(b, c),
    ensures
        before(a, c),
    decreases a.len(),
{
    if a.len() > 0 && a[0] == b[0] && b[0] == c[0] {
        lemma_before_transitive(a.drop_first(), b.drop_first(), c.drop_first());
    }
}

/// Of two distinct names one comes before the other.
pub proof fn lemma_before_total(a: Seq<char>, b: Seq<char>)
    ensures
        a == b || before(a, b) || before(b, a),
    decreases a.len(),
{
    if a.len() > 0 && b.len() > 0 && a[0] == b[0] {
        lemma_before_total(a.drop_first(), b.drop_first());
        if a.drop_first() == b.drop_first() {
            assert(a =~= seq![a[0]] + a.drop_first());
            assert(b =~= seq![b[0]] + b.drop_first());
        }
    } else if a.len() == 0 && b.len() == 0 {
        assert(a =~= b);
    }
}

/// The listing order is the lexicographic order of code points: one name comes
/// before another exactly if, where they first part, it ends or has the
/// smaller character.
pub proof fn law_order_is_lexicographic(a: Seq<char>, b: Seq<char>)
    ensures
        before(a, b) <==> exists|i: int|
            #![trigger a.take(i)]
            0 <= i <= a.len() && i < b.len() && a.take(i) == b.take(i) && (i == a.len() || (a[i] as int) < (
            b[i] as int)),
    decreases a.len(),
{
    if a.len() > 0 && b.len() > 0 && a[0] == b[0] {
        let p = a.drop_first();
        let q = b.drop_first();
        law_order_is_lexicographic(p, q);
        if before(a, b) {
            let i = choose|i: int|
                #![trigger p.take(i)]
                0 <= i <= p.len() && i < q.len() && p.take(i) == q.take(i) && (i == p.len() || (p[i] as int) < (
                q[i] as int));
            assert(a.take(i + 1) =~= b.take(i + 1)) by {
                assert forall|k: int| 0 <= k < i + 1 implies a[k] == b[k] by {
                    if k > 0 {
                        assert(p.take(i)[k - 1] == q.take(i)[k - 1]);
                    }
                }
            }
        }
        if exists|i: int|
            #![trigger a.take(i)]
            0 <= i <= a.len() && i < b.len() && a.take(i) == b.take(i) && (i == a.len() || (a[i] as int) < (
            b[i] as int)) {
            let i = choose|i: int|
                #![trigger a.take(i)]
                0 <= i <= a.len() && i < b.len() && a.take(i) == b.take(i) && (i == a.len() || (a[i] as int) < (
                b[i] as int));
            assert(i > 0);
            assert(p.take(i - 1) =~= q.take(i - 1)) by {
                assert forall|k: int| 0 <= k < i - 1 implies p[k] == q[k] by {
                    assert(a.take(i)[k + 1] == b.take(i)[k + 1]);
                }
            }
        }
    } else {
        assert(a.take(0) =~= b.take(0));
        if exists|i: int|
            #![trigger a.take(i)]
            0 <= i <= a.len() && i < b.len() && a.take(i) == b.take(i) && (i == a.len() || (a[i] as int) < (
            b[i] as int)) {
            let i = choose|i: int|
                #![trigger a.take(i)]
                0 <= i <= a.len() && i < b.len() && a.take(i) == b.take(i) && (i == a.len() || (a[i] as int) < (
                b[i] as int));
            if i > 0 {
                assert(a.take(i)[0] == b.take(i)[0]);
            }
        }
    }
}

/// Compares two names in the listing order.
pub fn relate(a: &str, b: &str) -> (r: Relation)
    ensures
        r is Before <==> before(a@, b@),
        r is Same <==> a@ == b@,
        r is After <==> before(b@, a@),
{
    broadcast use vstd::string::group_string_axioms;

    proof {
        lemma_before_irreflexive(a@);
    }
    let mut left = a.chars();
    let mut right = b.chars();
    loop
        invariant
            before(a@, b@) == before(
                vstd::std_specs::iter::IteratorSpec::remaining(&left),
                vstd::std_specs::iter::IteratorSpec::remaining(&right),
            ),
            before(b@, a@) == before(
                vstd::std_specs::iter::IteratorSpec::remaining(&right),
                vstd::std_specs::iter::IteratorSpec::remaining(&left),
            ),
            (a@ == b@) == (vstd::std_specs::iter::IteratorSpec::remaining(&left)
                == vstd::std_specs::iter::IteratorSpec::remaining(&right)),
            !before(a@, a@),
            vstd::std_specs::iter::IteratorSpec::decrease(&left) is Some,
        decreases vstd::std_specs::iter::IteratorSpec::decrease(&left)->0,
    {
        let ghost l = vstd::std_specs::iter::IteratorSpec::remaining(&left);
        let ghost r = vstd::std_specs::iter::IteratorSpec::remaining(&right);
        match (left.next(), right.next()) {
            (None, None) => {
                assert(l =~= r);
                return Relation::Same;
            },
            (None, Some(_)) => {
                return Relation::Before;
            },
            (Some(_), None) => {
                return Relation::After;
            },
            (Some(x), Some(y)) => {
                if x != y {
                    if x < y {
                        return Relation::Before;
                    } else {
                        return Relation::After;
                    }
                }
                assert(l =~= seq![x] + l.drop_first());
                assert(r =~= seq![y] + r.drop_first());
            },
        }
    }
}

} // verus!
