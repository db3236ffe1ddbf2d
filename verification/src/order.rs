//! The orders by which names and paths are listed.
use vstd::prelude::*;

verus! {

/// The place of one value relative to another in an order.
#[derive(Clone, Copy, Debug, PartialEq, Eq, Structural)]
pub enum Place {
    Before,
    Same,
    After,
}

/// Whether `a` comes strictly before `b` when text is ordered character by character, by code
/// point, and a proper prefix comes before what it is a prefix of.
pub open spec fn name_lt(a: Seq<char>, b: Seq<char>) -> bool
    decreases a.len(),
{
    if b.len() == 0 {
        false
    } else if a.len() == 0 {
        true
    } else if a[0] != b[0] {
        a[0] < b[0]
    } else {
        name_lt(a.drop_first(), b.drop_first())
    }
}

pub proof fn lemma_name_lt_irreflexive(a: Seq<char>)
    ensures
        !name_lt(a, a),
    decreases a.len(),
{
    if a.len() > 0 {
        lemma_name_lt_irreflexive(a.drop_first());
    }
}

/// The order of names is total: two different names are ordered one way or the other.
pub proof fn lemma_name_lt_total(a: Seq<char>, b: Seq<char>)
    ensures
        name_lt(a, b) || a == b || name_lt(b, a),
    decreases a.len(),
{
    if a.len() > 0 && b.len() > 0 && a[0] == b[0] {
        lemma_name_lt_total(a.drop_first(), b.drop_first());
        if a.drop_first() == b.drop_first() {
            assert(a =~= seq![a[0]] + a.drop_first());
            assert(b =~= seq![b[0]] + b.drop_first());
        }
    } else if a.len() == 0 && b.len() == 0 {
        assert(a =~= b);
    }
}

pub proof fn lemma_name_lt_transitive(a: Seq<char>, b: Seq<char>, c: Seq<char>)
    requires
        name_lt(a, b),
        name_lt(b, c),
    ensures
        name_lt(a, c),
    decreases a.len(),
{
    if a.len() > 0 && a[0] == b[0] && b[0] == c[0] {
        lemma_name_lt_transitive(a.drop_first(), b.drop_first(), c.drop_first());
    }
}

/// The place of `a` relative to `b` in the order of names.
pub fn place_of_name(a: &str, b: &str) -> (place: Place)
    ensures
        place == Place::Before <==> name_lt(a@, b@),
        place == Place::Same <==> a@ == b@,
        place == Place::After <==> name_lt(b@, a@),
{
    let mut rest_a = a.chars();
    let mut rest_b = b.chars();
    let ghost mut i: int = 0;
    loop
        invariant
            0 <= i <= a@.len(),
            i <= b@.len(),
            vstd::std_specs::iter::IteratorSpec::remaining(&rest_a) == a@.skip(i),
            vstd::std_specs::iter::IteratorSpec::remaining(&rest_b) == b@.skip(i),
            a@.take(i) == b@.take(i),
            name_lt(a@, b@) == name_lt(a@.skip(i), b@.skip(i)),
            name_lt(b@, a@) == name_lt(b@.skip(i), a@.skip(i)),
        decreases a@.len() - i,
    {
        proof {
            lemma_name_lt_irreflexive(a@);
        }
        match (rest_a.next(), rest_b.next()) {
            (None, None) => {
                assert(a@ =~= a@.take(i));
                assert(b@ =~= b@.take(i));
                return Place::Same;
            },
            (None, Some(_)) => {
                return Place::Before;
            },
            (Some(_), None) => {
                return Place::After;
            },
            (Some(x), Some(y)) => {
                assert(x == a@[i] && y == b@[i]);
                if x < y {
                    return Place::Before;
                }
                if y < x {
                    return Place::After;
                }
                proof {
                    assert(a@.skip(i).drop_first() =~= a@.skip(i + 1));
                    assert(b@.skip(i).drop_first() =~= b@.skip(i + 1));
                    assert(a@.take(i + 1) =~= a@.take(i).push(x));
                    assert(b@.take(i + 1) =~= b@.take(i).push(y));
                    i = i + 1;
                }
            },
        }
    }
}

/// Whether the path with components `a` comes strictly before the path with components `b`:
/// component by component in the order of names, and a path before those that lie below it.
pub open spec fn path_lt(a: Seq<Seq<char>>, b: Seq<Seq<char>>) -> bool
    decreases a.len(),
{
    if b.len() == 0 {
        false
    } else if a.len() == 0 {
        true
    } else if a[0] != b[0] {
        name_lt(a[0], b[0])
    } else {
        path_lt(a.drop_first(), b.drop_first())
    }
}

pub proof fn lemma_path_lt_irreflexive(a: Seq<Seq<char>>)
    ensures
        !path_lt(a, a),
    decreases a.len(),
{
    if a.len() > 0 {
        lemma_path_lt_irreflexive(a.drop_first());
    }
}

/// The order of paths is total: two different paths are ordered one way or the other.
pub proof fn lemma_path_lt_total(a: Seq<Seq<char>>, b: Seq<Seq<char>>)
    ensures
        path_lt(a, b) || a == b || path_lt(b, a),
    decreases a.len(),
{
    if a.len() > 0 && b.len() > 0 {
        if a[0] == b[0] {
            lemma_path_lt_total(a.drop_first(), b.drop_first());
            if a.drop_first() == b.drop_first() {
                assert(a =~= seq![a[0]] + a.drop_first());
                assert(b =~= seq![b[0]] + b.drop_first());
            }
        } else {
            lemma_name_lt_total(a[0], b[0]);
        }
    } else if a.len() == 0 && b.len() == 0 {
        assert(a =~= b);
    }
}

pub proof fn lemma_path_lt_transitive(a: Seq<Seq<char>>, b: Seq<Seq<char>>, c: Seq<Seq<char>>)
    requires
        path_lt(a, b),
        path_lt(b, c),
    ensures
        path_lt(a, c),
    decreases a.len(),
{
    if a.len() > 0 {
        if a[0] == b[0] && b[0] == c[0] {
            lemma_path_lt_transitive(a.drop_first(), b.drop_first(), c.drop_first());
        } else if a[0] != b[0] && b[0] != c[0] {
            lemma_name_lt_transitive(a[0], b[0], c[0]);
            if a[0] == c[0] {
                lemma_name_lt_irreflexive(a[0]);
            }
        }
    }
}

/// The order of paths is asymmetric.
pub proof fn lemma_path_lt_asymmetric(a: Seq<Seq<char>>, b: Seq<Seq<char>>)
    requires
        path_lt(a, b),
    ensures
        !path_lt(b, a),
        a != b,
{
    lemma_path_lt_irreflexive(a);
    if path_lt(b, a) {
        lemma_path_lt_transitive(a, b, a);
    }
}

/// The order of names is decided by the first character in which two names differ.
pub proof fn law_names_by_first_difference(
    common: Seq<char>,
    x: char,
    y: char,
    a: Seq<char>,
    b: Seq<char>,
)
    requires
        x != y,
    ensures
        name_lt(common.push(x) + a, common.push(y) + b) <==> x < y,
    decreases common.len(),
{
    let left = common.push(x) + a;
    let right = common.push(y) + b;
    if common.len() > 0 {
        let rest = common.drop_first();
        assert(left.drop_first() =~= rest.push(x) + a);
        assert(right.drop_first() =~= rest.push(y) + b);
        law_names_by_first_difference(rest, x, y, a, b);
    }
}

/// A name comes before every longer one that starts with it, and never after it.
pub proof fn law_shorter_name_first(name: Seq<char>, more: Seq<char>)
    ensures
        name_lt(name, name + more) <==> more.len() > 0,
        !name_lt(name + more, name),
    decreases name.len(),
{
    if name.len() > 0 {
        assert((name + more).drop_first() =~= name.drop_first() + more);
        law_shorter_name_first(name.drop_first(), more);
    }
}

/// The order of paths is decided by the first component in which two paths differ.
pub proof fn law_paths_by_first_difference(
    common: Seq<Seq<char>>,
    x: Seq<char>,
    y: Seq<char>,
    a: Seq<Seq<char>>,
    b: Seq<Seq<char>>,
)
    requires
        x != y,
    ensures
        path_lt(common.push(x) + a, common.push(y) + b) <==> name_lt(x, y),
    decreases common.len(),
{
    let left = common.push(x) + a;
    let right = common.push(y) + b;
    if common.len() > 0 {
        let rest = common.drop_first();
        assert(left.drop_first() =~= rest.push(x) + a);
        assert(right.drop_first() =~= rest.push(y) + b);
        law_paths_by_first_difference(rest, x, y, a, b);
    }
}

/// A path comes before every path below it, and never after it.
pub proof fn law_directory_before_what_lies_in_it(path: Seq<Seq<char>>, more: Seq<Seq<char>>)
    ensures
        path_lt(path, path + more) <==> more.len() > 0,
        !path_lt(path + more, path),
    decreases path.len(),
{
    if path.len() > 0 {
        assert((path + more).drop_first() =~= path.drop_first() + more);
        law_directory_before_what_lies_in_it(path.drop_first(), more);
    }
}

} // verus!
