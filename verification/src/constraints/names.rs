//! Ordered sets of names, kept as strictly increasing lists (names ordered
//! by their characters, which is the order of their UTF-8 bytes).

use crate::text::{chars_of, str_eq};
use vstd::prelude::*;

verus! {

/// `a` comes before `b`: a proper prefix, or smaller at the first difference.
pub open spec fn name_lt(a: Seq<char>, b: Seq<char>) -> bool
    decreases a.len(),
{
    if a.len() == 0 {
        b.len() > 0
    } else if b.len() == 0 {
        false
    } else if a[0] != b[0] {
        a[0] < b[0]
    } else {
        name_lt(a.drop_first(), b.drop_first())
    }
}

/// `s` with `x` put in its place: before the first name that `x` comes
/// before, unless `x` is met first.
pub open spec fn insert_name(s: Seq<Seq<char>>, x: Seq<char>) -> Seq<Seq<char>>
    decreases s.len(),
{
    if s.len() == 0 {
        seq![x]
    } else if s[0] == x {
        s
    } else if name_lt(x, s[0]) {
        seq![x] + s
    } else {
        seq![s[0]] + insert_name(s.drop_first(), x)
    }
}

/// `s` with every name of `xs` put in its place, in order.
pub open spec fn insert_names(s: Seq<Seq<char>>, xs: Seq<Seq<char>>) -> Seq<Seq<char>>
    decreases xs.len(),
{
    if xs.len() == 0 {
        s
    } else {
        insert_name(insert_names(s, xs.drop_last()), xs.last())
    }
}

/// The names of `s` are strictly increasing.
pub open spec fn strictly_sorted(s: Seq<Seq<char>>) -> bool {
    forall|i: int, j: int| 0 <= i < j < s.len() ==> name_lt(s[i], s[j])
}

/// Two different names are ordered one way or the other.
pub proof fn lemma_name_lt_total(a: Seq<char>, b: Seq<char>)
    ensures
        a == b || name_lt(a, b) || name_lt(b, a),
        !(name_lt(a, b) && name_lt(b, a)),
        !name_lt(a, a),
    decreases a.len(),
{
    if a.len() > 0 && b.len() > 0 && a[0] == b[0] {
        lemma_name_lt_total(a.drop_first(), b.drop_first());
        if a.drop_first() == b.drop_first() {
            assert(a == seq![a[0]] + a.drop_first());
            assert(b == seq![b[0]] + b.drop_first());
        }
    }
    if a.len() > 0 {
        lemma_name_lt_total(a.drop_first(), a.drop_first());
    }
}

/// `name_lt` is transitive.
pub proof fn lemma_name_lt_trans(a: Seq<char>, b: Seq<char>, c: Seq<char>)
    requires
        name_lt(a, b),
        name_lt(b, c),
    ensures
        name_lt(a, c),
    decreases a.len(),
{
    if a.len() > 0 && b.len() > 0 && c.len() > 0 && a[0] == b[0] && b[0] == c[0] {
        lemma_name_lt_trans(a.drop_first(), b.drop_first(), c.drop_first());
    }
}

/// Putting a name in its place keeps a list strictly increasing, and adds
/// exactly that name.
pub proof fn lemma_insert_name(s: Seq<Seq<char>>, x: Seq<char>)
    requires
        strictly_sorted(s),
    ensures
        strictly_sorted(insert_name(s, x)),
        forall|y: Seq<char>| #[trigger] insert_name(s, x).contains(y) <==> (s.contains(y) || y == x),
    decreases s.len(),
{
    if s.len() == 0 {
        assert(insert_name(s, x) == seq![x]);
        assert forall|y: Seq<char>| #[trigger] insert_name(s, x).contains(y) <==> (s.contains(y) || y == x) by {
            if insert_name(s, x).contains(y) {
                let k = choose|k: int| 0 <= k < insert_name(s, x).len() && insert_name(s, x)[k] == y;
                assert(k == 0);
            }
            if y == x {
                assert(insert_name(s, x)[0] == y);
            }
        }
    } else if s[0] == x {
        assert forall|y: Seq<char>| #[trigger] insert_name(s, x).contains(y) <==> (s.contains(y) || y == x) by {
            if y == x {
                assert(s[0] == y);
            }
        }
    } else if name_lt(x, s[0]) {
        let r = seq![x] + s;
        assert(insert_name(s, x) == r);
        assert forall|i: int, j: int| 0 <= i < j < r.len() implies name_lt(r[i], r[j]) by {
            if i == 0 {
                if j > 1 {
                    lemma_name_lt_trans(x, s[0], s[j - 1]);
                }
            } else {
                assert(r[i] == s[i - 1] && r[j] == s[j - 1]);
            }
        }
        assert forall|y: Seq<char>| #[trigger] r.contains(y) <==> (s.contains(y) || y == x) by {
            if r.contains(y) {
                let k = choose|k: int| 0 <= k < r.len() && r[k] == y;
                if k > 0 {
                    assert(s[k - 1] == y);
                }
            }
            if s.contains(y) {
                let k = choose|k: int| 0 <= k < s.len() && s[k] == y;
                assert(r[k + 1] == y);
            }
            if y == x {
                assert(r[0] == y);
            }
        }
    } else {
        lemma_name_lt_total(x, s[0]);
        let t = s.drop_first();
        assert forall|i: int, j: int| 0 <= i < j < t.len() implies name_lt(t[i], t[j]) by {
            assert(t[i] == s[i + 1] && t[j] == s[j + 1]);
        }
        lemma_insert_name(t, x);
        let rest = insert_name(t, x);
        let r = seq![s[0]] + rest;
        assert(insert_name(s, x) == r);
        assert forall|j: int| 0 <= j < rest.len() implies name_lt(s[0], #[trigger] rest[j]) by {
            assert(rest.contains(rest[j]));
            if rest[j] != x {
                assert(t.contains(rest[j]));
                let k = choose|k: int| 0 <= k < t.len() && t[k] == rest[j];
                assert(s[k + 1] == rest[j]);
            }
        }
        assert forall|i: int, j: int| 0 <= i < j < r.len() implies name_lt(r[i], r[j]) by {
            if i == 0 {
                assert(r[j] == rest[j - 1]);
            } else {
                assert(r[i] == rest[i - 1] && r[j] == rest[j - 1]);
            }
        }
        assert forall|y: Seq<char>| #[trigger] r.contains(y) <==> (s.contains(y) || y == x) by {
            if r.contains(y) {
                let k = choose|k: int| 0 <= k < r.len() && r[k] == y;
                if k > 0 {
                    assert(rest[k - 1] == y);
                    assert(rest.contains(y));
                    if y != x {
                        let m = choose|m: int| 0 <= m < t.len() && t[m] == y;
                        assert(s[m + 1] == y);
                    }
                } else {
                    assert(s[0] == y);
                }
            }
            if s.contains(y) {
                let k = choose|k: int| 0 <= k < s.len() && s[k] == y;
                if k == 0 {
                    assert(r[0] == y);
                } else {
                    assert(t[k - 1] == y);
                    assert(t.contains(y));
                    assert(rest.contains(y));
                    let m = choose|m: int| 0 <= m < rest.len() && rest[m] == y;
                    assert(r[m + 1] == y);
                }
            }
            if y == x {
                assert(rest.contains(y));
                let m = choose|m: int| 0 <= m < rest.len() && rest[m] == y;
                assert(r[m + 1] == y);
            }
        }
    }
}

/// Putting the names `xs` in their places keeps a list strictly increasing,
/// and adds exactly those names.
pub proof fn lemma_insert_names(s: Seq<Seq<char>>, xs: Seq<Seq<char>>)
    requires
        strictly_sorted(s),
    ensures
        strictly_sorted(insert_names(s, xs)),
        forall|y: Seq<char>| #[trigger] insert_names(s, xs).contains(y) <==> (s.contains(y) || xs.contains(y)),
    decreases xs.len(),
{
    if xs.len() > 0 {
        let init = insert_names(s, xs.drop_last());
        lemma_insert_names(s, xs.drop_last());
        lemma_insert_name(init, xs.last());
        assert forall|y: Seq<char>| #[trigger] insert_names(s, xs).contains(y) <==> (s.contains(y) || xs.contains(y)) by {
            if xs.drop_last().contains(y) {
                let k = choose|k: int| 0 <= k < xs.drop_last().len() && xs.drop_last()[k] == y;
                assert(xs[k] == y);
            }
            if xs.contains(y) && y != xs.last() {
                let k = choose|k: int| 0 <= k < xs.len() && xs[k] == y;
                assert(xs.drop_last()[k] == y);
            }
            if y == xs.last() {
                assert(xs[xs.len() - 1] == y);
            }
        }
    }
}

/// Whether `a` comes before `b`.
pub fn names_lt(a: &str, b: &str) -> (r: bool)
    ensures
        r == name_lt(a@, b@),
{
    let x = chars_of(a);
    let y = chars_of(b);
    let mut i: usize = 0;
    assert(x@.skip(0) == x@);
    assert(y@.skip(0) == y@);
    while i < x.len() && i < y.len() && x[i] == y[i]
        invariant
            i <= x@.len(),
            i <= y@.len(),
            x@.take(i as int) == y@.take(i as int),
            name_lt(x@, y@) == name_lt(x@.skip(i as int), y@.skip(i as int)),
        decreases x@.len() - i,
    {
        assert(x@.skip(i as int).drop_first() == x@.skip(i + 1));
        assert(y@.skip(i as int).drop_first() == y@.skip(i + 1));
        assert(x@.take(i + 1) == x@.take(i as int).push(x@[i as int]));
        assert(y@.take(i + 1) == y@.take(i as int).push(y@[i as int]));
        i = i + 1;
    }
    if i == x.len() {
        i < y.len()
    } else if i == y.len() {
        false
    } else {
        x[i] < y[i]
    }
}

/// Puts `x` in its place in `v`.
pub fn insert_name_exec(v: &mut Vec<String>, x: &String)
    ensures
        final(v)@.map_values(|s: String| s@) == insert_name(old(v)@.map_values(|s: String| s@), x@),
{
    let ghost s0 = old(v)@.map_values(|s: String| s@);
    let mut i: usize = 0;
    assert(s0.skip(0) == s0);
    assert(s0.take(0) + insert_name(s0, x@) == insert_name(s0, x@));
    while i < v.len() && names_lt(v[i].as_str(), x.as_str()) && !str_eq(v[i].as_str(), x.as_str())
        invariant
            i <= v@.len(),
            *v == *old(v),
            s0 == v@.map_values(|s: String| s@),
            insert_name(s0, x@) == s0.take(i as int) + insert_name(s0.skip(i as int), x@),
        decreases v@.len() - i,
    {
        let ghost rest = s0.skip(i as int);
        proof {
            lemma_name_lt_total(rest[0], x@);
            assert(rest.drop_first() == s0.skip(i + 1));
            assert(s0.take(i + 1) == s0.take(i as int) + seq![rest[0]]);
        }
        i = i + 1;
    }
    let ghost rest = s0.skip(i as int);
    if i < v.len() && str_eq(v[i].as_str(), x.as_str()) {
        assert(s0.take(i as int) + rest == s0);
        return;
    }
    proof {
        if i < v@.len() {
            lemma_name_lt_total(rest[0], x@);
        }
    }
    v.insert(i, x.clone());
    assert(v@.map_values(|s: String| s@) =~= s0.take(i as int) + (seq![x@] + rest));
}

} // verus!
