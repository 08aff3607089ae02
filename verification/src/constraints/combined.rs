//! Value rules that cannot hold together and whose finding takes reading
//! texts as numbers (the caller supplies the comparison). Value constraints
//! on one line are combined with AND, so a `min` above a `max` (of the same
//! constraint or of another one on the line) leaves no number that meets
//! both, and an `enum` list none of whose values meets the rules of another
//! constraint on the line leaves no value that meets both.

use crate::constraints::{
    concat_map, enums_disjoint, errors_view, headers_agree, headers_for, law_static_check_empty, lemma_concat_map_empty,
    lemma_concat_map_perm, lemma_concat_map_step, lemma_range_take, lemma_take_all, lemma_values_for_sheet_concat,
    line_text, line_text_exec, lists_meet, range, rules_agree, same_line, same_line_exec, spec_check_static,
    types_clash, value_for_sheet_fn, values_for_sheet, Constraints, HeaderConstraint, LineTarget, ValueConstraint,
};
use crate::constraints::rules::{names_view, ValueRules};
use crate::constraints::when::{numeric_order, total_order_fn, NumOrder};
use crate::validation::ConstraintError;
use vstd::string::StringExecFns;
use vstd::prelude::*;

verus! {

/// Whether the `min` of `a` lies above the `max` of `b`, as `order` reads them.
pub open spec fn bounds_cross(a: ValueRules, b: ValueRules, order: spec_fn(Seq<char>, Seq<char>) -> NumOrder) -> bool {
    match (a.min, b.max) {
        (Some(lo), Some(hi)) => order(lo@, hi@) == NumOrder::Greater,
        _ => false,
    }
}

/// The message for a `min` of `lo` above a `max` of `hi` on line `t` of sheet `id`.
pub open spec fn bound_conflict_message(id: Seq<char>, t: LineTarget, lo: Seq<char>, hi: Seq<char>) -> Seq<char> {
    "[value sheet="@ + id + "] "@ + line_text(t) + " の min/max が矛盾（min "@ + lo + " > max "@ + hi + "）"@
}

/// The message (if any) for the `min` of `a` against the `max` of `b`.
pub open spec fn cross_messages(
    id: Seq<char>,
    t: LineTarget,
    a: ValueRules,
    b: ValueRules,
    order: spec_fn(Seq<char>, Seq<char>) -> NumOrder,
) -> Seq<Seq<char>> {
    if bounds_cross(a, b, order) {
        seq![bound_conflict_message(id, t, a.min->0@, b.max->0@)]
    } else {
        Seq::empty()
    }
}

/// Whether `a` lists allowed values (at least one), `b` lists none, and no
/// value of `a`'s list meets the rules of `b` (as `check_value` reads them).
pub open spec fn enum_unmet(a: ValueRules, b: ValueRules, order: spec_fn(Seq<char>, Seq<char>) -> NumOrder) -> bool {
    match a.enums {
        Some(list) => b.enums is None && list@.len() > 0 && forall|e: int|
            0 <= e < list@.len() ==> (#[trigger] b.spec_check(list@[e]@, order)) is Err,
        None => false,
    }
}

/// The message for an `enum` list on line `t` of sheet `id` none of whose
/// values meets the rules of another value constraint on that line.
pub open spec fn enum_unmet_message(id: Seq<char>, t: LineTarget) -> Seq<char> {
    "[value sheet="@ + id + "] "@ + line_text(t) + " の enum のどの値も別の value の規則を満たさない"@
}

/// The message (if any) for the `enum` list of `a` against the rules of `b`.
pub open spec fn unmet_messages(
    id: Seq<char>,
    t: LineTarget,
    a: ValueRules,
    b: ValueRules,
    order: spec_fn(Seq<char>, Seq<char>) -> NumOrder,
) -> Seq<Seq<char>> {
    if enum_unmet(a, b, order) {
        seq![enum_unmet_message(id, t)]
    } else {
        Seq::empty()
    }
}

/// The messages for the value constraints at `i` and `j` of `vs`: for
/// `i == j`, its own `min` against its own `max`; for `i < j` when both
/// target the same line, the `min` of the first against the `max` of the
/// second and the other way round, then the `enum` list of the first
/// against the rules of the second and the other way round.
pub open spec fn pair_fn(
    id: Seq<char>,
    vs: Seq<ValueConstraint>,
    i: int,
    order: spec_fn(Seq<char>, Seq<char>) -> NumOrder,
) -> spec_fn(int) -> Seq<Seq<char>> {
    |j: int|
        if i == j {
            cross_messages(id, vs[i].target, vs[i].rules, vs[i].rules, order)
        } else if i < j && same_line(vs[i].target, vs[j].target) {
            cross_messages(id, vs[i].target, vs[i].rules, vs[j].rules, order)
                + cross_messages(id, vs[i].target, vs[j].rules, vs[i].rules, order)
                + unmet_messages(id, vs[i].target, vs[i].rules, vs[j].rules, order)
                + unmet_messages(id, vs[i].target, vs[j].rules, vs[i].rules, order)
        } else {
            Seq::empty()
        }
}

/// The messages for the value constraint at `i` of `vs` against those after it.
pub open spec fn row_fn(
    id: Seq<char>,
    vs: Seq<ValueConstraint>,
    order: spec_fn(Seq<char>, Seq<char>) -> NumOrder,
) -> spec_fn(int) -> Seq<Seq<char>> {
    |i: int| concat_map(range(vs.len() as int), pair_fn(id, vs, i, order))
}

/// The findings between the value constraints of sheet `id`.
pub open spec fn combined_conflicts_for_sheet(
    values: Seq<ValueConstraint>,
    id: Seq<char>,
    order: spec_fn(Seq<char>, Seq<char>) -> NumOrder,
) -> Seq<Seq<char>> {
    let vs = values_for_sheet(values, id);
    concat_map(range(vs.len() as int), row_fn(id, vs, order))
}

/// The findings for one sheet.
pub open spec fn combined_sheet_fn(
    values: Seq<ValueConstraint>,
    order: spec_fn(Seq<char>, Seq<char>) -> NumOrder,
) -> spec_fn(Seq<char>) -> Seq<Seq<char>> {
    |id: Seq<char>| combined_conflicts_for_sheet(values, id, order)
}

/// The findings for a project with sheets `ids`, sheet by sheet.
pub open spec fn spec_check_combined(
    values: Seq<ValueConstraint>,
    ids: Seq<Seq<char>>,
    order: spec_fn(Seq<char>, Seq<char>) -> NumOrder,
) -> Seq<Seq<char>> {
    concat_map(ids, combined_sheet_fn(values, order))
}

/// Whether no value constraint of `vs` has a `min` above its own `max`, and
/// no two of them on the same line have a `min` above the other's `max`.
pub open spec fn bounds_agree(vs: Seq<ValueConstraint>, order: spec_fn(Seq<char>, Seq<char>) -> NumOrder) -> bool {
    &&& forall|i: int| 0 <= i < vs.len() ==> !bounds_cross(#[trigger] vs[i].rules, vs[i].rules, order)
    &&& forall|i: int, j: int|
        0 <= i < j < vs.len() && same_line(#[trigger] vs[i].target, #[trigger] vs[j].target)
            ==> !bounds_cross(vs[i].rules, vs[j].rules, order) && !bounds_cross(vs[j].rules, vs[i].rules, order)
}

/// Whether the value constraints of `vs` leave room for a value on each
/// line: bounds as `bounds_agree` says, `enum` lists as `enums_met` says.
pub open spec fn combinations_agree(vs: Seq<ValueConstraint>, order: spec_fn(Seq<char>, Seq<char>) -> NumOrder) -> bool {
    bounds_agree(vs, order) && enums_met(vs, order)
}

/// Whether no two value constraints of `vs` on the same line have an `enum`
/// list (on one) none of whose values meets the rules of the other.
pub open spec fn enums_met(vs: Seq<ValueConstraint>, order: spec_fn(Seq<char>, Seq<char>) -> NumOrder) -> bool {
    forall|i: int, j: int|
        0 <= i < j < vs.len() && same_line(#[trigger] vs[i].target, #[trigger] vs[j].target)
            ==> !enum_unmet(vs[i].rules, vs[j].rules, order) && !enum_unmet(vs[j].rules, vs[i].rules, order)
}

proof fn lemma_combined_conflicts_empty(
    values: Seq<ValueConstraint>,
    id: Seq<char>,
    order: spec_fn(Seq<char>, Seq<char>) -> NumOrder,
)
    ensures
        combined_conflicts_for_sheet(values, id, order).len() == 0 <==> combinations_agree(values_for_sheet(values, id), order),
{
    let vs = values_for_sheet(values, id);
    let n = vs.len() as int;
    let fi = row_fn(id, vs, order);
    lemma_concat_map_empty(range(n), fi);
    if combined_conflicts_for_sheet(values, id, order).len() == 0 {
        assert forall|i: int, j: int|
            0 <= i < j < vs.len() && same_line(#[trigger] vs[i].target, #[trigger] vs[j].target)
                implies !bounds_cross(vs[i].rules, vs[j].rules, order) && !bounds_cross(vs[j].rules, vs[i].rules, order)
                && !enum_unmet(vs[i].rules, vs[j].rules, order) && !enum_unmet(vs[j].rules, vs[i].rules, order) by {
            assert(range(n)[i] == i);
            assert(fi(range(n)[i]).len() == 0);
            let fj = pair_fn(id, vs, i, order);
            lemma_concat_map_empty(range(n), fj);
            assert(range(n)[j] == j);
            assert(fj(range(n)[j]).len() == 0);
        }
        assert forall|i: int| 0 <= i < vs.len() implies !bounds_cross(#[trigger] vs[i].rules, vs[i].rules, order) by {
            assert(range(n)[i] == i);
            assert(fi(range(n)[i]).len() == 0);
            let fj = pair_fn(id, vs, i, order);
            lemma_concat_map_empty(range(n), fj);
            assert(fj(range(n)[i]).len() == 0);
        }
    }
    if combinations_agree(vs, order) {
        assert forall|i: int| 0 <= i < range(n).len() implies #[trigger] fi(range(n)[i]).len() == 0 by {
            let fj = pair_fn(id, vs, i, order);
            lemma_concat_map_empty(range(n), fj);
            assert(range(n)[i] == i);
            assert forall|j: int| 0 <= j < range(n).len() implies #[trigger] fj(range(n)[j]).len() == 0 by {
                assert(range(n)[j] == j);
            }
        }
    }
}

/// The combined check finds nothing exactly when, on every sheet, no value
/// constraint has a `min` above its own `max`, no two value constraints on
/// one line have a `min` above the other's `max`, and of two value
/// constraints on one line, one with an `enum` list and one without, some
/// listed value meets the rules of the other.
pub proof fn law_combined_check_empty(
    values: Seq<ValueConstraint>,
    ids: Seq<Seq<char>>,
    order: spec_fn(Seq<char>, Seq<char>) -> NumOrder,
)
    ensures
        spec_check_combined(values, ids, order).len() == 0 <==> forall|k: int|
            0 <= k < ids.len() ==> combinations_agree(values_for_sheet(values, #[trigger] ids[k]), order),
{
    let f = combined_sheet_fn(values, order);
    lemma_concat_map_empty(ids, f);
    if spec_check_combined(values, ids, order).len() == 0 {
        assert forall|k: int| 0 <= k < ids.len() implies combinations_agree(values_for_sheet(values, #[trigger] ids[k]), order) by {
            assert(f(ids[k]).len() == 0);
            lemma_combined_conflicts_empty(values, ids[k], order);
        }
    }
    if forall|k: int| 0 <= k < ids.len() ==> combinations_agree(values_for_sheet(values, #[trigger] ids[k]), order) {
        assert forall|k: int| 0 <= k < ids.len() implies #[trigger] f(ids[k]).len() == 0 by {
            lemma_combined_conflicts_empty(values, ids[k], order);
        }
    }
}

/// What the static checks record (those of `check_static`, then those of
/// `check_combined`) is empty exactly when every value rule fits its type,
/// the header constraints of each sheet agree, and on each sheet the value
/// constraints of one line agree on type, share an `enum` value where both
/// list them, have no `min` above a `max`, and, where one lists values and
/// the other does not, some listed value meets the other's rules.
pub proof fn law_static_findings_empty(
    values: Seq<ValueConstraint>,
    headers: Seq<HeaderConstraint>,
    ids: Seq<Seq<char>>,
    order: spec_fn(Seq<char>, Seq<char>) -> NumOrder,
)
    ensures
        (spec_check_static(values, headers, ids) + spec_check_combined(values, ids, order)).len() == 0 <==> {
            &&& forall|i: int| 0 <= i < values.len() ==> (#[trigger] values[i]).rules.spec_compat() is Ok
            &&& forall|k: int| 0 <= k < ids.len() ==> headers_agree(headers_for(headers, #[trigger] ids[k]))
            &&& forall|k: int| 0 <= k < ids.len() ==> rules_agree(values_for_sheet(values, #[trigger] ids[k]))
            &&& forall|k: int| 0 <= k < ids.len() ==> combinations_agree(values_for_sheet(values, #[trigger] ids[k]), order)
        },
{
    law_static_check_empty(values, headers, ids);
    law_combined_check_empty(values, ids, order);
}

/// Two positions of `s` that hold the same item make it occur at least twice.
proof fn lemma_two_positions<A>(s: Seq<A>, i: int, j: int)
    requires
        0 <= i < s.len(),
        0 <= j < s.len(),
        i != j,
        s[i] == s[j],
    ensures
        s.to_multiset().count(s[i]) >= 2,
{
    broadcast use vstd::multiset::group_multiset_axioms;
    let r = s.remove(i);
    s.remove_ensures(i);
    let k = if j < i { j } else { j - 1 };
    assert(r[k] == s[j]);
    vstd::seq_lib::to_multiset_contains(r, s[i]);
    vstd::seq_lib::to_multiset_remove(s, i);
    assert(r.to_multiset().count(s[i]) > 0);
}

/// An item that occurs at least twice stands at two positions.
proof fn lemma_two_positions_back<A>(s: Seq<A>, x: A) -> (r: (int, int))
    requires
        s.to_multiset().count(x) >= 2,
    ensures
        0 <= r.0 < s.len() && 0 <= r.1 < s.len() && r.0 != r.1 && s[r.0] == x && s[r.1] == x,
{
    broadcast use vstd::multiset::group_multiset_axioms;
    vstd::seq_lib::to_multiset_contains(s, x);
    let p = choose|p: int| 0 <= p < s.len() && s[p] == x;
    let rest = s.remove(p);
    s.remove_ensures(p);
    vstd::seq_lib::to_multiset_remove(s, p);
    assert(rest.to_multiset().count(x) > 0);
    vstd::seq_lib::to_multiset_contains(rest, x);
    let q0 = choose|q: int| 0 <= q < rest.len() && rest[q] == x;
    let q = if q0 < p { q0 } else { q0 + 1 };
    assert(s[q] == x);
    (p, q)
}

/// What holds of every two items at distinct positions of a list holds so
/// of any reordering of it.
proof fn lemma_pairs_reordered<A>(s: Seq<A>, t: Seq<A>, ok: spec_fn(A, A) -> bool)
    requires
        s.to_multiset() == t.to_multiset(),
        forall|i: int, j: int| 0 <= i < s.len() && 0 <= j < s.len() && i != j ==> #[trigger] ok(s[i], s[j]),
    ensures
        forall|i: int, j: int| 0 <= i < t.len() && 0 <= j < t.len() && i != j ==> #[trigger] ok(t[i], t[j]),
{
    assert forall|i: int, j: int| 0 <= i < t.len() && 0 <= j < t.len() && i != j implies #[trigger] ok(t[i], t[j]) by {
        let x = t[i];
        let y = t[j];
        if x != y {
            assert(t.contains(x));
            assert(t.contains(y));
            vstd::seq_lib::to_multiset_contains(t, x);
            vstd::seq_lib::to_multiset_contains(t, y);
            vstd::seq_lib::to_multiset_contains(s, x);
            vstd::seq_lib::to_multiset_contains(s, y);
            let p = choose|p: int| 0 <= p < s.len() && s[p] == x;
            let q = choose|q: int| 0 <= q < s.len() && s[q] == y;
            assert(ok(s[p], s[q]));
        } else {
            lemma_two_positions(t, i, j);
            let (p, q) = lemma_two_positions_back(s, x);
            assert(ok(s[p], s[q]));
        }
    }
}

/// What holds of every item of a list holds of every item of any reordering of it.
proof fn lemma_items_reordered<A>(s: Seq<A>, t: Seq<A>, ok: spec_fn(A) -> bool)
    requires
        s.to_multiset() == t.to_multiset(),
        forall|i: int| 0 <= i < s.len() ==> #[trigger] ok(s[i]),
    ensures
        forall|i: int| 0 <= i < t.len() ==> #[trigger] ok(t[i]),
{
    assert forall|i: int| 0 <= i < t.len() implies #[trigger] ok(t[i]) by {
        assert(t.contains(t[i]));
        vstd::seq_lib::to_multiset_contains(t, t[i]);
        vstd::seq_lib::to_multiset_contains(s, t[i]);
        let p = choose|p: int| 0 <= p < s.len() && s[p] == t[i];
        assert(ok(s[p]));
    }
}

/// Whether value constraints `a` and `b` can stand together as far as the
/// checks tell: unless they target the same line, always; else they agree on
/// type, share an `enum` value where both list them, have no `min` above the
/// other's `max`, and where one lists values and the other does not, some
/// listed value meets the other's rules.
pub open spec fn pair_agrees(order: spec_fn(Seq<char>, Seq<char>) -> NumOrder) -> spec_fn(ValueConstraint, ValueConstraint) -> bool {
    |a: ValueConstraint, b: ValueConstraint|
        same_line(a.target, b.target) ==> {
            &&& !types_clash(a.rules, b.rules)
            &&& !enums_disjoint(a.rules, b.rules)
            &&& !bounds_cross(a.rules, b.rules, order)
            &&& !bounds_cross(b.rules, a.rules, order)
            &&& !enum_unmet(a.rules, b.rules, order)
            &&& !enum_unmet(b.rules, a.rules, order)
        }
}

/// Whether value constraint `a` has no `min` above its own `max`.
pub open spec fn own_bounds_agree(order: spec_fn(Seq<char>, Seq<char>) -> NumOrder) -> spec_fn(ValueConstraint) -> bool {
    |a: ValueConstraint| !bounds_cross(a.rules, a.rules, order)
}

proof fn lemma_pair_agrees_symmetric(a: ValueConstraint, b: ValueConstraint, order: spec_fn(Seq<char>, Seq<char>) -> NumOrder)
    requires
        pair_agrees(order)(a, b),
    ensures
        pair_agrees(order)(b, a),
{
    if same_line(b.target, a.target) {
        assert(same_line(a.target, b.target));
        if enums_disjoint(b.rules, a.rules) {
            let x = names_view(a.rules.enums->0@);
            let y = names_view(b.rules.enums->0@);
            assert(!lists_meet(y, x));
            assert forall|w: Seq<char>| !(x.contains(w) && y.contains(w)) by {
                assert(!(y.contains(w) && x.contains(w)));
            }
        }
    }
}

/// The agreement that the checks look for, stated over the items of `vs`
/// with no regard to their order.
proof fn lemma_agree_by_items(vs: Seq<ValueConstraint>, order: spec_fn(Seq<char>, Seq<char>) -> NumOrder)
    ensures
        rules_agree(vs) && combinations_agree(vs, order) <==> {
            &&& forall|i: int| 0 <= i < vs.len() ==> #[trigger] own_bounds_agree(order)(vs[i])
            &&& forall|i: int, j: int| 0 <= i < vs.len() && 0 <= j < vs.len() && i != j ==> #[trigger] pair_agrees(order)(vs[i], vs[j])
        },
{
    let ok = pair_agrees(order);
    if rules_agree(vs) && combinations_agree(vs, order) {
        assert forall|i: int, j: int| 0 <= i < vs.len() && 0 <= j < vs.len() && i != j implies #[trigger] ok(vs[i], vs[j]) by {
            if i < j {
                if same_line(vs[i].target, vs[j].target) {
                }
            } else {
                if same_line(vs[j].target, vs[i].target) {
                }
                lemma_pair_agrees_symmetric(vs[j], vs[i], order);
            }
        }
        assert forall|i: int| 0 <= i < vs.len() implies #[trigger] own_bounds_agree(order)(vs[i]) by {}
    }
    if (forall|i: int| 0 <= i < vs.len() ==> #[trigger] own_bounds_agree(order)(vs[i])) && (forall|i: int, j: int|
        0 <= i < vs.len() && 0 <= j < vs.len() && i != j ==> #[trigger] ok(vs[i], vs[j])) {
        assert forall|i: int, j: int|
            0 <= i < j < vs.len() && same_line(#[trigger] vs[i].target, #[trigger] vs[j].target)
                implies !types_clash(vs[i].rules, vs[j].rules) && !enums_disjoint(vs[i].rules, vs[j].rules) by {
            assert(ok(vs[i], vs[j]));
        }
        assert forall|i: int, j: int|
            0 <= i < j < vs.len() && same_line(#[trigger] vs[i].target, #[trigger] vs[j].target)
                implies !bounds_cross(vs[i].rules, vs[j].rules, order) && !bounds_cross(vs[j].rules, vs[i].rules, order) by {
            assert(ok(vs[i], vs[j]));
        }
        assert forall|i: int, j: int|
            0 <= i < j < vs.len() && same_line(#[trigger] vs[i].target, #[trigger] vs[j].target)
                implies !enum_unmet(vs[i].rules, vs[j].rules, order) && !enum_unmet(vs[j].rules, vs[i].rules, order) by {
            assert(ok(vs[i], vs[j]));
        }
        assert forall|i: int| 0 <= i < vs.len() implies !bounds_cross(#[trigger] vs[i].rules, vs[i].rules, order) by {
            assert(own_bounds_agree(order)(vs[i]));
        }
    }
}

/// Value constraints have no priority: whether the static checks find a
/// contradiction does not depend on the order in which the value
/// constraints are written.
pub proof fn law_contradiction_order_irrelevant(
    values: Seq<ValueConstraint>,
    reordered: Seq<ValueConstraint>,
    headers: Seq<HeaderConstraint>,
    ids: Seq<Seq<char>>,
    order: spec_fn(Seq<char>, Seq<char>) -> NumOrder,
)
    requires
        values.to_multiset() == reordered.to_multiset(),
    ensures
        (spec_check_static(values, headers, ids) + spec_check_combined(values, ids, order)).len() == 0
            <==> (spec_check_static(reordered, headers, ids) + spec_check_combined(reordered, ids, order)).len() == 0,
{
    law_static_findings_empty(values, headers, ids, order);
    law_static_findings_empty(reordered, headers, ids, order);
    if forall|i: int| 0 <= i < values.len() ==> (#[trigger] values[i]).rules.spec_compat() is Ok {
        lemma_compat_reordered(values, reordered);
    }
    if forall|i: int| 0 <= i < reordered.len() ==> (#[trigger] reordered[i]).rules.spec_compat() is Ok {
        lemma_compat_reordered(reordered, values);
    }
    assert forall|k: int| 0 <= k < ids.len() && rules_agree(values_for_sheet(values, #[trigger] ids[k]))
        && combinations_agree(values_for_sheet(values, ids[k]), order) implies rules_agree(
        values_for_sheet(reordered, ids[k]),
    ) && combinations_agree(values_for_sheet(reordered, ids[k]), order) by {
        lemma_agree_reordered(values, reordered, ids[k], order);
    }
    assert forall|k: int| 0 <= k < ids.len() && rules_agree(values_for_sheet(reordered, #[trigger] ids[k]))
        && combinations_agree(values_for_sheet(reordered, ids[k]), order) implies rules_agree(
        values_for_sheet(values, ids[k]),
    ) && combinations_agree(values_for_sheet(values, ids[k]), order) by {
        lemma_agree_reordered(reordered, values, ids[k], order);
    }
}

proof fn lemma_compat_reordered(a: Seq<ValueConstraint>, b: Seq<ValueConstraint>)
    requires
        a.to_multiset() == b.to_multiset(),
        forall|i: int| 0 <= i < a.len() ==> (#[trigger] a[i]).rules.spec_compat() is Ok,
    ensures
        forall|i: int| 0 <= i < b.len() ==> (#[trigger] b[i]).rules.spec_compat() is Ok,
{
    let f = |v: ValueConstraint| v.rules.spec_compat() is Ok;
    assert forall|i: int| 0 <= i < a.len() implies #[trigger] f(a[i]) by {}
    lemma_items_reordered(a, b, f);
    assert forall|i: int| 0 <= i < b.len() implies (#[trigger] b[i]).rules.spec_compat() is Ok by {
        assert(f(b[i]));
    }
}

proof fn lemma_agree_reordered(
    a: Seq<ValueConstraint>,
    b: Seq<ValueConstraint>,
    id: Seq<char>,
    order: spec_fn(Seq<char>, Seq<char>) -> NumOrder,
)
    requires
        a.to_multiset() == b.to_multiset(),
        rules_agree(values_for_sheet(a, id)),
        combinations_agree(values_for_sheet(a, id), order),
    ensures
        rules_agree(values_for_sheet(b, id)),
        combinations_agree(values_for_sheet(b, id), order),
{
    lemma_values_for_sheet_concat(a, id);
    lemma_values_for_sheet_concat(b, id);
    lemma_concat_map_perm(a, b, value_for_sheet_fn(id));
    let va = values_for_sheet(a, id);
    let vb = values_for_sheet(b, id);
    lemma_agree_by_items(va, order);
    lemma_agree_by_items(vb, order);
    lemma_items_reordered(va, vb, own_bounds_agree(order));
    lemma_pairs_reordered(va, vb, pair_agrees(order));
}

/// `[value sheet=<id>] <line> の min/max が矛盾（min <lo> > max <hi>）`.
fn bound_conflict_message_exec(id: &str, t: &LineTarget, lo: &str, hi: &str) -> (r: String)
    ensures
        r@ == bound_conflict_message(id@, *t, lo@, hi@),
{
    let mut m = String::from_str("[value sheet=");
    m.append(id);
    m.append("] ");
    let lt = line_text_exec(t);
    m.append(lt.as_str());
    m.append(" の min/max が矛盾（min ");
    m.append(lo);
    m.append(" > max ");
    m.append(hi);
    m.append("）");
    m
}

/// Appends the message (if any) for the `min` of `a` against the `max` of `b`.
fn push_cross<F: Fn(&str, &str) -> NumOrder>(
    out: &mut Vec<ConstraintError>,
    id: &str,
    t: &LineTarget,
    a: &ValueRules,
    b: &ValueRules,
    num: &F,
)
    requires
        total_order_fn(*num),
    ensures
        forall|order: spec_fn(Seq<char>, Seq<char>) -> NumOrder| #[trigger] numeric_order(*num, order)
            ==> errors_view(final(out)@) == errors_view(old(out)@) + cross_messages(id@, *t, *a, *b, order),
{
    let ghost before = errors_view(out@);
    match (&a.min, &b.max) {
        (Some(lo), Some(hi)) => {
            let o = num(lo.as_str(), hi.as_str());
            if o == NumOrder::Greater {
                let m = bound_conflict_message_exec(id, t, lo.as_str(), hi.as_str());
                out.push(ConstraintError::new(m));
                assert(errors_view(out@) =~= before + seq![m@]);
            } else {
                assert(errors_view(out@) =~= before + Seq::<Seq<char>>::empty());
            }
        },
        _ => {
            assert(errors_view(out@) =~= before + Seq::<Seq<char>>::empty());
        },
    }
}

/// `[value sheet=<id>] <line> の enum のどの値も別の value の規則を満たさない`.
fn enum_unmet_message_exec(id: &str, t: &LineTarget) -> (r: String)
    ensures
        r@ == enum_unmet_message(id@, *t),
{
    let mut m = String::from_str("[value sheet=");
    m.append(id);
    m.append("] ");
    let lt = line_text_exec(t);
    m.append(lt.as_str());
    m.append(" の enum のどの値も別の value の規則を満たさない");
    m
}

/// Whether `a` lists allowed values, `b` lists none, and no value of `a`'s
/// list meets the rules of `b`.
fn enum_unmet_exec<F: Fn(&str, &str) -> NumOrder>(a: &ValueRules, b: &ValueRules, num: &F) -> (r: bool)
    requires
        total_order_fn(*num),
    ensures
        forall|order: spec_fn(Seq<char>, Seq<char>) -> NumOrder| #[trigger] numeric_order(*num, order)
            ==> r == enum_unmet(*a, *b, order),
{
    match &a.enums {
        Some(list) => {
            if b.enums.is_some() || list.len() == 0 {
                return false;
            }
            let mut k: usize = 0;
            while k < list.len()
                invariant
                    total_order_fn(*num),
                    k <= list@.len(),
                    a.enums == Some(*list),
                    b.enums is None,
                    list@.len() > 0,
                    forall|order: spec_fn(Seq<char>, Seq<char>) -> NumOrder| #[trigger] numeric_order(*num, order)
                        ==> forall|e: int| 0 <= e < k ==> (#[trigger] b.spec_check(list@[e]@, order)) is Err,
                decreases list@.len() - k,
            {
                let res = b.check_value(list[k].as_str(), num);
                match res {
                    Ok(()) => {
                        assert forall|order: spec_fn(Seq<char>, Seq<char>) -> NumOrder| #[trigger] numeric_order(*num, order)
                            implies !enum_unmet(*a, *b, order) by {
                            assert(b.spec_check(list@[k as int]@, order) is Ok);
                        }
                        return false;
                    },
                    Err(_) => {},
                }
                k = k + 1;
            }
            true
        },
        None => false,
    }
}

/// Appends the message (if any) for the `enum` list of `a` against the rules of `b`.
fn push_unmet<F: Fn(&str, &str) -> NumOrder>(
    out: &mut Vec<ConstraintError>,
    id: &str,
    t: &LineTarget,
    a: &ValueRules,
    b: &ValueRules,
    num: &F,
)
    requires
        total_order_fn(*num),
    ensures
        forall|order: spec_fn(Seq<char>, Seq<char>) -> NumOrder| #[trigger] numeric_order(*num, order)
            ==> errors_view(final(out)@) == errors_view(old(out)@) + unmet_messages(id@, *t, *a, *b, order),
{
    let ghost before = errors_view(out@);
    if enum_unmet_exec(a, b, num) {
        let m = enum_unmet_message_exec(id, t);
        out.push(ConstraintError::new(m));
        assert(errors_view(out@) =~= before + seq![m@]);
    } else {
        assert(errors_view(out@) =~= before + Seq::<Seq<char>>::empty());
    }
}

/// Appends the findings between the value constraints of sheet `id`.
#[verifier::rlimit(30)]
fn push_combined_conflicts_for_sheet<F: Fn(&str, &str) -> NumOrder>(
    out: &mut Vec<ConstraintError>,
    c: &Constraints,
    id: &str,
    num: &F,
)
    requires
        total_order_fn(*num),
    ensures
        forall|order: spec_fn(Seq<char>, Seq<char>) -> NumOrder| #[trigger] numeric_order(*num, order)
            ==> errors_view(final(out)@) == errors_view(old(out)@) + combined_conflicts_for_sheet(c.values@, id@, order),
{
    let vcs = c.values_for(id);
    let ghost vs = vcs@.map_values(|v: &ValueConstraint| *v);
    let n = vcs.len();
    let ghost start = errors_view(out@);
    let mut i: usize = 0;
    while i < n
        invariant
            i <= n,
            n == vcs@.len(),
            vs == vcs@.map_values(|v: &ValueConstraint| *v),
            vs == values_for_sheet(c.values@, id@),
            total_order_fn(*num),
            start == errors_view(old(out)@),
            forall|order: spec_fn(Seq<char>, Seq<char>) -> NumOrder| #[trigger] numeric_order(*num, order)
                ==> errors_view(out@) == start + concat_map(range(n as int).take(i as int), row_fn(id@, vs, order)),
        decreases n - i,
    {
        let ghost mid = errors_view(out@);
        let mut j: usize = 0;
        while j < n
            invariant
                i < n,
                j <= n,
                n == vcs@.len(),
                vs == vcs@.map_values(|v: &ValueConstraint| *v),
                total_order_fn(*num),
                forall|order: spec_fn(Seq<char>, Seq<char>) -> NumOrder| #[trigger] numeric_order(*num, order)
                    ==> errors_view(out@) == mid + concat_map(range(n as int).take(j as int), pair_fn(id@, vs, i as int, order)),
            decreases n - j,
        {
            assert(range(n as int)[j as int] == j as int);
            assert(vs[i as int] == *vcs[i as int]);
            assert(vs[j as int] == *vcs[j as int]);
            let ghost before = errors_view(out@);
            if i == j {
                push_cross(out, id, &vcs[i].target, &vcs[i].rules, &vcs[i].rules, num);
            } else if i < j && same_line_exec(&vcs[i].target, &vcs[j].target) {
                push_cross(out, id, &vcs[i].target, &vcs[i].rules, &vcs[j].rules, num);
                push_cross(out, id, &vcs[i].target, &vcs[j].rules, &vcs[i].rules, num);
                push_unmet(out, id, &vcs[i].target, &vcs[i].rules, &vcs[j].rules, num);
                push_unmet(out, id, &vcs[i].target, &vcs[j].rules, &vcs[i].rules, num);
            }
            proof {
                assert forall|order: spec_fn(Seq<char>, Seq<char>) -> NumOrder| #[trigger] numeric_order(*num, order)
                    implies errors_view(out@) == mid + concat_map(range(n as int).take(j + 1), pair_fn(id@, vs, i as int, order)) by {
                    let fj = pair_fn(id@, vs, i as int, order);
                    lemma_concat_map_step(range(n as int), fj, j as int);
                    assert(errors_view(out@) =~= before + fj(j as int));
                }
            }
            j = j + 1;
        }
        proof {
            assert forall|order: spec_fn(Seq<char>, Seq<char>) -> NumOrder| #[trigger] numeric_order(*num, order)
                implies errors_view(out@) == start + concat_map(range(n as int).take(i + 1), row_fn(id@, vs, order)) by {
                let fi = row_fn(id@, vs, order);
                lemma_range_take(n as int, n as int);
                lemma_concat_map_step(range(n as int), fi, i as int);
                assert(range(n as int)[i as int] == i as int);
                assert(errors_view(out@) =~= start + concat_map(range(n as int).take(i + 1), fi));
            }
        }
        i = i + 1;
    }
    proof {
        lemma_range_take(n as int, n as int);
    }
}

impl Constraints {
    /// Value constraints of one sheet that cannot hold together where
    /// reading texts as numbers tells: a `min` above the `max` of the same
    /// constraint or of another one on the same line; an `enum` list none of
    /// whose values meets the rules of another constraint on the line (one
    /// without a list). For each sheet of `sheet_ids` in turn; `num` compares
    /// texts as numbers. Returned as data to show, beside `check_static`.
    pub fn check_combined<F: Fn(&str, &str) -> NumOrder>(&self, sheet_ids: &[String], num: &F) -> (r: Vec<ConstraintError>)
        requires
            total_order_fn(*num),
        ensures
            forall|order: spec_fn(Seq<char>, Seq<char>) -> NumOrder| #[trigger] numeric_order(*num, order)
                ==> errors_view(r@) == spec_check_combined(self.values@, names_view(sheet_ids@), order),
    {
        let mut out: Vec<ConstraintError> = Vec::new();
        let ghost ids = names_view(sheet_ids@);
        let mut k: usize = 0;
        while k < sheet_ids.len()
            invariant
                k <= sheet_ids@.len(),
                ids == names_view(sheet_ids@),
                total_order_fn(*num),
                forall|order: spec_fn(Seq<char>, Seq<char>) -> NumOrder| #[trigger] numeric_order(*num, order)
                    ==> errors_view(out@) == concat_map(ids.take(k as int), combined_sheet_fn(self.values@, order)),
            decreases sheet_ids@.len() - k,
        {
            let ghost before = errors_view(out@);
            push_combined_conflicts_for_sheet(&mut out, self, sheet_ids[k].as_str(), num);
            proof {
                assert forall|order: spec_fn(Seq<char>, Seq<char>) -> NumOrder| #[trigger] numeric_order(*num, order)
                    implies errors_view(out@) == concat_map(ids.take(k + 1), combined_sheet_fn(self.values@, order)) by {
                    let f = combined_sheet_fn(self.values@, order);
                    lemma_concat_map_step(ids, f, k as int);
                    assert(ids[k as int] == sheet_ids@[k as int]@);
                    assert(errors_view(out@) =~= before + f(ids[k as int]));
                }
            }
            k = k + 1;
        }
        proof {
            lemma_take_all(ids);
        }
        out
    }
}

} // verus!
