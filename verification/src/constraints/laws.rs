//! What validation reports about names that the header constraints do not
//! allow: by default every column and row label outside the required and
//! optional names is forbidden.

use crate::constraints::rules::ValueRules;
use crate::constraints::when::NumOrder;
use crate::constraints::{
    all_allow_column, all_allow_row, columns_after_first, concat_map, disallowed_fn, disallowed_row_fn,
    headers_for, missing_line_fn, range, required_names, row_cell_fn, row_labels, row_target_fn,
    spec_validate, value_fn, value_row_fn, values_for_sheet, HeaderConstraint, LineTarget,
    ValueConstraint,
};
use crate::sheet::{CellPos, Sheet};
use crate::validation::{ViolationKind, ViolationModel};
use vstd::prelude::*;

verus! {

/// Whether `v` holds a violation of kind `k` at position `p`.
pub open spec fn has_at(v: Seq<ViolationModel>, k: ViolationKind, p: Option<CellPos>) -> bool {
    exists|j: int| 0 <= j < v.len() && (#[trigger] v[j]).kind == k && v[j].pos == p
}

/// Whether a violation kind is one that the value rules give.
pub open spec fn is_rule_kind(k: ViolationKind) -> bool {
    ||| k == ViolationKind::Empty
    ||| k == ViolationKind::TypeMismatch
    ||| k == ViolationKind::NotInEnum
    ||| k == ViolationKind::PatternMismatch
    ||| k == ViolationKind::OutOfRange
}

proof fn lemma_has_at_add(a: Seq<ViolationModel>, b: Seq<ViolationModel>, k: ViolationKind, p: Option<CellPos>)
    ensures
        has_at(a + b, k, p) <==> (has_at(a, k, p) || has_at(b, k, p)),
{
    if has_at(a + b, k, p) {
        let j = choose|j: int| 0 <= j < (a + b).len() && (#[trigger] (a + b)[j]).kind == k && (a + b)[j].pos == p;
        if j < a.len() {
            assert(a[j] == (a + b)[j]);
        } else {
            assert(b[j - a.len()] == (a + b)[j]);
        }
    }
    if has_at(a, k, p) {
        let j = choose|j: int| 0 <= j < a.len() && (#[trigger] a[j]).kind == k && a[j].pos == p;
        assert((a + b)[j] == a[j]);
    }
    if has_at(b, k, p) {
        let j = choose|j: int| 0 <= j < b.len() && (#[trigger] b[j]).kind == k && b[j].pos == p;
        assert((a + b)[j + a.len()] == b[j]);
    }
}

proof fn lemma_has_at_concat<A>(s: Seq<A>, f: spec_fn(A) -> Seq<ViolationModel>, k: ViolationKind, p: Option<CellPos>)
    ensures
        has_at(concat_map(s, f), k, p) <==> exists|i: int| 0 <= i < s.len() && has_at(#[trigger] f(s[i]), k, p),
    decreases s.len(),
{
    if s.len() > 0 {
        let init = s.drop_last();
        lemma_has_at_concat(init, f, k, p);
        lemma_has_at_add(concat_map(init, f), f(s.last()), k, p);
        if exists|i: int| 0 <= i < init.len() && has_at(#[trigger] f(init[i]), k, p) {
            let i = choose|i: int| 0 <= i < init.len() && has_at(#[trigger] f(init[i]), k, p);
            assert(s[i] == init[i]);
        }
        if exists|i: int| 0 <= i < s.len() && has_at(#[trigger] f(s[i]), k, p) {
            let i = choose|i: int| 0 <= i < s.len() && has_at(#[trigger] f(s[i]), k, p);
            if i < s.len() - 1 {
                assert(init[i] == s[i]);
            }
        }
    }
}

/// A list where every violation has a kind of `ok` has none of kind `k` outside `ok`.
proof fn lemma_concat_kinds<A>(s: Seq<A>, f: spec_fn(A) -> Seq<ViolationModel>, k: ViolationKind, p: Option<CellPos>)
    requires
        forall|i: int| 0 <= i < s.len() ==> !has_at(#[trigger] f(s[i]), k, p),
    ensures
        !has_at(concat_map(s, f), k, p),
{
    lemma_has_at_concat(s, f, k, p);
}

/// The value rules only give rule kinds.
proof fn lemma_rule_kinds(r: ValueRules, v: Seq<char>, order: spec_fn(Seq<char>, Seq<char>) -> NumOrder)
    ensures
        r.spec_check(v, order) matches Err(k) ==> is_rule_kind(k),
{
}

/// The value constraints only give violations of rule kinds.
proof fn lemma_value_kinds(vc: ValueConstraint, sheet: Sheet, order: spec_fn(Seq<char>, Seq<char>) -> NumOrder, k: ViolationKind, p: Option<CellPos>)
    requires
        !is_rule_kind(k),
    ensures
        !has_at(value_fn(sheet, order)(vc), k, p),
{
    match vc.target {
        LineTarget::Column(col) => {
            match crate::constraints::last_index_of(sheet.spec_headers(), col@) {
                Some(ci) => {
                    let f = value_row_fn(vc, sheet, ci, col@, order);
                    let rs = range(sheet.ids().len() as int);
                    assert forall|i: int| 0 <= i < rs.len() implies !has_at(#[trigger] f(rs[i]), k, p) by {
                        lemma_rule_kinds(vc.rules, crate::constraints::cell_or_empty(sheet, rs[i], ci), order);
                    }
                    lemma_concat_kinds(rs, f, k, p);
                },
                None => {},
            }
        },
        LineTarget::Row(lab) => {
            let g = row_target_fn(vc, sheet, lab@, order);
            let rs = range(sheet.ids().len() as int);
            assert forall|i: int| 0 <= i < rs.len() implies !has_at(#[trigger] g(rs[i]), k, p) by {
                let r = rs[i];
                if sheet.spec_row_label(r) == Some(lab@) && vc.spec_applies(sheet, r, order) {
                    let h = row_cell_fn(vc, sheet, r, lab@, order);
                    let cs = columns_after_first(crate::constraints::row_span(sheet, r as int));
                    assert forall|c: int| 0 <= c < cs.len() implies !has_at(#[trigger] h(cs[c]), k, p) by {
                        lemma_rule_kinds(vc.rules, crate::constraints::cell_or_empty(sheet, r, cs[c]), order);
                    }
                    lemma_concat_kinds(cs, h, k, p);
                }
            }
            lemma_concat_kinds(rs, g, k, p);
        },
    }
}

/// Columns not allowed by default: validation reports a column as not
/// allowed (at its header cell) exactly when some header constraint applies
/// to the sheet and one of those that apply does not allow its name.
pub proof fn law_disallowed_column_reported(
    headers: Seq<HeaderConstraint>,
    values: Seq<ValueConstraint>,
    sheet: Sheet,
    order: spec_fn(Seq<char>, Seq<char>) -> NumOrder,
    ci: usize,
)
    requires
        sheet.spec_headers().len() <= usize::MAX,
    ensures
        has_at(spec_validate(headers, values, sheet, order), ViolationKind::DisallowedColumn, Some(CellPos { row: 0, col: ci }))
            <==> {
            &&& (ci as int) < sheet.spec_headers().len()
            &&& headers_for(headers, sheet.spec_id()).len() > 0
            &&& !all_allow_column(headers_for(headers, sheet.spec_id()), sheet.spec_headers()[ci as int])
        },
{
    let k = ViolationKind::DisallowedColumn;
    let p = Some(CellPos { row: 0, col: ci });
    let id = sheet.spec_id();
    let hs = sheet.spec_headers();
    let matched = headers_for(headers, id);
    let n = sheet.ids().len() as int;
    let p1 = concat_map(required_names(matched, true), missing_line_fn(id, hs, true));
    let p2 = if matched.len() == 0 {
        Seq::empty()
    } else {
        concat_map(range(hs.len() as int), disallowed_fn(id, matched, hs))
    };
    let p3 = if sheet.spec_has_row_headers() {
        concat_map(required_names(matched, false), missing_line_fn(id, row_labels(sheet), false)) + (if matched.len()
            == 0 {
            Seq::empty()
        } else {
            concat_map(range(n), disallowed_row_fn(id, matched, sheet))
        })
    } else {
        Seq::empty()
    };
    let p4 = concat_map(values_for_sheet(values, id), value_fn(sheet, order));
    assert(spec_validate(headers, values, sheet, order) == p1 + p2 + p3 + p4);
    lemma_has_at_add(p1 + p2 + p3, p4, k, p);
    lemma_has_at_add(p1 + p2, p3, k, p);
    lemma_has_at_add(p1, p2, k, p);
    // missing names
    let rn = required_names(matched, true);
    assert forall|i: int| 0 <= i < rn.len() implies !has_at(#[trigger] missing_line_fn(id, hs, true)(rn[i]), k, p) by {}
    lemma_concat_kinds(rn, missing_line_fn(id, hs, true), k, p);
    // rows
    if sheet.spec_has_row_headers() {
        let rr = required_names(matched, false);
        assert forall|i: int| 0 <= i < rr.len() implies !has_at(
            #[trigger] missing_line_fn(id, row_labels(sheet), false)(rr[i]),
            k,
            p,
        ) by {}
        lemma_concat_kinds(rr, missing_line_fn(id, row_labels(sheet), false), k, p);
        if matched.len() > 0 {
            let rs = range(n);
            assert forall|i: int| 0 <= i < rs.len() implies !has_at(#[trigger] disallowed_row_fn(id, matched, sheet)(rs[i]), k, p) by {}
            lemma_concat_kinds(rs, disallowed_row_fn(id, matched, sheet), k, p);
            lemma_has_at_add(
                concat_map(rr, missing_line_fn(id, row_labels(sheet), false)),
                concat_map(rs, disallowed_row_fn(id, matched, sheet)),
                k,
                p,
            );
        } else {
            lemma_has_at_add(concat_map(rr, missing_line_fn(id, row_labels(sheet), false)), Seq::empty(), k, p);
        }
    }
    // values
    let vs = values_for_sheet(values, id);
    assert forall|i: int| 0 <= i < vs.len() implies !has_at(#[trigger] value_fn(sheet, order)(vs[i]), k, p) by {
        lemma_value_kinds(vs[i], sheet, order, k, p);
    }
    lemma_concat_kinds(vs, value_fn(sheet, order), k, p);
    // the disallowed columns
    if matched.len() > 0 {
        let cs = range(hs.len() as int);
        let f = disallowed_fn(id, matched, hs);
        lemma_has_at_concat(cs, f, k, p);
        if has_at(p2, k, p) {
            let i = choose|i: int| 0 <= i < cs.len() && has_at(#[trigger] f(cs[i]), k, p);
            assert(cs[i] == i);
            assert(f(cs[i]).len() > 0);
            assert(f(cs[i])[0].pos == Some(CellPos { row: 0, col: i as usize }));
            assert(i == ci);
        }
        if (ci as int) < hs.len() && !all_allow_column(matched, hs[ci as int]) {
            assert(cs[ci as int] == ci);
            assert(f(cs[ci as int])[0].kind == k);
            assert(has_at(f(cs[ci as int]), k, p));
        }
    }
}

/// Rows not allowed by default: with row headers on, validation reports a
/// data row as not allowed (at its label cell) exactly when some header
/// constraint applies to the sheet and one of those that apply does not
/// allow its label.
pub proof fn law_disallowed_row_reported(
    headers: Seq<HeaderConstraint>,
    values: Seq<ValueConstraint>,
    sheet: Sheet,
    order: spec_fn(Seq<char>, Seq<char>) -> NumOrder,
    r: usize,
)
    requires
        sheet.ids().len() <= usize::MAX,
    ensures
        has_at(spec_validate(headers, values, sheet, order), ViolationKind::DisallowedRow, Some(CellPos { row: r, col: 0 }))
            <==> {
            &&& (r as int) < sheet.ids().len()
            &&& sheet.spec_has_row_headers()
            &&& headers_for(headers, sheet.spec_id()).len() > 0
            &&& sheet.spec_row_label(r as int) is Some
            &&& !all_allow_row(headers_for(headers, sheet.spec_id()), sheet.spec_row_label(r as int)->0)
        },
{
    let k = ViolationKind::DisallowedRow;
    let p = Some(CellPos { row: r, col: 0 });
    let id = sheet.spec_id();
    let hs = sheet.spec_headers();
    let matched = headers_for(headers, id);
    let n = sheet.ids().len() as int;
    let p1 = concat_map(required_names(matched, true), missing_line_fn(id, hs, true));
    let p2 = if matched.len() == 0 {
        Seq::empty()
    } else {
        concat_map(range(hs.len() as int), disallowed_fn(id, matched, hs))
    };
    let rr = required_names(matched, false);
    let q1 = concat_map(rr, missing_line_fn(id, row_labels(sheet), false));
    let q2 = if matched.len() == 0 {
        Seq::empty()
    } else {
        concat_map(range(n), disallowed_row_fn(id, matched, sheet))
    };
    let p3 = if sheet.spec_has_row_headers() {
        q1 + q2
    } else {
        Seq::empty()
    };
    let p4 = concat_map(values_for_sheet(values, id), value_fn(sheet, order));
    assert(spec_validate(headers, values, sheet, order) == p1 + p2 + p3 + p4);
    lemma_has_at_add(p1 + p2 + p3, p4, k, p);
    lemma_has_at_add(p1 + p2, p3, k, p);
    lemma_has_at_add(p1, p2, k, p);
    let rn = required_names(matched, true);
    assert forall|i: int| 0 <= i < rn.len() implies !has_at(#[trigger] missing_line_fn(id, hs, true)(rn[i]), k, p) by {}
    lemma_concat_kinds(rn, missing_line_fn(id, hs, true), k, p);
    if matched.len() > 0 {
        let cs = range(hs.len() as int);
        assert forall|i: int| 0 <= i < cs.len() implies !has_at(#[trigger] disallowed_fn(id, matched, hs)(cs[i]), k, p) by {}
        lemma_concat_kinds(cs, disallowed_fn(id, matched, hs), k, p);
    }
    let vs = values_for_sheet(values, id);
    assert forall|i: int| 0 <= i < vs.len() implies !has_at(#[trigger] value_fn(sheet, order)(vs[i]), k, p) by {
        lemma_value_kinds(vs[i], sheet, order, k, p);
    }
    lemma_concat_kinds(vs, value_fn(sheet, order), k, p);
    assert forall|i: int| 0 <= i < rr.len() implies !has_at(
        #[trigger] missing_line_fn(id, row_labels(sheet), false)(rr[i]),
        k,
        p,
    ) by {}
    lemma_concat_kinds(rr, missing_line_fn(id, row_labels(sheet), false), k, p);
    lemma_has_at_add(q1, q2, k, p);
    if matched.len() > 0 {
        let rs = range(n);
        let f = disallowed_row_fn(id, matched, sheet);
        lemma_has_at_concat(rs, f, k, p);
        if has_at(q2, k, p) {
            let i = choose|i: int| 0 <= i < rs.len() && has_at(#[trigger] f(rs[i]), k, p);
            assert(rs[i] == i);
            assert(f(rs[i]).len() > 0);
            assert(f(rs[i])[0].pos == Some(CellPos { row: i as usize, col: 0 }));
            assert(i == r);
        }
        if (r as int) < n && sheet.spec_row_label(r as int) is Some && !all_allow_row(matched, sheet.spec_row_label(r as int)->0) {
            assert(rs[r as int] == r);
            assert(f(rs[r as int])[0].kind == k);
            assert(has_at(f(rs[r as int]), k, p));
        }
    }
}

/// The number of violations of kind `k` in `v`.
pub open spec fn count_kind(v: Seq<ViolationModel>, k: ViolationKind) -> nat
    decreases v.len(),
{
    if v.len() == 0 {
        0
    } else {
        count_kind(v.drop_last(), k) + if v.last().kind == k {
            1nat
        } else {
            0nat
        }
    }
}

/// The number of names of `names` that `present` lacks.
pub open spec fn absent_count(names: Seq<Seq<char>>, present: Seq<Seq<char>>) -> nat
    decreases names.len(),
{
    if names.len() == 0 {
        0
    } else {
        absent_count(names.drop_last(), present) + if present.contains(names.last()) {
            0nat
        } else {
            1nat
        }
    }
}

proof fn lemma_count_add(a: Seq<ViolationModel>, b: Seq<ViolationModel>, k: ViolationKind)
    ensures
        count_kind(a + b, k) == count_kind(a, k) + count_kind(b, k),
    decreases b.len(),
{
    if b.len() == 0 {
        assert(a + b =~= a);
    } else {
        assert((a + b).drop_last() =~= a + b.drop_last());
        assert((a + b).last() == b.last());
        lemma_count_add(a, b.drop_last(), k);
    }
}

proof fn lemma_count_none(v: Seq<ViolationModel>, k: ViolationKind)
    requires
        forall|j: int| 0 <= j < v.len() ==> (#[trigger] v[j]).kind != k,
    ensures
        count_kind(v, k) == 0,
    decreases v.len(),
{
    if v.len() > 0 {
        assert forall|j: int| 0 <= j < v.drop_last().len() implies (#[trigger] v.drop_last()[j]).kind != k by {
            assert(v.drop_last()[j] == v[j]);
        }
        lemma_count_none(v.drop_last(), k);
        assert(v.last() == v[v.len() - 1]);
    }
}

/// No violation of kind `k` anywhere means a count of zero.
proof fn lemma_count_from_has_at(v: Seq<ViolationModel>, k: ViolationKind)
    requires
        forall|p: Option<CellPos>| !#[trigger] has_at(v, k, p),
    ensures
        count_kind(v, k) == 0,
{
    assert forall|j: int| 0 <= j < v.len() implies (#[trigger] v[j]).kind != k by {
        if v[j].kind == k {
            assert(has_at(v, k, v[j].pos));
        }
    }
    lemma_count_none(v, k);
}

proof fn lemma_missing_count(names: Seq<Seq<char>>, id: Seq<char>, present: Seq<Seq<char>>, columns: bool)
    ensures
        count_kind(
            concat_map(names, missing_line_fn(id, present, columns)),
            if columns { ViolationKind::MissingRequiredColumn } else { ViolationKind::MissingRequiredRow },
        ) == absent_count(names, present),
        count_kind(
            concat_map(names, missing_line_fn(id, present, columns)),
            if columns { ViolationKind::MissingRequiredRow } else { ViolationKind::MissingRequiredColumn },
        ) == 0,
    decreases names.len(),
{
    let k = if columns { ViolationKind::MissingRequiredColumn } else { ViolationKind::MissingRequiredRow };
    let o = if columns { ViolationKind::MissingRequiredRow } else { ViolationKind::MissingRequiredColumn };
    let f = missing_line_fn(id, present, columns);
    if names.len() > 0 {
        lemma_missing_count(names.drop_last(), id, present, columns);
        lemma_count_add(concat_map(names.drop_last(), f), f(names.last()), k);
        lemma_count_add(concat_map(names.drop_last(), f), f(names.last()), o);
        let piece = f(names.last());
        if present.contains(names.last()) {
            assert(piece =~= Seq::<ViolationModel>::empty());
            assert(count_kind(piece, k) == 0);
            assert(count_kind(piece, o) == 0);
        } else {
            assert(piece.len() == 1);
            assert(piece.drop_last() =~= Seq::<ViolationModel>::empty());
            assert(count_kind(piece.drop_last(), k) == 0);
            assert(count_kind(piece.drop_last(), o) == 0);
            assert(piece.last().kind == k);
            assert(count_kind(piece, k) == 1);
            assert(count_kind(piece, o) == 0);
        }
        assert(concat_map(names, f) == concat_map(names.drop_last(), f) + piece);
    } else {
        assert(concat_map(names, f) =~= Seq::<ViolationModel>::empty());
    }
}

/// Required names counted: validation reports as many missing required
/// columns as there are names some applying header constraint requires
/// (each once) that the sheet's headers lack; and, with row headers on, as
/// many missing required rows as required row names that no row label has.
pub proof fn law_missing_names_counted(
    headers: Seq<HeaderConstraint>,
    values: Seq<ValueConstraint>,
    sheet: Sheet,
    order: spec_fn(Seq<char>, Seq<char>) -> NumOrder,
)
    ensures
        count_kind(spec_validate(headers, values, sheet, order), ViolationKind::MissingRequiredColumn) == absent_count(
            required_names(headers_for(headers, sheet.spec_id()), true),
            sheet.spec_headers(),
        ),
        count_kind(spec_validate(headers, values, sheet, order), ViolationKind::MissingRequiredRow) == if sheet.spec_has_row_headers() {
            absent_count(required_names(headers_for(headers, sheet.spec_id()), false), row_labels(sheet))
        } else {
            0
        },
{
    let id = sheet.spec_id();
    let hs = sheet.spec_headers();
    let matched = headers_for(headers, id);
    let n = sheet.ids().len() as int;
    let rn = required_names(matched, true);
    let rr = required_names(matched, false);
    let p1 = concat_map(rn, missing_line_fn(id, hs, true));
    let p2 = if matched.len() == 0 {
        Seq::empty()
    } else {
        concat_map(range(hs.len() as int), disallowed_fn(id, matched, hs))
    };
    let q1 = concat_map(rr, missing_line_fn(id, row_labels(sheet), false));
    let q2 = if matched.len() == 0 {
        Seq::empty()
    } else {
        concat_map(range(n), disallowed_row_fn(id, matched, sheet))
    };
    let p3 = if sheet.spec_has_row_headers() {
        q1 + q2
    } else {
        Seq::empty()
    };
    let p4 = concat_map(values_for_sheet(values, id), value_fn(sheet, order));
    assert(spec_validate(headers, values, sheet, order) == p1 + p2 + p3 + p4);
    let vs = values_for_sheet(values, id);
    let ks = seq![ViolationKind::MissingRequiredColumn, ViolationKind::MissingRequiredRow];
    lemma_missing_count(rn, id, hs, true);
    lemma_missing_count(rr, id, row_labels(sheet), false);
    assert forall|t: int| 0 <= t < 2 implies {
        let k = #[trigger] ks[t];
        &&& count_kind(p2, k) == 0
        &&& count_kind(q2, k) == 0
        &&& count_kind(p4, k) == 0
    } by {
        let k = ks[t];
        assert forall|p: Option<CellPos>| !#[trigger] has_at(p2, k, p) by {
            if matched.len() > 0 {
                let cs = range(hs.len() as int);
                assert forall|i: int| 0 <= i < cs.len() implies !has_at(#[trigger] disallowed_fn(id, matched, hs)(cs[i]), k, p) by {}
                lemma_concat_kinds(cs, disallowed_fn(id, matched, hs), k, p);
            }
        }
        lemma_count_from_has_at(p2, k);
        assert forall|p: Option<CellPos>| !#[trigger] has_at(q2, k, p) by {
            if matched.len() > 0 {
                let rs = range(n);
                assert forall|i: int| 0 <= i < rs.len() implies !has_at(#[trigger] disallowed_row_fn(id, matched, sheet)(rs[i]), k, p) by {}
                lemma_concat_kinds(rs, disallowed_row_fn(id, matched, sheet), k, p);
            }
        }
        lemma_count_from_has_at(q2, k);
        assert forall|p: Option<CellPos>| !#[trigger] has_at(p4, k, p) by {
            assert forall|i: int| 0 <= i < vs.len() implies !has_at(#[trigger] value_fn(sheet, order)(vs[i]), k, p) by {
                lemma_value_kinds(vs[i], sheet, order, k, p);
            }
            lemma_concat_kinds(vs, value_fn(sheet, order), k, p);
        }
        lemma_count_from_has_at(p4, k);
    }
    assert(ks[0] == ViolationKind::MissingRequiredColumn);
    assert(ks[1] == ViolationKind::MissingRequiredRow);
    let kc = ViolationKind::MissingRequiredColumn;
    let kr = ViolationKind::MissingRequiredRow;
    lemma_count_add(p1 + p2 + p3, p4, kc);
    lemma_count_add(p1 + p2, p3, kc);
    lemma_count_add(p1, p2, kc);
    lemma_count_add(p1 + p2 + p3, p4, kr);
    lemma_count_add(p1 + p2, p3, kr);
    lemma_count_add(p1, p2, kr);
    lemma_count_add(q1, q2, kc);
    lemma_count_add(q1, q2, kr);
    if !sheet.spec_has_row_headers() {
        assert(count_kind(p3, kc) == 0);
        assert(count_kind(p3, kr) == 0);
    }
}

/// `has_at` of the whole validation from `has_at` of the value part.
proof fn lemma_value_part_reported(
    headers: Seq<HeaderConstraint>,
    values: Seq<ValueConstraint>,
    sheet: Sheet,
    order: spec_fn(Seq<char>, Seq<char>) -> NumOrder,
    j: int,
    k: ViolationKind,
    p: Option<CellPos>,
)
    requires
        0 <= j < values_for_sheet(values, sheet.spec_id()).len(),
        has_at(value_fn(sheet, order)(values_for_sheet(values, sheet.spec_id())[j]), k, p),
    ensures
        has_at(spec_validate(headers, values, sheet, order), k, p),
{
    let id = sheet.spec_id();
    let vs = values_for_sheet(values, id);
    let p4 = concat_map(vs, value_fn(sheet, order));
    lemma_has_at_concat(vs, value_fn(sheet, order), k, p);
    let v = spec_validate(headers, values, sheet, order);
    let front = v.take(v.len() - p4.len());
    assert(v =~= front + p4);
    lemma_has_at_add(front, p4, k, p);
}

/// A column-targeted value rule is checked at every data row where it
/// applies, in the last column of its name: a cell that breaks the rules is
/// reported at its position with the kind the rules give.
pub proof fn law_column_rule_reported(
    headers: Seq<HeaderConstraint>,
    values: Seq<ValueConstraint>,
    sheet: Sheet,
    order: spec_fn(Seq<char>, Seq<char>) -> NumOrder,
    j: int,
    r: usize,
    ci: usize,
    k: ViolationKind,
)
    requires
        0 <= j < values_for_sheet(values, sheet.spec_id()).len(),
        values_for_sheet(values, sheet.spec_id())[j].target matches LineTarget::Column(col)
            && crate::constraints::last_index_of(sheet.spec_headers(), col@) == Some(ci as int),
        (r as int) < sheet.ids().len(),
        values_for_sheet(values, sheet.spec_id())[j].spec_applies(sheet, r as int, order),
        values_for_sheet(values, sheet.spec_id())[j].rules.spec_check(
            crate::constraints::cell_or_empty(sheet, r as int, ci as int),
            order,
        ) == Err::<(), ViolationKind>(k),
    ensures
        has_at(spec_validate(headers, values, sheet, order), k, Some(CellPos { row: r, col: ci })),
{
    let vc = values_for_sheet(values, sheet.spec_id())[j];
    let p = Some(CellPos { row: r, col: ci });
    let col = vc.target->Column_0;
    let f = value_row_fn(vc, sheet, ci as int, col@, order);
    let rs = range(sheet.ids().len() as int);
    assert(rs[r as int] == r as int);
    assert(f(rs[r as int])[0].kind == k && f(rs[r as int])[0].pos == p);
    assert(has_at(f(rs[r as int]), k, p));
    lemma_has_at_concat(rs, f, k, p);
    lemma_value_part_reported(headers, values, sheet, order, j, k, p);
}

/// A row-targeted value rule is checked in every data row labelled with
/// the target's name where it applies, at each cell after the label column
/// (up to the header count, or further where the row itself is longer):
/// a cell that breaks the rules is reported at its position with the kind
/// the rules give.
pub proof fn law_row_rule_reported(
    headers: Seq<HeaderConstraint>,
    values: Seq<ValueConstraint>,
    sheet: Sheet,
    order: spec_fn(Seq<char>, Seq<char>) -> NumOrder,
    j: int,
    r: usize,
    ci: usize,
    k: ViolationKind,
)
    requires
        0 <= j < values_for_sheet(values, sheet.spec_id()).len(),
        values_for_sheet(values, sheet.spec_id())[j].target matches LineTarget::Row(lab)
            && sheet.spec_row_label(r as int) == Some(lab@),
        (r as int) < sheet.ids().len(),
        1 <= ci < crate::constraints::row_span(sheet, r as int),
        values_for_sheet(values, sheet.spec_id())[j].spec_applies(sheet, r as int, order),
        values_for_sheet(values, sheet.spec_id())[j].rules.spec_check(
            crate::constraints::cell_or_empty(sheet, r as int, ci as int),
            order,
        ) == Err::<(), ViolationKind>(k),
    ensures
        has_at(spec_validate(headers, values, sheet, order), k, Some(CellPos { row: r, col: ci })),
{
    let vc = values_for_sheet(values, sheet.spec_id())[j];
    let p = Some(CellPos { row: r, col: ci });
    let lab = vc.target->Row_0;
    let g = row_target_fn(vc, sheet, lab@, order);
    let h = row_cell_fn(vc, sheet, r as int, lab@, order);
    let cs = columns_after_first(crate::constraints::row_span(sheet, r as int));
    let t = ci as int - 1;
    assert(cs[t] == ci as int);
    assert(h(cs[t])[0].kind == k && h(cs[t])[0].pos == p);
    assert(has_at(h(cs[t]), k, p));
    lemma_has_at_concat(cs, h, k, p);
    let rs = range(sheet.ids().len() as int);
    assert(rs[r as int] == r as int);
    assert(has_at(g(rs[r as int]), k, p));
    lemma_has_at_concat(rs, g, k, p);
    lemma_value_part_reported(headers, values, sheet, order, j, k, p);
}

} // verus!
