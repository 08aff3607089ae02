//! Constraints on sheets, read from `.constraints.toml`. Two kinds only:
//! header constraints (`[[header]]`: which row and column names a sheet must
//! have and may have) and value constraints (`[[value]]`: rules on cell
//! values). Static checks find contradictions between header constraints
//! and rules that do not fit their value type; validation lists the places
//! where a sheet breaks the constraints. Both return their findings as data
//! to show, never as a failure.

pub mod combined;
pub mod laws;
pub mod names;
pub mod raw;
pub mod rules;
pub mod when;

use crate::constraints::names::{insert_name_exec, insert_names, lemma_insert_names, strictly_sorted};
use crate::constraints::rules::{names_view, ValueRules, ValueType};
use crate::constraints::when::{holds, opt_view};
pub use crate::constraints::when::{numeric_order, total_order_fn, NumOrder, WhenExpr};
use crate::glob::GlobPattern;
use crate::sheet::{CellPos, Sheet};
use crate::text::{debug_quoted, debug_str, str_eq};
use crate::validation::{violations_model, ConstraintError, Violation, ViolationKind, ViolationModel};
use vstd::string::StringExecFns;
use vstd::prelude::*;

verus! {

/// The list that results from appending `f(x)` for each `x` of `s`, in order.
pub open spec fn concat_map<A, B>(s: Seq<A>, f: spec_fn(A) -> Seq<B>) -> Seq<B>
    decreases s.len(),
{
    if s.len() == 0 {
        Seq::empty()
    } else {
        concat_map(s.drop_last(), f) + f(s.last())
    }
}

/// One more element of `s` appends its image.
pub proof fn lemma_concat_map_step<A, B>(s: Seq<A>, f: spec_fn(A) -> Seq<B>, i: int)
    requires
        0 <= i < s.len(),
    ensures
        concat_map(s.take(i + 1), f) == concat_map(s.take(i), f) + f(s[i]),
{
    assert(s.take(i + 1).drop_last() == s.take(i));
    assert(s.take(i + 1).last() == s[i]);
}

/// The whole of `s` is its longest prefix.
pub proof fn lemma_take_all<A>(s: Seq<A>)
    ensures
        s.take(s.len() as int) == s,
{
    assert(s.take(s.len() as int) =~= s);
}

/// A header constraint: for the sheets that `sheet` matches, the columns and
/// rows that are required (exact names) and those that are allowed besides
/// (glob patterns). Everything else is not allowed.
#[derive(Debug)]
pub struct HeaderConstraint {
    pub sheet: GlobPattern,
    pub column_require: Vec<String>,
    pub column_optional: Vec<GlobPattern>,
    pub row_require: Vec<String>,
    pub row_optional: Vec<GlobPattern>,
}

/// Whether some pattern of `gs` matches `name`.
pub open spec fn some_glob_matches(gs: Seq<GlobPattern>, name: Seq<char>) -> bool {
    exists|i: int| 0 <= i < gs.len() && #[trigger] gs[i].spec_matches(name)
}

/// Whether `name` is one of `required` or matches one of `optional`.
pub open spec fn name_allowed(required: Seq<String>, optional: Seq<GlobPattern>, name: Seq<char>) -> bool {
    names_view(required).contains(name) || some_glob_matches(optional, name)
}

/// Whether `name` is one of `v`.
fn contains_name(v: &Vec<String>, name: &str) -> (r: bool)
    ensures
        r == names_view(v@).contains(name@),
{
    let mut i: usize = 0;
    while i < v.len()
        invariant
            i <= v@.len(),
            forall|j: int| 0 <= j < i ==> v@[j]@ != name@,
        decreases v@.len() - i,
    {
        if str_eq(v[i].as_str(), name) {
            assert(names_view(v@)[i as int] == name@);
            return true;
        }
        i = i + 1;
    }
    proof {
        assert forall|j: int| 0 <= j < names_view(v@).len() implies names_view(v@)[j] != name@ by {
            assert(names_view(v@)[j] == v@[j]@);
        }
    }
    false
}

/// Whether some pattern of `gs` matches `name`.
fn any_glob_matches(gs: &Vec<GlobPattern>, name: &str) -> (r: bool)
    ensures
        r == some_glob_matches(gs@, name@),
{
    let mut i: usize = 0;
    while i < gs.len()
        invariant
            i <= gs@.len(),
            forall|j: int| 0 <= j < i ==> !(#[trigger] gs@[j]).spec_matches(name@),
        decreases gs@.len() - i,
    {
        if gs[i].matches(name) {
            return true;
        }
        i = i + 1;
    }
    false
}

impl HeaderConstraint {
    /// Whether the constraint applies to sheet `id`.
    pub open spec fn spec_matches_sheet(&self, id: Seq<char>) -> bool {
        self.sheet.spec_matches(id)
    }

    /// Whether column `name` is allowed: required or matched by an optional pattern.
    pub open spec fn spec_column_allowed(&self, name: Seq<char>) -> bool {
        name_allowed(self.column_require@, self.column_optional@, name)
    }

    /// Whether row `name` is allowed: required or matched by an optional pattern.
    pub open spec fn spec_row_allowed(&self, name: Seq<char>) -> bool {
        name_allowed(self.row_require@, self.row_optional@, name)
    }

    /// Whether the constraint applies to sheet `id`.
    pub fn matches_sheet(&self, id: &str) -> (r: bool)
        ensures
            r == self.spec_matches_sheet(id@),
    {
        self.sheet.matches(id)
    }

    /// Whether column `name` is allowed (strict by default: neither required
    /// nor optional means not allowed).
    pub fn column_allowed(&self, name: &str) -> (r: bool)
        ensures
            r == self.spec_column_allowed(name@),
    {
        contains_name(&self.column_require, name) || any_glob_matches(&self.column_optional, name)
    }

    /// Whether row `name` is allowed.
    pub fn row_allowed(&self, name: &str) -> (r: bool)
        ensures
            r == self.spec_row_allowed(name@),
    {
        contains_name(&self.row_require, name) || any_glob_matches(&self.row_optional, name)
    }
}

/// The line a value constraint is about: a column or a row.
#[derive(Debug, Clone, PartialEq)]
pub enum LineTarget {
    Column(String),
    Row(String),
}

/// A value constraint: for the sheets that `sheet` matches, the rules that
/// the values of a line must meet, in the rows where `when` holds.
#[derive(Debug)]
pub struct ValueConstraint {
    pub sheet: GlobPattern,
    pub target: LineTarget,
    pub rules: ValueRules,
    pub when: Option<WhenExpr>,
}

impl ValueConstraint {
    /// Whether the constraint applies to sheet `id`.
    pub open spec fn spec_matches_sheet(&self, id: Seq<char>) -> bool {
        self.sheet.spec_matches(id)
    }

    /// Whether the constraint applies to data row `r` of `sheet`: always
    /// without `when`, otherwise when `when` holds for the row.
    pub open spec fn spec_applies(&self, sheet: Sheet, r: int, order: spec_fn(Seq<char>, Seq<char>) -> NumOrder) -> bool {
        match self.when {
            None => true,
            Some(w) => holds(w.model(), sheet.spec_row_map(r), sheet.spec_row_label(r), order),
        }
    }

    /// Whether the constraint applies to sheet `id`.
    pub fn matches_sheet(&self, id: &str) -> (r: bool)
        ensures
            r == self.spec_matches_sheet(id@),
    {
        self.sheet.matches(id)
    }

    /// Whether the constraint applies to data row `data_row` of `sheet`.
    /// `num` compares texts as numbers.
    pub fn applies<F: Fn(&str, &str) -> NumOrder>(&self, sheet: &Sheet, data_row: usize, num: &F) -> (r: bool)
        requires
            total_order_fn(*num),
        ensures
            forall|order: spec_fn(Seq<char>, Seq<char>) -> NumOrder| #[trigger] numeric_order(*num, order)
                ==> r == self.spec_applies(*sheet, data_row as int, order),
    {
        match &self.when {
            None => true,
            Some(w) => {
                let cols = sheet.row_map(data_row);
                let label = sheet.row_label(data_row);
                proof {
                    assert(opt_view(label) == sheet.spec_row_label(data_row as int));
                }
                w.eval(&cols, label, num)
            },
        }
    }
}

/// All constraints of a project.
#[derive(Debug)]
pub struct Constraints {
    pub headers: Vec<HeaderConstraint>,
    pub values: Vec<ValueConstraint>,
}

impl Default for Constraints {
    fn default() -> (r: Self)
        ensures
            r.headers@.len() == 0,
            r.values@.len() == 0,
    {
        Constraints { headers: Vec::new(), values: Vec::new() }
    }
}

/// The header constraints of `hs` that apply to sheet `id`, in order.
pub open spec fn headers_for(hs: Seq<HeaderConstraint>, id: Seq<char>) -> Seq<HeaderConstraint>
    decreases hs.len(),
{
    if hs.len() == 0 {
        Seq::empty()
    } else {
        let init = headers_for(hs.drop_last(), id);
        if hs.last().spec_matches_sheet(id) {
            init.push(hs.last())
        } else {
            init
        }
    }
}

/// The value constraints of `vs` that apply to sheet `id`, in order.
pub open spec fn values_for_sheet(vs: Seq<ValueConstraint>, id: Seq<char>) -> Seq<ValueConstraint>
    decreases vs.len(),
{
    if vs.len() == 0 {
        Seq::empty()
    } else {
        let init = values_for_sheet(vs.drop_last(), id);
        if vs.last().spec_matches_sheet(id) {
            init.push(vs.last())
        } else {
            init
        }
    }
}

/// The names the headers `hs` require (columns when `columns`, rows
/// otherwise), as an ordered set.
pub open spec fn required_names(hs: Seq<HeaderConstraint>, columns: bool) -> Seq<Seq<char>>
    decreases hs.len(),
{
    if hs.len() == 0 {
        Seq::empty()
    } else {
        let h = hs.last();
        insert_names(
            required_names(hs.drop_last(), columns),
            names_view(if columns { h.column_require@ } else { h.row_require@ }),
        )
    }
}

/// The header constraints that apply to one sheet, combined with AND: a
/// name is required when some of them requires it, allowed when all of them
/// allow it.
pub struct EffectiveHeader<'a> {
    /// The required column names, in increasing order.
    pub column_required: Vec<String>,
    /// The required row names, in increasing order.
    pub row_required: Vec<String>,
    matched: Vec<&'a HeaderConstraint>,
}

/// The header constraints behind a list of references.
pub open spec fn deref_headers(v: Seq<&HeaderConstraint>) -> Seq<HeaderConstraint> {
    v.map_values(|h: &HeaderConstraint| *h)
}

impl<'a> EffectiveHeader<'a> {
    /// The header constraints combined.
    pub closed spec fn matched(&self) -> Seq<HeaderConstraint> {
        deref_headers(self.matched@)
    }

    /// The required column names.
    pub closed spec fn spec_column_required(&self) -> Seq<Seq<char>> {
        names_view(self.column_required@)
    }

    /// The required row names.
    pub closed spec fn spec_row_required(&self) -> Seq<Seq<char>> {
        names_view(self.row_required@)
    }

    /// Whether every combined header constraint allows column `name`.
    pub open spec fn spec_column_allowed(&self, name: Seq<char>) -> bool {
        forall|i: int| 0 <= i < self.matched().len() ==> #[trigger] self.matched()[i].spec_column_allowed(name)
    }

    /// Whether every combined header constraint allows row `name`.
    pub open spec fn spec_row_allowed(&self, name: Seq<char>) -> bool {
        forall|i: int| 0 <= i < self.matched().len() ==> #[trigger] self.matched()[i].spec_row_allowed(name)
    }

    /// Whether every combined header constraint allows column `name`.
    pub fn column_allowed(&self, name: &str) -> (r: bool)
        ensures
            r == self.spec_column_allowed(name@),
    {
        let mut i: usize = 0;
        while i < self.matched.len()
            invariant
                i <= self.matched@.len(),
                forall|j: int| 0 <= j < i ==> (#[trigger] self.matched()[j]).spec_column_allowed(name@),
            decreases self.matched@.len() - i,
        {
            if !self.matched[i].column_allowed(name) {
                assert(!self.matched()[i as int].spec_column_allowed(name@));
                return false;
            }
            i = i + 1;
        }
        true
    }

    /// Whether every combined header constraint allows row `name`.
    pub fn row_allowed(&self, name: &str) -> (r: bool)
        ensures
            r == self.spec_row_allowed(name@),
    {
        let mut i: usize = 0;
        while i < self.matched.len()
            invariant
                i <= self.matched@.len(),
                forall|j: int| 0 <= j < i ==> (#[trigger] self.matched()[j]).spec_row_allowed(name@),
            decreases self.matched@.len() - i,
        {
            if !self.matched[i].row_allowed(name) {
                assert(!self.matched()[i as int].spec_row_allowed(name@));
                return false;
            }
            i = i + 1;
        }
        true
    }

    /// Whether no header constraint applies.
    fn matched_is_empty(&self) -> (r: bool)
        ensures
            r == (self.matched().len() == 0),
    {
        self.matched.len() == 0
    }
}

impl Constraints {
    /// The header constraints that apply to sheet `id`, combined with AND.
    pub fn effective_header(&self, id: &str) -> (e: EffectiveHeader<'_>)
        ensures
            e.matched() == headers_for(self.headers@, id@),
            e.spec_column_required() == required_names(headers_for(self.headers@, id@), true),
            e.spec_row_required() == required_names(headers_for(self.headers@, id@), false),
    {
        let mut matched: Vec<&HeaderConstraint> = Vec::new();
        let mut column_required: Vec<String> = Vec::new();
        let mut row_required: Vec<String> = Vec::new();
        let mut i: usize = 0;
        while i < self.headers.len()
            invariant
                i <= self.headers@.len(),
                deref_headers(matched@) == headers_for(self.headers@.take(i as int), id@),
                names_view(column_required@) == required_names(deref_headers(matched@), true),
                names_view(row_required@) == required_names(deref_headers(matched@), false),
            decreases self.headers@.len() - i,
        {
            assert(self.headers@.take(i + 1).drop_last() == self.headers@.take(i as int));
            let h = &self.headers[i];
            if h.matches_sheet(id) {
                let ghost before = deref_headers(matched@);
                matched.push(h);
                assert(deref_headers(matched@) =~= before.push(*h));
                assert(deref_headers(matched@).drop_last() =~= before);
                let mut k: usize = 0;
                let ghost cr0 = names_view(column_required@);
                while k < h.column_require.len()
                    invariant
                        k <= h.column_require@.len(),
                        names_view(column_required@) == insert_names(cr0, names_view(h.column_require@).take(k as int)),
                    decreases h.column_require@.len() - k,
                {
                    let ghost hv = names_view(h.column_require@);
                    assert(hv.take(k + 1).drop_last() == hv.take(k as int));
                    insert_name_exec(&mut column_required, &h.column_require[k]);
                    k = k + 1;
                }
                proof {
                    lemma_take_all(names_view(h.column_require@));
                }
                let mut k: usize = 0;
                let ghost rr0 = names_view(row_required@);
                while k < h.row_require.len()
                    invariant
                        k <= h.row_require@.len(),
                        names_view(row_required@) == insert_names(rr0, names_view(h.row_require@).take(k as int)),
                    decreases h.row_require@.len() - k,
                {
                    let ghost hv = names_view(h.row_require@);
                    assert(hv.take(k + 1).drop_last() == hv.take(k as int));
                    insert_name_exec(&mut row_required, &h.row_require[k]);
                    k = k + 1;
                }
                proof {
                    lemma_take_all(names_view(h.row_require@));
                }
            }
            i = i + 1;
        }
        proof {
            lemma_take_all(self.headers@);
        }
        EffectiveHeader { column_required, row_required, matched }
    }

    /// The value constraints that apply to sheet `id`, in order.
    pub fn values_for(&self, id: &str) -> (r: Vec<&ValueConstraint>)
        ensures
            r@.map_values(|v: &ValueConstraint| *v) == values_for_sheet(self.values@, id@),
    {
        let mut r: Vec<&ValueConstraint> = Vec::new();
        let mut i: usize = 0;
        while i < self.values.len()
            invariant
                i <= self.values@.len(),
                r@.map_values(|v: &ValueConstraint| *v) == values_for_sheet(self.values@.take(i as int), id@),
            decreases self.values@.len() - i,
        {
            assert(self.values@.take(i + 1).drop_last() == self.values@.take(i as int));
            let v = &self.values[i];
            if v.matches_sheet(id) {
                let ghost before = r@.map_values(|v: &ValueConstraint| *v);
                r.push(v);
                assert(r@.map_values(|v: &ValueConstraint| *v) =~= before.push(*v));
            }
            i = i + 1;
        }
        proof {
            lemma_take_all(self.values@);
        }
        r
    }
}

/// The messages of a list of constraint errors.
pub open spec fn errors_view(v: Seq<ConstraintError>) -> Seq<Seq<char>> {
    v.map_values(|e: ConstraintError| e.message@)
}

/// The message for value rules that do not fit their type.
pub open spec fn compat_message(raw: Seq<char>, m: Seq<char>) -> Seq<char> {
    "[value sheet="@ + raw + "] "@ + m
}

/// The message (if any) for the rules of one value constraint.
pub open spec fn compat_fn() -> spec_fn(ValueConstraint) -> Seq<Seq<char>> {
    |v: ValueConstraint|
        match v.rules.spec_compat() {
            Err(m) => seq![compat_message(v.sheet.raw_view(), m)],
            Ok(_) => Seq::empty(),
        }
}

/// The messages for the value constraints whose rules do not fit their type.
pub open spec fn compat_messages(vs: Seq<ValueConstraint>) -> Seq<Seq<char>> {
    concat_map(vs, compat_fn())
}

/// The message for a required name (of a column when `what` is `列 `, of a
/// row when it is `行 `) that another header constraint does not allow.
pub open spec fn conflict_message(id: Seq<char>, what: Seq<char>, req: Seq<char>) -> Seq<char> {
    "[header sheet="@ + id + "] "@ + what + debug_quoted(req) + " が必須だが別の header が禁止（矛盾）"@
}

/// The message (if any) for header constraint `o` and the required name `req`.
pub open spec fn req_conflict_fn(id: Seq<char>, req: Seq<char>, columns: bool) -> spec_fn(HeaderConstraint) -> Seq<Seq<char>> {
    |o: HeaderConstraint|
        if (if columns { o.spec_column_allowed(req) } else { o.spec_row_allowed(req) }) {
            Seq::empty()
        } else {
            seq![conflict_message(id, if columns { "列 "@ } else { "行 "@ }, req)]
        }
}

/// One message per header constraint of `matched` that does not allow the
/// required name `req`.
pub open spec fn conflicts_for_req(id: Seq<char>, matched: Seq<HeaderConstraint>, req: Seq<char>, columns: bool) -> Seq<Seq<char>> {
    concat_map(matched, req_conflict_fn(id, req, columns))
}

/// The messages for one required name.
pub open spec fn req_conflicts_fn(id: Seq<char>, matched: Seq<HeaderConstraint>, columns: bool) -> spec_fn(Seq<char>) -> Seq<Seq<char>> {
    |req: Seq<char>| conflicts_for_req(id, matched, req, columns)
}

/// The contradiction messages for the names that `h` requires.
pub open spec fn conflicts_for_header(id: Seq<char>, matched: Seq<HeaderConstraint>, h: HeaderConstraint) -> Seq<Seq<char>> {
    concat_map(names_view(h.column_require@), req_conflicts_fn(id, matched, true))
        + concat_map(names_view(h.row_require@), req_conflicts_fn(id, matched, false))
}

/// The messages for one header constraint.
pub open spec fn header_conflicts_fn(id: Seq<char>, matched: Seq<HeaderConstraint>) -> spec_fn(HeaderConstraint) -> Seq<Seq<char>> {
    |h: HeaderConstraint| conflicts_for_header(id, matched, h)
}

/// The contradiction messages for sheet `id`: none unless two or more header
/// constraints apply to it.
pub open spec fn conflicts_for_sheet(hs: Seq<HeaderConstraint>, id: Seq<char>) -> Seq<Seq<char>> {
    let matched = headers_for(hs, id);
    if matched.len() < 2 {
        Seq::empty()
    } else {
        concat_map(matched, header_conflicts_fn(id, matched))
    }
}

/// The messages for one sheet.
pub open spec fn sheet_conflicts_fn(hs: Seq<HeaderConstraint>) -> spec_fn(Seq<char>) -> Seq<Seq<char>> {
    |id: Seq<char>| conflicts_for_sheet(hs, id)
}

/// Whether two targets name the same line (the same column, or the same row).
pub open spec fn same_line(a: LineTarget, b: LineTarget) -> bool {
    match (a, b) {
        (LineTarget::Column(x), LineTarget::Column(y)) => x@ == y@,
        (LineTarget::Row(x), LineTarget::Row(y)) => x@ == y@,
        _ => false,
    }
}

/// The name of a value type as written in the constraint file.
pub open spec fn value_type_text(t: ValueType) -> Seq<char> {
    match t {
        ValueType::String => "string"@,
        ValueType::Int => "int"@,
        ValueType::Float => "float"@,
    }
}

/// `列 "name"` for a column target, `行 "name"` for a row target.
pub open spec fn line_text(t: LineTarget) -> Seq<char> {
    match t {
        LineTarget::Column(x) => "列 "@ + debug_quoted(x@),
        LineTarget::Row(x) => "行 "@ + debug_quoted(x@),
    }
}

/// The message for two value constraints of sheet `id` that give the same
/// line the types `a` and `b`.
pub open spec fn type_conflict_message(id: Seq<char>, t: LineTarget, a: ValueType, b: ValueType) -> Seq<char> {
    "[value sheet="@ + id + "] "@ + line_text(t) + " の type が矛盾（"@ + value_type_text(a) + " と "@ + value_type_text(b) + "）"@
}

/// Whether two lists of names share a name.
pub open spec fn lists_meet(x: Seq<Seq<char>>, y: Seq<Seq<char>>) -> bool {
    exists|s: Seq<char>| x.contains(s) && y.contains(s)
}

/// Whether both rule sets give a type and the types differ.
pub open spec fn types_clash(a: ValueRules, b: ValueRules) -> bool {
    a.ty is Some && b.ty is Some && a.ty != b.ty
}

/// Whether both rule sets list the allowed values and no value is in both lists.
pub open spec fn enums_disjoint(a: ValueRules, b: ValueRules) -> bool {
    match (a.enums, b.enums) {
        (Some(x), Some(y)) => !lists_meet(names_view(x@), names_view(y@)),
        _ => false,
    }
}

/// The message for two value constraints of sheet `id` whose `enum` lists
/// for the same line have no value in common.
pub open spec fn enum_conflict_message(id: Seq<char>, t: LineTarget) -> Seq<char> {
    "[value sheet="@ + id + "] "@ + line_text(t) + " の enum が矛盾（共通する値がない）"@
}

/// The messages for two value constraints on line `t` of sheet `id` with
/// rules `a` and `b`: one when their types differ, then one when their
/// `enum` lists share no value.
pub open spec fn rule_pair_messages(id: Seq<char>, t: LineTarget, a: ValueRules, b: ValueRules) -> Seq<Seq<char>> {
    let tm = if types_clash(a, b) {
        seq![type_conflict_message(id, t, a.ty->0, b.ty->0)]
    } else {
        Seq::empty()
    };
    let em = if enums_disjoint(a, b) {
        seq![enum_conflict_message(id, t)]
    } else {
        Seq::empty()
    };
    tm + em
}

/// The messages for the value constraints at `i` and `j` of `vs`, when
/// `i < j` and both target the same line: rules on one line are combined
/// with AND, so two types, or two `enum` lists with no value in common,
/// cannot hold together.
pub open spec fn pair_conflict_fn(id: Seq<char>, vs: Seq<ValueConstraint>, i: int) -> spec_fn(int) -> Seq<Seq<char>> {
    |j: int|
        if i < j && same_line(vs[i].target, vs[j].target) {
            rule_pair_messages(id, vs[i].target, vs[i].rules, vs[j].rules)
        } else {
            Seq::empty()
        }
}

/// The messages for the value constraint at `i` of `vs` and those after it.
pub open spec fn value_pair_conflicts_fn(id: Seq<char>, vs: Seq<ValueConstraint>) -> spec_fn(int) -> Seq<Seq<char>> {
    |i: int| concat_map(range(vs.len() as int), pair_conflict_fn(id, vs, i))
}

/// The contradictions (types, `enum` lists) between the value constraints of sheet `id`.
pub open spec fn value_conflicts_for_sheet(values: Seq<ValueConstraint>, id: Seq<char>) -> Seq<Seq<char>> {
    let vs = values_for_sheet(values, id);
    concat_map(range(vs.len() as int), value_pair_conflicts_fn(id, vs))
}

/// The value-rule contradictions for one sheet.
pub open spec fn value_sheet_conflicts_fn(values: Seq<ValueConstraint>) -> spec_fn(Seq<char>) -> Seq<Seq<char>> {
    |id: Seq<char>| value_conflicts_for_sheet(values, id)
}

/// Each item of `f(s[i])` is among `concat_map(s, f)`.
pub proof fn lemma_concat_map_contains<A, B>(s: Seq<A>, f: spec_fn(A) -> Seq<B>, i: int, k: int)
    requires
        0 <= i < s.len(),
        0 <= k < f(s[i]).len(),
    ensures
        concat_map(s, f).contains(f(s[i])[k]),
    decreases s.len(),
{
    let init = s.drop_last();
    let a = concat_map(init, f);
    let b = f(s.last());
    if i == s.len() - 1 {
        assert((a + b)[a.len() + k] == b[k]);
    } else {
        assert(init[i] == s[i]);
        lemma_concat_map_contains(init, f, i, k);
        let p = choose|p: int| 0 <= p < a.len() && a[p] == f(s[i])[k];
        assert((a + b)[p] == a[p]);
    }
}

/// A value rule with a `pattern` and type `int` or `float` is reported by
/// the static check, under the sheet pattern of its constraint, whatever
/// the sheets.
pub proof fn law_pattern_with_number_reported(
    values: Seq<ValueConstraint>,
    headers: Seq<HeaderConstraint>,
    ids: Seq<Seq<char>>,
    i: int,
)
    requires
        0 <= i < values.len(),
        values[i].rules.pattern is Some,
        values[i].rules.ty == Some(ValueType::Int) || values[i].rules.ty == Some(ValueType::Float),
    ensures
        spec_check_static(values, headers, ids).contains(
            "[value sheet="@ + values[i].sheet.raw_view() + "] "@ + "pattern は type=string のときのみ使えます"@,
        ),
{
    let f = compat_fn();
    assert(f(values[i]) == seq![compat_message(values[i].sheet.raw_view(), "pattern は type=string のときのみ使えます"@)]);
    lemma_concat_map_contains(values, f, i, 0);
    let all = spec_check_static(values, headers, ids);
    let a = compat_messages(values);
    let m = f(values[i])[0];
    let p = choose|p: int| 0 <= p < a.len() && a[p] == m;
    assert(all[p] == a[p]);
}

/// The static findings for a project with sheets `ids`: value rules that do
/// not fit their type, then header contradictions per sheet, then value
/// constraints of one sheet that give one line two different types or two
/// `enum` lists with no value in common.
pub open spec fn spec_check_static(values: Seq<ValueConstraint>, headers: Seq<HeaderConstraint>, ids: Seq<Seq<char>>) -> Seq<Seq<char>> {
    compat_messages(values) + concat_map(ids, sheet_conflicts_fn(headers)) + concat_map(ids, value_sheet_conflicts_fn(values))
}

/// The name of a value type.
fn value_type_text_exec(t: ValueType) -> (r: &'static str)
    ensures
        r@ == value_type_text(t),
{
    match t {
        ValueType::String => "string",
        ValueType::Int => "int",
        ValueType::Float => "float",
    }
}

/// `列 "name"` or `行 "name"`.
pub(crate) fn line_text_exec(t: &LineTarget) -> (r: String)
    ensures
        r@ == line_text(*t),
{
    match t {
        LineTarget::Column(x) => {
            let mut m = String::from_str("列 ");
            let q = debug_str(x.as_str());
            m.append(q.as_str());
            m
        },
        LineTarget::Row(x) => {
            let mut m = String::from_str("行 ");
            let q = debug_str(x.as_str());
            m.append(q.as_str());
            m
        },
    }
}

/// Whether two targets name the same line.
pub(crate) fn same_line_exec(a: &LineTarget, b: &LineTarget) -> (r: bool)
    ensures
        r == same_line(*a, *b),
{
    match (a, b) {
        (LineTarget::Column(x), LineTarget::Column(y)) => str_eq(x.as_str(), y.as_str()),
        (LineTarget::Row(x), LineTarget::Row(y)) => str_eq(x.as_str(), y.as_str()),
        _ => false,
    }
}

/// The message for two types given to one line of sheet `id`.
fn type_conflict_message_exec(id: &str, t: &LineTarget, a: ValueType, b: ValueType) -> (r: String)
    ensures
        r@ == type_conflict_message(id@, *t, a, b),
{
    let mut m = String::from_str("[value sheet=");
    m.append(id);
    m.append("] ");
    let lt = line_text_exec(t);
    m.append(lt.as_str());
    m.append(" の type が矛盾（");
    m.append(value_type_text_exec(a));
    m.append(" と ");
    m.append(value_type_text_exec(b));
    m.append("）");
    m
}

/// The message for two `enum` lists with no common value on one line of sheet `id`.
fn enum_conflict_message_exec(id: &str, t: &LineTarget) -> (r: String)
    ensures
        r@ == enum_conflict_message(id@, *t),
{
    let mut m = String::from_str("[value sheet=");
    m.append(id);
    m.append("] ");
    let lt = line_text_exec(t);
    m.append(lt.as_str());
    m.append(" の enum が矛盾（共通する値がない）");
    m
}

/// Whether `x` and `y` share a name.
fn lists_meet_exec(x: &Vec<String>, y: &Vec<String>) -> (r: bool)
    ensures
        r == lists_meet(names_view(x@), names_view(y@)),
{
    let mut i: usize = 0;
    while i < x.len()
        invariant
            i <= x@.len(),
            forall|p: int| 0 <= p < i ==> !names_view(y@).contains(#[trigger] x@[p]@),
        decreases x@.len() - i,
    {
        if contains_name(y, x[i].as_str()) {
            assert(names_view(x@)[i as int] == x@[i as int]@);
            assert(names_view(x@).contains(x@[i as int]@));
            return true;
        }
        i = i + 1;
    }
    proof {
        assert forall|s: Seq<char>| !(names_view(x@).contains(s) && names_view(y@).contains(s)) by {
            if names_view(x@).contains(s) {
                let p = choose|p: int| 0 <= p < names_view(x@).len() && names_view(x@)[p] == s;
                assert(names_view(x@)[p] == x@[p]@);
            }
        }
    }
    false
}

/// Whether both rule sets list the allowed values and no value is in both lists.
fn enums_disjoint_exec(a: &ValueRules, b: &ValueRules) -> (r: bool)
    ensures
        r == enums_disjoint(*a, *b),
{
    match (&a.enums, &b.enums) {
        (Some(x), Some(y)) => !lists_meet_exec(x, y),
        _ => false,
    }
}

/// Appends the contradictions (types, `enum` lists) between the value constraints of sheet `id`.
fn push_value_conflicts_for_sheet(out: &mut Vec<ConstraintError>, c: &Constraints, id: &str)
    ensures
        errors_view(final(out)@) == errors_view(old(out)@) + value_conflicts_for_sheet(c.values@, id@),
{
    let vcs = c.values_for(id);
    let ghost vs = vcs@.map_values(|v: &ValueConstraint| *v);
    let n = vcs.len();
    let ghost start = errors_view(out@);
    let ghost fi = value_pair_conflicts_fn(id@, vs);
    let mut i: usize = 0;
    while i < n
        invariant
            i <= n,
            n == vcs@.len(),
            vs == vcs@.map_values(|v: &ValueConstraint| *v),
            fi == value_pair_conflicts_fn(id@, vs),
            start == errors_view(old(out)@),
            errors_view(out@) == start + concat_map(range(n as int).take(i as int), fi),
        decreases n - i,
    {
        let ghost mid = errors_view(out@);
        let ghost fj = pair_conflict_fn(id@, vs, i as int);
        let mut j: usize = 0;
        while j < n
            invariant
                i < n,
                j <= n,
                n == vcs@.len(),
                vs == vcs@.map_values(|v: &ValueConstraint| *v),
                fj == pair_conflict_fn(id@, vs, i as int),
                errors_view(out@) == mid + concat_map(range(n as int).take(j as int), fj),
            decreases n - j,
        {
            proof {
                lemma_concat_map_step(range(n as int), fj, j as int);
            }
            assert(range(n as int)[j as int] == j as int);
            assert(vs[i as int] == *vcs[i as int]);
            assert(vs[j as int] == *vcs[j as int]);
            let ghost before = errors_view(out@);
            if i < j && same_line_exec(&vcs[i].target, &vcs[j].target) {
                let ghost t = vs[i as int].target;
                let ghost ra = vs[i as int].rules;
                let ghost rb = vs[j as int].rules;
                match (vcs[i].rules.ty, vcs[j].rules.ty) {
                    (Some(a), Some(b)) => {
                        if a != b {
                            let m = type_conflict_message_exec(id, &vcs[i].target, a, b);
                            out.push(ConstraintError::new(m));
                        }
                    },
                    _ => {},
                }
                let ghost tm = if types_clash(ra, rb) {
                    seq![type_conflict_message(id@, t, ra.ty->0, rb.ty->0)]
                } else {
                    Seq::<Seq<char>>::empty()
                };
                assert(errors_view(out@) =~= before + tm);
                if enums_disjoint_exec(&vcs[i].rules, &vcs[j].rules) {
                    let m = enum_conflict_message_exec(id, &vcs[i].target);
                    out.push(ConstraintError::new(m));
                }
                assert(errors_view(out@) =~= before + fj(j as int));
            } else {
                assert(errors_view(out@) =~= before + fj(j as int));
            }
            j = j + 1;
        }
        proof {
            lemma_range_take(n as int, n as int);
            lemma_concat_map_step(range(n as int), fi, i as int);
        }
        assert(range(n as int)[i as int] == i as int);
        assert(errors_view(out@) =~= start + concat_map(range(n as int).take(i + 1), fi));
        i = i + 1;
    }
    proof {
        lemma_range_take(n as int, n as int);
    }
}

/// `"[header sheet=" + id + "] " + what + req:? + " が必須だが別の header が禁止（矛盾）"`.
fn conflict_message_exec(id: &str, what: &str, req: &str) -> (r: String)
    ensures
        r@ == conflict_message(id@, what@, req@),
{
    let mut m = String::from_str("[header sheet=");
    m.append(id);
    m.append("] ");
    m.append(what);
    let q = debug_str(req);
    m.append(q.as_str());
    m.append(" が必須だが別の header が禁止（矛盾）");
    m
}

/// Appends one message per header constraint of `matched` that does not
/// allow the required name `req`.
fn push_conflicts_for_req(out: &mut Vec<ConstraintError>, id: &str, matched: &Vec<&HeaderConstraint>, req: &str, columns: bool)
    ensures
        errors_view(final(out)@) == errors_view(old(out)@) + conflicts_for_req(id@, deref_headers(matched@), req@, columns),
{
    let ghost ms = deref_headers(matched@);
    let ghost f = req_conflict_fn(id@, req@, columns);
    let mut k: usize = 0;
    while k < matched.len()
        invariant
            k <= matched@.len(),
            ms == deref_headers(matched@),
            f == req_conflict_fn(id@, req@, columns),
            errors_view(out@) == errors_view(old(out)@) + concat_map(ms.take(k as int), f),
        decreases matched@.len() - k,
    {
        proof {
            lemma_concat_map_step(ms, f, k as int);
        }
        let o = matched[k];
        let allowed = if columns { o.column_allowed(req) } else { o.row_allowed(req) };
        let ghost before = errors_view(out@);
        if !allowed {
            let what = if columns { "列 " } else { "行 " };
            let m = conflict_message_exec(id, what, req);
            out.push(ConstraintError::new(m));
            assert(errors_view(out@) =~= before + seq![m@]);
        } else {
            assert(errors_view(out@) =~= before + Seq::<Seq<char>>::empty());
        }
        assert(errors_view(out@) =~= errors_view(old(out)@) + concat_map(ms.take(k + 1), f));
        k = k + 1;
    }
    proof {
        lemma_take_all(ms);
    }
}

/// Appends the contradiction messages for sheet `id`.
fn push_conflicts_for_sheet(out: &mut Vec<ConstraintError>, headers: &Vec<HeaderConstraint>, id: &str)
    ensures
        errors_view(final(out)@) == errors_view(old(out)@) + conflicts_for_sheet(headers@, id@),
{
    let mut matched: Vec<&HeaderConstraint> = Vec::new();
    let mut i: usize = 0;
    while i < headers.len()
        invariant
            i <= headers@.len(),
            deref_headers(matched@) == headers_for(headers@.take(i as int), id@),
        decreases headers@.len() - i,
    {
        assert(headers@.take(i + 1).drop_last() == headers@.take(i as int));
        let h = &headers[i];
        if h.matches_sheet(id) {
            let ghost before = deref_headers(matched@);
            matched.push(h);
            assert(deref_headers(matched@) =~= before.push(*h));
        }
        i = i + 1;
    }
    proof {
        lemma_take_all(headers@);
    }
    let ghost ms = deref_headers(matched@);
    if matched.len() < 2 {
        assert(errors_view(out@) == errors_view(old(out)@) + Seq::<Seq<char>>::empty());
        return;
    }
    let ghost fh = header_conflicts_fn(id@, ms);
    let mut k: usize = 0;
    while k < matched.len()
        invariant
            k <= matched@.len(),
            ms == deref_headers(matched@),
            ms == headers_for(headers@, id@),
            fh == header_conflicts_fn(id@, ms),
            errors_view(out@) == errors_view(old(out)@) + concat_map(ms.take(k as int), fh),
        decreases matched@.len() - k,
    {
        proof {
            lemma_concat_map_step(ms, fh, k as int);
        }
        let h = matched[k];
        let ghost start = errors_view(out@);
        let ghost fc = req_conflicts_fn(id@, ms, true);
        let ghost fr = req_conflicts_fn(id@, ms, false);
        let ghost cv = names_view(h.column_require@);
        let ghost rv = names_view(h.row_require@);
        let mut j: usize = 0;
        while j < h.column_require.len()
            invariant
                j <= h.column_require@.len(),
                ms == deref_headers(matched@),
                cv == names_view(h.column_require@),
                fc == req_conflicts_fn(id@, ms, true),
                errors_view(out@) == start + concat_map(cv.take(j as int), fc),
            decreases h.column_require@.len() - j,
        {
            proof {
                lemma_concat_map_step(cv, fc, j as int);
            }
            let ghost before = errors_view(out@);
            push_conflicts_for_req(out, id, &matched, h.column_require[j].as_str(), true);
            assert(errors_view(out@) =~= start + concat_map(cv.take(j + 1), fc));
            j = j + 1;
        }
        proof {
            lemma_take_all(cv);
        }
        let ghost mid = errors_view(out@);
        let mut j: usize = 0;
        while j < h.row_require.len()
            invariant
                j <= h.row_require@.len(),
                ms == deref_headers(matched@),
                rv == names_view(h.row_require@),
                fr == req_conflicts_fn(id@, ms, false),
                errors_view(out@) == mid + concat_map(rv.take(j as int), fr),
            decreases h.row_require@.len() - j,
        {
            proof {
                lemma_concat_map_step(rv, fr, j as int);
            }
            push_conflicts_for_req(out, id, &matched, h.row_require[j].as_str(), false);
            assert(errors_view(out@) =~= mid + concat_map(rv.take(j + 1), fr));
            j = j + 1;
        }
        proof {
            lemma_take_all(rv);
            assert(errors_view(out@) =~= start + conflicts_for_header(id@, ms, *h));
            assert(errors_view(out@) =~= errors_view(old(out)@) + concat_map(ms.take(k + 1), fh));
        }
        k = k + 1;
    }
    proof {
        lemma_take_all(ms);
    }
}

impl Constraints {
    /// Static checks (no sheet data needed): value rules that do not fit
    /// their type, and, for each sheet of `sheet_ids` that two or more header
    /// constraints apply to, every name one of them requires that another
    /// does not allow; then, per sheet, value constraints on one line that
    /// give it two types or two `enum` lists with no value in common.
    /// Returned as data to show.
    pub fn check_static(&self, sheet_ids: &[String]) -> (r: Vec<ConstraintError>)
        ensures
            errors_view(r@) == spec_check_static(self.values@, self.headers@, names_view(sheet_ids@)),
    {
        let mut out: Vec<ConstraintError> = Vec::new();
        let ghost fv = compat_fn();
        let mut i: usize = 0;
        while i < self.values.len()
            invariant
                i <= self.values@.len(),
                fv == compat_fn(),
                errors_view(out@) == concat_map(self.values@.take(i as int), fv),
            decreases self.values@.len() - i,
        {
            proof {
                lemma_concat_map_step(self.values@, fv, i as int);
            }
            let vc = &self.values[i];
            let ghost before = errors_view(out@);
            match vc.rules.check_compat() {
                Err(msg) => {
                    let mut m = String::from_str("[value sheet=");
                    m.append(vc.sheet.as_raw());
                    m.append("] ");
                    m.append(msg.as_str());
                    out.push(ConstraintError::new(m));
                    assert(errors_view(out@) =~= before + seq![m@]);
                },
                Ok(()) => {
                    assert(errors_view(out@) =~= before + Seq::<Seq<char>>::empty());
                },
            }
            assert(errors_view(out@) =~= concat_map(self.values@.take(i + 1), fv));
            i = i + 1;
        }
        proof {
            lemma_take_all(self.values@);
        }
        let ghost first = errors_view(out@);
        let ghost ids = names_view(sheet_ids@);
        let ghost fs = sheet_conflicts_fn(self.headers@);
        let mut k: usize = 0;
        while k < sheet_ids.len()
            invariant
                k <= sheet_ids@.len(),
                ids == names_view(sheet_ids@),
                fs == sheet_conflicts_fn(self.headers@),
                errors_view(out@) == first + concat_map(ids.take(k as int), fs),
            decreases sheet_ids@.len() - k,
        {
            proof {
                lemma_concat_map_step(ids, fs, k as int);
            }
            push_conflicts_for_sheet(&mut out, &self.headers, sheet_ids[k].as_str());
            assert(errors_view(out@) =~= first + concat_map(ids.take(k + 1), fs));
            k = k + 1;
        }
        proof {
            lemma_take_all(ids);
        }
        let ghost second = errors_view(out@);
        let ghost fv = value_sheet_conflicts_fn(self.values@);
        let mut k: usize = 0;
        while k < sheet_ids.len()
            invariant
                k <= sheet_ids@.len(),
                ids == names_view(sheet_ids@),
                fv == value_sheet_conflicts_fn(self.values@),
                errors_view(out@) == second + concat_map(ids.take(k as int), fv),
            decreases sheet_ids@.len() - k,
        {
            proof {
                lemma_concat_map_step(ids, fv, k as int);
            }
            push_value_conflicts_for_sheet(&mut out, self, sheet_ids[k].as_str());
            assert(errors_view(out@) =~= second + concat_map(ids.take(k + 1), fv));
            k = k + 1;
        }
        proof {
            lemma_take_all(ids);
        }
        out
    }
}

/// The integers `0, 1, .., n - 1`.
pub open spec fn range(n: int) -> Seq<int> {
    Seq::new(n as nat, |i: int| i)
}

/// The first `k` integers of a range.
pub proof fn lemma_range_take(n: int, k: int)
    requires
        0 <= k <= n,
    ensures
        range(n).take(k) == range(k),
        range(n).len() == n,
{
    assert(range(n).take(k) =~= range(k));
}

/// Whether every header constraint of `matched` allows column `name`.
pub open spec fn all_allow_column(matched: Seq<HeaderConstraint>, name: Seq<char>) -> bool {
    forall|i: int| 0 <= i < matched.len() ==> #[trigger] matched[i].spec_column_allowed(name)
}

/// A violation found in sheet `id`.
pub open spec fn violation(id: Seq<char>, pos: Option<CellPos>, kind: ViolationKind, message: Seq<char>) -> ViolationModel {
    ViolationModel { sheet: id, pos, kind, message }
}

/// The violation (if any) for a required name `req` missing from the names
/// `present` (column headers when `columns`, row labels otherwise).
pub open spec fn missing_line_fn(id: Seq<char>, present: Seq<Seq<char>>, columns: bool) -> spec_fn(Seq<char>) -> Seq<ViolationModel> {
    |req: Seq<char>|
        if present.contains(req) {
            Seq::empty()
        } else if columns {
            seq![violation(id, None, ViolationKind::MissingRequiredColumn, "必須の列 "@ + debug_quoted(req) + " がありません"@)]
        } else {
            seq![violation(id, None, ViolationKind::MissingRequiredRow, "必須の行 "@ + debug_quoted(req) + " がありません"@)]
        }
}

/// The violation (if any) for the column at `ci` that the header constraints do not all allow.
pub open spec fn disallowed_fn(id: Seq<char>, matched: Seq<HeaderConstraint>, headers: Seq<Seq<char>>) -> spec_fn(int) -> Seq<ViolationModel> {
    |ci: int|
        if all_allow_column(matched, headers[ci]) {
            Seq::empty()
        } else {
            seq![violation(id, Some(CellPos { row: 0, col: ci as usize }), ViolationKind::DisallowedColumn, "許可されていない列 "@ + debug_quoted(headers[ci]))]
        }
}

/// Whether every header constraint of `matched` allows row `name`.
pub open spec fn all_allow_row(matched: Seq<HeaderConstraint>, name: Seq<char>) -> bool {
    forall|i: int| 0 <= i < matched.len() ==> #[trigger] matched[i].spec_row_allowed(name)
}

/// The violation (if any) for data row `r` of `sheet` whose label some
/// header constraint of `matched` does not allow (its label cell is the
/// position).
pub open spec fn disallowed_row_fn(id: Seq<char>, matched: Seq<HeaderConstraint>, sheet: Sheet) -> spec_fn(int) -> Seq<ViolationModel> {
    |r: int|
        match sheet.spec_row_label(r) {
            Some(l) => if all_allow_row(matched, l) {
                Seq::empty()
            } else {
                seq![violation(id, Some(CellPos { row: r as usize, col: 0 }), ViolationKind::DisallowedRow, "許可されていない行 "@ + debug_quoted(l))]
            },
            None => Seq::empty(),
        }
}

/// The label of data row `i`, as a list of zero or one.
pub open spec fn label_fn(sheet: Sheet) -> spec_fn(int) -> Seq<Seq<char>> {
    |i: int|
        match sheet.spec_row_label(i) {
            Some(l) => seq![l],
            None => Seq::empty(),
        }
}

/// The row labels of the data rows that have one.
pub open spec fn row_labels(sheet: Sheet) -> Seq<Seq<char>> {
    concat_map(range(sheet.ids().len() as int), label_fn(sheet))
}

/// The last position of `name` in `names`.
pub open spec fn last_index_of(names: Seq<Seq<char>>, name: Seq<char>) -> Option<int>
    decreases names.len(),
{
    if names.len() == 0 {
        None
    } else if names.last() == name {
        Some(names.len() - 1)
    } else {
        last_index_of(names.drop_last(), name)
    }
}

/// The value of a cell, the empty text for a missing cell.
pub open spec fn cell_or_empty(sheet: Sheet, r: int, c: int) -> Seq<char> {
    match sheet.spec_get(r, c) {
        Some(v) => v,
        None => Seq::empty(),
    }
}

/// The violation (if any) of value constraint `vc` at data row `r`, column `ci` (named `col`).
pub open spec fn value_row_fn(
    vc: ValueConstraint,
    sheet: Sheet,
    ci: int,
    col: Seq<char>,
    order: spec_fn(Seq<char>, Seq<char>) -> NumOrder,
) -> spec_fn(int) -> Seq<ViolationModel> {
    |r: int|
        if vc.spec_applies(sheet, r, order) {
            let val = cell_or_empty(sheet, r, ci);
            match vc.rules.spec_check(val, order) {
                Err(k) => seq![
                    violation(
                        sheet.spec_id(),
                        Some(CellPos { row: r as usize, col: ci as usize }),
                        k,
                        "列 "@ + debug_quoted(col) + " の値 "@ + debug_quoted(val) + " が制約に違反"@,
                    ),
                ],
                Ok(_) => Seq::empty(),
            }
        } else {
            Seq::empty()
        }
}

/// The columns after the first of a sheet with `n` columns: `1, 2, .., n - 1`.
pub open spec fn columns_after_first(n: int) -> Seq<int> {
    Seq::new(if n > 1 { (n - 1) as nat } else { 0 }, |i: int| i + 1)
}

/// The number of columns a row-targeted rule looks at in data row `r`: the
/// header count, or the row's own length where the row is longer.
pub open spec fn row_span(sheet: Sheet, r: int) -> int {
    let h = sheet.spec_headers().len() as int;
    let w = sheet.spec_row_len(r);
    if h < w {
        w
    } else {
        h
    }
}

/// The violation (if any) of value constraint `vc` at data row `r` (labelled
/// `lab`), column `ci`.
pub open spec fn row_cell_fn(
    vc: ValueConstraint,
    sheet: Sheet,
    r: int,
    lab: Seq<char>,
    order: spec_fn(Seq<char>, Seq<char>) -> NumOrder,
) -> spec_fn(int) -> Seq<ViolationModel> {
    |ci: int|
        {
            let val = cell_or_empty(sheet, r, ci);
            match vc.rules.spec_check(val, order) {
                Err(k) => seq![
                    violation(
                        sheet.spec_id(),
                        Some(CellPos { row: r as usize, col: ci as usize }),
                        k,
                        "行 "@ + debug_quoted(lab) + " の値 "@ + debug_quoted(val) + " が制約に違反"@,
                    ),
                ],
                Ok(_) => Seq::empty(),
            }
        }
}

/// The violations of row-targeted value constraint `vc` (row `lab`) at data
/// row `r`: when the row is labelled `lab` and `vc` applies there, each cell
/// after the label column that breaks the rules, up to the header count or
/// the row's own length, whichever is larger.
pub open spec fn row_target_fn(
    vc: ValueConstraint,
    sheet: Sheet,
    lab: Seq<char>,
    order: spec_fn(Seq<char>, Seq<char>) -> NumOrder,
) -> spec_fn(int) -> Seq<ViolationModel> {
    |r: int|
        if sheet.spec_row_label(r) == Some(lab) && vc.spec_applies(sheet, r, order) {
            concat_map(columns_after_first(row_span(sheet, r)), row_cell_fn(vc, sheet, r, lab, order))
        } else {
            Seq::empty()
        }
}

/// The violations of value constraint `vc` in `sheet`: for a column target
/// whose column the sheet has (the last column of that name), each data row
/// where `vc` applies and the cell breaks the rules; for a row target, each
/// data row labelled with the target's name where `vc` applies, and there
/// each cell after the label column (as far as `row_span` reaches) that breaks the rules.
pub open spec fn value_fn(sheet: Sheet, order: spec_fn(Seq<char>, Seq<char>) -> NumOrder) -> spec_fn(ValueConstraint) -> Seq<ViolationModel> {
    |vc: ValueConstraint|
        match vc.target {
            LineTarget::Column(col) => match last_index_of(sheet.spec_headers(), col@) {
                Some(ci) => concat_map(range(sheet.ids().len() as int), value_row_fn(vc, sheet, ci, col@, order)),
                None => Seq::empty(),
            },
            LineTarget::Row(lab) => concat_map(range(sheet.ids().len() as int), row_target_fn(vc, sheet, lab@, order)),
        }
}

/// The violations of `sheet`, in order: missing required columns (in name
/// order), columns not allowed (when some header constraint applies); when
/// row headers are on, missing required rows (in name order) and rows whose
/// label is not allowed (when some header constraint applies); then the cell
/// values that break value constraints.
pub open spec fn spec_validate(
    headers_c: Seq<HeaderConstraint>,
    values_c: Seq<ValueConstraint>,
    sheet: Sheet,
    order: spec_fn(Seq<char>, Seq<char>) -> NumOrder,
) -> Seq<ViolationModel> {
    let id = sheet.spec_id();
    let headers = sheet.spec_headers();
    let matched = headers_for(headers_c, id);
    concat_map(required_names(matched, true), missing_line_fn(id, headers, true))
        + (if matched.len() == 0 {
        Seq::empty()
    } else {
        concat_map(range(headers.len() as int), disallowed_fn(id, matched, headers))
    }) + (if sheet.spec_has_row_headers() {
        concat_map(required_names(matched, false), missing_line_fn(id, row_labels(sheet), false)) + (if matched.len() == 0 {
            Seq::empty()
        } else {
            concat_map(range(sheet.ids().len() as int), disallowed_row_fn(id, matched, sheet))
        })
    } else {
        Seq::empty()
    }) + concat_map(values_for_sheet(values_c, id), value_fn(sheet, order))
}

/// Whether `v` holds `name`.
fn slice_contains(v: &[String], name: &str) -> (r: bool)
    ensures
        r == names_view(v@).contains(name@),
{
    let mut i: usize = 0;
    while i < v.len()
        invariant
            i <= v@.len(),
            forall|j: int| 0 <= j < i ==> v@[j]@ != name@,
        decreases v@.len() - i,
    {
        if str_eq(v[i].as_str(), name) {
            assert(names_view(v@)[i as int] == name@);
            return true;
        }
        i = i + 1;
    }
    proof {
        assert forall|j: int| 0 <= j < names_view(v@).len() implies names_view(v@)[j] != name@ by {
            assert(names_view(v@)[j] == v@[j]@);
        }
    }
    false
}

/// The last position of `name` in `v`.
fn last_index(v: &[String], name: &str) -> (r: Option<usize>)
    ensures
        match r {
            Some(i) => last_index_of(names_view(v@), name@) == Some(i as int),
            None => last_index_of(names_view(v@), name@) is None,
        },
{
    let ghost nv = names_view(v@);
    proof {
        lemma_take_all(nv);
    }
    let mut i: usize = v.len();
    while i > 0
        invariant
            i <= v@.len(),
            nv == names_view(v@),
            last_index_of(nv, name@) == last_index_of(nv.take(i as int), name@),
        decreases i,
    {
        let ghost t = nv.take(i as int);
        assert(t.drop_last() == nv.take(i - 1));
        assert(t.last() == v@[i - 1]@);
        if str_eq(v[i - 1].as_str(), name) {
            return Some(i - 1);
        }
        i = i - 1;
    }
    proof {
        lemma_take_all(nv);
    }
    None
}

/// A violation of sheet `id`.
fn make_violation(id: &String, pos: Option<CellPos>, kind: ViolationKind, message: String) -> (v: Violation)
    ensures
        v.model() == violation(id@, pos, kind, message@),
{
    Violation { sheet: id.clone(), pos, kind, message }
}

/// `prefix + text + suffix`.
fn wrap_text(prefix: &str, text: &str, suffix: &str) -> (r: String)
    ensures
        r@ == prefix@ + text@ + suffix@,
{
    let mut m = String::from_str(prefix);
    m.append(text);
    m.append(suffix);
    m
}

/// Appends the violations of row-targeted value constraint `vc` (row `lab`).
fn push_row_target_violations<F: Fn(&str, &str) -> NumOrder>(
    out: &mut Vec<Violation>,
    vc: &ValueConstraint,
    sheet: &Sheet,
    lab: &String,
    num: &F,
)
    requires
        total_order_fn(*num),
    ensures
        forall|order: spec_fn(Seq<char>, Seq<char>) -> NumOrder| #[trigger] numeric_order(*num, order)
            ==> violations_model(final(out)@) == violations_model(old(out)@) + concat_map(
                range(sheet.ids().len() as int),
                row_target_fn(*vc, *sheet, lab@, order),
            ),
{
    let n = sheet.data_row_count();
    let hc = sheet.column_headers().len();
    let ghost start = violations_model(out@);
    let mut r: usize = 0;
    while r < n
        invariant
            r <= n,
            n == sheet.ids().len(),
            hc == sheet.spec_headers().len(),
            total_order_fn(*num),
            start == violations_model(old(out)@),
            forall|order: spec_fn(Seq<char>, Seq<char>) -> NumOrder| #[trigger] numeric_order(*num, order)
                ==> violations_model(out@) == start + concat_map(range(n as int).take(r as int), row_target_fn(*vc, *sheet, lab@, order)),
        decreases n - r,
    {
        let ghost before = violations_model(out@);
        let labelled = match sheet.row_label(r) {
            Some(l) => str_eq(l, lab.as_str()),
            None => false,
        };
        assert(labelled == (sheet.spec_row_label(r as int) == Some(lab@)));
        if labelled && vc.applies(sheet, r, num) {
            let w = sheet.row_len(r);
            let h: usize = if hc < w { w } else { hc };
            assert(h == row_span(*sheet, r as int));
            let m: usize = if h > 1 { h - 1 } else { 0 };
            assert(columns_after_first(h as int).len() == m);
            let mut t: usize = 0;
            while t < m
                invariant
                    t <= m,
                    r < n,
                    n == sheet.ids().len(),
                    h == row_span(*sheet, r as int),
                    m == columns_after_first(h as int).len(),
                    total_order_fn(*num),
                    forall|order: spec_fn(Seq<char>, Seq<char>) -> NumOrder| #[trigger] numeric_order(*num, order)
                        ==> violations_model(out@) == before + concat_map(
                            columns_after_first(h as int).take(t as int),
                            row_cell_fn(*vc, *sheet, r as int, lab@, order),
                        ),
                decreases m - t,
            {
                let ghost mid = violations_model(out@);
                let ci = t + 1;
                assert(columns_after_first(h as int)[t as int] == ci as int);
                let pos = CellPos { row: r, col: ci };
                let val = match sheet.get(pos) {
                    Some(v) => v,
                    None => "",
                };
                proof {
                    reveal_strlit("");
                    assert(val@ == cell_or_empty(*sheet, r as int, ci as int));
                }
                let res = vc.rules.check_value(val, num);
                match res {
                    Err(kind) => {
                        let q1 = debug_str(lab.as_str());
                        let q2 = debug_str(val);
                        let mut msg = String::from_str("行 ");
                        msg.append(q1.as_str());
                        msg.append(" の値 ");
                        msg.append(q2.as_str());
                        msg.append(" が制約に違反");
                        let v = make_violation(sheet.sheet_id(), Some(pos), kind, msg);
                        out.push(v);
                        assert(violations_model(out@) =~= mid.push(v.model()));
                    },
                    Ok(()) => {},
                }
                proof {
                    assert forall|order: spec_fn(Seq<char>, Seq<char>) -> NumOrder| #[trigger] numeric_order(*num, order)
                        implies violations_model(out@) == before + concat_map(
                            columns_after_first(h as int).take(t + 1),
                            row_cell_fn(*vc, *sheet, r as int, lab@, order),
                        ) by {
                        let f = row_cell_fn(*vc, *sheet, r as int, lab@, order);
                        lemma_concat_map_step(columns_after_first(h as int), f, t as int);
                        assert(violations_model(out@) =~= mid + f(ci as int));
                    }
                }
                t = t + 1;
            }
            proof {
                assert forall|order: spec_fn(Seq<char>, Seq<char>) -> NumOrder| #[trigger] numeric_order(*num, order)
                    implies violations_model(out@) == start + concat_map(range(n as int).take(r + 1), row_target_fn(*vc, *sheet, lab@, order)) by {
                    let g = row_target_fn(*vc, *sheet, lab@, order);
                    lemma_concat_map_step(range(n as int), g, r as int);
                    assert(range(n as int)[r as int] == r as int);
                    lemma_take_all(columns_after_first(h as int));
                    assert(violations_model(out@) =~= before + g(r as int));
                }
            }
        } else {
            proof {
                assert forall|order: spec_fn(Seq<char>, Seq<char>) -> NumOrder| #[trigger] numeric_order(*num, order)
                    implies violations_model(out@) == start + concat_map(range(n as int).take(r + 1), row_target_fn(*vc, *sheet, lab@, order)) by {
                    let g = row_target_fn(*vc, *sheet, lab@, order);
                    lemma_concat_map_step(range(n as int), g, r as int);
                    assert(range(n as int)[r as int] == r as int);
                    assert(violations_model(out@) =~= before + g(r as int));
                }
            }
        }
        r = r + 1;
    }
    proof {
        lemma_range_take(n as int, n as int);
    }
}

/// Appends the violations of value constraint `vc` for column `ci` (named `col`).
fn push_value_violations<F: Fn(&str, &str) -> NumOrder>(
    out: &mut Vec<Violation>,
    vc: &ValueConstraint,
    sheet: &Sheet,
    ci: usize,
    col: &String,
    num: &F,
)
    requires
        total_order_fn(*num),
    ensures
        forall|order: spec_fn(Seq<char>, Seq<char>) -> NumOrder| #[trigger] numeric_order(*num, order)
            ==> violations_model(final(out)@) == violations_model(old(out)@) + concat_map(
                range(sheet.ids().len() as int),
                value_row_fn(*vc, *sheet, ci as int, col@, order),
            ),
{
    let n = sheet.data_row_count();
    let ghost start = violations_model(out@);
    let mut r: usize = 0;
    while r < n
        invariant
            r <= n,
            n == sheet.ids().len(),
            total_order_fn(*num),
            start == violations_model(old(out)@),
            forall|order: spec_fn(Seq<char>, Seq<char>) -> NumOrder| #[trigger] numeric_order(*num, order)
                ==> violations_model(out@) == start + concat_map(range(n as int).take(r as int), value_row_fn(*vc, *sheet, ci as int, col@, order)),
        decreases n - r,
    {
        let ghost before = violations_model(out@);
        if vc.applies(sheet, r, num) {
            let pos = CellPos { row: r, col: ci };
            let val = match sheet.get(pos) {
                Some(v) => v,
                None => "",
            };
            proof {
                reveal_strlit("");
                assert(val@ == cell_or_empty(*sheet, r as int, ci as int));
            }
            match vc.rules.check_value(val, num) {
                Err(kind) => {
                    let q1 = debug_str(col.as_str());
                    let q2 = debug_str(val);
                    let mut m = String::from_str("列 ");
                    m.append(q1.as_str());
                    m.append(" の値 ");
                    m.append(q2.as_str());
                    m.append(" が制約に違反");
                    let v = make_violation(sheet.sheet_id(), Some(pos), kind, m);
                    out.push(v);
                    assert(violations_model(out@) =~= before.push(v.model()));
                },
                Ok(()) => {},
            }
        }
        proof {
            assert forall|order: spec_fn(Seq<char>, Seq<char>) -> NumOrder| #[trigger] numeric_order(*num, order)
                implies violations_model(out@) == start + concat_map(range(n as int).take(r + 1), value_row_fn(*vc, *sheet, ci as int, col@, order)) by {
                let f = value_row_fn(*vc, *sheet, ci as int, col@, order);
                lemma_concat_map_step(range(n as int), f, r as int);
                assert(range(n as int)[r as int] == r as int);
                assert(violations_model(out@) =~= before + f(r as int));
            }
        }
        r = r + 1;
    }
    proof {
        lemma_range_take(n as int, n as int);
    }
}


/// Appends a violation for each name of `required` that `present` lacks
/// (column headers when `columns`, row labels otherwise).
fn push_missing(out: &mut Vec<Violation>, id: &String, required: &Vec<String>, present: &[String], columns: bool)
    ensures
        violations_model(final(out)@) == violations_model(old(out)@)
            + concat_map(names_view(required@), missing_line_fn(id@, names_view(present@), columns)),
{
    let ghost rv = names_view(required@);
    let ghost f = missing_line_fn(id@, names_view(present@), columns);
    let ghost start = violations_model(out@);
    let mut i: usize = 0;
    while i < required.len()
        invariant
            i <= required@.len(),
            rv == names_view(required@),
            f == missing_line_fn(id@, names_view(present@), columns),
            start == violations_model(old(out)@),
            violations_model(out@) == start + concat_map(rv.take(i as int), f),
        decreases required@.len() - i,
    {
        proof {
            lemma_concat_map_step(rv, f, i as int);
        }
        let ghost before = violations_model(out@);
        let req = &required[i];
        assert(rv[i as int] == req@);
        if !slice_contains(present, req.as_str()) {
            let q = debug_str(req.as_str());
            let m = if columns {
                wrap_text("必須の列 ", q.as_str(), " がありません")
            } else {
                wrap_text("必須の行 ", q.as_str(), " がありません")
            };
            let kind = if columns {
                ViolationKind::MissingRequiredColumn
            } else {
                ViolationKind::MissingRequiredRow
            };
            let v = make_violation(id, None, kind, m);
            out.push(v);
            assert(violations_model(out@) =~= before + f(rv[i as int]));
        } else {
            assert(violations_model(out@) =~= before + f(rv[i as int]));
        }
        i = i + 1;
    }
    proof {
        lemma_take_all(rv);
    }
}

/// Appends a violation for each column of `headers` that some header
/// constraint of `eff` does not allow.
fn push_disallowed(out: &mut Vec<Violation>, id: &String, eff: &EffectiveHeader, headers: &[String])
    ensures
        violations_model(final(out)@) == violations_model(old(out)@)
            + concat_map(range(headers@.len() as int), disallowed_fn(id@, eff.matched(), names_view(headers@))),
{
    let ghost f = disallowed_fn(id@, eff.matched(), names_view(headers@));
    let ghost n = headers@.len() as int;
    let ghost start = violations_model(out@);
    let mut ci: usize = 0;
    while ci < headers.len()
        invariant
            ci <= headers@.len(),
            n == headers@.len(),
            f == disallowed_fn(id@, eff.matched(), names_view(headers@)),
            start == violations_model(old(out)@),
            violations_model(out@) == start + concat_map(range(n).take(ci as int), f),
        decreases headers@.len() - ci,
    {
        proof {
            lemma_concat_map_step(range(n), f, ci as int);
        }
        assert(range(n)[ci as int] == ci as int);
        assert(names_view(headers@)[ci as int] == headers@[ci as int]@);
        let ghost before = violations_model(out@);
        let h = &headers[ci];
        if !eff.column_allowed(h.as_str()) {
            let q = debug_str(h.as_str());
            let m = wrap_text("許可されていない列 ", q.as_str(), "");
            proof {
                reveal_strlit("");
                assert(m@ == "許可されていない列 "@ + debug_quoted(h@));
            }
            let v = make_violation(id, Some(CellPos { row: 0, col: ci }), ViolationKind::DisallowedColumn, m);
            out.push(v);
            assert(violations_model(out@) =~= before + f(ci as int));
        } else {
            assert(violations_model(out@) =~= before + f(ci as int));
        }
        ci = ci + 1;
    }
    proof {
        lemma_range_take(n, n);
    }
}

/// Appends a violation for each data row of `sheet` whose label some header
/// constraint of `eff` does not allow.
fn push_disallowed_rows(out: &mut Vec<Violation>, id: &String, eff: &EffectiveHeader, sheet: &Sheet)
    requires
        id@ == sheet.spec_id(),
    ensures
        violations_model(final(out)@) == violations_model(old(out)@)
            + concat_map(range(sheet.ids().len() as int), disallowed_row_fn(id@, eff.matched(), *sheet)),
{
    let n = sheet.data_row_count();
    let ghost f = disallowed_row_fn(id@, eff.matched(), *sheet);
    let ghost start = violations_model(out@);
    let mut r: usize = 0;
    while r < n
        invariant
            r <= n,
            n == sheet.ids().len(),
            f == disallowed_row_fn(id@, eff.matched(), *sheet),
            start == violations_model(old(out)@),
            violations_model(out@) == start + concat_map(range(n as int).take(r as int), f),
        decreases n - r,
    {
        proof {
            lemma_concat_map_step(range(n as int), f, r as int);
        }
        assert(range(n as int)[r as int] == r as int);
        let ghost before = violations_model(out@);
        match sheet.row_label(r) {
            Some(l) => {
                if !eff.row_allowed(l) {
                    let q = debug_str(l);
                    let m = wrap_text("許可されていない行 ", q.as_str(), "");
                    proof {
                        reveal_strlit("");
                        assert(m@ == "許可されていない行 "@ + debug_quoted(l@));
                    }
                    let v = make_violation(id, Some(CellPos { row: r, col: 0 }), ViolationKind::DisallowedRow, m);
                    out.push(v);
                    assert(violations_model(out@) =~= before + f(r as int));
                } else {
                    assert(violations_model(out@) =~= before + f(r as int));
                }
            },
            None => {
                assert(violations_model(out@) =~= before + f(r as int));
            },
        }
        r = r + 1;
    }
    proof {
        lemma_range_take(n as int, n as int);
    }
}

/// The labels of the data rows of `sheet` that have one, in row order.
fn collect_row_labels(sheet: &Sheet) -> (r: Vec<String>)
    ensures
        names_view(r@) == row_labels(*sheet),
{
    let n = sheet.data_row_count();
    let ghost f = label_fn(*sheet);
    let mut labels: Vec<String> = Vec::new();
    let mut i: usize = 0;
    while i < n
        invariant
            i <= n,
            n == sheet.ids().len(),
            f == label_fn(*sheet),
            names_view(labels@) == concat_map(range(n as int).take(i as int), f),
        decreases n - i,
    {
        proof {
            lemma_concat_map_step(range(n as int), f, i as int);
        }
        assert(range(n as int)[i as int] == i as int);
        let ghost before = names_view(labels@);
        match sheet.row_label(i) {
            Some(l) => {
                labels.push(String::from_str(l));
                assert(names_view(labels@) =~= before + f(i as int));
            },
            None => {
                assert(names_view(labels@) =~= before + f(i as int));
            },
        }
        i = i + 1;
    }
    proof {
        lemma_range_take(n as int, n as int);
    }
    labels
}

impl Constraints {
    /// Checks `sheet` against the constraints and lists what breaks them:
    /// missing required columns, columns not allowed, missing required rows
    /// (when row headers are on), then the cells that break value rules.
    /// `num` compares texts as numbers.
    pub fn validate_sheet<F: Fn(&str, &str) -> NumOrder>(&self, sheet: &Sheet, num: &F) -> (r: Vec<Violation>)
        requires
            total_order_fn(*num),
        ensures
            forall|order: spec_fn(Seq<char>, Seq<char>) -> NumOrder| #[trigger] numeric_order(*num, order)
                ==> violations_model(r@) == spec_validate(self.headers@, self.values@, *sheet, order),
    {
        let mut out: Vec<Violation> = Vec::new();
        let id = sheet.sheet_id();
        let headers = sheet.column_headers();
        proof {
            assert(names_view(headers@) =~= sheet.spec_headers());
        }
        let eff = self.effective_header(id.as_str());
        push_missing(&mut out, id, &eff.column_required, headers, true);
        if !eff.matched_is_empty() {
            push_disallowed(&mut out, id, &eff, headers);
        } else {
            assert(violations_model(out@) =~= violations_model(out@) + Seq::<ViolationModel>::empty());
        }
        if sheet.row_headers_on() {
            let labels = collect_row_labels(sheet);
            push_missing(&mut out, id, &eff.row_required, labels.as_slice(), false);
            if !eff.matched_is_empty() {
                push_disallowed_rows(&mut out, id, &eff, sheet);
            } else {
                assert(violations_model(out@) =~= violations_model(out@) + Seq::<ViolationModel>::empty());
            }
        } else {
            assert(violations_model(out@) =~= violations_model(out@) + Seq::<ViolationModel>::empty());
        }
        let ghost base = violations_model(out@);
        let vcs = self.values_for(id.as_str());
        let ghost vv = vcs@.map_values(|v: &ValueConstraint| *v);
        let mut k: usize = 0;
        while k < vcs.len()
            invariant
                k <= vcs@.len(),
                vv == vcs@.map_values(|v: &ValueConstraint| *v),
                vv == values_for_sheet(self.values@, sheet.spec_id()),
                names_view(headers@) == sheet.spec_headers(),
                total_order_fn(*num),
                forall|order: spec_fn(Seq<char>, Seq<char>) -> NumOrder| #[trigger] numeric_order(*num, order)
                    ==> violations_model(out@) == base + concat_map(vv.take(k as int), value_fn(*sheet, order)),
            decreases vcs@.len() - k,
        {
            let vc = vcs[k];
            assert(vv[k as int] == *vc);
            let ghost before = violations_model(out@);
            match &vc.target {
                LineTarget::Column(col) => {
                    match last_index(headers, col.as_str()) {
                        Some(ci) => {
                            push_value_violations(&mut out, vc, sheet, ci, col, num);
                        },
                        None => {},
                    }
                },
                LineTarget::Row(lab) => {
                    push_row_target_violations(&mut out, vc, sheet, lab, num);
                },
            }
            proof {
                assert forall|order: spec_fn(Seq<char>, Seq<char>) -> NumOrder| #[trigger] numeric_order(*num, order)
                    implies violations_model(out@) == base + concat_map(vv.take(k + 1), value_fn(*sheet, order)) by {
                    lemma_concat_map_step(vv, value_fn(*sheet, order), k as int);
                    assert(violations_model(out@) =~= before + value_fn(*sheet, order)(vv[k as int]));
                }
            }
            k = k + 1;
        }
        proof {
            lemma_take_all(vv);
        }
        out
    }
}

/// Whether value constraint `vc` lists the options of column `col` at data
/// row `row`: it targets that column, has an `enum` list, and applies there.
pub open spec fn offers_options(
    vc: ValueConstraint,
    sheet: Sheet,
    col: Seq<char>,
    row: int,
    order: spec_fn(Seq<char>, Seq<char>) -> NumOrder,
) -> bool {
    &&& vc.target matches LineTarget::Column(c) && c@ == col
    &&& vc.rules.enums is Some
    &&& vc.spec_applies(sheet, row, order)
}

/// The `enum` list of the first constraint of `vs` that offers options for
/// column `col` at data row `row`.
pub open spec fn first_options(
    vs: Seq<ValueConstraint>,
    sheet: Sheet,
    col: Seq<char>,
    row: int,
    order: spec_fn(Seq<char>, Seq<char>) -> NumOrder,
) -> Option<Seq<Seq<char>>>
    decreases vs.len(),
{
    if vs.len() == 0 {
        None
    } else if offers_options(vs[0], sheet, col, row, order) {
        Some(names_view(vs[0].rules.enums.unwrap()@))
    } else {
        first_options(vs.drop_first(), sheet, col, row, order)
    }
}

/// The options of the cell at `pos` (for a drop-down list): none when the
/// sheet has no column `pos.col`, else those of the first value constraint
/// of the sheet that offers options for that column at that row.
pub open spec fn spec_enum_options(
    values: Seq<ValueConstraint>,
    sheet: Sheet,
    pos: CellPos,
    order: spec_fn(Seq<char>, Seq<char>) -> NumOrder,
) -> Option<Seq<Seq<char>>> {
    if pos.col < sheet.spec_headers().len() {
        first_options(
            values_for_sheet(values, sheet.spec_id()),
            sheet,
            sheet.spec_headers()[pos.col as int],
            pos.row as int,
            order,
        )
    } else {
        None
    }
}

/// Whether value constraint `vc` targets column `col`, lists values, and
/// has no `when` or a `when` that holds at data row `row` of `sheet`.
pub open spec fn lists_for_cell(
    vc: ValueConstraint,
    sheet: Sheet,
    col: Seq<char>,
    row: int,
    order: spec_fn(Seq<char>, Seq<char>) -> NumOrder,
) -> bool {
    &&& vc.target is Column && vc.target->Column_0@ == col
    &&& vc.rules.enums is Some
    &&& (vc.when is None || holds(vc.when->0.model(), sheet.spec_row_map(row), sheet.spec_row_label(row), order))
}

proof fn lemma_first_options(
    vs: Seq<ValueConstraint>,
    sheet: Sheet,
    col: Seq<char>,
    row: int,
    order: spec_fn(Seq<char>, Seq<char>) -> NumOrder,
)
    ensures
        match first_options(vs, sheet, col, row, order) {
            Some(list) => exists|j: int|
                0 <= j < vs.len() && #[trigger] lists_for_cell(vs[j], sheet, col, row, order)
                    && names_view(vs[j].rules.enums->0@) == list
                    && forall|i: int| 0 <= i < j ==> !lists_for_cell(#[trigger] vs[i], sheet, col, row, order),
            None => forall|j: int| 0 <= j < vs.len() ==> !lists_for_cell(#[trigger] vs[j], sheet, col, row, order),
        },
    decreases vs.len(),
{
    if vs.len() > 0 {
        let rest = vs.drop_first();
        lemma_first_options(rest, sheet, col, row, order);
        if offers_options(vs[0], sheet, col, row, order) {
            assert(lists_for_cell(vs[0], sheet, col, row, order));
        } else {
            assert(!lists_for_cell(vs[0], sheet, col, row, order));
            match first_options(rest, sheet, col, row, order) {
                Some(list) => {
                    let j = choose|j: int|
                        0 <= j < rest.len() && #[trigger] lists_for_cell(rest[j], sheet, col, row, order)
                            && names_view(rest[j].rules.enums->0@) == list
                            && forall|i: int| 0 <= i < j ==> !lists_for_cell(#[trigger] rest[i], sheet, col, row, order);
                    assert(vs[j + 1] == rest[j]);
                    assert forall|i: int| 0 <= i < j + 1 implies !lists_for_cell(#[trigger] vs[i], sheet, col, row, order) by {
                        if i > 0 {
                            assert(vs[i] == rest[i - 1]);
                        }
                    }
                    assert(lists_for_cell(vs[j + 1], sheet, col, row, order));
                },
                None => {
                    assert forall|j: int| 0 <= j < vs.len() implies !lists_for_cell(#[trigger] vs[j], sheet, col, row, order) by {
                        if j > 0 {
                            assert(vs[j] == rest[j - 1]);
                        }
                    }
                },
            }
        }
    }
}

/// The drop-down options of a cell come from a value constraint of the
/// sheet that applies there: when there are options, the first value
/// constraint of the sheet that targets the cell's column, lists values and
/// whose `when` (if any) holds on the cell's row gives them; when none does
/// (or the sheet has no such column), there are none. A constraint whose
/// `when` is false on the row gives no options.
pub proof fn law_enum_options_apply(
    values: Seq<ValueConstraint>,
    sheet: Sheet,
    pos: CellPos,
    order: spec_fn(Seq<char>, Seq<char>) -> NumOrder,
)
    ensures
        ({
            let vs = values_for_sheet(values, sheet.spec_id());
            match spec_enum_options(values, sheet, pos, order) {
                Some(list) => pos.col < sheet.spec_headers().len() && exists|j: int|
                    0 <= j < vs.len() && #[trigger] lists_for_cell(vs[j], sheet, sheet.spec_headers()[pos.col as int], pos.row as int, order)
                        && names_view(vs[j].rules.enums->0@) == list
                        && forall|i: int| 0 <= i < j ==> !lists_for_cell(#[trigger] vs[i], sheet, sheet.spec_headers()[pos.col as int], pos.row as int, order),
                None => pos.col >= sheet.spec_headers().len() || forall|j: int|
                    0 <= j < vs.len() ==> !lists_for_cell(#[trigger] vs[j], sheet, sheet.spec_headers()[pos.col as int], pos.row as int, order),
            }
        }),
{
    if pos.col < sheet.spec_headers().len() {
        lemma_first_options(
            values_for_sheet(values, sheet.spec_id()),
            sheet,
            sheet.spec_headers()[pos.col as int],
            pos.row as int,
            order,
        );
    }
}

/// The view of an optional list of strings.
pub open spec fn opt_names(v: Option<Vec<String>>) -> Option<Seq<Seq<char>>> {
    match v {
        Some(v) => Some(names_view(v@)),
        None => None,
    }
}

/// A copy of a list of strings.
fn copy_names(v: &Vec<String>) -> (r: Vec<String>)
    ensures
        names_view(r@) == names_view(v@),
{
    let mut r: Vec<String> = Vec::new();
    let mut i: usize = 0;
    while i < v.len()
        invariant
            i <= v@.len(),
            names_view(r@) == names_view(v@).take(i as int),
        decreases v@.len() - i,
    {
        let ghost before = names_view(r@);
        let c = String::from_str(v[i].as_str());
        assert(c@ == v@[i as int]@);
        r.push(c);
        assert(names_view(r@) =~= before.push(c@));
        assert(names_view(v@).take(i + 1) =~= names_view(v@).take(i as int).push(v@[i as int]@));
        i = i + 1;
    }
    assert(names_view(v@).take(v@.len() as int) =~= names_view(v@));
    r
}

impl Constraints {
    /// The options of the cell at `pos` for a drop-down list: the `enum` list
    /// of the first value constraint of the sheet that targets the cell's
    /// column and applies to its row. `num` compares texts as numbers.
    pub fn enum_options<F: Fn(&str, &str) -> NumOrder>(&self, sheet: &Sheet, pos: CellPos, num: &F) -> (r: Option<Vec<String>>)
        requires
            total_order_fn(*num),
        ensures
            forall|order: spec_fn(Seq<char>, Seq<char>) -> NumOrder| #[trigger] numeric_order(*num, order)
                ==> opt_names(r) == spec_enum_options(self.values@, *sheet, pos, order),
    {
        let headers = sheet.column_headers();
        proof {
            assert(names_view(headers@) =~= sheet.spec_headers());
        }
        if pos.col >= headers.len() {
            return None;
        }
        let col = &headers[pos.col];
        assert(sheet.spec_headers()[pos.col as int] == col@);
        let vcs = self.values_for(sheet.sheet_id().as_str());
        let ghost vv = vcs@.map_values(|v: &ValueConstraint| *v);
        assert(vv.skip(0) =~= vv);
        let mut k: usize = 0;
        while k < vcs.len()
            invariant
                k <= vcs@.len(),
                vv == vcs@.map_values(|v: &ValueConstraint| *v),
                vv == values_for_sheet(self.values@, sheet.spec_id()),
                total_order_fn(*num),
                sheet.spec_headers()[pos.col as int] == col@,
                pos.col < sheet.spec_headers().len(),
                forall|order: spec_fn(Seq<char>, Seq<char>) -> NumOrder| #[trigger] numeric_order(*num, order)
                    ==> first_options(vv, *sheet, col@, pos.row as int, order)
                        == first_options(vv.skip(k as int), *sheet, col@, pos.row as int, order),
            decreases vcs@.len() - k,
        {
            let vc = vcs[k];
            assert(vv[k as int] == *vc);
            assert(vv.skip(k as int).drop_first() =~= vv.skip(k + 1));
            assert(vv.skip(k as int)[0] == *vc);
            if let LineTarget::Column(c) = &vc.target {
                if str_eq(c.as_str(), col.as_str()) {
                    if let Some(enums) = &vc.rules.enums {
                        if vc.applies(sheet, pos.row, num) {
                            let r = copy_names(enums);
                            proof {
                                assert forall|order: spec_fn(Seq<char>, Seq<char>) -> NumOrder| #[trigger] numeric_order(*num, order)
                                    implies opt_names(Some(r)) == spec_enum_options(self.values@, *sheet, pos, order) by {
                                    assert(offers_options(*vc, *sheet, col@, pos.row as int, order));
                                }
                            }
                            return Some(r);
                        }
                    }
                }
            }
            k = k + 1;
        }
        assert(vv.skip(k as int) =~= Seq::<ValueConstraint>::empty());
        None
    }
}

/// The names a header requires (columns when `columns`, rows otherwise).
pub open spec fn required_of(h: HeaderConstraint, columns: bool) -> Seq<Seq<char>> {
    names_view(if columns { h.column_require@ } else { h.row_require@ })
}

/// Combining header constraints requires the union of what each requires:
/// the combined list is strictly increasing (each name once) and holds
/// exactly the names that some of the constraints require.
pub proof fn law_required_is_union(hs: Seq<HeaderConstraint>, columns: bool)
    ensures
        strictly_sorted(required_names(hs, columns)),
        forall|y: Seq<char>| #[trigger] required_names(hs, columns).contains(y)
            <==> exists|i: int| 0 <= i < hs.len() && (#[trigger] required_of(hs[i], columns)).contains(y),
    decreases hs.len(),
{
    if hs.len() > 0 {
        let init = hs.drop_last();
        law_required_is_union(init, columns);
        lemma_insert_names(required_names(init, columns), required_of(hs.last(), columns));
        assert forall|y: Seq<char>| #[trigger] required_names(hs, columns).contains(y)
            <==> exists|i: int| 0 <= i < hs.len() && (#[trigger] required_of(hs[i], columns)).contains(y) by {
            if required_names(init, columns).contains(y) {
                let i = choose|i: int| 0 <= i < init.len() && (#[trigger] required_of(init[i], columns)).contains(y);
                assert(hs[i] == init[i]);
            }
            if exists|i: int| 0 <= i < hs.len() && (#[trigger] required_of(hs[i], columns)).contains(y) {
                let i = choose|i: int| 0 <= i < hs.len() && (#[trigger] required_of(hs[i], columns)).contains(y);
                if i < hs.len() - 1 {
                    assert(init[i] == hs[i]);
                }
            }
        }
    } else {
        assert(required_names(hs, columns) =~= Seq::<Seq<char>>::empty());
    }
}

/// A concatenation is empty exactly when every piece is.
pub proof fn lemma_concat_map_empty<A, B>(s: Seq<A>, f: spec_fn(A) -> Seq<B>)
    ensures
        concat_map(s, f).len() == 0 <==> forall|i: int| 0 <= i < s.len() ==> #[trigger] f(s[i]).len() == 0,
    decreases s.len(),
{
    if s.len() > 0 {
        lemma_concat_map_empty(s.drop_last(), f);
        if concat_map(s, f).len() == 0 {
            assert forall|i: int| 0 <= i < s.len() implies #[trigger] f(s[i]).len() == 0 by {
                if i < s.len() - 1 {
                    assert(s.drop_last()[i] == s[i]);
                }
            }
        }
        if forall|i: int| 0 <= i < s.len() ==> #[trigger] f(s[i]).len() == 0 {
            assert forall|i: int| 0 <= i < s.drop_last().len() implies #[trigger] f(s.drop_last()[i]).len() == 0 by {
                assert(s.drop_last()[i] == s[i]);
            }
            assert(f(s[s.len() - 1]).len() == 0);
        }
    }
}

/// Whether header constraint `o` allows the name `r` (a column when `columns`).
pub open spec fn allows(o: HeaderConstraint, r: Seq<char>, columns: bool) -> bool {
    if columns {
        o.spec_column_allowed(r)
    } else {
        o.spec_row_allowed(r)
    }
}

/// Whether every name that one of `m` requires is allowed by all of `m`.
pub open spec fn headers_agree(m: Seq<HeaderConstraint>) -> bool {
    forall|a: int, b: int, r: Seq<char>, columns: bool|
        0 <= a < m.len() && 0 <= b < m.len() && #[trigger] required_of(m[a], columns).contains(r)
            ==> #[trigger] allows(m[b], r, columns)
}

/// Whether no two of `vs` on the same line give it two different types or
/// two `enum` lists with no value in common.
pub open spec fn rules_agree(vs: Seq<ValueConstraint>) -> bool {
    forall|i: int, j: int|
        0 <= i < j < vs.len() && same_line(#[trigger] vs[i].target, #[trigger] vs[j].target)
            ==> !types_clash(vs[i].rules, vs[j].rules) && !enums_disjoint(vs[i].rules, vs[j].rules)
}

proof fn lemma_req_conflicts_empty(id: Seq<char>, m: Seq<HeaderConstraint>, r: Seq<char>, columns: bool)
    ensures
        conflicts_for_req(id, m, r, columns).len() == 0 <==> forall|b: int| 0 <= b < m.len() ==> #[trigger] allows(m[b], r, columns),
{
    let f = req_conflict_fn(id, r, columns);
    lemma_concat_map_empty(m, f);
    if conflicts_for_req(id, m, r, columns).len() == 0 {
        assert forall|b: int| 0 <= b < m.len() implies #[trigger] allows(m[b], r, columns) by {
            assert(f(m[b]).len() == 0);
        }
    }
    if forall|b: int| 0 <= b < m.len() ==> #[trigger] allows(m[b], r, columns) {
        assert forall|b: int| 0 <= b < m.len() implies #[trigger] f(m[b]).len() == 0 by {
            assert(allows(m[b], r, columns));
        }
    }
}

proof fn lemma_header_conflicts_empty(id: Seq<char>, m: Seq<HeaderConstraint>, h: HeaderConstraint, columns: bool)
    ensures
        concat_map(required_of(h, columns), req_conflicts_fn(id, m, columns)).len() == 0
            <==> forall|b: int, r: Seq<char>| 0 <= b < m.len() && #[trigger] required_of(h, columns).contains(r)
                ==> #[trigger] allows(m[b], r, columns),
{
    let rs = required_of(h, columns);
    let f = req_conflicts_fn(id, m, columns);
    lemma_concat_map_empty(rs, f);
    if concat_map(rs, f).len() == 0 {
        assert forall|b: int, r: Seq<char>| 0 <= b < m.len() && #[trigger] rs.contains(r) implies #[trigger] allows(m[b], r, columns) by {
            let t = choose|t: int| 0 <= t < rs.len() && rs[t] == r;
            assert(f(rs[t]).len() == 0);
            lemma_req_conflicts_empty(id, m, r, columns);
        }
    }
    if forall|b: int, r: Seq<char>| 0 <= b < m.len() && #[trigger] rs.contains(r) ==> #[trigger] allows(m[b], r, columns) {
        assert forall|t: int| 0 <= t < rs.len() implies #[trigger] f(rs[t]).len() == 0 by {
            lemma_req_conflicts_empty(id, m, rs[t], columns);
            assert(rs.contains(rs[t]));
        }
    }
}

proof fn lemma_sheet_conflicts_empty(hs: Seq<HeaderConstraint>, id: Seq<char>)
    ensures
        conflicts_for_sheet(hs, id).len() == 0 <==> headers_agree(headers_for(hs, id)),
{
    let m = headers_for(hs, id);
    let g = header_conflicts_fn(id, m);
    if m.len() < 2 {
        assert forall|a: int, b: int, r: Seq<char>, columns: bool|
            0 <= a < m.len() && 0 <= b < m.len() && #[trigger] required_of(m[a], columns).contains(r)
            implies #[trigger] allows(m[b], r, columns) by {
            assert(a == b);
        }
    } else {
        lemma_concat_map_empty(m, g);
        if concat_map(m, g).len() == 0 {
            assert forall|a: int, b: int, r: Seq<char>, columns: bool|
                0 <= a < m.len() && 0 <= b < m.len() && #[trigger] required_of(m[a], columns).contains(r)
                implies #[trigger] allows(m[b], r, columns) by {
                assert(g(m[a]).len() == 0);
                lemma_header_conflicts_empty(id, m, m[a], true);
                lemma_header_conflicts_empty(id, m, m[a], false);
            }
        }
        if headers_agree(m) {
            assert forall|a: int| 0 <= a < m.len() implies #[trigger] g(m[a]).len() == 0 by {
                lemma_header_conflicts_empty(id, m, m[a], true);
                lemma_header_conflicts_empty(id, m, m[a], false);
                assert forall|b: int, r: Seq<char>| 0 <= b < m.len() && #[trigger] required_of(m[a], true).contains(r)
                    implies #[trigger] allows(m[b], r, true) by {}
                assert forall|b: int, r: Seq<char>| 0 <= b < m.len() && #[trigger] required_of(m[a], false).contains(r)
                    implies #[trigger] allows(m[b], r, false) by {}
            }
        }
    }
}

proof fn lemma_value_conflicts_empty(values: Seq<ValueConstraint>, id: Seq<char>)
    ensures
        value_conflicts_for_sheet(values, id).len() == 0 <==> rules_agree(values_for_sheet(values, id)),
{
    let vs = values_for_sheet(values, id);
    let n = vs.len() as int;
    let fi = value_pair_conflicts_fn(id, vs);
    lemma_concat_map_empty(range(n), fi);
    if value_conflicts_for_sheet(values, id).len() == 0 {
        assert forall|i: int, j: int|
            0 <= i < j < vs.len() && same_line(#[trigger] vs[i].target, #[trigger] vs[j].target)
                implies !types_clash(vs[i].rules, vs[j].rules) && !enums_disjoint(vs[i].rules, vs[j].rules) by {
            assert(range(n)[i] == i);
            assert(fi(range(n)[i]).len() == 0);
            let fj = pair_conflict_fn(id, vs, i);
            lemma_concat_map_empty(range(n), fj);
            assert(range(n)[j] == j);
            assert(fj(range(n)[j]).len() == 0);
        }
    }
    if rules_agree(vs) {
        assert forall|i: int| 0 <= i < range(n).len() implies #[trigger] fi(range(n)[i]).len() == 0 by {
            let fj = pair_conflict_fn(id, vs, i);
            lemma_concat_map_empty(range(n), fj);
            assert(range(n)[i] == i);
            assert forall|j: int| 0 <= j < range(n).len() implies #[trigger] fj(range(n)[j]).len() == 0 by {
                assert(range(n)[j] == j);
            }
        }
    }
}

/// The static check finds nothing exactly when every value rule fits its
/// type, for each sheet every name a matching header constraint requires is
/// allowed by all matching header constraints, and no two value constraints
/// of a sheet give one line two different types or two `enum` lists with no
/// value in common.
pub proof fn law_static_check_empty(values: Seq<ValueConstraint>, headers: Seq<HeaderConstraint>, ids: Seq<Seq<char>>)
    ensures
        spec_check_static(values, headers, ids).len() == 0 <==> {
            &&& forall|i: int| 0 <= i < values.len() ==> (#[trigger] values[i]).rules.spec_compat() is Ok
            &&& forall|k: int| 0 <= k < ids.len() ==> headers_agree(headers_for(headers, #[trigger] ids[k]))
            &&& forall|k: int| 0 <= k < ids.len() ==> rules_agree(values_for_sheet(values, #[trigger] ids[k]))
        },
{
    let f1 = compat_fn();
    let f2 = sheet_conflicts_fn(headers);
    let f3 = value_sheet_conflicts_fn(values);
    let a = compat_messages(values);
    let b = concat_map(ids, f2);
    let c = concat_map(ids, f3);
    assert(spec_check_static(values, headers, ids) == a + b + c);
    assert((a + b + c).len() == a.len() + b.len() + c.len());
    lemma_concat_map_empty(values, f1);
    lemma_concat_map_empty(ids, f2);
    lemma_concat_map_empty(ids, f3);
    let p1 = forall|i: int| 0 <= i < values.len() ==> (#[trigger] values[i]).rules.spec_compat() is Ok;
    let p2 = forall|k: int| 0 <= k < ids.len() ==> headers_agree(headers_for(headers, #[trigger] ids[k]));
    let p3 = forall|k: int| 0 <= k < ids.len() ==> rules_agree(values_for_sheet(values, #[trigger] ids[k]));
    if a.len() == 0 {
        assert forall|i: int| 0 <= i < values.len() implies (#[trigger] values[i]).rules.spec_compat() is Ok by {
            assert(f1(values[i]).len() == 0);
        }
    }
    if p1 {
        assert forall|i: int| 0 <= i < values.len() implies #[trigger] f1(values[i]).len() == 0 by {
            assert(values[i].rules.spec_compat() is Ok);
        }
    }
    if b.len() == 0 {
        assert forall|k: int| 0 <= k < ids.len() implies headers_agree(headers_for(headers, #[trigger] ids[k])) by {
            assert(f2(ids[k]).len() == 0);
            lemma_sheet_conflicts_empty(headers, ids[k]);
        }
    }
    if p2 {
        assert forall|k: int| 0 <= k < ids.len() implies #[trigger] f2(ids[k]).len() == 0 by {
            lemma_sheet_conflicts_empty(headers, ids[k]);
        }
    }
    if c.len() == 0 {
        assert forall|k: int| 0 <= k < ids.len() implies rules_agree(values_for_sheet(values, #[trigger] ids[k])) by {
            assert(f3(ids[k]).len() == 0);
            lemma_value_conflicts_empty(values, ids[k]);
        }
    }
    if p3 {
        assert forall|k: int| 0 <= k < ids.len() implies #[trigger] f3(ids[k]).len() == 0 by {
            lemma_value_conflicts_empty(values, ids[k]);
        }
    }
}

/// Concatenating over two lists in a row is concatenating over their join.
pub proof fn lemma_concat_map_append<A, B>(a: Seq<A>, b: Seq<A>, f: spec_fn(A) -> Seq<B>)
    ensures
        concat_map(a + b, f) == concat_map(a, f) + concat_map(b, f),
    decreases b.len(),
{
    if b.len() == 0 {
        assert(a + b =~= a);
        assert(concat_map(a, f) + concat_map(b, f) =~= concat_map(a, f));
    } else {
        assert((a + b).drop_last() =~= a + b.drop_last());
        assert((a + b).last() == b.last());
        lemma_concat_map_append(a, b.drop_last(), f);
        assert(concat_map(a + b, f) =~= concat_map(a, f) + concat_map(b, f));
    }
}

/// Concatenating over two lists with the same elements (in any order) gives
/// the same elements (in some order).
pub proof fn lemma_concat_map_perm<A, B>(s: Seq<A>, t: Seq<A>, f: spec_fn(A) -> Seq<B>)
    requires
        s.to_multiset() == t.to_multiset(),
    ensures
        concat_map(s, f).to_multiset() == concat_map(t, f).to_multiset(),
    decreases s.len(),
{
    broadcast use vstd::seq_lib::group_to_multiset_ensures, vstd::multiset::group_multiset_axioms;
    if s.len() == 0 {
        vstd::seq_lib::to_multiset_len(t);
        vstd::seq_lib::to_multiset_len(s);
        assert(t.len() == 0);
    } else {
        let x = s.last();
        let init = s.drop_last();
        assert(s == init.push(x));
        vstd::seq_lib::to_multiset_build(init, x);
        assert(s.to_multiset().count(x) > 0);
        vstd::seq_lib::to_multiset_contains(t, x);
        let j = choose|j: int| 0 <= j < t.len() && t[j] == x;
        let t2 = t.remove(j);
        vstd::seq_lib::to_multiset_remove(t, j);
        assert(t2.to_multiset() =~= init.to_multiset());
        lemma_concat_map_perm(init, t2, f);
        let pre = t.take(j);
        let post = t.skip(j + 1);
        assert(t =~= pre + seq![x] + post);
        assert(t2 =~= pre + post);
        lemma_concat_map_append(pre + seq![x], post, f);
        lemma_concat_map_append(pre, seq![x], f);
        lemma_concat_map_append(pre, post, f);
        assert(seq![x].drop_last() =~= Seq::<A>::empty());
        assert(seq![x].last() == x);
        assert(concat_map(seq![x].drop_last(), f) =~= Seq::<B>::empty());
        assert(concat_map(seq![x], f) =~= f(x));
        let ca = concat_map(pre, f);
        let cb = concat_map(post, f);
        let fx = f(x);
        vstd::seq_lib::lemma_multiset_commutative(ca + fx, cb);
        vstd::seq_lib::lemma_multiset_commutative(ca, fx);
        vstd::seq_lib::lemma_multiset_commutative(ca, cb);
        vstd::seq_lib::lemma_multiset_commutative(concat_map(init, f), fx);
        assert(concat_map(s, f) == concat_map(init, f) + fx);
        assert(concat_map(t, f) == ca + fx + cb);
        assert(concat_map(t2, f) == ca + cb);
        assert(concat_map(s, f).to_multiset() =~= concat_map(t, f).to_multiset());
    }
}

/// The value constraints that apply to a sheet, as a concatenation.
pub open spec fn value_for_sheet_fn(id: Seq<char>) -> spec_fn(ValueConstraint) -> Seq<ValueConstraint> {
    |v: ValueConstraint| if v.spec_matches_sheet(id) { seq![v] } else { Seq::empty() }
}

pub(crate) proof fn lemma_values_for_sheet_concat(vs: Seq<ValueConstraint>, id: Seq<char>)
    ensures
        values_for_sheet(vs, id) == concat_map(vs, value_for_sheet_fn(id)),
    decreases vs.len(),
{
    if vs.len() > 0 {
        lemma_values_for_sheet_concat(vs.drop_last(), id);
        assert(values_for_sheet(vs, id) =~= concat_map(vs, value_for_sheet_fn(id)));
    }
}

/// Value constraints have no priority: reordering them reorders the
/// violations of a sheet and changes nothing else (the violations are the
/// same as a multiset).
pub proof fn law_value_order_irrelevant(
    headers: Seq<HeaderConstraint>,
    values: Seq<ValueConstraint>,
    reordered: Seq<ValueConstraint>,
    sheet: Sheet,
    order: spec_fn(Seq<char>, Seq<char>) -> NumOrder,
)
    requires
        values.to_multiset() == reordered.to_multiset(),
    ensures
        spec_validate(headers, values, sheet, order).to_multiset() == spec_validate(headers, reordered, sheet, order).to_multiset(),
{
    broadcast use vstd::multiset::group_multiset_axioms;
    let id = sheet.spec_id();
    lemma_values_for_sheet_concat(values, id);
    lemma_values_for_sheet_concat(reordered, id);
    lemma_concat_map_perm(values, reordered, value_for_sheet_fn(id));
    let a = values_for_sheet(values, id);
    let b = values_for_sheet(reordered, id);
    lemma_concat_map_perm(a, b, value_fn(sheet, order));
    let x = spec_validate(headers, values, sheet, order);
    let y = spec_validate(headers, reordered, sheet, order);
    let va = concat_map(a, value_fn(sheet, order));
    let vb = concat_map(b, value_fn(sheet, order));
    let p = x.take(x.len() - va.len());
    assert(x =~= p + va);
    assert(y =~= p + vb);
    vstd::seq_lib::lemma_multiset_commutative(p, va);
    vstd::seq_lib::lemma_multiset_commutative(p, vb);
}

} // verus!
