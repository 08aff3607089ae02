//! The constraint file as written (`[[header]]` and `[[value]]` tables with
//! plain text fields) and its conversion into checked constraints: glob
//! patterns compiled, `when` expressions parsed, the target line decided.

use crate::constraints::rules::{names_view, ValueRules, ValueType};
use crate::constraints::when::{spec_parse, WhenError, WhenExpr};
use crate::constraints::{
    opt_names, Constraints, HeaderConstraint, LineTarget, ValueConstraint,
};
use crate::glob::{first_refused, glob_alternatives, GlobError, GlobPattern};
use vstd::prelude::*;

verus! {

/// A `[[header]]` table as written.
pub struct RawHeader {
    pub sheet: String,
    pub column_require: Vec<String>,
    pub column_optional: Vec<String>,
    pub row_require: Vec<String>,
    pub row_optional: Vec<String>,
}

/// A `[[value]]` table as written. `enum_kw` is the `enum` key, `enum_` the
/// `enum_` key; `min` and `max` are the bounds as decimal text.
pub struct RawValue {
    pub sheet: String,
    pub column: Option<String>,
    pub row: Option<String>,
    pub ty: Option<ValueType>,
    pub required: bool,
    pub enum_: Option<Vec<String>>,
    pub enum_kw: Option<Vec<String>>,
    pub pattern: Option<String>,
    pub min: Option<String>,
    pub max: Option<String>,
    pub when: Option<String>,
}

/// A constraint file as written.
pub struct RawConstraints {
    pub header: Vec<RawHeader>,
    pub value: Vec<RawValue>,
}

/// Why a constraint file cannot be turned into constraints.
#[derive(Debug)]
pub enum LoadError {
    /// A glob alternative that the glob crate refuses.
    Glob(GlobError),
    /// A value table with neither `column` nor `row`.
    MissingTarget { sheet: String },
    /// A `when` expression that does not parse.
    When(WhenError),
}

/// What a `LoadError` says.
pub enum LoadErrorModel {
    Glob(Seq<char>),
    MissingTarget(Seq<char>),
    When(WhenError),
}

impl LoadError {
    /// What the error says.
    pub open spec fn model(&self) -> LoadErrorModel {
        match self {
            LoadError::Glob(g) => LoadErrorModel::Glob(g.pattern@),
            LoadError::MissingTarget { sheet } => LoadErrorModel::MissingTarget(sheet@),
            LoadError::When(e) => LoadErrorModel::When(*e),
        }
    }
}

/// The view of an optional string.
pub open spec fn opt_text(o: Option<String>) -> Option<Seq<char>> {
    match o {
        Some(s) => Some(s@),
        None => None,
    }
}

/// The first glob alternative refused in the patterns `raws`, taken in order.
pub open spec fn refused_in(raws: Seq<Seq<char>>) -> Option<Seq<char>>
    decreases raws.len(),
{
    if raws.len() == 0 {
        None
    } else {
        match first_refused(glob_alternatives(raws[0])) {
            Some(p) => Some(p),
            None => refused_in(raws.drop_first()),
        }
    }
}

/// The error of a header table: the first refused glob of its `sheet`,
/// then of its `column_optional`, then of its `row_optional` patterns.
pub open spec fn header_error(h: RawHeader) -> Option<LoadErrorModel> {
    match refused_in(seq![h.sheet@] + names_view(h.column_optional@) + names_view(h.row_optional@)) {
        Some(p) => Some(LoadErrorModel::Glob(p)),
        None => None,
    }
}

/// The error of a value table: a missing target first, then a `when` that
/// does not parse, then a refused glob of `sheet`.
pub open spec fn value_error(v: RawValue) -> Option<LoadErrorModel> {
    if v.column is None && v.row is None {
        Some(LoadErrorModel::MissingTarget(v.sheet@))
    } else if v.when matches Some(w) && spec_parse(w@) is Err {
        Some(LoadErrorModel::When(spec_parse(v.when.unwrap()@)->Err_0))
    } else {
        match first_refused(glob_alternatives(v.sheet@)) {
            Some(p) => Some(LoadErrorModel::Glob(p)),
            None => None,
        }
    }
}

/// The first error among header tables `hs`.
pub open spec fn headers_error(hs: Seq<RawHeader>) -> Option<LoadErrorModel>
    decreases hs.len(),
{
    if hs.len() == 0 {
        None
    } else {
        match header_error(hs[0]) {
            Some(e) => Some(e),
            None => headers_error(hs.drop_first()),
        }
    }
}

/// The first error among value tables `vs`.
pub open spec fn values_error(vs: Seq<RawValue>) -> Option<LoadErrorModel>
    decreases vs.len(),
{
    if vs.len() == 0 {
        None
    } else {
        match value_error(vs[0]) {
            Some(e) => Some(e),
            None => values_error(vs.drop_first()),
        }
    }
}

/// The first error of a constraint file: header tables first, then value tables.
pub open spec fn load_error(rc: RawConstraints) -> Option<LoadErrorModel> {
    match headers_error(rc.header@) {
        Some(e) => Some(e),
        None => values_error(rc.value@),
    }
}

/// `g` is the pattern parsed from `raw`.
pub open spec fn glob_from(g: GlobPattern, raw: Seq<char>) -> bool {
    g.raw_view() == raw && g.alternatives() == glob_alternatives(raw)
}

/// `gs` are the patterns parsed from `raws`, one for one.
pub open spec fn globs_from(gs: Seq<GlobPattern>, raws: Seq<Seq<char>>) -> bool {
    gs.len() == raws.len() && forall|i: int| 0 <= i < gs.len() ==> glob_from(#[trigger] gs[i], raws[i])
}

/// `h` is the header constraint made from table `r`.
pub open spec fn header_from(h: HeaderConstraint, r: RawHeader) -> bool {
    &&& glob_from(h.sheet, r.sheet@)
    &&& names_view(h.column_require@) == names_view(r.column_require@)
    &&& globs_from(h.column_optional@, names_view(r.column_optional@))
    &&& names_view(h.row_require@) == names_view(r.row_require@)
    &&& globs_from(h.row_optional@, names_view(r.row_optional@))
}

/// `c` is the value constraint made from table `r`: the column when one is
/// given, else the row; `enum` wins over `enum_`; the `when` text parsed.
pub open spec fn value_from(c: ValueConstraint, r: RawValue) -> bool {
    &&& glob_from(c.sheet, r.sheet@)
    &&& match r.column {
        Some(col) => c.target matches LineTarget::Column(t) && t@ == col@,
        None => c.target matches LineTarget::Row(t) && r.row matches Some(rw) && t@ == rw@,
    }
    &&& c.rules.ty == r.ty
    &&& c.rules.required == r.required
    &&& opt_names(c.rules.enums) == (if r.enum_kw is Some {
        opt_names(r.enum_kw)
    } else {
        opt_names(r.enum_)
    })
    &&& opt_text(c.rules.pattern) == opt_text(r.pattern)
    &&& opt_text(c.rules.min) == opt_text(r.min)
    &&& opt_text(c.rules.max) == opt_text(r.max)
    &&& match r.when {
        None => c.when is None,
        Some(w) => c.when matches Some(e) && spec_parse(w@) == Ok::<_, WhenError>(e.model()),
    }
}

/// Parses each of `raws` as a glob pattern, in order, stopping at the first error.
fn parse_globs(raws: &Vec<String>) -> (r: Result<Vec<GlobPattern>, GlobError>)
    ensures
        match r {
            Ok(gs) => refused_in(names_view(raws@)) is None && globs_from(gs@, names_view(raws@)),
            Err(e) => refused_in(names_view(raws@)) == Some(e.pattern@),
        },
{
    let ghost rv = names_view(raws@);
    assert(rv.skip(0) =~= rv);
    let mut gs: Vec<GlobPattern> = Vec::new();
    let mut i: usize = 0;
    while i < raws.len()
        invariant
            i <= raws@.len(),
            rv == names_view(raws@),
            refused_in(rv) == refused_in(rv.skip(i as int)),
            globs_from(gs@, rv.take(i as int)),
        decreases raws@.len() - i,
    {
        assert(rv.skip(i as int)[0] == raws@[i as int]@);
        assert(rv.skip(i as int).drop_first() =~= rv.skip(i + 1));
        match GlobPattern::parse(raws[i].as_str()) {
            Ok(g) => {
                let ghost before = gs@;
                gs.push(g);
                assert forall|j: int| 0 <= j < gs@.len() implies glob_from(#[trigger] gs@[j], rv.take(i + 1)[j]) by {
                    if j < i {
                        assert(gs@[j] == before[j]);
                        assert(rv.take(i + 1)[j] == rv.take(i as int)[j]);
                    }
                }
            },
            Err(e) => {
                return Err(e);
            },
        }
        i = i + 1;
    }
    assert(rv.skip(i as int) =~= Seq::<Seq<char>>::empty());
    assert(rv.take(i as int) =~= rv);
    Ok(gs)
}

/// `refused_in` over two lists is that of the first, else that of the second.
proof fn lemma_refused_in_append(a: Seq<Seq<char>>, b: Seq<Seq<char>>)
    ensures
        refused_in(a + b) == (match refused_in(a) {
            Some(p) => Some(p),
            None => refused_in(b),
        }),
    decreases a.len(),
{
    if a.len() == 0 {
        assert(a + b =~= b);
    } else {
        assert((a + b).drop_first() =~= a.drop_first() + b);
        lemma_refused_in_append(a.drop_first(), b);
    }
}

/// Builds the header constraint of table `h`.
fn convert_header(h: RawHeader) -> (r: Result<HeaderConstraint, LoadError>)
    ensures
        match r {
            Ok(c) => header_error(h) is None && header_from(c, h),
            Err(e) => header_error(h) == Some(e.model()),
        },
{
    let ghost hsheet = seq![h.sheet@];
    let ghost co = names_view(h.column_optional@);
    let ghost ro = names_view(h.row_optional@);
    proof {
        lemma_refused_in_append(hsheet + co, ro);
        lemma_refused_in_append(hsheet, co);
        assert(hsheet[0] == h.sheet@);
        assert(hsheet.drop_first() =~= Seq::<Seq<char>>::empty());
        assert(refused_in(Seq::<Seq<char>>::empty()) is None);
        assert(refused_in(hsheet) == first_refused(glob_alternatives(h.sheet@)));
    }
    let sheet = match GlobPattern::parse(h.sheet.as_str()) {
        Ok(g) => g,
        Err(e) => {
            return Err(LoadError::Glob(e));
        },
    };
    let column_optional = match parse_globs(&h.column_optional) {
        Ok(gs) => gs,
        Err(e) => {
            return Err(LoadError::Glob(e));
        },
    };
    let row_optional = match parse_globs(&h.row_optional) {
        Ok(gs) => gs,
        Err(e) => {
            return Err(LoadError::Glob(e));
        },
    };
    Ok(HeaderConstraint {
        sheet,
        column_require: h.column_require,
        column_optional,
        row_require: h.row_require,
        row_optional,
    })
}

/// Builds the value constraint of table `v`.
fn convert_value(v: RawValue) -> (r: Result<ValueConstraint, LoadError>)
    ensures
        match r {
            Ok(c) => value_error(v) is None && value_from(c, v),
            Err(e) => value_error(v) == Some(e.model()),
        },
{
    let target = match v.column {
        Some(c) => LineTarget::Column(c),
        None => match v.row {
            Some(r) => LineTarget::Row(r),
            None => {
                return Err(LoadError::MissingTarget { sheet: v.sheet });
            },
        },
    };
    let when = match &v.when {
        Some(s) => match WhenExpr::parse(s.as_str()) {
            Ok(e) => Some(e),
            Err(e) => {
                return Err(LoadError::When(e));
            },
        },
        None => None,
    };
    let sheet = match GlobPattern::parse(v.sheet.as_str()) {
        Ok(g) => g,
        Err(e) => {
            return Err(LoadError::Glob(e));
        },
    };
    let enums = match v.enum_kw {
        Some(e) => Some(e),
        None => v.enum_,
    };
    Ok(ValueConstraint {
        sheet,
        target,
        rules: ValueRules { ty: v.ty, required: v.required, enums, pattern: v.pattern, min: v.min, max: v.max },
        when,
    })
}

impl RawConstraints {
    /// Turns the tables into constraints: header tables first, then value
    /// tables, each in order; fails with the first error met.
    pub fn into_constraints(self) -> (r: Result<Constraints, LoadError>)
        ensures
            match r {
                Ok(c) => {
                    &&& load_error(self) is None
                    &&& c.headers@.len() == self.header@.len()
                    &&& forall|i: int| 0 <= i < c.headers@.len() ==> header_from(#[trigger] c.headers@[i], self.header@[i])
                    &&& c.values@.len() == self.value@.len()
                    &&& forall|i: int| 0 <= i < c.values@.len() ==> value_from(#[trigger] c.values@[i], self.value@[i])
                },
                Err(e) => load_error(self) == Some(e.model()),
            },
    {
        let ghost hs0 = self.header@;
        let ghost vs0 = self.value@;
        let mut hs = self.header;
        let mut headers: Vec<HeaderConstraint> = Vec::new();
        assert(hs0.skip(0) =~= hs0);
        while hs.len() > 0
            invariant
                hs0 == self.header@,
                vs0 == self.value@,
                hs@ == hs0.skip(headers@.len() as int),
                headers@.len() <= hs0.len(),
                headers_error(hs0) == headers_error(hs@),
                forall|i: int| 0 <= i < headers@.len() ==> header_from(#[trigger] headers@[i], hs0[i]),
            decreases hs@.len(),
        {
            let ghost k = headers@.len() as int;
            let ghost cur = hs@;
            assert(cur.drop_first() =~= hs0.skip(k + 1));
            let h = hs.remove(0);
            assert(hs@ =~= hs0.skip(k + 1));
            assert(h == hs0[k] && h == cur[0]);
            assert(headers_error(cur) == match header_error(h) {
                Some(e) => Some(e),
                None => headers_error(hs@),
            });
            match convert_header(h) {
                Ok(c) => {
                    headers.push(c);
                },
                Err(e) => {
                    return Err(e);
                },
            }
        }
        assert(headers_error(hs@) is None);
        let mut vs = self.value;
        let mut values: Vec<ValueConstraint> = Vec::new();
        assert(vs0.skip(0) =~= vs0);
        while vs.len() > 0
            invariant
                hs0 == self.header@,
                vs0 == self.value@,
                vs@ == vs0.skip(values@.len() as int),
                values@.len() <= vs0.len(),
                headers_error(hs0) is None,
                values_error(vs0) == values_error(vs@),
                headers@.len() == hs0.len(),
                forall|i: int| 0 <= i < headers@.len() ==> header_from(#[trigger] headers@[i], hs0[i]),
                forall|i: int| 0 <= i < values@.len() ==> value_from(#[trigger] values@[i], vs0[i]),
            decreases vs@.len(),
        {
            let ghost k = values@.len() as int;
            let ghost cur = vs@;
            assert(cur.drop_first() =~= vs0.skip(k + 1));
            let v = vs.remove(0);
            assert(vs@ =~= vs0.skip(k + 1));
            assert(v == vs0[k] && v == cur[0]);
            assert(values_error(cur) == match value_error(v) {
                Some(e) => Some(e),
                None => values_error(vs@),
            });
            match convert_value(v) {
                Ok(c) => {
                    values.push(c);
                },
                Err(e) => {
                    return Err(e);
                },
            }
        }
        Ok(Constraints { headers, values })
    }
}

} // verus!
