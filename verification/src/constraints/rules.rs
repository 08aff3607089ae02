//! Value rules: the type of a value and the rules it must meet.

use crate::constraints::when::{NumOrder, numeric_order, total_order_fn};
use crate::decimal::{is_i64, spec_is_i64};
use crate::regex_match::{regex_compiles, regex_finds, regex_search};
use crate::text::{chars_of, str_eq, string_of, trim, trim_chars};
use crate::validation::ViolationKind;
use vstd::prelude::*;
use vstd::string::StringExecFns;

verus! {

/// The type of a value.
#[derive(Debug, Clone, Copy, PartialEq, Eq, Structural)]
pub enum ValueType {
    String,
    Int,
    Float,
}

/// The rules of a value constraint. The bounds `min` and `max` are kept as
/// decimal text that reads back as the `f64` bound (`f64` values are written
/// with `Display`, which reads back exactly).
#[derive(Debug, PartialEq)]
pub struct ValueRules {
    pub ty: Option<ValueType>,
    pub required: bool,
    pub enums: Option<Vec<String>>,
    pub pattern: Option<String>,
    pub min: Option<String>,
    pub max: Option<String>,
}

impl Default for ValueRules {
    fn default() -> (r: Self)
        ensures
            r.ty is None,
            !r.required,
            r.enums is None,
            r.pattern is None,
            r.min is None,
            r.max is None,
    {
        ValueRules { ty: None, required: false, enums: None, pattern: None, min: None, max: None }
    }
}

/// The views of a list of strings.
pub open spec fn names_view(v: Seq<String>) -> Seq<Seq<char>> {
    v.map_values(|s: String| s@)
}

impl ValueRules {
    /// Why the rules do not fit the type: `pattern` only with type string,
    /// `min`/`max` only with a numeric type.
    pub open spec fn spec_compat(&self) -> Result<(), Seq<char>> {
        if self.pattern is Some && (self.ty matches Some(t) && t != ValueType::String) {
            Err("pattern は type=string のときのみ使えます"@)
        } else if (self.min is Some || self.max is Some) && self.ty is Some
            && !(self.ty == Some(ValueType::Int) || self.ty == Some(ValueType::Float)) {
            Err("min/max は数値型（int/float）のときのみ使えます"@)
        } else {
            Ok(())
        }
    }

    /// What the rules say of a cell value (see `check_value`), numbers compared as `order` says.
    pub open spec fn spec_check(&self, value: Seq<char>, order: spec_fn(Seq<char>, Seq<char>) -> NumOrder) -> Result<(), ViolationKind> {
        let v = trim(value);
        if v.len() == 0 {
            if self.required {
                Err(ViolationKind::Empty)
            } else {
                Ok(())
            }
        } else if self.ty == Some(ValueType::Int) && !spec_is_i64(v) {
            Err(ViolationKind::TypeMismatch)
        } else if self.ty == Some(ValueType::Float) && order(v, v) == NumOrder::NotNumber {
            Err(ViolationKind::TypeMismatch)
        } else if self.enums matches Some(es) && !names_view(es@).contains(v) {
            Err(ViolationKind::NotInEnum)
        } else if self.pattern matches Some(p) && !(regex_compiles(p@) && regex_finds(p@, v)) {
            Err(ViolationKind::PatternMismatch)
        } else if self.min matches Some(m) && order(v, m@) == NumOrder::Less {
            Err(ViolationKind::OutOfRange)
        } else if self.max matches Some(m) && order(v, m@) == NumOrder::Greater {
            Err(ViolationKind::OutOfRange)
        } else {
            Ok(())
        }
    }

    /// Whether the rules fit the type.
    pub fn check_compat(&self) -> (r: Result<(), String>)
        ensures
            match r {
                Ok(()) => self.spec_compat() is Ok,
                Err(m) => self.spec_compat() == Err::<(), Seq<char>>(m@),
            },
    {
        let not_string = match self.ty {
            Some(t) => t != ValueType::String,
            None => false,
        };
        if self.pattern.is_some() && not_string {
            return Err(String::from_str("pattern は type=string のときのみ使えます"));
        }
        let numeric = match self.ty {
            Some(ValueType::Int) => true,
            Some(ValueType::Float) => true,
            _ => false,
        };
        if (self.min.is_some() || self.max.is_some()) && self.ty.is_some() && !numeric {
            return Err(String::from_str("min/max は数値型（int/float）のときのみ使えます"));
        }
        Ok(())
    }

    /// Checks one cell value. The value is trimmed; an empty value only
    /// breaks `required`. Then, in order: the type (an `int` must read as
    /// `i64`, a `float` as `f64`), the enumeration, the pattern (a match
    /// anywhere in the value; a pattern that does not compile never
    /// matches), and the bounds (only for values that read as numbers).
    /// `num` compares texts as numbers.
    pub fn check_value<F: Fn(&str, &str) -> NumOrder>(&self, value: &str, num: &F) -> (r: Result<(), ViolationKind>)
        requires
            total_order_fn(*num),
        ensures
            forall|order: spec_fn(Seq<char>, Seq<char>) -> NumOrder| #[trigger] numeric_order(*num, order)
                ==> r == self.spec_check(value@, order),
    {
        let vc = trim_chars(&chars_of(value));
        let v = string_of(&vc);
        if vc.len() == 0 {
            if self.required {
                return Err(ViolationKind::Empty);
            }
            return Ok(());
        }
        match self.ty {
            Some(ValueType::Int) => {
                if !is_i64(&vc) {
                    return Err(ViolationKind::TypeMismatch);
                }
            },
            Some(ValueType::Float) => {
                if num(v.as_str(), v.as_str()) == NumOrder::NotNumber {
                    return Err(ViolationKind::TypeMismatch);
                }
            },
            _ => {},
        }
        match &self.enums {
            Some(es) => {
                let mut found = false;
                let mut i: usize = 0;
                while i < es.len()
                    invariant
                        i <= es@.len(),
                        found == exists|j: int| 0 <= j < i && es@[j]@ == v@,
                    decreases es@.len() - i,
                {
                    if str_eq(es[i].as_str(), v.as_str()) {
                        found = true;
                    }
                    i = i + 1;
                }
                if !found {
                    proof {
                        assert forall|j: int| 0 <= j < names_view(es@).len() implies names_view(es@)[j] != v@ by {
                            assert(names_view(es@)[j] == es@[j]@);
                        }
                    }
                    return Err(ViolationKind::NotInEnum);
                }
                proof {
                    let j = choose|j: int| 0 <= j < es@.len() && es@[j]@ == v@;
                    assert(names_view(es@)[j] == v@);
                }
            },
            None => {},
        }
        match &self.pattern {
            Some(p) => match regex_search(p.as_str(), v.as_str()) {
                Some(true) => {},
                _ => {
                    return Err(ViolationKind::PatternMismatch);
                },
            },
            None => {},
        }
        match &self.min {
            Some(m) => {
                if num(v.as_str(), m.as_str()) == NumOrder::Less {
                    return Err(ViolationKind::OutOfRange);
                }
            },
            None => {},
        }
        match &self.max {
            Some(m) => {
                if num(v.as_str(), m.as_str()) == NumOrder::Greater {
                    return Err(ViolationKind::OutOfRange);
                }
            },
            None => {},
        }
        Ok(())
    }
}

/// An `enum` list accepts exactly the values it lists, wherever they stand in
/// the list: for a value that is not empty once trimmed and meets the type
/// rule, the rules report `NotInEnum` exactly when no item of the list equals
/// the trimmed value.
pub proof fn law_enum_accepts_listed(rules: ValueRules, value: Seq<char>, order: spec_fn(Seq<char>, Seq<char>) -> NumOrder)
    requires
        rules.enums is Some,
        trim(value).len() > 0,
        rules.ty == Some(ValueType::Int) ==> spec_is_i64(trim(value)),
        rules.ty == Some(ValueType::Float) ==> order(trim(value), trim(value)) != NumOrder::NotNumber,
    ensures
        rules.spec_check(value, order) == Err::<(), ViolationKind>(ViolationKind::NotInEnum) <==> !exists|j: int|
            0 <= j < rules.enums->0@.len() && (#[trigger] rules.enums->0@[j])@ == trim(value),
{
    let es = rules.enums->0@;
    let v = trim(value);
    if exists|j: int| 0 <= j < es.len() && (#[trigger] es[j])@ == v {
        let j = choose|j: int| 0 <= j < es.len() && (#[trigger] es[j])@ == v;
        assert(names_view(es)[j] == v);
    } else {
        assert forall|j: int| 0 <= j < names_view(es).len() implies names_view(es)[j] != v by {
            assert(names_view(es)[j] == es[j]@);
        }
    }
}

/// What a value must meet, rule by rule, and which failure is reported.
/// A value that is empty once trimmed meets the rules unless `required`,
/// which it breaks with `Empty`. Any other value (trimmed) meets the rules
/// exactly when it meets each of them: reads as `i64` for `int`, as a
/// number for `float`, equals an item of the `enum` list, is matched by the
/// `pattern` (which compiles), and is not below `min` nor above `max` as
/// numbers. The type is checked first (`TypeMismatch`), then the list
/// (`NotInEnum`), then the pattern (`PatternMismatch`), then the bounds
/// (`OutOfRange`).
pub proof fn law_value_rules(rules: ValueRules, value: Seq<char>, order: spec_fn(Seq<char>, Seq<char>) -> NumOrder)
    ensures
        ({
            let v = trim(value);
            let type_ok = (rules.ty == Some(ValueType::Int) ==> spec_is_i64(v)) && (rules.ty == Some(ValueType::Float)
                ==> order(v, v) != NumOrder::NotNumber);
            let enum_ok = rules.enums is Some ==> exists|j: int|
                0 <= j < rules.enums->0@.len() && (#[trigger] rules.enums->0@[j])@ == v;
            let pattern_ok = rules.pattern is Some ==> regex_compiles(rules.pattern->0@) && regex_finds(
                rules.pattern->0@,
                v,
            );
            let bounds_ok = (rules.min is Some ==> order(v, rules.min->0@) != NumOrder::Less) && (rules.max is Some
                ==> order(v, rules.max->0@) != NumOrder::Greater);
            &&& v.len() == 0 ==> rules.spec_check(value, order) == (if rules.required {
                Err::<(), ViolationKind>(ViolationKind::Empty)
            } else {
                Ok(())
            })
            &&& v.len() > 0 ==> (rules.spec_check(value, order) is Ok <==> type_ok && enum_ok && pattern_ok && bounds_ok)
            &&& v.len() > 0 && !type_ok ==> rules.spec_check(value, order) == Err::<(), ViolationKind>(ViolationKind::TypeMismatch)
            &&& v.len() > 0 && type_ok && !enum_ok ==> rules.spec_check(value, order) == Err::<(), ViolationKind>(
                ViolationKind::NotInEnum,
            )
            &&& v.len() > 0 && type_ok && enum_ok && !pattern_ok ==> rules.spec_check(value, order) == Err::<
                (),
                ViolationKind,
            >(ViolationKind::PatternMismatch)
            &&& v.len() > 0 && type_ok && enum_ok && pattern_ok && !bounds_ok ==> rules.spec_check(value, order)
                == Err::<(), ViolationKind>(ViolationKind::OutOfRange)
        }),
{
    let v = trim(value);
    if rules.enums is Some {
        let es = rules.enums->0@;
        if exists|j: int| 0 <= j < es.len() && (#[trigger] es[j])@ == v {
            let j = choose|j: int| 0 <= j < es.len() && (#[trigger] es[j])@ == v;
            assert(names_view(es)[j] == v);
        } else {
            assert forall|j: int| 0 <= j < names_view(es).len() implies names_view(es)[j] != v by {
                assert(names_view(es)[j] == es[j]@);
            }
        }
    }
}

/// A `pattern` goes only with type string: with type `int` or `float` the
/// rules do not fit; with no type or type string and no bounds they do.
/// Bounds go only with a numeric type: with type string they do not fit;
/// without a pattern and with type `int`, `float` or none, the rules fit.
pub proof fn law_compat_cases(rules: ValueRules)
    ensures
        rules.pattern is Some && (rules.ty == Some(ValueType::Int) || rules.ty == Some(ValueType::Float))
            ==> rules.spec_compat() == Err::<(), Seq<char>>("pattern は type=string のときのみ使えます"@),
        rules.pattern is Some && (rules.ty is None || rules.ty == Some(ValueType::String)) && rules.min is None
            && rules.max is None ==> rules.spec_compat() is Ok,
        (rules.min is Some || rules.max is Some) && rules.ty == Some(ValueType::String)
            ==> rules.spec_compat() == Err::<(), Seq<char>>("min/max は数値型（int/float）のときのみ使えます"@),
        rules.pattern is None && rules.ty != Some(ValueType::String) ==> rules.spec_compat() is Ok,
{
}

} // verus!
