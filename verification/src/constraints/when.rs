//! `when` expressions: declarative conditions that decide whether a value
//! constraint applies to a data row.
//!
//! Grammar:
//! ```text
//! expr   := term ( "|" term )*
//! term   := factor ( "&" factor )*
//! factor := cond | "(" expr ")"
//! cond   := "{" key "=" val ( "," key "=" val )* "}"
//! ```
//! Six comparison operators: `equals`, `not_equal`, `gt`, `lt`, `in`, `matches`.
//! `&` binds tighter than `|`; parentheses group.

use crate::regex_match::{regex_compiles, regex_finds, regex_search};
use crate::sheet::RowMap;
use crate::text::{
    chars_of, is_whitespace, is_ws, nonempty_trimmed, split_chars, split_on, str_eq, string_of, trim,
    trim_chars,
};
use vstd::prelude::*;

verus! {

/// Why a `when` expression was refused.
#[derive(Debug, Clone, Copy, PartialEq, Eq)]
pub enum WhenError {
    /// A `{` without a matching `}`.
    UnclosedBrace,
    /// A character that cannot start a token.
    UnexpectedChar(char),
    /// Tokens left over after a complete expression.
    TrailingTokens,
    /// A `(` group without its `)`.
    MissingCloseParen,
    /// Neither a condition nor `(` where one was needed.
    ExpectedCondition,
    /// A condition entry without `=`.
    NotKeyValue,
    /// A condition key that is neither a target nor an operator.
    UnknownKey,
    /// An `in` value that is not a `[..]` list.
    NotAList,
    /// A condition without `column` or `row`.
    MissingTarget,
    /// A condition without an operator.
    MissingOperator,
}

/// A token of a `when` expression.
pub enum Tok {
    Or,
    And,
    LParen,
    RParen,
    Cond(Seq<char>),
}

/// A token, with the body of a `{...}` condition held as characters.
pub enum Token {
    Or,
    And,
    LParen,
    RParen,
    Cond(Vec<char>),
}

impl Token {
    pub open spec fn model(&self) -> Tok {
        match self {
            Token::Or => Tok::Or,
            Token::And => Tok::And,
            Token::LParen => Tok::LParen,
            Token::RParen => Tok::RParen,
            Token::Cond(b) => Tok::Cond(b@),
        }
    }
}

/// The models of a token list.
pub open spec fn tokens_model(ts: Seq<Token>) -> Seq<Tok> {
    ts.map_values(|t: Token| t.model())
}

/// The first position at or after `from` that holds `c`.
pub open spec fn find_char(s: Seq<char>, c: char, from: int) -> Option<int>
    decreases s.len() - from,
{
    if from < 0 || from >= s.len() {
        None
    } else if s[from] == c {
        Some(from)
    } else {
        find_char(s, c, from + 1)
    }
}

/// Puts `t` in front of a token list that may have failed.
pub open spec fn cons_tok(t: Tok, r: Result<Seq<Tok>, WhenError>) -> Result<Seq<Tok>, WhenError> {
    match r {
        Ok(ts) => Ok(seq![t] + ts),
        Err(e) => Err(e),
    }
}

/// The tokens of `s` from position `i` on: white space is skipped, `|`, `&`,
/// `(`, `)` are tokens of their own, `{` takes everything up to the next `}`
/// as a condition body; anything else is refused.
pub open spec fn tokenize_from(s: Seq<char>, i: int) -> Result<Seq<Tok>, WhenError>
    decreases s.len() - i,
{
    if i < 0 || i >= s.len() {
        Ok(Seq::empty())
    } else {
        let c = s[i];
        if is_ws(c) {
            tokenize_from(s, i + 1)
        } else if c == '|' {
            cons_tok(Tok::Or, tokenize_from(s, i + 1))
        } else if c == '&' {
            cons_tok(Tok::And, tokenize_from(s, i + 1))
        } else if c == '(' {
            cons_tok(Tok::LParen, tokenize_from(s, i + 1))
        } else if c == ')' {
            cons_tok(Tok::RParen, tokenize_from(s, i + 1))
        } else if c == '{' {
            match find_char(s, '}', i + 1) {
                None => Err(WhenError::UnclosedBrace),
                Some(j) => if i < j && j < s.len() {
                    cons_tok(Tok::Cond(s.subrange(i + 1, j)), tokenize_from(s, j + 1))
                } else {
                    Err(WhenError::UnclosedBrace)
                },
            }
        } else {
            Err(WhenError::UnexpectedChar(c))
        }
    }
}

/// The tokens of `s`.
pub open spec fn spec_tokenize(s: Seq<char>) -> Result<Seq<Tok>, WhenError> {
    tokenize_from(s, 0)
}

/// Puts the tokens `p` in front of a token list that may have failed.
pub open spec fn prepend_toks(p: Seq<Tok>, r: Result<Seq<Tok>, WhenError>) -> Result<Seq<Tok>, WhenError> {
    match r {
        Ok(ts) => Ok(p + ts),
        Err(e) => Err(e),
    }
}

proof fn lemma_find_char(s: Seq<char>, c: char, from: int)
    requires
        0 <= from,
    ensures
        find_char(s, c, from) matches Some(j) ==> from <= j < s.len() && s[j] == c && forall|k: int|
            from <= k < j ==> s[k] != c,
        find_char(s, c, from) is None ==> forall|k: int| from <= k < s.len() ==> s[k] != c,
    decreases s.len() - from,
{
    if from < s.len() && s[from] != c {
        lemma_find_char(s, c, from + 1);
    }
}

/// Splits `chars` into tokens.
fn tokenize(chars: &Vec<char>) -> (r: Result<Vec<Token>, WhenError>)
    ensures
        match r {
            Ok(ts) => spec_tokenize(chars@) == Ok::<Seq<Tok>, WhenError>(tokens_model(ts@)),
            Err(e) => spec_tokenize(chars@) == Err::<Seq<Tok>, WhenError>(e),
        },
{
    let mut tokens: Vec<Token> = Vec::new();
    let mut i: usize = 0;
    let n = chars.len();
    while i < n
        invariant
            i <= n,
            n == chars@.len(),
            spec_tokenize(chars@) == prepend_toks(tokens_model(tokens@), tokenize_from(chars@, i as int)),
        decreases n - i,
    {
        let c = chars[i];
        let ghost before = tokens_model(tokens@);
        if is_whitespace(c) {
            i = i + 1;
        } else if c == '|' {
            tokens.push(Token::Or);
            assert(tokens_model(tokens@) =~= before.push(Tok::Or));
            i = i + 1;
            proof { lemma_prepend_assoc(before, Tok::Or, tokenize_from(chars@, i as int)); }
        } else if c == '&' {
            tokens.push(Token::And);
            assert(tokens_model(tokens@) =~= before.push(Tok::And));
            i = i + 1;
            proof { lemma_prepend_assoc(before, Tok::And, tokenize_from(chars@, i as int)); }
        } else if c == '(' {
            tokens.push(Token::LParen);
            assert(tokens_model(tokens@) =~= before.push(Tok::LParen));
            i = i + 1;
            proof { lemma_prepend_assoc(before, Tok::LParen, tokenize_from(chars@, i as int)); }
        } else if c == ')' {
            tokens.push(Token::RParen);
            assert(tokens_model(tokens@) =~= before.push(Tok::RParen));
            i = i + 1;
            proof { lemma_prepend_assoc(before, Tok::RParen, tokenize_from(chars@, i as int)); }
        } else if c == '{' {
            let start = i + 1;
            let mut j = start;
            while j < n && chars[j] != '}'
                invariant
                    start <= j <= n,
                    n == chars@.len(),
                    forall|k: int| start <= k < j ==> chars@[k] != '}',
                decreases n - j,
            {
                j = j + 1;
            }
            proof { lemma_find_char(chars@, '}', start as int); }
            if j >= n {
                return Err(WhenError::UnclosedBrace);
            }
            let mut body: Vec<char> = Vec::new();
            let mut k = start;
            while k < j
                invariant
                    start <= k <= j < n,
                    n == chars@.len(),
                    body@ == chars@.subrange(start as int, k as int),
                decreases j - k,
            {
                body.push(chars[k]);
                k = k + 1;
            }
            let ghost t = Tok::Cond(body@);
            assert(find_char(chars@, '}', start as int) == Some(j as int));
            assert(tokenize_from(chars@, i as int) == cons_tok(t, tokenize_from(chars@, j + 1)));
            tokens.push(Token::Cond(body));
            assert(tokens_model(tokens@) =~= before.push(t));
            i = j + 1;
            proof { lemma_prepend_assoc(before, t, tokenize_from(chars@, i as int)); }
        } else {
            return Err(WhenError::UnexpectedChar(c));
        }
    }
    assert(tokenize_from(chars@, i as int) == Ok::<Seq<Tok>, WhenError>(Seq::empty()));
    assert(tokens_model(tokens@) + Seq::<Tok>::empty() == tokens_model(tokens@));
    Ok(tokens)
}

proof fn lemma_prepend_assoc(p: Seq<Tok>, t: Tok, r: Result<Seq<Tok>, WhenError>)
    ensures
        prepend_toks(p, cons_tok(t, r)) == prepend_toks(p.push(t), r),
{
    match r {
        Ok(ts) => {
            assert(p + (seq![t] + ts) == p.push(t) + ts);
        },
        Err(_) => {},
    }
}


/// The line a condition looks at: a column of the current row, or the row itself.
#[derive(Debug, Clone, PartialEq)]
pub enum Target {
    Column(String),
    Row(String),
}

/// The comparison operators (six).
#[derive(Debug, Clone, Copy, PartialEq, Eq, Structural)]
pub enum CompareOp {
    Equals,
    NotEqual,
    Gt,
    Lt,
    In,
    Matches,
}

/// The value a condition compares with: a list for `in`, a single value otherwise.
#[derive(Debug, Clone, PartialEq)]
pub enum CondValue {
    One(String),
    Many(Vec<String>),
}

/// One condition `{column=.., op=..}`.
#[derive(Debug, Clone, PartialEq)]
pub struct Condition {
    pub target: Target,
    pub op: CompareOp,
    pub value: CondValue,
}

/// Mathematical model of a `Target`.
pub enum TargetModel {
    Column(Seq<char>),
    Row(Seq<char>),
}

/// Mathematical model of a `CondValue`.
pub enum ValueModel {
    One(Seq<char>),
    Many(Seq<Seq<char>>),
}

/// Mathematical model of a `Condition`.
pub struct CondModel {
    pub target: TargetModel,
    pub op: CompareOp,
    pub value: ValueModel,
}

impl Target {
    pub open spec fn model(&self) -> TargetModel {
        match self {
            Target::Column(n) => TargetModel::Column(n@),
            Target::Row(n) => TargetModel::Row(n@),
        }
    }
}

/// The views of a list of strings.
pub open spec fn strings_view(v: Seq<String>) -> Seq<Seq<char>> {
    v.map_values(|s: String| s@)
}

impl CondValue {
    pub open spec fn model(&self) -> ValueModel {
        match self {
            CondValue::One(v) => ValueModel::One(v@),
            CondValue::Many(vs) => ValueModel::Many(strings_view(vs@)),
        }
    }
}

impl Condition {
    pub open spec fn model(&self) -> CondModel {
        CondModel { target: self.target.model(), op: self.op, value: self.value.model() }
    }
}

/// The state of `split_top_level` after reading `s`: the finished pieces, the
/// piece being read, and the `[`/`]` nesting depth.
pub open spec fn top_level_state(s: Seq<char>) -> (Seq<Seq<char>>, Seq<char>, int)
    decreases s.len(),
{
    if s.len() == 0 {
        (Seq::empty(), Seq::empty(), 0)
    } else {
        let (out, cur, d) = top_level_state(s.drop_last());
        let c = s.last();
        if c == '[' {
            (out, cur.push(c), d + 1)
        } else if c == ']' {
            (out, cur.push(c), d - 1)
        } else if c == ',' && d == 0 {
            (out.push(cur), Seq::empty(), d)
        } else {
            (out, cur.push(c), d)
        }
    }
}

/// The pieces of `s` between commas that are not inside `[...]`; a last
/// empty piece is left out.
pub open spec fn split_top_level(s: Seq<char>) -> Seq<Seq<char>> {
    let (out, cur, _d) = top_level_state(s);
    if cur.len() > 0 {
        out.push(cur)
    } else {
        out
    }
}

/// The operator a key names.
pub open spec fn op_of_key(key: Seq<char>) -> Option<CompareOp> {
    if key == "equals"@ {
        Some(CompareOp::Equals)
    } else if key == "not_equal"@ {
        Some(CompareOp::NotEqual)
    } else if key == "gt"@ {
        Some(CompareOp::Gt)
    } else if key == "lt"@ {
        Some(CompareOp::Lt)
    } else if key == "in"@ {
        Some(CompareOp::In)
    } else if key == "matches"@ {
        Some(CompareOp::Matches)
    } else {
        None
    }
}

/// The items of a `[a, b, c]` list: the comma-separated pieces between the
/// brackets, trimmed, empty ones left out.
pub open spec fn spec_parse_list(val: Seq<char>) -> Result<Seq<Seq<char>>, WhenError> {
    let t = trim(val);
    if t.len() >= 2 && t[0] == '[' && t.last() == ']' {
        Ok(nonempty_trimmed(split_on(t.subrange(1, t.len() - 1), ',')))
    } else {
        Err(WhenError::NotAList)
    }
}

/// What has been read of a condition so far: its target and its operator with value.
pub type CondSoFar = (Option<TargetModel>, Option<(CompareOp, ValueModel)>);

/// Reads one `key=value` entry of a condition.
pub open spec fn cond_step(acc: Result<CondSoFar, WhenError>, pair: Seq<char>) -> Result<CondSoFar, WhenError> {
    match acc {
        Err(e) => Err(e),
        Ok((t, ov)) => {
            let p = trim(pair);
            if p.len() == 0 {
                Ok((t, ov))
            } else {
                match find_char(p, '=', 0) {
                    None => Err(WhenError::NotKeyValue),
                    Some(j) => {
                        let key = trim(p.take(j));
                        let val = trim(p.skip(j + 1));
                        if key == "column"@ {
                            Ok((Some(TargetModel::Column(val)), ov))
                        } else if key == "row"@ {
                            Ok((Some(TargetModel::Row(val)), ov))
                        } else {
                            match op_of_key(key) {
                                None => Err(WhenError::UnknownKey),
                                Some(op) => if op == CompareOp::In {
                                    match spec_parse_list(val) {
                                        Err(e) => Err(e),
                                        Ok(vs) => Ok((t, Some((op, ValueModel::Many(vs))))),
                                    }
                                } else {
                                    Ok((t, Some((op, ValueModel::One(val)))))
                                },
                            }
                        }
                    },
                }
            }
        },
    }
}

/// Reads the entries of a condition in order.
pub open spec fn cond_fold(pairs: Seq<Seq<char>>) -> Result<CondSoFar, WhenError>
    decreases pairs.len(),
{
    if pairs.len() == 0 {
        Ok((None, None))
    } else {
        cond_step(cond_fold(pairs.drop_last()), pairs.last())
    }
}

/// The condition written in the body of `{...}`: the last target and the last
/// operator given win; both are needed.
pub open spec fn spec_parse_condition(body: Seq<char>) -> Result<CondModel, WhenError> {
    match cond_fold(split_top_level(body)) {
        Err(e) => Err(e),
        Ok((t, ov)) => match t {
            None => Err(WhenError::MissingTarget),
            Some(target) => match ov {
                None => Err(WhenError::MissingOperator),
                Some((op, value)) => Ok(CondModel { target, op, value }),
            },
        },
    }
}

proof fn lemma_cond_fold_err(all: Seq<Seq<char>>, k: int, e: WhenError)
    requires
        0 <= k <= all.len(),
        cond_fold(all.take(k)) == Err::<CondSoFar, WhenError>(e),
    ensures
        cond_fold(all) == Err::<CondSoFar, WhenError>(e),
    decreases all.len() - k,
{
    if k == all.len() {
        assert(all.take(k) == all);
    } else {
        assert(all.take(k + 1).drop_last() == all.take(k));
        lemma_cond_fold_err(all, k + 1, e);
    }
}

/// Splits at commas outside `[...]`.
fn split_top_level_exec(body: &Vec<char>) -> (r: Vec<Vec<char>>)
    ensures
        r@.len() == split_top_level(body@).len(),
        forall|k: int| 0 <= k < r@.len() ==> #[trigger] r@[k]@ == split_top_level(body@)[k],
{
    let mut out: Vec<Vec<char>> = Vec::new();
    let mut cur: Vec<char> = Vec::new();
    let mut depth: i128 = 0;
    let mut i: usize = 0;
    while i < body.len()
        invariant
            i <= body@.len(),
            -(i as int) <= depth <= i as int,
            ({
                let (o, c, d) = top_level_state(body@.take(i as int));
                &&& out@.len() == o.len()
                &&& forall|k: int| 0 <= k < o.len() ==> #[trigger] out@[k]@ == o[k]
                &&& cur@ == c
                &&& depth == d
            }),
        decreases body@.len() - i,
    {
        assert(body@.take(i + 1).drop_last() == body@.take(i as int));
        let c = body[i];
        if c == '[' {
            cur.push(c);
            depth = depth + 1;
        } else if c == ']' {
            cur.push(c);
            depth = depth - 1;
        } else if c == ',' && depth == 0 {
            let piece = cur;
            out.push(piece);
            cur = Vec::new();
        } else {
            cur.push(c);
        }
        i = i + 1;
    }
    assert(body@.take(body@.len() as int) == body@);
    if cur.len() > 0 {
        out.push(cur);
    }
    out
}

/// The position of the first `c` in `v`.
fn find_char_exec(v: &Vec<char>, c: char) -> (r: Option<usize>)
    ensures
        match r {
            Some(j) => find_char(v@, c, 0) == Some(j as int),
            None => find_char(v@, c, 0) is None,
        },
{
    let mut j: usize = 0;
    while j < v.len()
        invariant
            j <= v@.len(),
            forall|k: int| 0 <= k < j ==> v@[k] != c,
        decreases v@.len() - j,
    {
        if v[j] == c {
            proof {
                lemma_find_char(v@, c, 0);
            }
            return Some(j);
        }
        j = j + 1;
    }
    proof {
        lemma_find_char(v@, c, 0);
    }
    None
}

/// `v[from..to]`.
fn slice_chars(v: &Vec<char>, from: usize, to: usize) -> (r: Vec<char>)
    requires
        from <= to <= v@.len(),
    ensures
        r@ == v@.subrange(from as int, to as int),
{
    let mut r: Vec<char> = Vec::new();
    let mut k = from;
    while k < to
        invariant
            from <= k <= to <= v@.len(),
            r@ == v@.subrange(from as int, k as int),
        decreases to - k,
    {
        r.push(v[k]);
        k = k + 1;
    }
    r
}

/// The operator `key` names, if any.
fn op_from_key(key: &String) -> (r: Option<CompareOp>)
    ensures
        r == op_of_key(key@),
{
    let k = key.as_str();
    if str_eq(k, "equals") {
        Some(CompareOp::Equals)
    } else if str_eq(k, "not_equal") {
        Some(CompareOp::NotEqual)
    } else if str_eq(k, "gt") {
        Some(CompareOp::Gt)
    } else if str_eq(k, "lt") {
        Some(CompareOp::Lt)
    } else if str_eq(k, "in") {
        Some(CompareOp::In)
    } else if str_eq(k, "matches") {
        Some(CompareOp::Matches)
    } else {
        None
    }
}

/// Parses a `[a, b, c]` list.
fn parse_list(val: &Vec<char>) -> (r: Result<Vec<String>, WhenError>)
    ensures
        match r {
            Ok(vs) => spec_parse_list(val@) == Ok::<Seq<Seq<char>>, WhenError>(strings_view(vs@)),
            Err(e) => spec_parse_list(val@) == Err::<Seq<Seq<char>>, WhenError>(e),
        },
{
    let t = trim_chars(val);
    if t.len() >= 2 && t[0] == '[' && t[t.len() - 1] == ']' {
        let inner = slice_chars(&t, 1, t.len() - 1);
        let pieces = split_chars(&inner, ',');
        let ghost all = split_on(inner@, ',');
        let mut items: Vec<String> = Vec::new();
        let mut k: usize = 0;
        while k < pieces.len()
            invariant
                k <= pieces@.len(),
                pieces@.len() == all.len(),
                all == split_on(inner@, ','),
                forall|m: int| 0 <= m < pieces@.len() ==> #[trigger] pieces@[m]@ == all[m],
                strings_view(items@) == nonempty_trimmed(all.take(k as int)),
            decreases pieces@.len() - k,
        {
            assert(all.take(k + 1).drop_last() == all.take(k as int));
            let piece = trim_chars(&pieces[k]);
            if piece.len() > 0 {
                let s = string_of(&piece);
                let ghost before = strings_view(items@);
                items.push(s);
                assert(strings_view(items@) =~= before.push(piece@));
            }
            k = k + 1;
        }
        assert(all.take(pieces@.len() as int) == all);
        Ok(items)
    } else {
        Err(WhenError::NotAList)
    }
}

/// Parses the body of a `{...}` condition, e.g. `column=processor_type, equals=ARM`.
fn parse_condition(body: &Vec<char>) -> (r: Result<Condition, WhenError>)
    ensures
        match r {
            Ok(c) => spec_parse_condition(body@) == Ok::<CondModel, WhenError>(c.model()),
            Err(e) => spec_parse_condition(body@) == Err::<CondModel, WhenError>(e),
        },
{
    let pairs = split_top_level_exec(body);
    let ghost all = split_top_level(body@);
    let mut target: Option<Target> = None;
    let mut op_val: Option<(CompareOp, CondValue)> = None;
    let mut k: usize = 0;
    while k < pairs.len()
        invariant
            k <= pairs@.len(),
            pairs@.len() == all.len(),
            all == split_top_level(body@),
            forall|m: int| 0 <= m < pairs@.len() ==> #[trigger] pairs@[m]@ == all[m],
            cond_fold(all.take(k as int)) == Ok::<CondSoFar, WhenError>(
                (
                    match target {
                        Some(t) => Some(t.model()),
                        None => None,
                    },
                    match op_val {
                        Some((op, v)) => Some((op, v.model())),
                        None => None,
                    },
                ),
            ),
        decreases pairs@.len() - k,
    {
        assert(all.take(k + 1).drop_last() == all.take(k as int));
        assert(all.take(k + 1).last() == pairs@[k as int]@);
        let pair = trim_chars(&pairs[k]);
        if pair.len() > 0 {
            match find_char_exec(&pair, '=') {
                None => {
                    proof { lemma_cond_fold_err(all, k + 1, WhenError::NotKeyValue); }
                    return Err(WhenError::NotKeyValue);
                },
                Some(j) => {
                    proof { lemma_find_char(pair@, '=', 0); }
                    let key_chars = slice_chars(&pair, 0, j);
                    let val_chars = slice_chars(&pair, j + 1, pair.len());
                    assert(key_chars@ == pair@.take(j as int));
                    assert(val_chars@ == pair@.skip(j + 1));
                    let key = string_of(&trim_chars(&key_chars));
                    let val = trim_chars(&val_chars);
                    if str_eq(key.as_str(), "column") {
                        target = Some(Target::Column(string_of(&val)));
                    } else if str_eq(key.as_str(), "row") {
                        target = Some(Target::Row(string_of(&val)));
                    } else {
                        match op_from_key(&key) {
                            None => {
                                proof { lemma_cond_fold_err(all, k + 1, WhenError::UnknownKey); }
                                return Err(WhenError::UnknownKey);
                            },
                            Some(op) => {
                                if op == CompareOp::In {
                                    match parse_list(&val) {
                                        Err(e) => {
                                            proof { lemma_cond_fold_err(all, k + 1, e); }
                                            return Err(e);
                                        },
                                        Ok(vs) => {
                                            op_val = Some((op, CondValue::Many(vs)));
                                        },
                                    }
                                } else {
                                    op_val = Some((op, CondValue::One(string_of(&val))));
                                }
                            },
                        }
                    }
                },
            }
        }
        k = k + 1;
    }
    assert(all.take(pairs@.len() as int) == all);
    match target {
        None => Err(WhenError::MissingTarget),
        Some(t) => match op_val {
            None => Err(WhenError::MissingOperator),
            Some((op, value)) => Ok(Condition { target: t, op, value }),
        },
    }
}

/// A parsed `when` expression.
#[derive(Debug, PartialEq)]
pub enum WhenExpr {
    Or(Vec<WhenExpr>),
    And(Vec<WhenExpr>),
    Cond(Condition),
}

/// Mathematical model of a `WhenExpr`.
pub enum WhenModel {
    Or(Seq<WhenModel>),
    And(Seq<WhenModel>),
    Cond(CondModel),
}

impl WhenExpr {
    pub open spec fn model(&self) -> WhenModel
        decreases self,
    {
        match self {
            WhenExpr::Or(xs) => WhenModel::Or(
                Seq::new(
                    xs@.len(),
                    |i: int|
                        if 0 <= i < xs@.len() {
                            xs@[i].model()
                        } else {
                            WhenModel::Or(Seq::empty())
                        },
                ),
            ),
            WhenExpr::And(xs) => WhenModel::And(
                Seq::new(
                    xs@.len(),
                    |i: int|
                        if 0 <= i < xs@.len() {
                            xs@[i].model()
                        } else {
                            WhenModel::Or(Seq::empty())
                        },
                ),
            ),
            WhenExpr::Cond(c) => WhenModel::Cond(c.model()),
        }
    }
}

/// The models of a list of expressions.
pub open spec fn models(v: Seq<WhenExpr>) -> Seq<WhenModel> {
    Seq::new(v.len(), |i: int| v[i].model())
}

/// `expr := term ( "|" term )*`, read from position `p`: a single term stands
/// for itself, several form an `Or`.
pub open spec fn p_expr(t: Seq<Tok>, p: int) -> Result<(WhenModel, int), WhenError>
    decreases t.len() - p, 4int,
{
    match p_or_list(t, p) {
        Err(e) => Err(e),
        Ok((xs, q)) => Ok((if xs.len() == 1 { xs[0] } else { WhenModel::Or(xs) }, q)),
    }
}

/// The `|`-separated terms read from position `p`.
pub open spec fn p_or_list(t: Seq<Tok>, p: int) -> Result<(Seq<WhenModel>, int), WhenError>
    decreases t.len() - p, 3int,
{
    match p_term(t, p) {
        Err(e) => Err(e),
        Ok((x, q)) => if p <= q < t.len() && t[q] is Or {
            match p_or_list(t, q + 1) {
                Err(e) => Err(e),
                Ok((xs, r)) => Ok((seq![x] + xs, r)),
            }
        } else {
            Ok((seq![x], q))
        },
    }
}

/// `term := factor ( "&" factor )*`, read from position `p`.
pub open spec fn p_term(t: Seq<Tok>, p: int) -> Result<(WhenModel, int), WhenError>
    decreases t.len() - p, 2int,
{
    match p_and_list(t, p) {
        Err(e) => Err(e),
        Ok((xs, q)) => Ok((if xs.len() == 1 { xs[0] } else { WhenModel::And(xs) }, q)),
    }
}

/// The `&`-separated factors read from position `p`.
pub open spec fn p_and_list(t: Seq<Tok>, p: int) -> Result<(Seq<WhenModel>, int), WhenError>
    decreases t.len() - p, 1int,
{
    match p_factor(t, p) {
        Err(e) => Err(e),
        Ok((x, q)) => if p <= q < t.len() && t[q] is And {
            match p_and_list(t, q + 1) {
                Err(e) => Err(e),
                Ok((xs, r)) => Ok((seq![x] + xs, r)),
            }
        } else {
            Ok((seq![x], q))
        },
    }
}

/// `factor := cond | "(" expr ")"`, read from position `p`.
pub open spec fn p_factor(t: Seq<Tok>, p: int) -> Result<(WhenModel, int), WhenError>
    decreases t.len() - p, 0int,
{
    if 0 <= p < t.len() && t[p] is LParen {
        match p_expr(t, p + 1) {
            Err(e) => Err(e),
            Ok((x, q)) => if 0 <= q < t.len() && t[q] is RParen {
                Ok((x, q + 1))
            } else {
                Err(WhenError::MissingCloseParen)
            },
        }
    } else if 0 <= p < t.len() && t[p] is Cond {
        match spec_parse_condition(t[p]->Cond_0) {
            Err(e) => Err(e),
            Ok(c) => Ok((WhenModel::Cond(c), p + 1)),
        }
    } else {
        Err(WhenError::ExpectedCondition)
    }
}

/// The expression written in `s`: its tokens must form exactly one expression.
pub open spec fn spec_parse(s: Seq<char>) -> Result<WhenModel, WhenError> {
    match spec_tokenize(s) {
        Err(e) => Err(e),
        Ok(t) => match p_expr(t, 0) {
            Err(e) => Err(e),
            Ok((x, q)) => if q == t.len() {
                Ok(x)
            } else {
                Err(WhenError::TrailingTokens)
            },
        },
    }
}

/// Puts the expressions `p` in front of a list that may have failed.
pub open spec fn prepend_models(p: Seq<WhenModel>, r: Result<(Seq<WhenModel>, int), WhenError>) -> Result<(Seq<WhenModel>, int), WhenError> {
    match r {
        Ok((xs, q)) => Ok((p + xs, q)),
        Err(e) => Err(e),
    }
}

/// The separator tokens the parser looks ahead for.
enum TokKind {
    Or,
    And,
}

/// Whether `t` holds a token of kind `k` at position `pos`.
fn token_is(t: &Vec<Token>, pos: usize, k: TokKind) -> (r: bool)
    ensures
        r == (pos < t@.len() && match k {
            TokKind::Or => t@[pos as int] is Or,
            TokKind::And => t@[pos as int] is And,
        }),
{
    if pos < t.len() {
        match (&t[pos], k) {
            (Token::Or, TokKind::Or) => true,
            (Token::And, TokKind::And) => true,
            _ => false,
        }
    } else {
        false
    }
}

fn parse_expr(t: &Vec<Token>, p: usize) -> (r: Result<(WhenExpr, usize), WhenError>)
    requires
        p <= t@.len(),
    ensures
        match r {
            Ok((x, q)) => p < q <= t@.len() && p_expr(tokens_model(t@), p as int) == Ok::<(WhenModel, int), WhenError>((x.model(), q as int)),
            Err(e) => p_expr(tokens_model(t@), p as int) == Err::<(WhenModel, int), WhenError>(e),
        },
    decreases t@.len() - p, 4int,
{
    let ghost tm = tokens_model(t@);
    let (x, q) = match parse_term(t, p) {
        Ok(v) => v,
        Err(e) => { return Err(e); },
    };
    let mut terms: Vec<WhenExpr> = Vec::new();
    terms.push(x);
    let mut pos = q;
    let n = t.len();
    let ghost mut last_start: int = p as int;
    assert(models(terms@) =~= seq![x.model()]);
    while token_is(t, pos, TokKind::Or)
        invariant
            p <= last_start < pos <= t@.len(),
            tm == tokens_model(t@),
            n == t@.len(),
            terms@.len() >= 1,
            p_term(tm, last_start) == Ok::<(WhenModel, int), WhenError>((terms@.last().model(), pos as int)),
            p_or_list(tm, p as int) == prepend_models(models(terms@).drop_last(), p_or_list(tm, last_start)),
        decreases t@.len() - pos,
    {
        assert(tm[pos as int] == t@[pos as int].model());
        let (y, q2) = match parse_term(t, pos + 1) {
            Ok(v) => v,
            Err(e) => {
                return Err(e);
            },
        };
        let ghost prev = models(terms@);
        terms.push(y);
        proof {
            assert(models(terms@).drop_last() =~= prev);
            assert(prev.drop_last().push(prev.last()) =~= prev);
            let r2 = p_or_list(tm, pos + 1);
            match r2 {
                Ok((xs, rr)) => {
                    assert(prev.drop_last() + (seq![prev.last()] + xs) =~= prev + xs);
                },
                Err(_) => {},
            }
        }
        proof { last_start = pos + 1; }
        pos = q2;
    }
    proof {
        let ms = models(terms@);
        assert(ms.drop_last() + seq![ms.last()] =~= ms);
    }
    if terms.len() == 1 {
        let x = terms.pop().unwrap();
        Ok((x, pos))
    } else {
        proof {
            assert(WhenExpr::Or(terms).model()->Or_0 =~= models(terms@));
        }
        Ok((WhenExpr::Or(terms), pos))
    }
}

fn parse_term(t: &Vec<Token>, p: usize) -> (r: Result<(WhenExpr, usize), WhenError>)
    requires
        p <= t@.len(),
    ensures
        match r {
            Ok((x, q)) => p < q <= t@.len() && p_term(tokens_model(t@), p as int) == Ok::<(WhenModel, int), WhenError>((x.model(), q as int)),
            Err(e) => p_term(tokens_model(t@), p as int) == Err::<(WhenModel, int), WhenError>(e),
        },
    decreases t@.len() - p, 2int,
{
    let ghost tm = tokens_model(t@);
    let (x, q) = match parse_factor(t, p) {
        Ok(v) => v,
        Err(e) => { return Err(e); },
    };
    let mut factors: Vec<WhenExpr> = Vec::new();
    factors.push(x);
    let mut pos = q;
    let n = t.len();
    let ghost mut last_start: int = p as int;
    assert(models(factors@) =~= seq![x.model()]);
    while token_is(t, pos, TokKind::And)
        invariant
            p <= last_start < pos <= t@.len(),
            tm == tokens_model(t@),
            n == t@.len(),
            factors@.len() >= 1,
            p_factor(tm, last_start) == Ok::<(WhenModel, int), WhenError>((factors@.last().model(), pos as int)),
            p_and_list(tm, p as int) == prepend_models(models(factors@).drop_last(), p_and_list(tm, last_start)),
        decreases t@.len() - pos,
    {
        assert(tm[pos as int] == t@[pos as int].model());
        let (y, q2) = match parse_factor(t, pos + 1) {
            Ok(v) => v,
            Err(e) => {
                return Err(e);
            },
        };
        let ghost prev = models(factors@);
        factors.push(y);
        proof {
            assert(models(factors@).drop_last() =~= prev);
            let r2 = p_and_list(tm, pos + 1);
            match r2 {
                Ok((xs, rr)) => {
                    assert(prev.drop_last() + (seq![prev.last()] + xs) =~= prev + xs);
                },
                Err(_) => {},
            }
        }
        proof { last_start = pos + 1; }
        pos = q2;
    }
    proof {
        let ms = models(factors@);
        assert(ms.drop_last() + seq![ms.last()] =~= ms);
    }
    if factors.len() == 1 {
        let x = factors.pop().unwrap();
        Ok((x, pos))
    } else {
        proof {
            assert(WhenExpr::And(factors).model()->And_0 =~= models(factors@));
        }
        Ok((WhenExpr::And(factors), pos))
    }
}

fn parse_factor(t: &Vec<Token>, p: usize) -> (r: Result<(WhenExpr, usize), WhenError>)
    requires
        p <= t@.len(),
    ensures
        match r {
            Ok((x, q)) => p < q <= t@.len() && p_factor(tokens_model(t@), p as int) == Ok::<(WhenModel, int), WhenError>((x.model(), q as int)),
            Err(e) => p_factor(tokens_model(t@), p as int) == Err::<(WhenModel, int), WhenError>(e),
        },
    decreases t@.len() - p, 0int,
{
    let ghost tm = tokens_model(t@);
    if p < t.len() {
        assert(tm[p as int] == t@[p as int].model());
        match &t[p] {
            Token::LParen => {
                let (x, q) = match parse_expr(t, p + 1) {
                    Ok(v) => v,
                    Err(e) => { return Err(e); },
                };
                if q < t.len() {
                    assert(tm[q as int] == t@[q as int].model());
                    if let Token::RParen = &t[q] {
                        return Ok((x, q + 1));
                    }
                }
                Err(WhenError::MissingCloseParen)
            },
            Token::Cond(body) => {
                let c = match parse_condition(body) {
                    Ok(c) => c,
                    Err(e) => { return Err(e); },
                };
                Ok((WhenExpr::Cond(c), p + 1))
            },
            _ => Err(WhenError::ExpectedCondition),
        }
    } else {
        Err(WhenError::ExpectedCondition)
    }
}

impl WhenExpr {
    /// Parses a `when` expression.
    pub fn parse(src: &str) -> (r: Result<WhenExpr, WhenError>)
        ensures
            match r {
                Ok(e) => spec_parse(src@) == Ok::<WhenModel, WhenError>(e.model()),
                Err(err) => spec_parse(src@) == Err::<WhenModel, WhenError>(err),
            },
    {
        let chars = chars_of(src);
        let tokens = match tokenize(&chars) {
            Ok(ts) => ts,
            Err(e) => { return Err(e); },
        };
        let (expr, pos) = match parse_expr(&tokens, 0) {
            Ok(v) => v,
            Err(e) => { return Err(e); },
        };
        if pos != tokens.len() {
            return Err(WhenError::TrailingTokens);
        }
        Ok(expr)
    }
}

/// How two texts compare as numbers: each is trimmed and read as an `f64`
/// (`str::parse::<f64>`), then the two are compared (`partial_cmp`).
/// `NotNumber` when either text does not read as an `f64`; `Unordered` when
/// both do but do not compare (NaN). Floating point is computed by the
/// caller: the library's evaluation takes this comparison as a function
/// argument.
#[derive(Debug, Clone, Copy, PartialEq, Eq, Structural)]
pub enum NumOrder {
    Less,
    Equal,
    Greater,
    Unordered,
    NotNumber,
}

/// `f` answers number comparisons as `order` says.
pub open spec fn numeric_order<F: Fn(&str, &str) -> NumOrder>(
    f: F,
    order: spec_fn(Seq<char>, Seq<char>) -> NumOrder,
) -> bool {
    forall|a: &str, b: &str, o: NumOrder| #[trigger] call_ensures(f, (a, b), o) ==> o == order(a@, b@)
}

/// `f` can be called on any two texts.
pub open spec fn total_order_fn<F: Fn(&str, &str) -> NumOrder>(f: F) -> bool {
    forall|a: &str, b: &str| #[trigger] call_requires(f, (a, b))
}

/// The view of an optional text.
pub open spec fn opt_view(o: Option<&str>) -> Option<Seq<char>> {
    match o {
        Some(s) => Some(s@),
        None => None,
    }
}

/// Whether condition `c` holds for a row with column values `row` and row
/// label `label`: a column target reads the row's value for that column, a row
/// target reads the row label; a missing value makes the condition false.
pub open spec fn cond_holds(
    c: CondModel,
    row: Map<Seq<char>, Seq<char>>,
    label: Option<Seq<char>>,
    order: spec_fn(Seq<char>, Seq<char>) -> NumOrder,
) -> bool {
    let actual = match c.target {
        TargetModel::Column(n) => if row.contains_key(n) {
            Some(row[n])
        } else {
            None
        },
        TargetModel::Row(_) => label,
    };
    match actual {
        None => false,
        Some(a) => match (c.op, c.value) {
            (CompareOp::Equals, ValueModel::One(v)) => a == v,
            (CompareOp::NotEqual, ValueModel::One(v)) => a != v,
            (CompareOp::Gt, ValueModel::One(v)) => order(a, v) == NumOrder::Greater,
            (CompareOp::Lt, ValueModel::One(v)) => order(a, v) == NumOrder::Less,
            (CompareOp::In, ValueModel::Many(vs)) => vs.contains(a),
            (CompareOp::Matches, ValueModel::One(v)) => regex_compiles(v) && regex_finds(v, a),
            _ => false,
        },
    }
}

/// What a single condition compares: the value it reads (for a column
/// target, the row's value for that column; for a row target, the row
/// label). With no such value the condition is false. Otherwise `equals`
/// holds when the value equals the condition's value, `not_equal` when it
/// differs, `gt`/`lt` when it is greater/less as a number, `matches` when
/// the pattern compiles and matches somewhere in the value; an operator
/// given the wrong kind of value (a list for all but `in`, a single value
/// for `in`) never holds.
pub proof fn law_condition_ops(
    c: Condition,
    row: Map<Seq<char>, Seq<char>>,
    label: Option<Seq<char>>,
    order: spec_fn(Seq<char>, Seq<char>) -> NumOrder,
)
    ensures
        ({
            let read: Option<Seq<char>> = if c.target is Column {
                if row.contains_key(c.target->Column_0@) {
                    Some(row[c.target->Column_0@])
                } else {
                    None
                }
            } else {
                label
            };
            let h = cond_holds(c.model(), row, label, order);
            &&& read is None ==> !h
            &&& read is Some && c.value is One ==> {
                let a = read->0;
                let v = c.value->One_0@;
                &&& c.op == CompareOp::Equals ==> (h <==> a == v)
                &&& c.op == CompareOp::NotEqual ==> (h <==> a != v)
                &&& c.op == CompareOp::Gt ==> (h <==> order(a, v) == NumOrder::Greater)
                &&& c.op == CompareOp::Lt ==> (h <==> order(a, v) == NumOrder::Less)
                &&& c.op == CompareOp::Matches ==> (h <==> regex_compiles(v) && regex_finds(v, a))
                &&& c.op == CompareOp::In ==> !h
            }
            &&& c.value is Many && c.op != CompareOp::In ==> !h
        }),
{
}

/// An `in` condition holds exactly when the value it reads is present and
/// equals some item of its list (at any position, the last included): for a
/// column target, the row's value for that column; for a row target, the row
/// label.
pub proof fn law_in_condition(
    c: Condition,
    row: Map<Seq<char>, Seq<char>>,
    label: Option<Seq<char>>,
    order: spec_fn(Seq<char>, Seq<char>) -> NumOrder,
)
    requires
        c.op == CompareOp::In,
        c.value is Many,
    ensures
        c.target is Column ==> (cond_holds(c.model(), row, label, order) <==> row.contains_key(c.target->Column_0@)
            && exists|j: int| 0 <= j < c.value->Many_0@.len() && (#[trigger] c.value->Many_0@[j])@ == row[c.target->Column_0@]),
        c.target is Row ==> (cond_holds(c.model(), row, label, order) <==> label is Some
            && exists|j: int| 0 <= j < c.value->Many_0@.len() && (#[trigger] c.value->Many_0@[j])@ == label->0),
{
    let vs = c.value->Many_0@;
    let sv = strings_view(vs);
    assert forall|a: Seq<char>| sv.contains(a) <==> exists|j: int| 0 <= j < vs.len() && (#[trigger] vs[j])@ == a by {
        if sv.contains(a) {
            let j = choose|j: int| 0 <= j < sv.len() && sv[j] == a;
            assert(vs[j]@ == sv[j]);
        }
        if exists|j: int| 0 <= j < vs.len() && (#[trigger] vs[j])@ == a {
            let j = choose|j: int| 0 <= j < vs.len() && (#[trigger] vs[j])@ == a;
            assert(sv[j] == a);
        }
    }
}

/// Whether `e` holds for the row: `Or` when some part holds, `And` when every
/// part holds.
pub open spec fn holds(
    e: WhenModel,
    row: Map<Seq<char>, Seq<char>>,
    label: Option<Seq<char>>,
    order: spec_fn(Seq<char>, Seq<char>) -> NumOrder,
) -> bool
    decreases e,
{
    match e {
        WhenModel::Or(xs) => exists|i: int| 0 <= i < xs.len() && holds(#[trigger] xs[i], row, label, order),
        WhenModel::And(xs) => forall|i: int| 0 <= i < xs.len() ==> holds(#[trigger] xs[i], row, label, order),
        WhenModel::Cond(c) => cond_holds(c, row, label, order),
    }
}

/// Whether `vs` holds the text `a`.
fn contains_str(vs: &Vec<String>, a: &str) -> (r: bool)
    ensures
        r == strings_view(vs@).contains(a@),
{
    let mut i: usize = 0;
    while i < vs.len()
        invariant
            i <= vs@.len(),
            forall|j: int| 0 <= j < i ==> vs@[j]@ != a@,
        decreases vs@.len() - i,
    {
        if str_eq(vs[i].as_str(), a) {
            assert(strings_view(vs@)[i as int] == a@);
            return true;
        }
        i = i + 1;
    }
    assert(!strings_view(vs@).contains(a@));
    false
}

impl Condition {
    /// Whether the condition holds for the row with column values `cols` and
    /// row label `row_label`. A row target compares with the row label
    /// (whatever row it names). `num` compares texts as numbers.
    pub fn eval<F: Fn(&str, &str) -> NumOrder>(&self, cols: &RowMap, row_label: Option<&str>, num: &F) -> (r: bool)
        requires
            total_order_fn(*num),
        ensures
            forall|order: spec_fn(Seq<char>, Seq<char>) -> NumOrder| #[trigger] numeric_order(*num, order)
                ==> r == cond_holds(self.model(), cols@, opt_view(row_label), order),
    {
        let actual: Option<&str> = match &self.target {
            Target::Column(name) => cols.get(name.as_str()),
            Target::Row(_) => row_label,
        };
        let a = match actual {
            None => {
                return false;
            },
            Some(a) => a,
        };
        match (&self.op, &self.value) {
            (CompareOp::Equals, CondValue::One(v)) => str_eq(a, v.as_str()),
            (CompareOp::NotEqual, CondValue::One(v)) => !str_eq(a, v.as_str()),
            (CompareOp::Gt, CondValue::One(v)) => {
                let o = num(a, v.as_str());
                o == NumOrder::Greater
            },
            (CompareOp::Lt, CondValue::One(v)) => {
                let o = num(a, v.as_str());
                o == NumOrder::Less
            },
            (CompareOp::In, CondValue::Many(vs)) => contains_str(vs, a),
            (CompareOp::Matches, CondValue::One(v)) => match regex_search(v.as_str(), a) {
                Some(b) => b,
                None => false,
            },
            _ => false,
        }
    }
}

proof fn lemma_holds_or(
    xs: Seq<WhenModel>,
    i: int,
    row: Map<Seq<char>, Seq<char>>,
    label: Option<Seq<char>>,
    order: spec_fn(Seq<char>, Seq<char>) -> NumOrder,
)
    requires
        0 <= i < xs.len(),
        holds(xs[i], row, label, order),
    ensures
        holds(WhenModel::Or(xs), row, label, order),
{
    let e = WhenModel::Or(xs);
    assert(e->Or_0[i] == xs[i]);
    assert(exists|j: int| 0 <= j < xs.len() && holds(#[trigger] xs[j], row, label, order));
}

impl WhenExpr {
    /// Evaluates the expression for the row with column values `cols` and row
    /// label `row_label`. `num` compares texts as numbers.
    pub fn eval<F: Fn(&str, &str) -> NumOrder>(&self, cols: &RowMap, row_label: Option<&str>, num: &F) -> (r: bool)
        requires
            total_order_fn(*num),
        ensures
            forall|order: spec_fn(Seq<char>, Seq<char>) -> NumOrder| #[trigger] numeric_order(*num, order)
                ==> r == holds(self.model(), cols@, opt_view(row_label), order),
        decreases self,
    {
        match self {
            WhenExpr::Or(xs) => {
                let mut i: usize = 0;
                while i < xs.len()
                    invariant
                        i <= xs@.len(),
                        *self == WhenExpr::Or(*xs),
                        total_order_fn(*num),
                        forall|order: spec_fn(Seq<char>, Seq<char>) -> NumOrder, j: int|
                            #![trigger numeric_order(*num, order), xs@[j]]
                            numeric_order(*num, order) && 0 <= j < i ==> !holds(xs@[j].model(), cols@, opt_view(row_label), order),
                    decreases xs@.len() - i,
                {
                    assert(decreases_to!(self => xs@[i as int]));
                    let b = xs[i].eval(cols, row_label, num);
                    if b {
                        proof {
                            assert forall|order: spec_fn(Seq<char>, Seq<char>) -> NumOrder| #[trigger] numeric_order(*num, order)
                                implies holds(self.model(), cols@, opt_view(row_label), order) by {
                                assert(self.model()->Or_0[i as int] == xs@[i as int].model());
                                assert(holds(self.model()->Or_0[i as int], cols@, opt_view(row_label), order));
                                assert(self.model() == WhenModel::Or(self.model()->Or_0));
                                lemma_holds_or(self.model()->Or_0, i as int, cols@, opt_view(row_label), order);
                            }
                        }
                        return true;
                    }
                    i = i + 1;
                }
                proof {
                    assert forall|order: spec_fn(Seq<char>, Seq<char>) -> NumOrder| #[trigger] numeric_order(*num, order)
                        implies !holds(self.model(), cols@, opt_view(row_label), order) by {
                        assert forall|j: int| 0 <= j < self.model()->Or_0.len() implies
                            !holds(#[trigger] self.model()->Or_0[j], cols@, opt_view(row_label), order) by {
                            assert(self.model()->Or_0[j] == xs@[j].model());
                            assert(xs@[j] == xs@[j]);
                        }
                    }
                }
                false
            },
            WhenExpr::And(xs) => {
                let mut i: usize = 0;
                while i < xs.len()
                    invariant
                        i <= xs@.len(),
                        *self == WhenExpr::And(*xs),
                        total_order_fn(*num),
                        forall|order: spec_fn(Seq<char>, Seq<char>) -> NumOrder, j: int|
                            #![trigger numeric_order(*num, order), xs@[j]]
                            numeric_order(*num, order) && 0 <= j < i ==> holds(xs@[j].model(), cols@, opt_view(row_label), order),
                    decreases xs@.len() - i,
                {
                    assert(decreases_to!(self => xs@[i as int]));
                    let b = xs[i].eval(cols, row_label, num);
                    if !b {
                        proof {
                            assert forall|order: spec_fn(Seq<char>, Seq<char>) -> NumOrder| #[trigger] numeric_order(*num, order)
                                implies !holds(self.model(), cols@, opt_view(row_label), order) by {
                                assert(self.model()->And_0[i as int] == xs@[i as int].model());
                                assert(!holds(self.model()->And_0[i as int], cols@, opt_view(row_label), order));
                                assert(self.model() == WhenModel::And(self.model()->And_0));
                            }
                        }
                        return false;
                    }
                    i = i + 1;
                }
                proof {
                    assert forall|order: spec_fn(Seq<char>, Seq<char>) -> NumOrder| #[trigger] numeric_order(*num, order)
                        implies holds(self.model(), cols@, opt_view(row_label), order) by {
                        assert forall|j: int| 0 <= j < self.model()->And_0.len() implies
                            holds(#[trigger] self.model()->And_0[j], cols@, opt_view(row_label), order) by {
                            assert(self.model()->And_0[j] == xs@[j].model());
                            assert(xs@[j] == xs@[j]);
                        }
                    }
                }
                true
            },
            WhenExpr::Cond(c) => c.eval(cols, row_label, num),
        }
    }
}

} // verus!
