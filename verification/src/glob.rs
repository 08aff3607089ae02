//! Glob patterns with whole-pattern alternation: the standard glob syntax
//! (`*`, `?`, `[...]`, `**`) plus `|`, which separates complete alternative
//! patterns (no grouping with `()`), e.g. `metric_cpu|metric_gpu`.

use crate::text::{
    chars_of, lemma_nonempty_trimmed_prefix, nonempty_trimmed, split_chars, split_on, string_of,
    trim_chars,
};
use vstd::prelude::*;

verus! {

#[verifier::external_type_specification]
#[verifier::external_body]
pub struct ExGlobPattern(glob::Pattern);

/// Whether `glob::Pattern::new` accepts `pattern`.
pub uninterp spec fn glob_compiles(pattern: Seq<char>) -> bool;

/// What `glob::Pattern::matches` (default match options) answers for the
/// pattern compiled from `pattern` and the text `text`.
pub uninterp spec fn glob_matches(pattern: Seq<char>, text: Seq<char>) -> bool;

/// One alternative of a glob pattern, compiled, with the text it was compiled from.
/// Values of this type are made only by `compile_glob`.
#[derive(Debug)]
pub struct CompiledGlob {
    source: String,
    compiled: glob::Pattern,
}

impl CompiledGlob {
    /// The text this alternative was compiled from.
    pub closed spec fn source(&self) -> Seq<char> {
        self.source@
    }
}

/// Compiles `source` with `glob::Pattern::new`. The contract claims that the
/// result is `Some` exactly when the glob crate accepts the pattern, and that
/// the compiled value remembers `source`.
#[verifier::external_body]
fn compile_glob(source: String) -> (r: Option<CompiledGlob>)
    ensures
        r is Some <==> glob_compiles(source@),
        r matches Some(c) ==> c.source() == source@,
{
    match glob::Pattern::new(&source) {
        Ok(compiled) => Some(CompiledGlob { source, compiled }),
        Err(_) => None,
    }
}

/// Calls `glob::Pattern::matches` on the compiled alternative. The contract
/// claims the answer is the one the glob crate gives for the source text.
#[verifier::external_body]
fn glob_is_match(c: &CompiledGlob, text: &str) -> (r: bool)
    ensures
        r == glob_matches(c.source(), text@),
{
    c.compiled.matches(text)
}

/// The alternatives written in `raw`: the `|`-separated pieces, trimmed,
/// empty ones left out.
pub open spec fn glob_alternatives(raw: Seq<char>) -> Seq<Seq<char>> {
    nonempty_trimmed(split_on(raw, '|'))
}

/// The first of `alts` that the glob crate refuses, if any.
pub open spec fn first_refused(alts: Seq<Seq<char>>) -> Option<Seq<char>>
    decreases alts.len(),
{
    if alts.len() == 0 {
        None
    } else if !glob_compiles(alts[0]) {
        Some(alts[0])
    } else {
        first_refused(alts.drop_first())
    }
}

/// `first_refused` is none exactly when the glob crate accepts every alternative.
pub proof fn lemma_first_refused_none(alts: Seq<Seq<char>>)
    ensures
        first_refused(alts) is None <==> forall|i: int| 0 <= i < alts.len() ==> glob_compiles(#[trigger] alts[i]),
    decreases alts.len(),
{
    if alts.len() > 0 {
        lemma_first_refused_none(alts.drop_first());
        if glob_compiles(alts[0]) && first_refused(alts.drop_first()) is None {
            assert forall|i: int| 0 <= i < alts.len() implies glob_compiles(#[trigger] alts[i]) by {
                if i > 0 {
                    assert(alts[i] == alts.drop_first()[i - 1]);
                }
            }
        }
        if forall|i: int| 0 <= i < alts.len() ==> glob_compiles(#[trigger] alts[i]) {
            assert(glob_compiles(alts[0]));
            assert forall|i: int| 0 <= i < alts.drop_first().len() implies glob_compiles(#[trigger] alts.drop_first()[i]) by {
                assert(alts.drop_first()[i] == alts[i + 1]);
            }
        }
    }
}

/// `first_refused` is the refused alternative all of whose predecessors are accepted.
pub proof fn lemma_first_refused_at(alts: Seq<Seq<char>>, i: int)
    requires
        0 <= i < alts.len(),
        !glob_compiles(alts[i]),
        forall|j: int| 0 <= j < i ==> glob_compiles(#[trigger] alts[j]),
    ensures
        first_refused(alts) == Some(alts[i]),
    decreases i,
{
    if i > 0 {
        assert(glob_compiles(alts[0]));
        assert forall|j: int| 0 <= j < i - 1 implies glob_compiles(#[trigger] alts.drop_first()[j]) by {
            assert(alts.drop_first()[j] == alts[j + 1]);
        }
        assert(alts.drop_first()[i - 1] == alts[i]);
        lemma_first_refused_at(alts.drop_first(), i - 1);
    }
}

/// A glob alternative that the glob crate refused.
#[derive(Debug)]
pub struct GlobError {
    /// The refused alternative, trimmed.
    pub pattern: String,
}

/// Standard glob syntax plus `|` for whole-pattern alternation.
#[derive(Debug)]
pub struct GlobPattern {
    raw: String,
    alts: Vec<CompiledGlob>,
}

impl GlobPattern {
    /// The text the pattern was parsed from.
    pub closed spec fn raw_view(&self) -> Seq<char> {
        self.raw@
    }

    /// The compiled alternatives, by their source text.
    pub closed spec fn alternatives(&self) -> Seq<Seq<char>> {
        self.alts@.map_values(|c: CompiledGlob| c.source())
    }

    /// Well-formedness: the alternatives are those written in the raw text,
    /// each accepted by the glob crate.
    #[verifier::type_invariant]
    pub closed spec fn wf(&self) -> bool {
        &&& self.alternatives() == glob_alternatives(self.raw@)
        &&& forall|i: int| 0 <= i < self.alts@.len() ==> glob_compiles(#[trigger] self.alts@[i].source())
    }

    /// Whether `text` matches the pattern: some alternative matches it.
    pub open spec fn spec_matches(&self, text: Seq<char>) -> bool {
        exists|i: int| 0 <= i < self.alternatives().len() && glob_matches(#[trigger] self.alternatives()[i], text)
    }

    /// Splits `raw` at `|`, trims each piece, skips empty pieces, and compiles
    /// each remaining piece as a glob. Fails on the first piece that the glob
    /// crate refuses.
    pub fn parse(raw: &str) -> (r: Result<GlobPattern, GlobError>)
        ensures
            r matches Ok(g) ==> g.alternatives() == glob_alternatives(raw@) && g.raw_view() == raw@,
            r is Ok <==> forall|i: int| 0 <= i < glob_alternatives(raw@).len()
                ==> glob_compiles(#[trigger] glob_alternatives(raw@)[i]),
            r matches Err(e) ==> first_refused(glob_alternatives(raw@)) == Some(e.pattern@),
            r is Ok <==> first_refused(glob_alternatives(raw@)) is None,
    {
        proof {
            lemma_first_refused_none(glob_alternatives(raw@));
        }
        let chars = chars_of(raw);
        let parts = split_chars(&chars, '|');
        let ghost all_parts = split_on(raw@, '|');
        assert(parts@.map_values(|p: Vec<char>| p@) == all_parts);
        let mut alts: Vec<CompiledGlob> = Vec::new();
        let mut k: usize = 0;
        while k < parts.len()
            invariant
                k <= parts@.len(),
                all_parts == split_on(raw@, '|'),
                parts@.len() == all_parts.len(),
                forall|m: int| 0 <= m < parts@.len() ==> #[trigger] parts@[m]@ == all_parts[m],
                alts@.map_values(|c: CompiledGlob| c.source()) == nonempty_trimmed(all_parts.take(k as int)),
                forall|i: int| 0 <= i < alts@.len() ==> glob_compiles(#[trigger] alts@[i].source()),
            decreases parts@.len() - k,
        {
            let ghost before = all_parts.take(k as int);
            assert(all_parts.take(k + 1).drop_last() == before);
            let piece = trim_chars(&parts[k]);
            if piece.len() > 0 {
                let source = string_of(&piece);
                match compile_glob(source) {
                    Some(c) => {
                        alts.push(c);
                        assert(alts@.map_values(|c: CompiledGlob| c.source()) =~= nonempty_trimmed(
                            all_parts.take(k + 1),
                        ));
                    },
                    None => {
                        proof {
                            let alts_all = glob_alternatives(raw@);
                            let i = alts@.len() as int;
                            let upto = all_parts.take(k + 1);
                            assert(upto.last() == all_parts[k as int]);
                            assert(nonempty_trimmed(upto) == nonempty_trimmed(before).push(piece@));
                            assert(alts@.map_values(|c: CompiledGlob| c.source()).len() == i);
                            assert(nonempty_trimmed(upto).len() == i + 1);
                            lemma_nonempty_trimmed_prefix(all_parts, k as int + 1);
                            assert(alts_all.take(i + 1) == nonempty_trimmed(upto));
                            assert(alts_all.take(i + 1)[i] == alts_all[i]);
                            assert(alts_all[i] == piece@);
                            assert forall|j: int| 0 <= j < i implies glob_compiles(#[trigger] alts_all[j]) by {
                                assert(alts_all.take(i + 1)[j] == alts_all[j]);
                                assert(alts@.map_values(|c: CompiledGlob| c.source())[j] == alts_all[j]);
                            }
                            lemma_first_refused_at(alts_all, i);
                        }
                        return Err(GlobError { pattern: string_of(&piece) });
                    },
                }
            }
            k = k + 1;
        }
        assert(all_parts.take(parts@.len() as int) == all_parts);
        Ok(GlobPattern { raw: raw.to_owned(), alts })
    }

    /// Whether some alternative matches `text`.
    pub fn matches(&self, text: &str) -> (r: bool)
        ensures
            r == self.spec_matches(text@),
    {
        let mut i: usize = 0;
        while i < self.alts.len()
            invariant
                i <= self.alts@.len(),
                forall|j: int| 0 <= j < i ==> !glob_matches(#[trigger] self.alternatives()[j], text@),
            decreases self.alts@.len() - i,
        {
            if glob_is_match(&self.alts[i], text) {
                assert(self.alternatives()[i as int] == self.alts@[i as int].source());
                return true;
            }
            i = i + 1;
        }
        false
    }

    /// The text the pattern was parsed from.
    pub fn as_raw(&self) -> (r: &str)
        ensures
            r@ == self.raw_view(),
    {
        self.raw.as_str()
    }
}

} // verus!
