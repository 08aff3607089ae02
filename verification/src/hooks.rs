//! Hooks (`.hooks.toml`): commands run on save (`on_save`) and on export
//! (`on_export`). Running a command is running code, so a hook runs only
//! when the project is trusted. The commands run in the project root, with
//! `{project_root}`, `{csv_path}` and `{output_path}` replaced by absolute
//! paths. The library decides what to run and what each run means; running
//! the shell is left to the caller.

use crate::text::push_char;
use vstd::prelude::*;
use vstd::string::StringExecFns;

verus! {

/// What a failing hook command means.
#[derive(Debug, Clone, Copy, PartialEq, Eq, Structural)]
pub enum FailPolicy {
    /// The failure is an error (the default).
    Error,
    /// The failure is a warning.
    Warn,
    /// The failure is ignored.
    Ignore,
}

impl Default for FailPolicy {
    fn default() -> (r: Self)
        ensures
            r == FailPolicy::Error,
    {
        FailPolicy::Error
    }
}

/// A hook: a shell command, what it is for, and what its failure means.
#[derive(Debug, Clone)]
pub struct Hook {
    pub command: String,
    pub description: String,
    pub fail_policy: FailPolicy,
}

/// The events that hooks run on.
#[derive(Debug, Clone, Copy, PartialEq, Eq, Structural)]
pub enum HookEvent {
    Save,
    Export,
}

/// The hooks of a project.
#[derive(Debug)]
pub struct Hooks {
    pub on_save: Vec<Hook>,
    pub on_export: Vec<Hook>,
}

impl Default for Hooks {
    fn default() -> (r: Self)
        ensures
            r.on_save@.len() == 0,
            r.on_export@.len() == 0,
    {
        Hooks { on_save: Vec::new(), on_export: Vec::new() }
    }
}

/// The paths a hook command may refer to, as absolute path text.
pub struct HookContext {
    pub project_root: String,
    pub csv_path: Option<String>,
    pub output_path: Option<String>,
}

/// What came of one hook.
#[derive(Debug, Clone, PartialEq)]
pub enum HookOutcome {
    Succeeded(String),
    Warned(String),
    Failed(String),
    /// Not run (the project is not trusted).
    Skipped(String),
}

/// What a `HookOutcome` says.
pub enum HookOutcomeModel {
    Succeeded(Seq<char>),
    Warned(Seq<char>),
    Failed(Seq<char>),
    Skipped(Seq<char>),
}

impl HookOutcome {
    /// What the outcome says.
    pub open spec fn model(&self) -> HookOutcomeModel {
        match self {
            HookOutcome::Succeeded(s) => HookOutcomeModel::Succeeded(s@),
            HookOutcome::Warned(s) => HookOutcomeModel::Warned(s@),
            HookOutcome::Failed(s) => HookOutcomeModel::Failed(s@),
            HookOutcome::Skipped(s) => HookOutcomeModel::Skipped(s@),
        }
    }
}

/// What to do for one hook: record an outcome without running anything, or
/// run a command (already expanded).
#[derive(Debug)]
pub enum HookStep {
    Skip(HookOutcome),
    Run(String),
}

/// What a `HookStep` says.
pub enum HookStepModel {
    Skip(HookOutcomeModel),
    Run(Seq<char>),
}

impl HookStep {
    /// What the step says.
    pub open spec fn model(&self) -> HookStepModel {
        match self {
            HookStep::Skip(o) => HookStepModel::Skip(o.model()),
            HookStep::Run(c) => HookStepModel::Run(c@),
        }
    }
}

/// `s` with each occurrence of `pat` replaced by `rep`, scanning from the
/// left without overlaps, as `str::replace` does for a nonempty `pat`.
pub open spec fn replace_all(s: Seq<char>, pat: Seq<char>, rep: Seq<char>) -> Seq<char>
    decreases s.len(),
{
    if pat.len() == 0 || s.len() < pat.len() {
        s
    } else if s.take(pat.len() as int) == pat {
        rep + replace_all(s.skip(pat.len() as int), pat, rep)
    } else {
        seq![s[0]] + replace_all(s.skip(1), pat, rep)
    }
}

/// `command` with `{project_root}` replaced, then `{csv_path}` and
/// `{output_path}` where the context has them.
pub open spec fn spec_expand_vars(command: Seq<char>, ctx: HookContext) -> Seq<char> {
    let s1 = replace_all(command, "{project_root}"@, ctx.project_root@);
    let s2 = match ctx.csv_path {
        Some(p) => replace_all(s1, "{csv_path}"@, p@),
        None => s1,
    };
    match ctx.output_path {
        Some(p) => replace_all(s2, "{output_path}"@, p@),
        None => s2,
    }
}

/// The step for `hook`: skipped with a note when the project is not
/// trusted, else running its expanded command.
pub open spec fn spec_step(hook: Hook, ctx: HookContext, trusted: bool) -> HookStepModel {
    if !trusted {
        HookStepModel::Skip(HookOutcomeModel::Skipped("未信頼のため未実行: "@ + hook.description@))
    } else {
        HookStepModel::Run(spec_expand_vars(hook.command@, ctx))
    }
}

/// What a run of `hook` as `cmd` means: `ran` is whether the command
/// succeeded, or why it could not be started.
pub open spec fn spec_outcome(hook: Hook, cmd: Seq<char>, ran: Result<bool, Seq<char>>) -> HookOutcomeModel {
    match ran {
        Ok(true) => HookOutcomeModel::Succeeded(hook.description@),
        Ok(false) => match hook.fail_policy {
            FailPolicy::Error => HookOutcomeModel::Failed("失敗: "@ + cmd),
            FailPolicy::Warn => HookOutcomeModel::Warned("警告: "@ + cmd),
            FailPolicy::Ignore => HookOutcomeModel::Succeeded(hook.description@),
        },
        Err(e) => HookOutcomeModel::Failed("起動失敗: "@ + cmd + " ("@ + e + ")"@),
    }
}

/// The view of a run result.
pub open spec fn ran_view(ran: Result<bool, String>) -> Result<bool, Seq<char>> {
    match ran {
        Ok(b) => Ok(b),
        Err(e) => Err(e@),
    }
}

/// Whether `pat` occurs in `s` at `i`.
fn occurs_at(s: &Vec<char>, i: usize, pat: &Vec<char>) -> (r: bool)
    requires
        i + pat@.len() <= s@.len(),
    ensures
        r == (s@.subrange(i as int, i + pat@.len()) == pat@),
{
    let mut k: usize = 0;
    while k < pat.len()
        invariant
            k <= pat@.len(),
            i + pat@.len() <= s.len(),
            forall|m: int| 0 <= m < k ==> s@[i + m] == pat@[m],
        decreases pat@.len() - k,
    {
        if s[i + k] != pat[k] {
            assert(s@.subrange(i as int, i + pat@.len())[k as int] != pat@[k as int]);
            return false;
        }
        k = k + 1;
    }
    assert(s@.subrange(i as int, i + pat@.len()) =~= pat@);
    true
}

/// `s` with each occurrence of `pat` replaced by `rep` (`str::replace`).
fn replace_str(s: &str, pat: &str, rep: &str) -> (r: String)
    requires
        pat@.len() > 0,
    ensures
        r@ == replace_all(s@, pat@, rep@),
{
    let sv = crate::text::chars_of(s);
    let pv = crate::text::chars_of(pat);
    let n = sv.len();
    let plen = pv.len();
    let mut out = String::new();
    let mut i: usize = 0;
    assert(s@.skip(0) =~= s@);
    assert(out@ + s@ =~= s@);
    while i < n
        invariant
            i <= n,
            n == s@.len(),
            plen == pat@.len(),
            plen > 0,
            sv@ == s@,
            pv@ == pat@,
            out@ + replace_all(s@.skip(i as int), pat@, rep@) == replace_all(s@, pat@, rep@),
        decreases n - i,
    {
        let ghost rest = s@.skip(i as int);
        if plen <= n - i && occurs_at(&sv, i, &pv) {
            assert(rest.take(plen as int) =~= s@.subrange(i as int, i + plen));
            assert(rest.skip(plen as int) =~= s@.skip(i + plen));
            let ghost before = out@;
            out.append(rep);
            assert(out@ + replace_all(s@.skip(i + plen), pat@, rep@) =~= before + replace_all(rest, pat@, rep@));
            i = i + plen;
        } else {
            if plen <= n - i {
                assert(rest.take(plen as int) =~= s@.subrange(i as int, i + plen));
            }
            assert(rest.skip(1) =~= s@.skip(i + 1));
            assert(rest[0] == s@[i as int]);
            let ghost before = out@;
            push_char(&mut out, sv[i]);
            if plen <= n - i {
                assert(out@ + replace_all(s@.skip(i + 1), pat@, rep@) =~= before + replace_all(rest, pat@, rep@));
            } else {
                assert(replace_all(rest, pat@, rep@) == rest);
                assert(s@.skip(i + 1).len() < plen);
                assert(replace_all(s@.skip(i + 1), pat@, rep@) == s@.skip(i + 1));
                assert(out@ + s@.skip(i + 1) =~= before + rest);
            }
            i = i + 1;
        }
    }
    assert(s@.skip(n as int) =~= Seq::<char>::empty());
    assert(out@ + Seq::<char>::empty() =~= out@);
    out
}

/// `prefix + text`.
fn prefixed(prefix: &str, text: &str) -> (r: String)
    ensures
        r@ == prefix@ + text@,
{
    let mut m = String::from_str(prefix);
    m.append(text);
    m
}

/// Replaces the path variables of `command` with the paths of `ctx`:
/// `{project_root}`, then `{csv_path}` and `{output_path}` where `ctx` has them.
pub fn expand_vars(command: &str, ctx: &HookContext) -> (r: String)
    ensures
        r@ == spec_expand_vars(command@, *ctx),
{
    proof {
        reveal_strlit("{project_root}");
        reveal_strlit("{csv_path}");
        reveal_strlit("{output_path}");
    }
    let mut s = replace_str(command, "{project_root}", ctx.project_root.as_str());
    if let Some(p) = &ctx.csv_path {
        s = replace_str(s.as_str(), "{csv_path}", p.as_str());
    }
    if let Some(p) = &ctx.output_path {
        s = replace_str(s.as_str(), "{output_path}", p.as_str());
    }
    s
}

/// The step for `hook`: a skip note when not `trusted`, else its expanded command.
pub fn step_for(hook: &Hook, ctx: &HookContext, trusted: bool) -> (r: HookStep)
    ensures
        r.model() == spec_step(*hook, *ctx, trusted),
{
    if !trusted {
        HookStep::Skip(HookOutcome::Skipped(prefixed("未信頼のため未実行: ", hook.description.as_str())))
    } else {
        HookStep::Run(expand_vars(hook.command.as_str(), ctx))
    }
}

/// What a run of `hook` as `cmd` means, given whether the command succeeded
/// (`Ok`) or why it could not be started (`Err`).
pub fn outcome_of(hook: &Hook, cmd: &str, ran: Result<bool, String>) -> (r: HookOutcome)
    ensures
        r.model() == spec_outcome(*hook, cmd@, ran_view(ran)),
{
    match ran {
        Ok(true) => HookOutcome::Succeeded(hook.description.clone()),
        Ok(false) => match hook.fail_policy {
            FailPolicy::Error => HookOutcome::Failed(prefixed("失敗: ", cmd)),
            FailPolicy::Warn => HookOutcome::Warned(prefixed("警告: ", cmd)),
            FailPolicy::Ignore => HookOutcome::Succeeded(hook.description.clone()),
        },
        Err(e) => {
            let mut m = prefixed("起動失敗: ", cmd);
            m.append(" (");
            m.append(e.as_str());
            m.append(")");
            HookOutcome::Failed(m)
        },
    }
}

impl Hooks {
    /// The hooks of `event`, in order.
    pub open spec fn spec_list(&self, event: HookEvent) -> Seq<Hook> {
        match event {
            HookEvent::Save => self.on_save@,
            HookEvent::Export => self.on_export@,
        }
    }

    /// The hooks of `event`, in order.
    pub fn list(&self, event: HookEvent) -> (r: &[Hook])
        ensures
            r@ == self.spec_list(event),
    {
        match event {
            HookEvent::Save => self.on_save.as_slice(),
            HookEvent::Export => self.on_export.as_slice(),
        }
    }

    /// One step per hook of `event`, in order. An untrusted project runs
    /// nothing: every step is then a skip.
    pub fn steps(&self, event: HookEvent, ctx: &HookContext, trusted: bool) -> (r: Vec<HookStep>)
        ensures
            r@.len() == self.spec_list(event).len(),
            forall|i: int| 0 <= i < r@.len() ==> (#[trigger] r@[i]).model() == spec_step(self.spec_list(event)[i], *ctx, trusted),
            !trusted ==> forall|i: int| 0 <= i < r@.len() ==> (#[trigger] r@[i]) is Skip,
    {
        let hooks = self.list(event);
        let mut r: Vec<HookStep> = Vec::new();
        let mut i: usize = 0;
        while i < hooks.len()
            invariant
                i <= hooks@.len(),
                hooks@ == self.spec_list(event),
                r@.len() == i,
                forall|k: int| 0 <= k < i ==> (#[trigger] r@[k]).model() == spec_step(hooks@[k], *ctx, trusted),
                !trusted ==> forall|k: int| 0 <= k < i ==> (#[trigger] r@[k]) is Skip,
            decreases hooks@.len() - i,
        {
            let step = step_for(&hooks[i], ctx, trusted);
            r.push(step);
            i = i + 1;
        }
        r
    }
}

} // verus!
