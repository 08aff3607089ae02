use spec_editor_core::hooks::{
    expand_vars, outcome_of, FailPolicy, Hook, HookContext, HookEvent, HookOutcome, HookStep, Hooks,
};

fn hooks_with(command: &str, description: &str, fail_policy: FailPolicy) -> Hooks {
    Hooks {
        on_save: vec![Hook { command: command.to_string(), description: description.to_string(), fail_policy }],
        on_export: Vec::new(),
    }
}

fn ctx() -> HookContext {
    HookContext { project_root: "/proj".to_string(), csv_path: None, output_path: None }
}

#[test]
fn var_expansion() {
    let ctx = HookContext {
        project_root: "/proj".to_string(),
        csv_path: Some("/proj/core.csv".to_string()),
        output_path: None,
    };
    let s = expand_vars("python v.py {csv_path} in {project_root}", &ctx);
    assert_eq!(s, "python v.py /proj/core.csv in /proj");
}

#[test]
fn load_and_untrusted_skips() {
    let hooks = hooks_with("true", "noop", FailPolicy::Error);
    let out = hooks.steps(HookEvent::Save, &ctx(), false);
    assert!(matches!(out[0], HookStep::Skip(HookOutcome::Skipped(_))));
    let out = hooks.steps(HookEvent::Save, &ctx(), true);
    let cmd = match &out[0] {
        HookStep::Run(c) => c.clone(),
        HookStep::Skip(_) => panic!("a trusted project runs its hooks"),
    };
    assert_eq!(cmd, "true");
    let o = outcome_of(&hooks.on_save[0], &cmd, Ok(true));
    assert!(matches!(o, HookOutcome::Succeeded(_)));
}

#[test]
fn fail_policy_warn() {
    let hooks = hooks_with("false", "", FailPolicy::Warn);
    let out = hooks.steps(HookEvent::Save, &ctx(), true);
    let cmd = match &out[0] {
        HookStep::Run(c) => c.clone(),
        HookStep::Skip(_) => panic!("a trusted project runs its hooks"),
    };
    let o = outcome_of(&hooks.on_save[0], &cmd, Ok(false));
    assert!(matches!(o, HookOutcome::Warned(_)));
}

#[test]
fn skip_note_names_the_hook() {
    let hooks = hooks_with("true", "noop", FailPolicy::Error);
    let out = hooks.steps(HookEvent::Save, &ctx(), false);
    match &out[0] {
        HookStep::Skip(HookOutcome::Skipped(m)) => assert_eq!(m, "未信頼のため未実行: noop"),
        _ => panic!("expected a skip"),
    }
    assert!(hooks.steps(HookEvent::Export, &ctx(), false).is_empty());
}

#[test]
fn outcomes_by_policy() {
    let mut h = Hook { command: "x".to_string(), description: "d".to_string(), fail_policy: FailPolicy::Error };
    assert_eq!(outcome_of(&h, "x", Ok(true)), HookOutcome::Succeeded("d".to_string()));
    assert_eq!(outcome_of(&h, "x", Ok(false)), HookOutcome::Failed("失敗: x".to_string()));
    h.fail_policy = FailPolicy::Warn;
    assert_eq!(outcome_of(&h, "x", Ok(false)), HookOutcome::Warned("警告: x".to_string()));
    h.fail_policy = FailPolicy::Ignore;
    assert_eq!(outcome_of(&h, "x", Ok(false)), HookOutcome::Succeeded("d".to_string()));
    assert_eq!(
        outcome_of(&h, "x", Err("no shell".to_string())),
        HookOutcome::Failed("起動失敗: x (no shell)".to_string())
    );
    assert_eq!(FailPolicy::default(), FailPolicy::Error);
}

#[test]
fn expansion_replaces_every_occurrence_and_only_known_paths() {
    let ctx = HookContext {
        project_root: "/r".to_string(),
        csv_path: None,
        output_path: Some("/r/out.html".to_string()),
    };
    assert_eq!(
        expand_vars("{project_root}/a {project_root}/b {csv_path} {output_path}", &ctx),
        "/r/a /r/b {csv_path} /r/out.html"
    );
    assert_eq!(expand_vars("{{project_root}}", &ctx), "{/r}");
}
