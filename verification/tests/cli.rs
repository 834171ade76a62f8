use es_license_consumption::cli::{
    normalize_extension, plan_output, read_alternate_name, read_cluster_answer,
    read_overwrite_or_alternate, read_update_or_alternate, resolve_config, resolve_output,
    ClusterAnswer, OutputPlan, OverwriteOrAlternate, PromptAction, PromptMode, UpdateOrAlternate,
    UpdatePrompt,
};
use es_license_consumption::merge::UpdateCandidate;

#[test]
fn resolve_config_explicit_path_returned_as_is() {
    let path = "/some/explicit/path.yml".to_string();
    assert_eq!(resolve_config(Some(path.clone()), false).unwrap(), path);
}

#[test]
fn resolve_config_default_used_when_file_present() {
    // `cluster.yml` exists in the working directory
    let result = resolve_config(None, true);
    assert_eq!(result.unwrap(), "cluster.yml");
}

#[test]
fn resolve_config_error_when_default_absent() {
    let result = resolve_config(None, false);
    assert!(result.is_err());
    let msg = result.unwrap_err().message();
    assert!(msg.contains("cluster.yml"));
}

#[test]
fn resolve_output_explicit_path_returned() {
    let path = "custom.yml".to_string();
    assert_eq!(resolve_output(Some(path.clone())), path);
}

#[test]
fn resolve_output_defaults_to_report_yml() {
    let result = resolve_output(None);
    assert_eq!(result, "report.yml");
}

#[test]
fn normalize_no_extension_appends_yml() {
    assert_eq!(normalize_extension("my-report"), "my-report.yml");
}

#[test]
fn normalize_yml_extension_unchanged() {
    assert_eq!(normalize_extension("my-report.yml"), "my-report.yml");
}

#[test]
fn normalize_yaml_extension_unchanged() {
    assert_eq!(normalize_extension("my-report.yaml"), "my-report.yaml");
}

#[test]
fn normalize_other_extension_unchanged() {
    assert_eq!(normalize_extension("my-report.txt"), "my-report.txt");
}

// ── Further cases ────────────────────────────────────────────────────────────

#[test]
fn normalize_hidden_file_and_trailing_dot() {
    assert_eq!(normalize_extension(".hidden"), ".hidden.yml");
    assert_eq!(normalize_extension("report."), "report.");
    let once = normalize_extension("out");
    assert_eq!(normalize_extension(&once), once);
}

#[test]
fn output_plans() {
    assert_eq!(plan_output(false, false, true, true), OutputPlan::Write);
    assert_eq!(plan_output(true, true, true, true), OutputPlan::SilentUpdate);
    assert_eq!(plan_output(true, true, false, false), OutputPlan::SilentUpdate);
    assert_eq!(plan_output(true, true, false, true), OutputPlan::AskUpdateOrAlternate);
    assert_eq!(plan_output(true, false, true, false), OutputPlan::Overwrite);
    assert_eq!(plan_output(true, false, false, true), OutputPlan::AskOverwriteOrAlternate);
}

#[test]
fn prompt_answers_are_read_case_insensitively() {
    assert_eq!(read_update_or_alternate("\n"), UpdateOrAlternate::Update);
    assert_eq!(read_update_or_alternate(" U \n"), UpdateOrAlternate::Update);
    assert_eq!(read_update_or_alternate("a\n"), UpdateOrAlternate::Alternate);
    assert_eq!(read_update_or_alternate("x\n"), UpdateOrAlternate::Invalid);
    assert_eq!(read_overwrite_or_alternate(""), OverwriteOrAlternate::Overwrite);
    assert_eq!(read_overwrite_or_alternate("O\n"), OverwriteOrAlternate::Overwrite);
    assert_eq!(read_overwrite_or_alternate("A"), OverwriteOrAlternate::Alternate);
    assert_eq!(read_overwrite_or_alternate("oo"), OverwriteOrAlternate::Invalid);
    assert_eq!(read_cluster_answer("\n"), ClusterAnswer::Update);
    assert_eq!(read_cluster_answer("s\n"), ClusterAnswer::Skip);
    assert_eq!(read_cluster_answer("A\n"), ClusterAnswer::UpdateAll);
    assert_eq!(read_cluster_answer("k"), ClusterAnswer::SkipAll);
    assert_eq!(read_cluster_answer("\u{212A}"), ClusterAnswer::SkipAll);
    assert_eq!(read_cluster_answer("update"), ClusterAnswer::Invalid);
}

#[test]
fn alternate_names() {
    assert_eq!(read_alternate_name("  \n"), None);
    assert_eq!(read_alternate_name(" other \n"), Some("other.yml".to_string()));
    assert_eq!(read_alternate_name("other.yaml\n"), Some("other.yaml".to_string()));
}

fn cand(l: &str, c: &str) -> UpdateCandidate {
    UpdateCandidate {
        license_uid: l.to_string(),
        license_name: "n".to_string(),
        cluster_uid: c.to_string(),
        cluster_name: c.to_string(),
    }
}

/// Drive the prompt with the given answers; returns the kept pairs.
fn drive(cands: &Vec<UpdateCandidate>, answers: &[ClusterAnswer]) -> Vec<(String, String)> {
    let mut p = UpdatePrompt::new();
    let mut answers = answers.iter();
    loop {
        match p.advance(cands) {
            PromptAction::Done => break,
            PromptAction::Ask(_) => {
                let a = *answers.next().expect("asked more often than answered");
                p.answer(cands, a);
            }
        }
    }
    p.keep
}

#[test]
fn update_prompt_single_choices() {
    let cands = vec![cand("l", "1"), cand("l", "2"), cand("l", "3")];
    let keep = drive(&cands, &[ClusterAnswer::Update, ClusterAnswer::Invalid, ClusterAnswer::Skip, ClusterAnswer::Update]);
    assert_eq!(keep, vec![("l".to_string(), "2".to_string())]);
}

#[test]
fn update_prompt_update_all_stops_asking() {
    let cands = vec![cand("l", "1"), cand("l", "2"), cand("l", "3")];
    let keep = drive(&cands, &[ClusterAnswer::Skip, ClusterAnswer::UpdateAll]);
    assert_eq!(keep, vec![("l".to_string(), "1".to_string())]);
}

#[test]
fn update_prompt_skip_all_keeps_the_rest() {
    let cands = vec![cand("l", "1"), cand("l", "2"), cand("l", "3")];
    let mut p = UpdatePrompt::new();
    assert_eq!(p.advance(&cands), PromptAction::Ask(0));
    p.answer(&cands, ClusterAnswer::Update);
    assert_eq!(p.advance(&cands), PromptAction::Ask(1));
    p.answer(&cands, ClusterAnswer::SkipAll);
    assert_eq!(p.mode, PromptMode::SkipAll);
    assert_eq!(p.advance(&cands), PromptAction::Done);
    assert_eq!(
        p.keep,
        vec![("l".to_string(), "2".to_string()), ("l".to_string(), "3".to_string())]
    );
}

#[test]
fn extension_is_read_from_the_last_component() {
    assert_eq!(normalize_extension("dir.v2/report"), "dir.v2/report.yml");
    assert_eq!(normalize_extension("dir/report.yaml"), "dir/report.yaml");
    assert_eq!(normalize_extension("./out/.hidden"), "./out/.hidden.yml");
    assert_eq!(read_alternate_name("  reports.d/march \n"), Some("reports.d/march.yml".to_string()));
}

#[test]
fn update_prompt_session_keeps_what_the_answers_decide() {
    let cands = vec![cand("l", "0"), cand("l", "1"), cand("m", "2"), cand("m", "3")];
    let keep = drive(&cands, &[ClusterAnswer::Invalid, ClusterAnswer::Skip, ClusterAnswer::Update, ClusterAnswer::SkipAll]);
    assert_eq!(
        keep,
        vec![
            ("l".to_string(), "0".to_string()),
            ("m".to_string(), "2".to_string()),
            ("m".to_string(), "3".to_string()),
        ]
    );
    let keep = drive(&cands, &[ClusterAnswer::Skip, ClusterAnswer::Skip, ClusterAnswer::Invalid, ClusterAnswer::Update, ClusterAnswer::Skip]);
    assert_eq!(keep, vec![("l".to_string(), "0".to_string()), ("l".to_string(), "1".to_string()), ("m".to_string(), "3".to_string())]);
}
