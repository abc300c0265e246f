use fix_typelength_limit::control::{next_action, resolve_target, Action, BuildOutcome};
use fix_typelength_limit::patch::patch_limit;

fn failed(stderr: &[u8]) -> BuildOutcome {
    BuildOutcome::Failed { stderr_is_text: true, stderr: stderr.to_vec() }
}

#[test]
fn scenario_build_success() {
    // build exits 0: report success, stop, file untouched
    let file = b"#![type_length_limit = \"64\"]".to_vec();
    let action = next_action(BuildOutcome::Succeeded);
    assert!(matches!(action, Action::ReportSuccess));
    assert_eq!(file, b"#![type_length_limit = \"64\"]".to_vec());
}

#[test]
fn scenario_patch_cycle() {
    // failing build suggests "128"; the tracked file holds "64"
    let file = b"#![type_length_limit = \"64\"]\nfn main() {}\n".to_vec();
    let stderr = b"error: reached the type-length limit\n\
                   help: `#![type_length_limit = \"128\"]`\n";
    let action = next_action(failed(stderr));
    match action {
        Action::RetryWithLimit(limit) => {
            assert_eq!(limit, b"128".to_vec());
            let patched = patch_limit(&file, &limit);
            assert_eq!(patched, b"#![type_length_limit = \"128\"]\nfn main() {}\n".to_vec());
            // the loop now runs the build again
        }
        _ => panic!("expected a patch-and-retry action"),
    }
}

#[test]
fn scenario_unrelated_failure() {
    // non-zero exit with no limit diagnostic: stop cleanly, file untouched
    let action = next_action(failed(b"error[E0308]: mismatched types\n"));
    assert!(matches!(action, Action::ReportUnrelated));
}

#[test]
fn scenario_unreadable_stderr() {
    // stderr bytes are not valid text: abort before any patch attempt
    let action = next_action(BuildOutcome::Failed {
        stderr_is_text: false,
        stderr: vec![0xff, 0xfe, 0x80],
    });
    assert!(matches!(action, Action::AbortBadStderr));
}

#[test]
fn scenario_two_patch_cycles() {
    // two failing builds suggest "64" then "256"; the third succeeds
    let mut file = b"#![type_length_limit = \"32\"]\n".to_vec();
    let outcomes = vec![
        failed(b"help: `#![type_length_limit = \"64\"]`"),
        failed(b"help: `#![type_length_limit = \"256\"]`"),
        BuildOutcome::Succeeded,
    ];
    let mut builds_run = 0;
    for outcome in outcomes {
        builds_run += 1;
        match next_action(outcome) {
            Action::RetryWithLimit(limit) => {
                file = patch_limit(&file, &limit);
            }
            Action::ReportSuccess => break,
            _ => panic!("expected only retries and a final success"),
        }
    }
    assert_eq!(builds_run, 3);
    assert_eq!(file, b"#![type_length_limit = \"256\"]\n".to_vec());
}

#[test]
fn resolution_order() {
    // an explicit path wins; else the library root; else the program root
    assert_eq!(resolve_target(Some("src/other.rs"), true), "src/other.rs");
    assert_eq!(resolve_target(Some("src/other.rs"), false), "src/other.rs");
    assert_eq!(resolve_target(None, true), "src/lib.rs");
    assert_eq!(resolve_target(None, false), "src/main.rs");
}
