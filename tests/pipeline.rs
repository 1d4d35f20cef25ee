use staged_build::pipeline::Action;
use staged_build::pipeline::Stage;

#[test]
fn successful_run_walks_every_stage_in_order() {
    let mut stage = Stage::Init;
    let mut actions = Vec::new();
    while let Some(a) = stage.action() {
        actions.push(a);
        stage = stage.advance(true);
    }
    assert_eq!(
        actions,
        vec![
            Action::StageSource,
            Action::RewriteManifest,
            Action::Compile,
            Action::Execute,
            Action::Release
        ]
    );
    assert_eq!(stage, Stage::Released { succeeded: true });
}

#[test]
fn failure_leads_to_release_then_ends_unsuccessful() {
    for stage in [Stage::Init, Stage::Staged, Stage::ManifestRewritten, Stage::Compiled] {
        let next = stage.advance(false);
        assert_eq!(next, Stage::Aborting);
        assert_eq!(next.action(), Some(Action::Release));
        assert_eq!(next.advance(true), Stage::Released { succeeded: false });
    }
    assert_eq!(Stage::Executed.advance(false), Stage::Released { succeeded: false });
    assert_eq!(Stage::Aborting.advance(false), Stage::Released { succeeded: false });
    assert_eq!(Stage::Released { succeeded: true }.advance(false), Stage::Released { succeeded: true });
    assert_eq!(Stage::Released { succeeded: false }.action(), None);
}

#[test]
fn failed_compile_never_executes() {
    let mut stage = Stage::Init;
    let mut actions = Vec::new();
    while let Some(a) = stage.action() {
        actions.push(a);
        stage = stage.advance(a != Action::Compile);
    }
    assert_eq!(
        actions,
        vec![Action::StageSource, Action::RewriteManifest, Action::Compile, Action::Release]
    );
    assert_eq!(stage, Stage::Released { succeeded: false });
}
