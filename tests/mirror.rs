use staged_build::mirror::plan_entry;
use staged_build::mirror::EntryKind;
use staged_build::mirror::Existing;
use staged_build::mirror::MirrorStep;

#[test]
fn directory_is_created_then_descended() {
    for existing in [Existing::Absent, Existing::File, Existing::Dir] {
        assert_eq!(
            plan_entry(EntryKind::Dir, existing),
            vec![MirrorStep::CreateDirAll, MirrorStep::Descend]
        );
    }
}

#[test]
fn file_replaces_whatever_stands_in_its_way() {
    assert_eq!(plan_entry(EntryKind::File, Existing::Absent), vec![MirrorStep::CopyFile]);
    assert_eq!(
        plan_entry(EntryKind::File, Existing::File),
        vec![MirrorStep::RemoveFile, MirrorStep::CopyFile]
    );
    assert_eq!(
        plan_entry(EntryKind::File, Existing::Dir),
        vec![MirrorStep::RemoveDirAll, MirrorStep::CopyFile]
    );
}
