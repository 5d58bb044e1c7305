use vault::uploads::{
    remote_crash_uploads, upload_build_timings, upload_previous_minidumps, MinidumpAction,
    MinidumpEvent, TimingAction, TimingEvent, TimingWarning, UploadFailure,
};

fn entry(extension: &str) -> MinidumpEvent {
    MinidumpEvent::Entry { extension: Some(extension.to_string()) }
}

#[test]
fn a_minidump_is_uploaded_and_removed() {
    let steps = vec![
        (MinidumpEvent::Endpoint { is_set: true }, MinidumpAction::OpenDirectory),
        (MinidumpEvent::DirectoryOpened { ok: true }, MinidumpAction::NextEntry),
        (entry("log"), MinidumpAction::NextEntry),
        (entry("dmp"), MinidumpAction::ReadMetadata),
        (MinidumpEvent::MetadataRead { ok: true }, MinidumpAction::ReadMinidump),
        (MinidumpEvent::MinidumpRead { ok: true }, MinidumpAction::Upload),
        (MinidumpEvent::Uploaded { ok: true }, MinidumpAction::RemoveFiles),
        (MinidumpEvent::FilesRemoved, MinidumpAction::NextEntry),
        (MinidumpEvent::NoMoreEntries, MinidumpAction::Finish),
    ];
    for (event, action) in steps {
        assert!(upload_previous_minidumps(&event) == action);
    }
}

#[test]
fn what_cannot_be_uploaded_stays() {
    assert!(
        upload_previous_minidumps(&MinidumpEvent::Uploaded { ok: false })
            == MinidumpAction::NextEntry
    );
    assert!(
        upload_previous_minidumps(&MinidumpEvent::MetadataRead { ok: false })
            == MinidumpAction::NextEntry
    );
    assert!(
        upload_previous_minidumps(&MinidumpEvent::Entry { extension: None })
            == MinidumpAction::NextEntry
    );
    assert!(upload_previous_minidumps(&entry("DMP")) == MinidumpAction::NextEntry);
}

#[test]
fn failures_end_the_upload() {
    assert!(
        upload_previous_minidumps(&MinidumpEvent::Endpoint { is_set: false })
            == MinidumpAction::Finish
    );
    assert!(
        upload_previous_minidumps(&MinidumpEvent::DirectoryOpened { ok: false })
            == MinidumpAction::Fail(UploadFailure::Directory)
    );
    assert!(
        upload_previous_minidumps(&MinidumpEvent::EntryFailed)
            == MinidumpAction::Fail(UploadFailure::Entry)
    );
    assert!(
        upload_previous_minidumps(&MinidumpEvent::MinidumpRead { ok: false })
            == MinidumpAction::Fail(UploadFailure::Minidump)
    );
}

#[test]
fn remote_crashes_with_metadata_are_uploaded() {
    assert_eq!(remote_crash_uploads(true, &vec![true, false, true]), vec![0, 2]);
    assert_eq!(remote_crash_uploads(false, &vec![true, true]), Vec::<usize>::new());
    assert_eq!(remote_crash_uploads(true, &Vec::new()), Vec::<usize>::new());
}

#[test]
fn a_build_timing_is_sent_and_removed() {
    let steps = vec![
        (TimingEvent::Directory { exists: true }, TimingAction::OpenDirectory),
        (TimingEvent::DirectoryOpened { ok: true }, TimingAction::NextEntry),
        (TimingEvent::Entry { extension: Some("txt".to_string()) }, TimingAction::NextEntry),
        (TimingEvent::Entry { extension: Some("json".to_string()) }, TimingAction::ReadContents),
        (TimingEvent::ContentsRead { ok: true }, TimingAction::Parse),
        (TimingEvent::Parsed { ok: true }, TimingAction::Send),
        (TimingEvent::Sent, TimingAction::RemoveFile),
        (TimingEvent::FileRemoved { ok: true }, TimingAction::NextEntry),
        (TimingEvent::NoMoreEntries, TimingAction::Finish),
    ];
    for (event, action) in steps {
        assert!(upload_build_timings(&event) == action);
    }
}

#[test]
fn trouble_with_a_build_timing_is_warned_of() {
    let steps = vec![
        (
            TimingEvent::ContentsRead { ok: false },
            TimingAction::Warn(TimingWarning::Unreadable),
        ),
        (TimingEvent::Parsed { ok: false }, TimingAction::Warn(TimingWarning::Unparsable)),
        (
            TimingEvent::FileRemoved { ok: false },
            TimingAction::Warn(TimingWarning::Undeletable),
        ),
        (TimingEvent::Warned, TimingAction::NextEntry),
        (TimingEvent::Directory { exists: false }, TimingAction::Finish),
        (TimingEvent::DirectoryOpened { ok: false }, TimingAction::Fail),
        (TimingEvent::EntryFailed, TimingAction::Fail),
    ];
    for (event, action) in steps {
        assert!(upload_build_timings(&event) == action);
    }
}
