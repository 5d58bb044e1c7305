//! Which files in the directories of minidumps and build timings are uploaded,
//! and which are removed. Each step answers what came of the one before it with
//! what to do next.
use vstd::prelude::*;

use crate::notes::{lemma_range_filter, range};
use crate::order::positions;
use crate::text::same_text;
use crate::entries::text_in;

verus! {

// ---------------------------------------------------------------------------
// Minidumps of earlier runs
// ---------------------------------------------------------------------------

/// What came of a step in the upload of earlier minidumps.
pub enum MinidumpEvent {
    /// The endpoint was looked up.
    Endpoint { is_set: bool },
    /// The directory of the minidumps was opened.
    DirectoryOpened { ok: bool },
    /// The directory has a further entry.
    Entry { extension: Option<String> },
    /// A further entry could not be read.
    EntryFailed,
    /// The directory has no further entry.
    NoMoreEntries,
    /// The metadata beside the minidump was read and parsed.
    MetadataRead { ok: bool },
    /// The minidump was read.
    MinidumpRead { ok: bool },
    /// The minidump was sent.
    Uploaded { ok: bool },
    /// The minidump and its metadata were removed.
    FilesRemoved,
}

/// Why the upload of earlier minidumps ended early.
#[derive(Clone, Copy, Debug, PartialEq, Eq, Structural)]
pub enum UploadFailure {
    /// The directory could not be opened.
    Directory,
    /// An entry of the directory could not be read.
    Entry,
    /// A minidump could not be read.
    Minidump,
}

/// What to do next in the upload of earlier minidumps.
#[derive(Clone, Copy, Debug, PartialEq, Eq, Structural)]
pub enum MinidumpAction {
    OpenDirectory,
    NextEntry,
    /// Read the metadata beside the current entry: the file of the same name
    /// with the extension `json`.
    ReadMetadata,
    ReadMinidump,
    Upload,
    /// Remove the current minidump and its metadata.
    RemoveFiles,
    Finish,
    Fail(UploadFailure),
}

/// Whether `event` can come of `action`.
pub open spec fn answers(action: MinidumpAction, event: MinidumpEvent) -> bool {
    match action {
        MinidumpAction::OpenDirectory => event is DirectoryOpened,
        MinidumpAction::NextEntry => event is Entry || event is EntryFailed
            || event is NoMoreEntries,
        MinidumpAction::ReadMetadata => event is MetadataRead,
        MinidumpAction::ReadMinidump => event is MinidumpRead,
        MinidumpAction::Upload => event is Uploaded,
        MinidumpAction::RemoveFiles => event is FilesRemoved,
        MinidumpAction::Finish => false,
        MinidumpAction::Fail(_) => false,
    }
}

/// What to do after `event`.
pub open spec fn next_action(event: MinidumpEvent) -> MinidumpAction {
    match event {
        MinidumpEvent::Endpoint { is_set } => if is_set {
            MinidumpAction::OpenDirectory
        } else {
            MinidumpAction::Finish
        },
        MinidumpEvent::DirectoryOpened { ok } => if ok {
            MinidumpAction::NextEntry
        } else {
            MinidumpAction::Fail(UploadFailure::Directory)
        },
        MinidumpEvent::Entry { extension } => if text_in(extension) == Some("dmp"@) {
            MinidumpAction::ReadMetadata
        } else {
            MinidumpAction::NextEntry
        },
        MinidumpEvent::EntryFailed => MinidumpAction::Fail(UploadFailure::Entry),
        MinidumpEvent::NoMoreEntries => MinidumpAction::Finish,
        MinidumpEvent::MetadataRead { ok } => if ok {
            MinidumpAction::ReadMinidump
        } else {
            MinidumpAction::NextEntry
        },
        MinidumpEvent::MinidumpRead { ok } => if ok {
            MinidumpAction::Upload
        } else {
            MinidumpAction::Fail(UploadFailure::Minidump)
        },
        MinidumpEvent::Uploaded { ok } => if ok {
            MinidumpAction::RemoveFiles
        } else {
            MinidumpAction::NextEntry
        },
        MinidumpEvent::FilesRemoved => MinidumpAction::NextEntry,
    }
}

fn has_extension(extension: &Option<String>, wanted: &str) -> (b: bool)
    ensures
        b == (text_in(*extension) == Some(wanted@)),
{
    match extension {
        Some(extension) => same_text(extension.as_str(), wanted),
        None => false,
    }
}

/// What to do next in the upload of the minidumps of earlier runs. Files that
/// are no minidumps, or have no metadata, are passed over; a minidump that
/// cannot be read ends the upload; what was sent is removed.
pub fn upload_previous_minidumps(event: &MinidumpEvent) -> (action: MinidumpAction)
    ensures
        action == next_action(*event),
{
    match event {
        MinidumpEvent::Endpoint { is_set } => if *is_set {
            MinidumpAction::OpenDirectory
        } else {
            MinidumpAction::Finish
        },
        MinidumpEvent::DirectoryOpened { ok } => if *ok {
            MinidumpAction::NextEntry
        } else {
            MinidumpAction::Fail(UploadFailure::Directory)
        },
        MinidumpEvent::Entry { extension } => if has_extension(extension, "dmp") {
            MinidumpAction::ReadMetadata
        } else {
            MinidumpAction::NextEntry
        },
        MinidumpEvent::EntryFailed => MinidumpAction::Fail(UploadFailure::Entry),
        MinidumpEvent::NoMoreEntries => MinidumpAction::Finish,
        MinidumpEvent::MetadataRead { ok } => if *ok {
            MinidumpAction::ReadMinidump
        } else {
            MinidumpAction::NextEntry
        },
        MinidumpEvent::MinidumpRead { ok } => if *ok {
            MinidumpAction::Upload
        } else {
            MinidumpAction::Fail(UploadFailure::Minidump)
        },
        MinidumpEvent::Uploaded { ok } => if *ok {
            MinidumpAction::RemoveFiles
        } else {
            MinidumpAction::NextEntry
        },
        MinidumpEvent::FilesRemoved => MinidumpAction::NextEntry,
    }
}

// ---------------------------------------------------------------------------
// Crashes of a remote server
// ---------------------------------------------------------------------------

/// The positions of the crash reports of a remote server that are uploaded,
/// given for each whether its metadata could be parsed: none without an
/// endpoint to send them to.
pub fn remote_crash_uploads(endpoint_is_set: bool, parsed: &Vec<bool>) -> (uploads: Vec<usize>)
    ensures
        positions(uploads@) == if endpoint_is_set {
            range(parsed@.len()).filter(|i: int| parsed@[i])
        } else {
            Seq::empty()
        },
        forall|i: int|
            0 <= i < parsed@.len() && endpoint_is_set && #[trigger] parsed@[i]
                ==> exists|k: int| 0 <= k < uploads@.len() && #[trigger] uploads@[k] == i,
        forall|k: int|
            0 <= k < uploads@.len() ==> endpoint_is_set && (#[trigger] uploads@[k])
                < parsed@.len() && parsed@[uploads@[k] as int],
        forall|j: int, k: int|
            0 <= j < k < uploads@.len() ==> #[trigger] uploads@[j] < #[trigger] uploads@[k],
{
    let ghost keep = |i: int| parsed@[i];
    let mut uploads: Vec<usize> = Vec::new();
    assert(positions(uploads@) =~= Seq::<int>::empty());
    if !endpoint_is_set {
        return uploads;
    }
    let mut i: usize = 0;
    assert(positions(uploads@) =~= range(0).filter(keep));
    while i < parsed.len()
        invariant
            keep == (|i: int| parsed@[i]),
            i <= parsed.len(),
            positions(uploads@) == range(i as nat).filter(keep),
        decreases parsed.len() - i,
    {
        let ghost earlier = uploads@;
        proof {
            assert(range((i + 1) as nat) =~= range(i as nat).push(i as int));
            range(i as nat).lemma_filter_push(i as int, keep);
        }
        if parsed[i] {
            uploads.push(i);
            assert(positions(uploads@) =~= positions(earlier).push(i as int));
        }
        i += 1;
    }
    proof {
        let chosen = positions(uploads@);
        lemma_range_filter(parsed@.len(), keep);
        assert forall|i: int| 0 <= i < parsed@.len() && #[trigger] parsed@[i] implies exists|k: int|
            0 <= k < uploads@.len() && #[trigger] uploads@[k] == i by {
            assert(keep(i));
            assert(chosen.contains(i));
            let k = choose|k: int| 0 <= k < chosen.len() && chosen[k] == i;
            assert(uploads@[k] == i);
        }
        assert forall|k: int| 0 <= k < uploads@.len() implies (#[trigger] uploads@[k])
            < parsed@.len() && parsed@[uploads@[k] as int] by {
            assert(chosen[k] == uploads@[k]);
            assert(keep(chosen[k]));
        }
        assert forall|j: int, k: int| 0 <= j < k < uploads@.len() implies #[trigger] uploads@[j]
            < #[trigger] uploads@[k] by {
            assert(chosen[j] < chosen[k]);
        }
    }
    uploads
}

// ---------------------------------------------------------------------------
// Build timings
// ---------------------------------------------------------------------------

/// What came of a step in the upload of build timings.
pub enum TimingEvent {
    /// The directory of the build timings was looked for.
    Directory { exists: bool },
    /// The directory was opened.
    DirectoryOpened { ok: bool },
    /// The directory has a further entry.
    Entry { extension: Option<String> },
    /// A further entry could not be read.
    EntryFailed,
    /// The directory has no further entry.
    NoMoreEntries,
    /// The file was read.
    ContentsRead { ok: bool },
    /// The contents were parsed.
    Parsed { ok: bool },
    /// The timing was sent.
    Sent,
    /// The file was removed.
    FileRemoved { ok: bool },
    /// A warning was logged.
    Warned,
}

/// What a warning is about.
#[derive(Clone, Copy, Debug, PartialEq, Eq, Structural)]
pub enum TimingWarning {
    Unreadable,
    Unparsable,
    Undeletable,
}

/// What to do next in the upload of build timings.
#[derive(Clone, Copy, Debug, PartialEq, Eq, Structural)]
pub enum TimingAction {
    OpenDirectory,
    NextEntry,
    ReadContents,
    Parse,
    Send,
    RemoveFile,
    Warn(TimingWarning),
    Finish,
    Fail,
}

/// Whether `event` can come of `action`.
pub open spec fn timing_answers(action: TimingAction, event: TimingEvent) -> bool {
    match action {
        TimingAction::OpenDirectory => event is DirectoryOpened,
        TimingAction::NextEntry => event is Entry || event is EntryFailed || event is NoMoreEntries,
        TimingAction::ReadContents => event is ContentsRead,
        TimingAction::Parse => event is Parsed,
        TimingAction::Send => event is Sent,
        TimingAction::RemoveFile => event is FileRemoved,
        TimingAction::Warn(_) => event is Warned,
        TimingAction::Finish => false,
        TimingAction::Fail => false,
    }
}

/// What to do after `event`.
pub open spec fn next_timing_action(event: TimingEvent) -> TimingAction {
    match event {
        TimingEvent::Directory { exists } => if exists {
            TimingAction::OpenDirectory
        } else {
            TimingAction::Finish
        },
        TimingEvent::DirectoryOpened { ok } => if ok {
            TimingAction::NextEntry
        } else {
            TimingAction::Fail
        },
        TimingEvent::Entry { extension } => if text_in(extension) == Some("json"@) {
            TimingAction::ReadContents
        } else {
            TimingAction::NextEntry
        },
        TimingEvent::EntryFailed => TimingAction::Fail,
        TimingEvent::NoMoreEntries => TimingAction::Finish,
        TimingEvent::ContentsRead { ok } => if ok {
            TimingAction::Parse
        } else {
            TimingAction::Warn(TimingWarning::Unreadable)
        },
        TimingEvent::Parsed { ok } => if ok {
            TimingAction::Send
        } else {
            TimingAction::Warn(TimingWarning::Unparsable)
        },
        TimingEvent::Sent => TimingAction::RemoveFile,
        TimingEvent::FileRemoved { ok } => if ok {
            TimingAction::NextEntry
        } else {
            TimingAction::Warn(TimingWarning::Undeletable)
        },
        TimingEvent::Warned => TimingAction::NextEntry,
    }
}

/// What to do next in the upload of build timings. Files that are no timings
/// are passed over; what cannot be read, parsed or removed is warned of; what
/// was sent is removed.
pub fn upload_build_timings(event: &TimingEvent) -> (action: TimingAction)
    ensures
        action == next_timing_action(*event),
{
    match event {
        TimingEvent::Directory { exists } => if *exists {
            TimingAction::OpenDirectory
        } else {
            TimingAction::Finish
        },
        TimingEvent::DirectoryOpened { ok } => if *ok {
            TimingAction::NextEntry
        } else {
            TimingAction::Fail
        },
        TimingEvent::Entry { extension } => if has_extension(extension, "json") {
            TimingAction::ReadContents
        } else {
            TimingAction::NextEntry
        },
        TimingEvent::EntryFailed => TimingAction::Fail,
        TimingEvent::NoMoreEntries => TimingAction::Finish,
        TimingEvent::ContentsRead { ok } => if *ok {
            TimingAction::Parse
        } else {
            TimingAction::Warn(TimingWarning::Unreadable)
        },
        TimingEvent::Parsed { ok } => if *ok {
            TimingAction::Send
        } else {
            TimingAction::Warn(TimingWarning::Unparsable)
        },
        TimingEvent::Sent => TimingAction::RemoveFile,
        TimingEvent::FileRemoved { ok } => if *ok {
            TimingAction::NextEntry
        } else {
            TimingAction::Warn(TimingWarning::Undeletable)
        },
        TimingEvent::Warned => TimingAction::NextEntry,
    }
}

// ---------------------------------------------------------------------------
// Laws
// ---------------------------------------------------------------------------

/// A run of the upload of earlier minidumps: it begins with the endpoint, and
/// each event comes of the action that the one before called for.
pub open spec fn is_run(events: Seq<MinidumpEvent>) -> bool {
    &&& events.len() > 0
    &&& events[0] is Endpoint
    &&& forall|i: int|
        0 < i < events.len() ==> answers(next_action(events[i - 1]), #[trigger] events[i])
}

/// A minidump is removed only where it is one, its metadata and itself were
/// read, and it was sent with success, in this order and right before.
pub proof fn removed_only_after_upload(events: Seq<MinidumpEvent>, i: int)
    requires
        is_run(events),
        0 <= i < events.len(),
        next_action(events[i]) == MinidumpAction::RemoveFiles,
    ensures
        i >= 5,
        events[i] == (MinidumpEvent::Uploaded { ok: true }),
        events[i - 1] == (MinidumpEvent::MinidumpRead { ok: true }),
        events[i - 2] == (MinidumpEvent::MetadataRead { ok: true }),
        events[i - 3] matches MinidumpEvent::Entry { extension } && text_in(extension) == Some(
            "dmp"@,
        ),
        events[0] == (MinidumpEvent::Endpoint { is_set: true }),
{
    assert(answers(next_action(events[i - 1]), events[i]));
    assert(answers(next_action(events[i - 2]), events[i - 1]));
    assert(answers(next_action(events[i - 3]), events[i - 2]));
    assert(answers(next_action(events[i - 4]), events[i - 3]));
    assert(answers(next_action(events[0]), events[1]));
}

/// A minidump that was not sent stays where it is: after a failed upload the
/// next entry is looked at.
pub proof fn failed_upload_keeps_files(events: Seq<MinidumpEvent>, i: int)
    requires
        is_run(events),
        0 <= i < events.len() - 1,
        events[i] == (MinidumpEvent::Uploaded { ok: false }),
    ensures
        events[i + 1] is Entry || events[i + 1] is EntryFailed || events[i + 1] is NoMoreEntries,
{
    assert(answers(next_action(events[i]), events[i + 1]));
}

/// A run of the upload of build timings: it begins with the directory, and each
/// event comes of the action that the one before called for.
pub open spec fn is_timing_run(events: Seq<TimingEvent>) -> bool {
    &&& events.len() > 0
    &&& events[0] is Directory
    &&& forall|i: int|
        0 < i < events.len() ==> timing_answers(
            next_timing_action(events[i - 1]),
            #[trigger] events[i],
        )
}

/// A file with a build timing is removed only after its contents were read,
/// parsed and sent, in this order and right before.
pub proof fn timing_removed_only_after_sending(events: Seq<TimingEvent>, i: int)
    requires
        is_timing_run(events),
        0 <= i < events.len(),
        next_timing_action(events[i]) == TimingAction::RemoveFile,
    ensures
        i >= 3,
        events[i] is Sent,
        events[i - 1] == (TimingEvent::Parsed { ok: true }),
        events[i - 2] == (TimingEvent::ContentsRead { ok: true }),
        events[i - 3] matches TimingEvent::Entry { extension } && text_in(extension) == Some(
            "json"@,
        ),
{
    assert(timing_answers(next_timing_action(events[i - 1]), events[i]));
    assert(timing_answers(next_timing_action(events[i - 2]), events[i - 1]));
    assert(timing_answers(next_timing_action(events[i - 3]), events[i - 2]));
}

/// Every minidump with metadata is sent, and what was sent is removed: an entry
/// is taken up if and only if its extension is `dmp`, the minidump is read if
/// and only if its metadata was, sent if and only if it was read, and both files
/// are removed if and only if it was sent; else the next entry follows.
pub proof fn minidump_goes_all_the_way(extension: Option<String>, ok: bool)
    ensures
        next_action(MinidumpEvent::Entry { extension }) == if extension is Some && extension->0@
            == "dmp"@ {
            MinidumpAction::ReadMetadata
        } else {
            MinidumpAction::NextEntry
        },
        next_action(MinidumpEvent::MetadataRead { ok }) == if ok {
            MinidumpAction::ReadMinidump
        } else {
            MinidumpAction::NextEntry
        },
        ok ==> next_action(MinidumpEvent::MinidumpRead { ok }) == MinidumpAction::Upload,
        next_action(MinidumpEvent::Uploaded { ok }) == if ok {
            MinidumpAction::RemoveFiles
        } else {
            MinidumpAction::NextEntry
        },
        next_action(MinidumpEvent::FilesRemoved) == MinidumpAction::NextEntry,
{
}

/// The upload opens the directory if and only if there is an endpoint, goes on
/// until there is no further entry, and fails if and only if the directory, an
/// entry or a minidump could not be read, with the reason.
pub proof fn upload_ends_with_the_entries(event: MinidumpEvent)
    ensures
        next_action(event) == MinidumpAction::OpenDirectory <==> event == (MinidumpEvent::Endpoint {
            is_set: true,
        }),
        next_action(event) == MinidumpAction::Finish <==> event == (MinidumpEvent::Endpoint {
            is_set: false,
        }) || event is NoMoreEntries,
        next_action(event) == MinidumpAction::Fail(UploadFailure::Directory) <==> event == (
        MinidumpEvent::DirectoryOpened { ok: false }),
        next_action(event) == MinidumpAction::Fail(UploadFailure::Entry) <==> event is EntryFailed,
        next_action(event) == MinidumpAction::Fail(UploadFailure::Minidump) <==> event == (
        MinidumpEvent::MinidumpRead { ok: false }),
        event == (MinidumpEvent::DirectoryOpened { ok: true }) ==> next_action(event)
            == MinidumpAction::NextEntry,
{
}

/// Every build timing that can be read is sent and removed: an entry is taken
/// up if and only if its extension is `json`, parsed if and only if it was read,
/// sent if and only if it was parsed, and removed once it was sent. Each
/// misfortune is warned of for what it is, and the next entry follows.
pub proof fn timing_goes_all_the_way(extension: Option<String>, ok: bool)
    ensures
        next_timing_action(TimingEvent::Entry { extension }) == if extension is Some
            && extension->0@ == "json"@ {
            TimingAction::ReadContents
        } else {
            TimingAction::NextEntry
        },
        next_timing_action(TimingEvent::ContentsRead { ok }) == if ok {
            TimingAction::Parse
        } else {
            TimingAction::Warn(TimingWarning::Unreadable)
        },
        next_timing_action(TimingEvent::Parsed { ok }) == if ok {
            TimingAction::Send
        } else {
            TimingAction::Warn(TimingWarning::Unparsable)
        },
        next_timing_action(TimingEvent::Sent) == TimingAction::RemoveFile,
        next_timing_action(TimingEvent::FileRemoved { ok }) == if ok {
            TimingAction::NextEntry
        } else {
            TimingAction::Warn(TimingWarning::Undeletable)
        },
        next_timing_action(TimingEvent::Warned) == TimingAction::NextEntry,
{
}

/// The upload of timings opens the directory if and only if it exists, goes on
/// until there is no further entry, and fails if and only if the directory or
/// an entry could not be read.
pub proof fn timings_end_with_the_entries(event: TimingEvent)
    ensures
        next_timing_action(event) == TimingAction::OpenDirectory <==> event == (
        TimingEvent::Directory { exists: true }),
        next_timing_action(event) == TimingAction::Finish <==> event == (TimingEvent::Directory {
            exists: false,
        }) || event is NoMoreEntries,
        next_timing_action(event) == TimingAction::Fail <==> event == (
        TimingEvent::DirectoryOpened { ok: false }) || event is EntryFailed,
        event == (TimingEvent::DirectoryOpened { ok: true }) ==> next_timing_action(event)
            == TimingAction::NextEntry,
{
}

} // verus!
