//! Crash reports: what is sent along with a minidump.
use vstd::prelude::*;

use crate::numerals::{decimal, digits_injective, hex_id, to_decimal, to_hex_id};
use crate::text::text_pairs;

verus! {

// ---------------------------------------------------------------------------
// Crash metadata
// ---------------------------------------------------------------------------

/// What was known of the application when it started.
pub struct InitInfo {
    pub release_channel: String,
    pub zed_version: String,
    pub binary: String,
    pub commit_sha: String,
}

/// The panic that ended the application.
pub struct PanicInfo {
    pub message: String,
    pub span: String,
}

/// What is known of the user.
pub struct UserInfo {
    pub is_staff: Option<bool>,
    pub metrics_id: Option<String>,
}

/// A GPU of the system.
pub struct GpuInfo {
    pub device_name: Option<String>,
    pub device_pci_id: u32,
    pub vendor_name: Option<String>,
    pub vendor_pci_id: u32,
    pub driver_version: Option<String>,
    pub driver_name: Option<String>,
}

/// The GPU that the application ran on.
pub struct GpuSpecs {
    pub is_software_emulated: bool,
    pub device_name: String,
    pub driver_name: String,
    pub driver_info: String,
}

/// The metadata of a crash.
pub struct CrashInfo {
    pub init: InitInfo,
    pub panic: Option<PanicInfo>,
    pub minidump_error: Option<String>,
    pub gpus: Vec<GpuInfo>,
    pub active_gpu: Option<GpuSpecs>,
    pub user_info: Option<UserInfo>,
}

// ---------------------------------------------------------------------------
// Form fields
// ---------------------------------------------------------------------------

/// The fields that every report has.
pub open spec fn base_fields(metadata: CrashInfo) -> Seq<(Seq<char>, Seq<char>)> {
    seq![
        ("sentry[tags][channel]"@, metadata.init.release_channel@),
        ("sentry[tags][version]"@, metadata.init.zed_version@),
        ("sentry[tags][binary]"@, metadata.init.binary@),
        ("sentry[release]"@, metadata.init.commit_sha@),
        ("platform"@, "rust"@),
    ]
}

/// The fields about the panic, where there was one.
pub open spec fn panic_fields(metadata: CrashInfo) -> Seq<(Seq<char>, Seq<char>)> {
    match metadata.panic {
        Some(panic) => seq![
            ("sentry[logentry][formatted]"@, panic.message@),
            ("span"@, panic.span@),
        ],
        None => Seq::empty(),
    }
}

/// One field where there is a value for it, none otherwise.
pub open spec fn optional_field(name: Seq<char>, value: Option<String>) -> Seq<
    (Seq<char>, Seq<char>),
> {
    match value {
        Some(value) => seq![(name, value@)],
        None => Seq::empty(),
    }
}

/// A truth value in words.
pub open spec fn bool_text(b: bool) -> Seq<char> {
    if b {
        "true"@
    } else {
        "false"@
    }
}

/// Whether the user is staff, where that is known.
pub open spec fn staff_of(metadata: CrashInfo) -> Option<bool> {
    match metadata.user_info {
        Some(user_info) => user_info.is_staff,
        None => None,
    }
}

/// The id under which the metrics of the user are kept, where there is one.
pub open spec fn metrics_id_of(metadata: CrashInfo) -> Option<String> {
    match metadata.user_info {
        Some(user_info) => user_info.metrics_id,
        None => None,
    }
}

/// The field that says whether the user is staff.
pub open spec fn staff_fields(metadata: CrashInfo) -> Seq<(Seq<char>, Seq<char>)> {
    match staff_of(metadata) {
        Some(is_staff) => seq![("sentry[user][is_staff]"@, bool_text(is_staff))],
        None => Seq::empty(),
    }
}

/// The field that identifies the user: by the metrics id, or else by the
/// installation.
pub open spec fn user_fields(metadata: CrashInfo, installation_id: Option<String>) -> Seq<
    (Seq<char>, Seq<char>),
> {
    match metrics_id_of(metadata) {
        Some(metrics_id) => seq![("sentry[user][id]"@, metrics_id@)],
        None => match installation_id {
            Some(id) => seq![("sentry[user][id]"@, "installation-"@ + id@)],
            None => Seq::empty(),
        },
    }
}

/// The name of GPU `index` in the report. A single GPU has no number, unless
/// the active one is reported too.
pub open spec fn gpu_name(metadata: CrashInfo, index: int) -> Seq<char> {
    if metadata.gpus@.len() == 1 && metadata.active_gpu is None {
        "gpu"@
    } else {
        "gpu"@ + decimal(index as nat)
    }
}

/// The fields about GPU `index`.
pub open spec fn gpu_fields(metadata: CrashInfo, index: int) -> Seq<(Seq<char>, Seq<char>)> {
    let gpu = metadata.gpus@[index];
    let name = gpu_name(metadata, index);
    let root = "sentry[contexts]["@ + name + "]"@;
    seq![
        (
            root + "[Description]"@,
            "A GPU found on the users system. May or may not be the GPU Zed is running on"@,
        ),
        (root + "[type]"@, "gpu"@),
        (
            root + "[name]"@,
            match gpu.device_name {
                Some(device_name) => device_name@,
                None => name,
            },
        ),
        (root + "[id]"@, hex_id(gpu.device_pci_id as nat)),
        (root + "[vendor_id]"@, hex_id(gpu.vendor_pci_id as nat)),
    ] + optional_field(root + "[vendor_name]"@, gpu.vendor_name) + optional_field(
        root + "[driver_version]"@,
        gpu.driver_version,
    ) + optional_field(root + "[driver_name]"@, gpu.driver_name)
}

/// The fields about the first `n` GPUs.
pub open spec fn gpus_fields(metadata: CrashInfo, n: nat) -> Seq<(Seq<char>, Seq<char>)>
    decreases n,
{
    if n == 0 {
        Seq::empty()
    } else {
        gpus_fields(metadata, (n - 1) as nat) + gpu_fields(metadata, n - 1)
    }
}

/// The fields about the active GPU, where it is known.
pub open spec fn active_gpu_fields(metadata: CrashInfo) -> Seq<(Seq<char>, Seq<char>)> {
    match metadata.active_gpu {
        Some(gpu) => seq![
            ("sentry[contexts][Active_GPU][Description]"@, "The GPU Zed is running on"@),
            ("sentry[contexts][Active_GPU][type]"@, "gpu"@),
            ("sentry[contexts][Active_GPU][name]"@, gpu.device_name@),
            ("sentry[contexts][Active_GPU][driver_version]"@, gpu.driver_info@),
            ("sentry[contexts][Active_GPU][driver_name]"@, gpu.driver_name@),
            (
                "sentry[contexts][Active_GPU][is_software_emulated]"@,
                bool_text(gpu.is_software_emulated),
            ),
        ],
        None => Seq::empty(),
    }
}

/// The text fields of a report, in order.
pub open spec fn report_fields(metadata: CrashInfo, installation_id: Option<String>) -> Seq<
    (Seq<char>, Seq<char>),
> {
    base_fields(metadata) + panic_fields(metadata) + optional_field(
        "minidump_error"@,
        metadata.minidump_error,
    ) + staff_fields(metadata) + user_fields(metadata, installation_id) + gpus_fields(
        metadata,
        metadata.gpus@.len(),
    ) + active_gpu_fields(metadata)
}

fn text(fields: &mut Vec<(String, String)>, name: &str, value: &str)
    ensures
        text_pairs(final(fields)@) == text_pairs(old(fields)@).push((name@, value@)),
{
    let ghost before = fields@;
    fields.push((name.to_owned(), value.to_owned()));
    assert(text_pairs(fields@) =~= text_pairs(before).push((name@, value@)));
}

fn text_if_some(fields: &mut Vec<(String, String)>, name: &str, value: &Option<String>)
    ensures
        text_pairs(final(fields)@) == text_pairs(old(fields)@) + optional_field(name@, *value),
{
    match value {
        Some(value) => {
            text(fields, name, value.as_str());
        },
        None => {},
    }
}

fn bool_str(b: bool) -> (s: &'static str)
    ensures
        s@ == bool_text(b),
{
    if b {
        "true"
    } else {
        "false"
    }
}

fn joined(a: &str, b: &str) -> (s: String)
    ensures
        s@ == a@ + b@,
{
    let mut s = a.to_owned();
    s.append(b);
    s
}

fn add_gpu(fields: &mut Vec<(String, String)>, metadata: &CrashInfo, index: usize)
    requires
        index < metadata.gpus@.len(),
    ensures
        text_pairs(final(fields)@) == text_pairs(old(fields)@) + gpu_fields(
            *metadata,
            index as int,
        ),
{
    let ghost before = text_pairs(fields@);
    let gpu = &metadata.gpus[index];
    let name: String = if metadata.gpus.len() == 1 && metadata.active_gpu.is_none() {
        "gpu".to_owned()
    } else {
        let number = to_decimal(index as u128);
        joined("gpu", number.as_str())
    };
    let mut root = joined("sentry[contexts][", name.as_str());
    root.append("]");
    let description = joined(root.as_str(), "[Description]");
    text(
        fields,
        description.as_str(),
        "A GPU found on the users system. May or may not be the GPU Zed is running on",
    );
    let kind = joined(root.as_str(), "[type]");
    text(fields, kind.as_str(), "gpu");
    let label = joined(root.as_str(), "[name]");
    match &gpu.device_name {
        Some(device_name) => {
            text(fields, label.as_str(), device_name.as_str());
        },
        None => {
            text(fields, label.as_str(), name.as_str());
        },
    }
    let id_label = joined(root.as_str(), "[id]");
    let id = to_hex_id(gpu.device_pci_id);
    text(fields, id_label.as_str(), id.as_str());
    let vendor_label = joined(root.as_str(), "[vendor_id]");
    let vendor_id = to_hex_id(gpu.vendor_pci_id);
    text(fields, vendor_label.as_str(), vendor_id.as_str());
    let vendor_name = joined(root.as_str(), "[vendor_name]");
    text_if_some(fields, vendor_name.as_str(), &gpu.vendor_name);
    let driver_version = joined(root.as_str(), "[driver_version]");
    text_if_some(fields, driver_version.as_str(), &gpu.driver_version);
    let driver_name = joined(root.as_str(), "[driver_name]");
    text_if_some(fields, driver_name.as_str(), &gpu.driver_name);
    assert(text_pairs(fields@) =~= before + gpu_fields(*metadata, index as int));
}

fn add_base(fields: &mut Vec<(String, String)>, metadata: &CrashInfo)
    ensures
        text_pairs(final(fields)@) == text_pairs(old(fields)@) + base_fields(*metadata),
{
    let ghost before = text_pairs(fields@);
    text(fields, "sentry[tags][channel]", metadata.init.release_channel.as_str());
    text(fields, "sentry[tags][version]", metadata.init.zed_version.as_str());
    text(fields, "sentry[tags][binary]", metadata.init.binary.as_str());
    text(fields, "sentry[release]", metadata.init.commit_sha.as_str());
    text(fields, "platform", "rust");
    assert(text_pairs(fields@) =~= before + base_fields(*metadata));
}

fn add_panic(fields: &mut Vec<(String, String)>, metadata: &CrashInfo)
    ensures
        text_pairs(final(fields)@) == text_pairs(old(fields)@) + panic_fields(*metadata),
{
    let ghost before = text_pairs(fields@);
    match &metadata.panic {
        Some(panic_info) => {
            text(fields, "sentry[logentry][formatted]", panic_info.message.as_str());
            text(fields, "span", panic_info.span.as_str());
        },
        None => {},
    }
    assert(text_pairs(fields@) =~= before + panic_fields(*metadata));
}

fn add_staff(fields: &mut Vec<(String, String)>, metadata: &CrashInfo)
    ensures
        text_pairs(final(fields)@) == text_pairs(old(fields)@) + staff_fields(*metadata),
{
    let ghost before = text_pairs(fields@);
    let is_staff: Option<bool> = match &metadata.user_info {
        Some(user_info) => user_info.is_staff,
        None => None,
    };
    match is_staff {
        Some(is_staff) => {
            text(fields, "sentry[user][is_staff]", bool_str(is_staff));
        },
        None => {},
    }
    assert(text_pairs(fields@) =~= before + staff_fields(*metadata));
}

fn add_user(
    fields: &mut Vec<(String, String)>,
    metadata: &CrashInfo,
    installation_id: &Option<String>,
)
    ensures
        text_pairs(final(fields)@) == text_pairs(old(fields)@) + user_fields(
            *metadata,
            *installation_id,
        ),
{
    let ghost before = text_pairs(fields@);
    let metrics_id: Option<&String> = match &metadata.user_info {
        Some(user_info) => user_info.metrics_id.as_ref(),
        None => None,
    };
    match metrics_id {
        Some(metrics_id) => {
            text(fields, "sentry[user][id]", metrics_id.as_str());
        },
        None => {
            match installation_id {
                Some(id) => {
                    let user = joined("installation-", id.as_str());
                    text(fields, "sentry[user][id]", user.as_str());
                },
                None => {},
            }
        },
    }
    assert(text_pairs(fields@) =~= before + user_fields(*metadata, *installation_id));
}

fn add_gpus(fields: &mut Vec<(String, String)>, metadata: &CrashInfo)
    ensures
        text_pairs(final(fields)@) == text_pairs(old(fields)@) + gpus_fields(
            *metadata,
            metadata.gpus@.len(),
        ),
{
    let ghost before = text_pairs(fields@);
    let mut index: usize = 0;
    assert(before + gpus_fields(*metadata, 0) =~= before);
    while index < metadata.gpus.len()
        invariant
            index <= metadata.gpus.len(),
            text_pairs(fields@) == before + gpus_fields(*metadata, index as nat),
        decreases metadata.gpus.len() - index,
    {
        let ghost so_far = gpus_fields(*metadata, index as nat);
        add_gpu(fields, metadata, index);
        proof {
            let next = gpu_fields(*metadata, index as int);
            assert(before + so_far + next =~= before + (so_far + next));
        }
        index += 1;
    }
}

fn add_active_gpu(fields: &mut Vec<(String, String)>, metadata: &CrashInfo)
    ensures
        text_pairs(final(fields)@) == text_pairs(old(fields)@) + active_gpu_fields(*metadata),
{
    let ghost before = text_pairs(fields@);
    match &metadata.active_gpu {
        Some(gpu) => {
            text(
                fields,
                "sentry[contexts][Active_GPU][Description]",
                "The GPU Zed is running on",
            );
            text(fields, "sentry[contexts][Active_GPU][type]", "gpu");
            text(fields, "sentry[contexts][Active_GPU][name]", gpu.device_name.as_str());
            text(
                fields,
                "sentry[contexts][Active_GPU][driver_version]",
                gpu.driver_info.as_str(),
            );
            text(fields, "sentry[contexts][Active_GPU][driver_name]", gpu.driver_name.as_str());
            text(
                fields,
                "sentry[contexts][Active_GPU][is_software_emulated]",
                bool_str(gpu.is_software_emulated),
            );
        },
        None => {},
    }
    assert(text_pairs(fields@) =~= before + active_gpu_fields(*metadata));
}

/// The text fields of a report, in order. `installation_id` stands in for a
/// user without a metrics id.
pub fn minidump_fields(metadata: &CrashInfo, installation_id: &Option<String>) -> (fields: Vec<
    (String, String),
>)
    ensures
        text_pairs(fields@) == report_fields(*metadata, *installation_id),
{
    let mut fields: Vec<(String, String)> = Vec::new();
    let ghost none = text_pairs(fields@);
    add_base(&mut fields, metadata);
    assert(none + base_fields(*metadata) =~= base_fields(*metadata));
    add_panic(&mut fields, metadata);
    text_if_some(&mut fields, "minidump_error", &metadata.minidump_error);
    add_staff(&mut fields, metadata);
    add_user(&mut fields, metadata, installation_id);
    add_gpus(&mut fields, metadata);
    add_active_gpu(&mut fields, metadata);
    fields
}

// ---------------------------------------------------------------------------
// The form
// ---------------------------------------------------------------------------

/// A multipart form.
#[verifier::external_type_specification]
#[verifier::external_body]
pub struct ExForm(reqwest::multipart::Form);

/// An error of `reqwest`.
#[verifier::external_type_specification]
#[verifier::external_body]
pub struct ExReqwestError(reqwest::Error);

/// A part of a form.
pub ghost enum FormPart {
    /// A text field.
    Text { name: Seq<char>, value: Seq<char> },
    /// An attached file.
    File { name: Seq<char>, bytes: Seq<u8>, file_name: Seq<char>, mime: Seq<char> },
}

/// The parts of a form, in order.
pub uninterp spec fn form_parts(form: reqwest::multipart::Form) -> Seq<FormPart>;

/// The media type that `reqwest` reads in a text, where it reads one.
pub uninterp spec fn media_type(s: Seq<char>) -> Option<Seq<char>>;

/// `reqwest::multipart::Form::new`: a form without parts.
#[verifier::external_body]
fn form_new() -> (form: reqwest::multipart::Form)
    ensures
        form_parts(form) == Seq::<FormPart>::empty(),
{
    reqwest::multipart::Form::new()
}

/// `reqwest::multipart::Form::text`: adds a text field behind the other parts.
#[verifier::external_body]
fn form_text(form: reqwest::multipart::Form, name: String, value: String) -> (longer:
    reqwest::multipart::Form)
    ensures
        form_parts(longer) == form_parts(form).push(
            FormPart::Text { name: name@, value: value@ },
        ),
{
    form.text(name, value)
}

/// `reqwest::multipart::Form::part` with a part made of bytes, a file name and
/// a media type: adds the file behind the other parts. The part comes from
/// `Part::bytes`, `Part::file_name` and `Part::mime_str`. The last parses the
/// media type, which depends on the text alone and is called [`media_type`],
/// and fails where the text is none. `application/octet-stream` is one and
/// stays as it is; how other texts are parsed is left unsaid.
#[verifier::external_body]
fn form_file(
    form: reqwest::multipart::Form,
    name: String,
    bytes: Vec<u8>,
    file_name: String,
    mime: &str,
) -> (longer: Result<reqwest::multipart::Form, reqwest::Error>)
    ensures
        longer is Ok <==> media_type(mime@) is Some,
        longer is Ok ==> form_parts(longer->Ok_0) == form_parts(form).push(
            FormPart::File {
                name: name@,
                bytes: bytes@,
                file_name: file_name@,
                mime: media_type(mime@)->0,
            },
        ),
        mime@ == "application/octet-stream"@ ==> longer is Ok && form_parts(longer->Ok_0)
            == form_parts(form).push(
            FormPart::File { name: name@, bytes: bytes@, file_name: file_name@, mime: mime@ },
        ),
{
    let part = reqwest::multipart::Part::bytes(bytes).file_name(file_name).mime_str(mime)?;
    Ok(form.part(name, part))
}

/// Why a report could not be put together.
#[derive(Clone, Copy, Debug, PartialEq, Eq, Structural)]
pub enum MinidumpError {
    /// The media type of the minidump was not accepted.
    MediaType,
}

/// The parts of a report: the minidump, then the text fields.
pub open spec fn report_parts(
    minidump: Seq<u8>,
    fields: Seq<(Seq<char>, Seq<char>)>,
) -> Seq<FormPart> {
    seq![
        FormPart::File {
            name: "upload_file_minidump"@,
            bytes: minidump,
            file_name: "minidump.dmp"@,
            mime: "application/octet-stream"@,
        },
    ] + fields.map_values(
        |field: (Seq<char>, Seq<char>)| FormPart::Text { name: field.0, value: field.1 },
    )
}

/// The form of a report with the given text fields.
pub fn fill_form(minidump: Vec<u8>, fields: Vec<(String, String)>) -> (form: Result<
    reqwest::multipart::Form,
    MinidumpError,
>)
    ensures
        form is Ok,
        form matches Ok(f) ==> form_parts(f) == report_parts(minidump@, text_pairs(fields@)),
{
    let ghost pairs = text_pairs(fields@);
    let ghost parts = report_parts(minidump@, pairs);
    let mut form = match form_file(
        form_new(),
        "upload_file_minidump".to_owned(),
        minidump,
        "minidump.dmp".to_owned(),
        "application/octet-stream",
    ) {
        Ok(form) => form,
        Err(_) => {
            return Err(MinidumpError::MediaType);
        },
    };
    let mut i: usize = 0;
    assert(form_parts(form) =~= parts.take(1));
    while i < fields.len()
        invariant
            pairs == text_pairs(fields@),
            parts == report_parts(minidump@, pairs),
            i <= fields.len(),
            form_parts(form) == parts.take(i + 1),
        decreases fields.len() - i,
    {
        form = form_text(form, fields[i].0.clone(), fields[i].1.clone());
        proof {
            assert(parts[i + 1] == (FormPart::Text { name: pairs[i as int].0, value: pairs[i as int].1 }));
            assert(parts.take(i + 2) =~= parts.take(i + 1).push(parts[i + 1]));
        }
        i += 1;
    }
    assert(parts.take(i + 1) =~= parts);
    Ok(form)
}

/// The form that reports a crash: the minidump as a file, and what is known of
/// the crash in text fields.
pub fn minidump_form(
    minidump: Vec<u8>,
    metadata: &CrashInfo,
    installation_id: &Option<String>,
) -> (form: Result<reqwest::multipart::Form, MinidumpError>)
    ensures
        form is Ok,
        form matches Ok(f) ==> form_parts(f) == report_parts(
            minidump@,
            report_fields(*metadata, *installation_id),
        ),
{
    let fields = minidump_fields(metadata, installation_id);
    fill_form(minidump, fields)
}

/// The header that announces a form whose parts are told apart by `boundary`.
pub fn content_type(boundary: &str) -> (header: String)
    ensures
        header@ == "multipart/form-data; boundary="@ + boundary@,
{
    joined("multipart/form-data; boundary=", boundary)
}

// ---------------------------------------------------------------------------
// Telemetry and outcome
// ---------------------------------------------------------------------------

/// What telemetry learns of an upload.
pub struct MinidumpUploaded {
    pub panic_message: String,
    pub crashed_version: String,
    pub commit_sha: String,
}

/// What telemetry learns of the upload of a minidump. Without a panic the
/// message is empty.
pub fn uploaded_event(metadata: &CrashInfo) -> (event: MinidumpUploaded)
    ensures
        event.panic_message@ == match metadata.panic {
            Some(panic) => panic.message@,
            None => Seq::empty(),
        },
        event.crashed_version@ == metadata.init.zed_version@,
        event.commit_sha@ == metadata.init.commit_sha@,
{
    MinidumpUploaded {
        panic_message: match &metadata.panic {
            Some(panic_info) => panic_info.message.clone(),
            None => String::new(),
        },
        crashed_version: metadata.init.zed_version.clone(),
        commit_sha: metadata.init.commit_sha.clone(),
    }
}

/// What came of an upload, given whether the server reports success and what it
/// says: a line for the log, or an error.
pub fn upload_outcome(is_success: bool, response_text: &str) -> (outcome: Result<String, String>)
    ensures
        outcome is Ok <==> is_success,
        outcome matches Ok(line) ==> line@ == "Uploaded minidump. event id: "@ + response_text@,
        outcome matches Err(error) ==> error@ == "failed to upload minidump: "@ + response_text@,
{
    if !is_success {
        return Err(joined("failed to upload minidump: ", response_text));
    }
    Ok(joined("Uploaded minidump. event id: ", response_text))
}

// ---------------------------------------------------------------------------
// Laws
// ---------------------------------------------------------------------------

/// The metrics id takes precedence: where there is one, the installation makes
/// no difference to the report.
pub proof fn metrics_id_precedes_installation(
    metadata: CrashInfo,
    a: Option<String>,
    b: Option<String>,
)
    requires
        metrics_id_of(metadata) is Some,
    ensures
        report_fields(metadata, a) == report_fields(metadata, b),
{
}

/// Every report begins with the same five fields, which say what crashed.
pub proof fn report_begins_with_build(metadata: CrashInfo, installation_id: Option<String>)
    ensures
        report_fields(metadata, installation_id).len() >= 5,
        report_fields(metadata, installation_id).take(5) == base_fields(metadata),
{
    assert(report_fields(metadata, installation_id).take(5) =~= base_fields(metadata));
}

/// The minidump is the first part of a report, and every text field follows it
/// in order.
pub proof fn report_carries_all(minidump: Seq<u8>, fields: Seq<(Seq<char>, Seq<char>)>, i: int)
    requires
        0 <= i < fields.len(),
    ensures
        report_parts(minidump, fields).len() == fields.len() + 1,
        report_parts(minidump, fields)[0] == (FormPart::File {
            name: "upload_file_minidump"@,
            bytes: minidump,
            file_name: "minidump.dmp"@,
            mime: "application/octet-stream"@,
        }),
        report_parts(minidump, fields)[i + 1] == (FormPart::Text {
            name: fields[i].0,
            value: fields[i].1,
        }),
{
}

/// GPUs are told apart by name.
pub proof fn gpu_names_differ(metadata: CrashInfo, i: int, j: int)
    requires
        0 <= i < j < metadata.gpus@.len(),
    ensures
        gpu_name(metadata, i) != gpu_name(metadata, j),
{
    reveal_strlit("gpu");
    let a = gpu_name(metadata, i);
    let b = gpu_name(metadata, j);
    if a == b {
        assert(a.skip(3) =~= decimal(i as nat));
        assert(b.skip(3) =~= decimal(j as nat));
        digits_injective(i as nat, j as nat, 10);
    }
}

/// The first fields say what was built: channel, version, binary, commit and
/// platform.
pub proof fn build_is_reported(metadata: CrashInfo, installation_id: Option<String>)
    ensures
        ({
            let fields = report_fields(metadata, installation_id);
            &&& fields.len() >= 5
            &&& fields[0] == ("sentry[tags][channel]"@, metadata.init.release_channel@)
            &&& fields[1] == ("sentry[tags][version]"@, metadata.init.zed_version@)
            &&& fields[2] == ("sentry[tags][binary]"@, metadata.init.binary@)
            &&& fields[3] == ("sentry[release]"@, metadata.init.commit_sha@)
            &&& fields[4] == ("platform"@, "rust"@)
        }),
{
}

/// Then come the message and the span of a panic, where there was one, why
/// there is no minidump, where that is known, whether the user is staff, where
/// that is known, and who the user is: the metrics id, or else the installation,
/// or else nothing.
pub proof fn panic_and_user_are_reported(metadata: CrashInfo, installation_id: Option<String>)
    ensures
        ({
            let fields = report_fields(metadata, installation_id);
            let a: int = 5 + if metadata.panic is Some { 2int } else { 0 };
            let b: int = a + if metadata.minidump_error is Some { 1int } else { 0 };
            let c: int = b + if metadata.user_info is Some && metadata.user_info->0.is_staff is Some {
                1int
            } else {
                0
            };
            &&& fields.len() >= c
            &&& metadata.panic is Some ==> fields[5] == (
                "sentry[logentry][formatted]"@,
                metadata.panic->0.message@,
            ) && fields[6] == ("span"@, metadata.panic->0.span@)
            &&& metadata.minidump_error is Some ==> fields[a] == (
                "minidump_error"@,
                metadata.minidump_error->0@,
            )
            &&& metadata.user_info is Some && metadata.user_info->0.is_staff is Some ==> fields[b]
                == ("sentry[user][is_staff]"@, if metadata.user_info->0.is_staff->0 {
                "true"@
            } else {
                "false"@
            })
            &&& metadata.user_info is Some && metadata.user_info->0.metrics_id is Some ==> fields[c]
                == ("sentry[user][id]"@, metadata.user_info->0.metrics_id->0@)
            &&& !(metadata.user_info is Some && metadata.user_info->0.metrics_id is Some)
                && installation_id is Some ==> fields[c] == (
                "sentry[user][id]"@,
                "installation-"@ + installation_id->0@,
            )
        }),
{
}

/// Each GPU is reported, one after the other and each attribute that it has:
/// GPU `index` behind the fields of those before it, under a name that is
/// numbered unless there is no other GPU and no active one.
pub proof fn every_gpu_is_reported(
    metadata: CrashInfo,
    installation_id: Option<String>,
    index: int,
)
    requires
        0 <= index < metadata.gpus@.len(),
    ensures
        ({
            let fields = report_fields(metadata, installation_id);
            let gpu = metadata.gpus@[index];
            let name = gpu_name(metadata, index);
            let root = "sentry[contexts]["@ + name + "]"@;
            let before_gpus: int = 5 + (if metadata.panic is Some {
                2int
            } else {
                0
            }) + (if metadata.minidump_error is Some {
                1int
            } else {
                0
            }) + (if metadata.user_info is Some && metadata.user_info->0.is_staff is Some {
                1int
            } else {
                0
            }) + (if (metadata.user_info is Some && metadata.user_info->0.metrics_id is Some)
                || installation_id is Some {
                1int
            } else {
                0
            });
            let at = before_gpus + gpus_fields(
                metadata,
                index as nat,
            ).len();
            let v: int = if gpu.vendor_name is Some { 1 } else { 0 };
            let w: int = v + if gpu.driver_version is Some { 1int } else { 0 };
            let count: int = 5 + w + if gpu.driver_name is Some { 1int } else { 0 };
            &&& name == if metadata.gpus@.len() == 1 && metadata.active_gpu is None {
                "gpu"@
            } else {
                "gpu"@ + decimal(index as nat)
            }
            &&& gpus_fields(metadata, 0).len() == 0
            &&& gpus_fields(metadata, (index + 1) as nat).len() == gpus_fields(
                metadata,
                index as nat,
            ).len() + count
            &&& at + count <= fields.len()
            &&& fields[at] == (
                root + "[Description]"@,
                "A GPU found on the users system. May or may not be the GPU Zed is running on"@,
            )
            &&& fields[at + 1] == (root + "[type]"@, "gpu"@)
            &&& fields[at + 2] == (root + "[name]"@, if gpu.device_name is Some {
                gpu.device_name->0@
            } else {
                name
            })
            &&& fields[at + 3] == (root + "[id]"@, hex_id(gpu.device_pci_id as nat))
            &&& fields[at + 4] == (root + "[vendor_id]"@, hex_id(gpu.vendor_pci_id as nat))
            &&& gpu.vendor_name is Some ==> fields[at + 5] == (
                root + "[vendor_name]"@,
                gpu.vendor_name->0@,
            )
            &&& gpu.driver_version is Some ==> fields[at + 5 + v] == (
                root + "[driver_version]"@,
                gpu.driver_version->0@,
            )
            &&& gpu.driver_name is Some ==> fields[at + 5 + w] == (
                root + "[driver_name]"@,
                gpu.driver_name->0@,
            )
        }),
{
    lemma_head_len(metadata, installation_id);
    lemma_gpu_block(metadata, installation_id, index);
    lemma_gpu_attributes(metadata, index);
}

/// The fields before those on the GPUs.
spec fn head_fields(metadata: CrashInfo, installation_id: Option<String>) -> Seq<
    (Seq<char>, Seq<char>),
> {
    base_fields(metadata) + panic_fields(metadata) + optional_field(
        "minidump_error"@,
        metadata.minidump_error,
    ) + staff_fields(metadata) + user_fields(metadata, installation_id)
}

proof fn lemma_head_len(metadata: CrashInfo, installation_id: Option<String>)
    ensures
        head_fields(metadata, installation_id).len() == 5 + (if metadata.panic is Some {
            2int
        } else {
            0
        }) + (if metadata.minidump_error is Some {
            1int
        } else {
            0
        }) + (if metadata.user_info is Some && metadata.user_info->0.is_staff is Some {
            1int
        } else {
            0
        }) + (if (metadata.user_info is Some && metadata.user_info->0.metrics_id is Some)
            || installation_id is Some {
            1int
        } else {
            0
        }),
{
}

proof fn lemma_gpu_block(metadata: CrashInfo, installation_id: Option<String>, index: int)
    requires
        0 <= index < metadata.gpus@.len(),
    ensures
        ({
            let fields = report_fields(metadata, installation_id);
            let at = head_fields(metadata, installation_id).len() + gpus_fields(
                metadata,
                index as nat,
            ).len();
            let one = gpu_fields(metadata, index);
            &&& at + one.len() <= fields.len()
            &&& forall|k: int| 0 <= k < one.len() ==> #[trigger] one[k] == fields[at + k]
        }),
{
    let fields = report_fields(metadata, installation_id);
    let head = head_fields(metadata, installation_id);
    let all = gpus_fields(metadata, metadata.gpus@.len());
    let one = gpu_fields(metadata, index);
    let offset = gpus_fields(metadata, index as nat).len() as int;
    lemma_gpus_fields_at(metadata, index, metadata.gpus@.len());
    assert(fields == head + all + active_gpu_fields(metadata));
    assert forall|k: int| 0 <= k < one.len() implies #[trigger] one[k] == fields[head.len() + offset
        + k] by {
        assert(all[offset + k] == all.subrange(offset, offset + one.len())[k]);
    }
}

proof fn lemma_gpu_attributes(
    metadata: CrashInfo,
    index: int,
)
    ensures
        ({
            let gpu = metadata.gpus@[index];
            let name = gpu_name(metadata, index);
            let root = "sentry[contexts]["@ + name + "]"@;
            let one = gpu_fields(metadata, index);
            let v: int = if gpu.vendor_name is Some { 1 } else { 0 };
            let w: int = v + if gpu.driver_version is Some { 1int } else { 0 };
            &&& one.len() == 5 + w + if gpu.driver_name is Some { 1int } else { 0 }
            &&& one[0] == (
                root + "[Description]"@,
                "A GPU found on the users system. May or may not be the GPU Zed is running on"@,
            )
            &&& one[1] == (root + "[type]"@, "gpu"@)
            &&& one[2] == (root + "[name]"@, if gpu.device_name is Some {
                gpu.device_name->0@
            } else {
                name
            })
            &&& one[3] == (root + "[id]"@, hex_id(gpu.device_pci_id as nat))
            &&& one[4] == (root + "[vendor_id]"@, hex_id(gpu.vendor_pci_id as nat))
            &&& gpu.vendor_name is Some ==> one[5] == (
                root + "[vendor_name]"@,
                gpu.vendor_name->0@,
            )
            &&& gpu.driver_version is Some ==> one[5 + v] == (
                root + "[driver_version]"@,
                gpu.driver_version->0@,
            )
            &&& gpu.driver_name is Some ==> one[5 + w] == (
                root + "[driver_name]"@,
                gpu.driver_name->0@,
            )
        }),
{
}

proof fn lemma_gpus_fields_at(metadata: CrashInfo, index: int, n: nat)
    requires
        0 <= index < n,
    ensures
        ({
            let offset = gpus_fields(metadata, index as nat).len() as int;
            let one = gpu_fields(metadata, index);
            let all = gpus_fields(metadata, n);
            &&& offset + one.len() <= all.len()
            &&& all.subrange(offset, offset + one.len()) == one
        }),
    decreases n,
{
    let offset = gpus_fields(metadata, index as nat).len() as int;
    let one = gpu_fields(metadata, index);
    let all = gpus_fields(metadata, n);
    if index == n - 1 {
        assert(all.subrange(offset, offset + one.len()) =~= one);
    } else {
        lemma_gpus_fields_at(metadata, index, (n - 1) as nat);
        let shorter = gpus_fields(metadata, (n - 1) as nat);
        assert(all.subrange(offset, offset + one.len()) =~= shorter.subrange(
            offset,
            offset + one.len(),
        ));
    }
}

/// The active GPU comes last, with its six attributes, where it is known;
/// nothing else is reported.
pub proof fn active_gpu_is_reported_last(metadata: CrashInfo, installation_id: Option<String>)
    ensures
        ({
            let fields = report_fields(metadata, installation_id);
            let before_gpus: int = 5 + (if metadata.panic is Some {
                2int
            } else {
                0
            }) + (if metadata.minidump_error is Some {
                1int
            } else {
                0
            }) + (if metadata.user_info is Some && metadata.user_info->0.is_staff is Some {
                1int
            } else {
                0
            }) + (if (metadata.user_info is Some && metadata.user_info->0.metrics_id is Some)
                || installation_id is Some {
                1int
            } else {
                0
            });
            let at = before_gpus + gpus_fields(
                metadata,
                metadata.gpus@.len(),
            ).len();
            let gpu = metadata.active_gpu->0;
            &&& metadata.active_gpu is None ==> fields.len() == at
            &&& metadata.active_gpu is Some ==> {
                &&& fields.len() == at + 6
                &&& fields[at] == (
                    "sentry[contexts][Active_GPU][Description]"@,
                    "The GPU Zed is running on"@,
                )
                &&& fields[at + 1] == ("sentry[contexts][Active_GPU][type]"@, "gpu"@)
                &&& fields[at + 2] == ("sentry[contexts][Active_GPU][name]"@, gpu.device_name@)
                &&& fields[at + 3] == (
                    "sentry[contexts][Active_GPU][driver_version]"@,
                    gpu.driver_info@,
                )
                &&& fields[at + 4] == (
                    "sentry[contexts][Active_GPU][driver_name]"@,
                    gpu.driver_name@,
                )
                &&& fields[at + 5] == (
                    "sentry[contexts][Active_GPU][is_software_emulated]"@,
                    if gpu.is_software_emulated {
                        "true"@
                    } else {
                        "false"@
                    },
                )
            }
        }),
{
    lemma_head_len(metadata, installation_id);
    let head = head_fields(metadata, installation_id);
    let all = gpus_fields(metadata, metadata.gpus@.len());
    assert(report_fields(metadata, installation_id) == head + all + active_gpu_fields(metadata));
}

} // verus!
