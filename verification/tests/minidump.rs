use futures::TryStreamExt;
use vault::minidump::{
    content_type, fill_form, minidump_fields, minidump_form, upload_outcome, uploaded_event,
    CrashInfo, GpuInfo, GpuSpecs, InitInfo, PanicInfo, UserInfo,
};

fn crash() -> CrashInfo {
    CrashInfo {
        init: InitInfo {
            release_channel: "stable".to_string(),
            zed_version: "0.200.1".to_string(),
            binary: "zed".to_string(),
            commit_sha: "abcdef".to_string(),
        },
        panic: None,
        minidump_error: None,
        gpus: Vec::new(),
        active_gpu: None,
        user_info: None,
    }
}

fn gpu(name: Option<&str>) -> GpuInfo {
    GpuInfo {
        device_name: name.map(|name| name.to_string()),
        device_pci_id: 0x2684,
        vendor_name: Some("NVIDIA".to_string()),
        vendor_pci_id: 0xde,
        driver_version: None,
        driver_name: Some("nvk".to_string()),
    }
}

fn field(name: &str, value: &str) -> (String, String) {
    (name.to_string(), value.to_string())
}

const DESCRIPTION: &str =
    "A GPU found on the users system. May or may not be the GPU Zed is running on";

fn base() -> Vec<(String, String)> {
    vec![
        field("sentry[tags][channel]", "stable"),
        field("sentry[tags][version]", "0.200.1"),
        field("sentry[tags][binary]", "zed"),
        field("sentry[release]", "abcdef"),
        field("platform", "rust"),
    ]
}

#[test]
fn a_bare_report_says_what_crashed() {
    assert_eq!(minidump_fields(&crash(), &None), base());
}

#[test]
fn panic_and_error_are_reported() {
    let mut info = crash();
    info.panic =
        Some(PanicInfo { message: "boom".to_string(), span: "src/a.rs:1".to_string() });
    info.minidump_error = Some("truncated".to_string());
    let mut expected = base();
    expected.push(field("sentry[logentry][formatted]", "boom"));
    expected.push(field("span", "src/a.rs:1"));
    expected.push(field("minidump_error", "truncated"));
    assert_eq!(minidump_fields(&info, &None), expected);
}

#[test]
fn the_user_is_identified_by_metrics_or_installation() {
    let mut info = crash();
    let installation = Some("42".to_string());
    let mut expected = base();
    expected.push(field("sentry[user][id]", "installation-42"));
    assert_eq!(minidump_fields(&info, &installation), expected);
    info.user_info = Some(UserInfo { is_staff: Some(true), metrics_id: None });
    let mut expected = base();
    expected.push(field("sentry[user][is_staff]", "true"));
    expected.push(field("sentry[user][id]", "installation-42"));
    assert_eq!(minidump_fields(&info, &installation), expected);
    info.user_info =
        Some(UserInfo { is_staff: Some(false), metrics_id: Some("m-1".to_string()) });
    let mut expected = base();
    expected.push(field("sentry[user][is_staff]", "false"));
    expected.push(field("sentry[user][id]", "m-1"));
    assert_eq!(minidump_fields(&info, &installation), expected);
    assert_eq!(minidump_fields(&info, &None), expected);
}

#[test]
fn a_single_gpu_has_no_number() {
    let mut info = crash();
    info.gpus = vec![gpu(None)];
    let mut expected = base();
    expected.push(field("sentry[contexts][gpu][Description]", DESCRIPTION));
    expected.push(field("sentry[contexts][gpu][type]", "gpu"));
    expected.push(field("sentry[contexts][gpu][name]", "gpu"));
    expected.push(field("sentry[contexts][gpu][id]", "0x2684"));
    expected.push(field("sentry[contexts][gpu][vendor_id]", "0x00de"));
    expected.push(field("sentry[contexts][gpu][vendor_name]", "NVIDIA"));
    expected.push(field("sentry[contexts][gpu][driver_name]", "nvk"));
    assert_eq!(minidump_fields(&info, &None), expected);
}

#[test]
fn several_gpus_are_numbered() {
    let mut info = crash();
    info.gpus = vec![gpu(Some("RTX")), gpu(None)];
    let fields = minidump_fields(&info, &None);
    assert!(fields.contains(&field("sentry[contexts][gpu0][name]", "RTX")));
    assert!(fields.contains(&field("sentry[contexts][gpu1][name]", "gpu1")));
    assert_eq!(fields.len(), 5 + 7 + 7);
}

#[test]
fn the_active_gpu_is_reported_apart() {
    let mut info = crash();
    info.gpus = vec![gpu(Some("RTX"))];
    info.active_gpu = Some(GpuSpecs {
        is_software_emulated: false,
        device_name: "RTX".to_string(),
        driver_name: "nvk".to_string(),
        driver_info: "25.1".to_string(),
    });
    let fields = minidump_fields(&info, &None);
    assert!(fields.contains(&field("sentry[contexts][gpu0][name]", "RTX")));
    assert_eq!(
        fields[12..],
        vec![
            field("sentry[contexts][Active_GPU][Description]", "The GPU Zed is running on"),
            field("sentry[contexts][Active_GPU][type]", "gpu"),
            field("sentry[contexts][Active_GPU][name]", "RTX"),
            field("sentry[contexts][Active_GPU][driver_version]", "25.1"),
            field("sentry[contexts][Active_GPU][driver_name]", "nvk"),
            field("sentry[contexts][Active_GPU][is_software_emulated]", "false"),
        ]
    );
}

#[test]
fn the_form_holds_the_minidump_and_the_fields() {
    let form =
        fill_form(b"MDMP".to_vec(), vec![field("platform", "rust"), field("span", "x")]).unwrap();
    let boundary = form.boundary().to_string();
    let chunks: Vec<Vec<u8>> = futures::executor::block_on(
        form.into_stream().map_ok(|chunk| chunk.to_vec()).try_collect(),
    )
    .unwrap();
    let body = String::from_utf8(chunks.concat()).unwrap();
    let expected = format!(
        "--{b}\r\nContent-Disposition: form-data; name=\"upload_file_minidump\"; \
         filename=\"minidump.dmp\"\r\nContent-Type: application/octet-stream\r\n\r\nMDMP\r\n\
         --{b}\r\nContent-Disposition: form-data; name=\"platform\"\r\n\r\nrust\r\n\
         --{b}\r\nContent-Disposition: form-data; name=\"span\"\r\n\r\nx\r\n--{b}--\r\n",
        b = boundary
    );
    assert_eq!(body, expected);
}

#[test]
fn a_report_is_put_together_whole() {
    let form = minidump_form(vec![1, 2, 3], &crash(), &Some("7".to_string())).unwrap();
    let chunks: Vec<Vec<u8>> = futures::executor::block_on(
        form.into_stream().map_ok(|chunk| chunk.to_vec()).try_collect(),
    )
    .unwrap();
    let body = chunks.concat();
    let text = String::from_utf8_lossy(&body);
    for part in ["sentry[tags][channel]", "platform", "installation-7", "minidump.dmp"] {
        assert!(text.contains(part));
    }
    assert!(body.windows(3).any(|window| window == [1, 2, 3]));
}

#[test]
fn the_header_names_the_boundary() {
    assert_eq!(content_type("abc"), "multipart/form-data; boundary=abc");
}

#[test]
fn telemetry_learns_what_was_uploaded() {
    let mut info = crash();
    let event = uploaded_event(&info);
    assert_eq!(event.panic_message, "");
    assert_eq!(event.crashed_version, "0.200.1");
    assert_eq!(event.commit_sha, "abcdef");
    info.panic = Some(PanicInfo { message: "boom".to_string(), span: String::new() });
    assert_eq!(uploaded_event(&info).panic_message, "boom");
}

#[test]
fn the_outcome_follows_the_status() {
    assert_eq!(upload_outcome(true, "e1"), Ok("Uploaded minidump. event id: e1".to_string()));
    assert_eq!(
        upload_outcome(false, "nope"),
        Err("failed to upload minidump: nope".to_string())
    );
}
