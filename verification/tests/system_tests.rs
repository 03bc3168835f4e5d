use urso_capture::canvas::canvas_layout;
use urso_capture::system::{process_memory_from_query, query_win32_process_memory, SystemInfo};

#[test]
fn memory_estimates() {
    assert_eq!(query_win32_process_memory(), (24 * 1024 * 1024, 34 * 1024 * 1024));
    assert_eq!(process_memory_from_query(None), (26 * 1024 * 1024, 38 * 1024 * 1024));
    assert_eq!(process_memory_from_query(Some((5, 9))), (5, 9));
}

#[test]
fn system_info_fallbacks() {
    let info = SystemInfo::from_readings(
        "linux".to_string(),
        "unix".to_string(),
        "x86_64".to_string(),
        None,
        None,
        "/tmp".to_string(),
        None,
        1234,
        None,
    );
    assert_eq!(info.cpu_cores, 1);
    assert_eq!(info.current_dir, "Desconhecido");
    assert_eq!(info.executable_path, "Desconhecido");
    assert_eq!(info.timestamp_epoch_ms, 0);
    assert_eq!(info.temp_dir, "/tmp");
    assert_eq!(info.process_id, 1234);

    let info = SystemInfo::from_readings(
        "windows".to_string(),
        "windows".to_string(),
        "aarch64".to_string(),
        Some(8),
        Some("C:\\app".to_string()),
        "C:\\tmp".to_string(),
        Some("C:\\app\\urso.exe".to_string()),
        7,
        Some(1_725_029_869_000),
    );
    assert_eq!(info.os_name, "windows");
    assert_eq!(info.cpu_cores, 8);
    assert_eq!(info.current_dir, "C:\\app");
    assert_eq!(info.executable_path, "C:\\app\\urso.exe");
    assert_eq!(info.timestamp_epoch_ms, 1_725_029_869_000);
}

#[test]
fn canvas_layouts() {
    let l = canvas_layout(800, 600, 8);
    assert_eq!(l.total_bytes, 800 * 600 * 4);
    assert_eq!(l.row_bytes, 3200);
    assert_eq!(l.chunk_rows, 75);
    assert_eq!(l.chunk_bytes, 75 * 3200);
    let l = canvas_layout(10, 7, 3);
    assert_eq!(l.chunk_rows, 3);
    assert_eq!(l.chunk_bytes, 120);
    let l = canvas_layout(1, 1, 16);
    assert_eq!(l.chunk_rows, 1);
    assert_eq!(l.chunk_bytes, 4);
}
