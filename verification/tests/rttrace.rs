use rtkit::rttrace::{Trace, BASE, TRACE, TRACE_CAMRTC, TRACE_ON};

#[test]
fn trace_enable_plans_five_writes() {
    let trace = Trace::with_base("/tmp/debug".to_string());
    let writes = trace.enable();
    assert_eq!(writes.len(), 5);
    assert_eq!(writes[0].path, format!("/tmp/debug/{}", TRACE_ON));
    assert_eq!(writes[0].value, b"1\n".to_vec());
    assert_eq!(writes[1].path, "/tmp/debug//tracing/buffer_size_kb");
    assert_eq!(writes[1].value, b"30720\n".to_vec());
    assert_eq!(writes[4].path, format!("/tmp/debug/{}", TRACE_CAMRTC));
    assert_eq!(writes[4].value, b"2\n".to_vec());
}

#[test]
fn trace_disable_and_clear_plans() {
    let trace = Trace::new();
    let writes = trace.disable();
    assert_eq!(writes.len(), 3);
    assert!(writes.iter().all(|w| w.value == b"0\n".to_vec()));
    assert_eq!(writes[0].path, format!("{}//tracing/events/tegra_rtcpu/enable", BASE));
    let clear = trace.clear();
    assert_eq!(clear.len(), 1);
    assert!(clear[0].value.is_empty());
    assert_eq!(trace.trace_file_path(), format!("{}/{}", BASE, TRACE));
}
