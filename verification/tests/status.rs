use tutabridge::status::{temp_extension, ConnectionStatus};

#[test]
fn status_keeps_state_time_and_process() {
    let status = ConnectionStatus::new("Reconnecting", Some(1_789_000_000), 4242);
    assert_eq!(status.tuta_connection, "Reconnecting");
    assert_eq!(status.since_unix, 1_789_000_000u64);
    assert_eq!(status.pid, 4242);
}

#[test]
fn a_time_before_the_epoch_counts_as_the_epoch() {
    let status = ConnectionStatus::new("Connected", None, 1);
    assert_eq!(status.since_unix, 0);
}

#[test]
fn temp_file_extension_names_the_process() {
    assert_eq!(temp_extension(4242), "json.4242.tmp");
    assert_eq!(temp_extension(0), "json.0.tmp");
    assert_eq!(temp_extension(u32::MAX), "json.4294967295.tmp");
}
