//! Tests of the simulator event log and its JSON stream.

use bl602_script::simulator::{ble_npl_time_ms_to_ticks32, EventLog, SimulatorError};

#[test]
fn empty_log_serializes_to_empty_array() {
    let log = EventLog::new();
    assert_eq!(log.get_simulation_events().unwrap(), "[]");
}

#[test]
fn event_stream_scenario() {
    let mut log = EventLog::new();
    log.clear_simulation_events();
    assert_eq!(log.bl_gpio_output_set(11, 0), 0);
    log.ble_npl_time_delay(1000);
    assert_eq!(log.bl_gpio_output_set(11, 1), 0);
    assert_eq!(
        log.get_simulation_events().unwrap(),
        "[{\"gpio_output_set\":{\"pin\":11,\"value\":0}},{\"time_delay\":{\"ticks\":1000}},{\"gpio_output_set\":{\"pin\":11,\"value\":1}}]"
    );
}

#[test]
fn ticks_conversion_is_identity() {
    assert_eq!(ble_npl_time_ms_to_ticks32(1000), 1000);
    assert_eq!(ble_npl_time_ms_to_ticks32(0), 0);
    assert_eq!(ble_npl_time_ms_to_ticks32(u32::MAX), u32::MAX);
}

#[test]
fn enable_input_and_output_report_success_and_record_nothing() {
    let mut log = EventLog::new();
    assert_eq!(log.bl_gpio_enable_input(11, 0, 0), 0);
    assert_eq!(log.bl_gpio_enable_output(11, 0, 0), 0);
    assert_eq!(log.len(), 0);
    log.ble_npl_time_delay(5);
    assert_eq!(log.len(), 1);
}

#[test]
fn get_simulation_events_is_idempotent_between_mutations() {
    let mut log = EventLog::new();
    log.bl_gpio_output_set(11, 0);
    log.ble_npl_time_delay(1000);
    let first = log.get_simulation_events().unwrap();
    let second = log.get_simulation_events().unwrap();
    assert_eq!(first, second);
}

#[test]
fn clear_then_append_round_trips_in_order() {
    let mut log = EventLog::new();
    log.bl_gpio_output_set(1, 1);
    log.clear_simulation_events();
    assert_eq!(log.len(), 0);
    let n = 5;
    for i in 0..n {
        log.bl_gpio_output_set(11, (i % 2) as u8);
    }
    let json = log.get_simulation_events().unwrap();
    let parsed: serde_json::Value = serde_json::from_str(&json).unwrap();
    let array = parsed.as_array().unwrap();
    assert_eq!(array.len(), n);
    for (i, entry) in array.iter().enumerate() {
        let fields = entry.get("gpio_output_set").unwrap();
        assert_eq!(fields.get("pin").unwrap().as_u64().unwrap(), 11);
        assert_eq!(
            fields.get("value").unwrap().as_u64().unwrap(),
            (i % 2) as u64
        );
    }
}

#[test]
fn event_stream_parses_as_json_with_exact_tags() {
    let mut log = EventLog::new();
    log.ble_npl_time_delay(250);
    log.bl_gpio_output_set(3, 1);
    let json = log.get_simulation_events().unwrap();
    let parsed: serde_json::Value = serde_json::from_str(&json).unwrap();
    let array = parsed.as_array().unwrap();
    assert_eq!(array.len(), 2);
    assert_eq!(
        array[0].get("time_delay").unwrap().get("ticks").unwrap(),
        250
    );
    assert!(array[1].get("gpio_output_set").is_some());
}

#[test]
fn oversized_stream_is_refused() {
    let mut log = EventLog::new();
    for _ in 0..50 {
        log.ble_npl_time_delay(123456789);
    }
    assert_eq!(
        log.get_simulation_events().unwrap_err(),
        SimulatorError::BufferOverflow
    );
}

#[test]
fn stream_just_under_the_buffer_limit_is_served() {
    let mut log = EventLog::new();
    // each event serializes to 31 bytes, plus a comma between events
    for _ in 0..31 {
        log.ble_npl_time_delay(100000);
    }
    let json = log.get_simulation_events().unwrap();
    assert!(json.len() + 1 <= 1024);
}
