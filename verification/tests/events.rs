use parser::event::{measure_id, Event};

#[test]
fn identifier_is_m_and_the_decimal_number() {
    assert_eq!(measure_id(0), "M0");
    assert_eq!(measure_id(1), "M1");
    assert_eq!(measure_id(9), "M9");
    assert_eq!(measure_id(10), "M10");
    assert_eq!(measure_id(101), "M101");
    assert_eq!(measure_id(1000), "M1000");
    assert_eq!(measure_id(4294967295), "M4294967295");
}

#[test]
fn identifier_is_what_formatting_writes() {
    for n in [0u32, 7, 19, 20, 99, 100, 12345, 999999, 1000000, u32::MAX - 1] {
        assert_eq!(measure_id(n), format!("M{}", n));
    }
}

#[test]
fn event_of_a_measure() {
    let event = Event::of_measure(42, &"Bassoon".to_string());
    assert_eq!(
        event,
        Event {
            id: "M42".to_string(),
            bar: Some(42),
            beat: Some(1),
            time_ms: None,
            instruments: vec!["Bassoon".to_string()],
        }
    );
}
