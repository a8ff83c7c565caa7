//! Events: tags and fields come back sorted by name no matter the insertion
//! order.

use compactor_core::events::{Event, FieldValue};
use compactor_core::measurement::TypedMeasurement;

/// Deterministic in-place shuffle, so the insertion order is scrambled the
/// same way on every run.
fn shuffle(names: &mut Vec<String>, seed: u64) {
    let mut state = seed;
    for i in (1..names.len()).rev() {
        state = state
            .wrapping_mul(6364136223846793005)
            .wrapping_add(1442695040888963407);
        let j = (state >> 33) as usize % (i + 1);
        names.swap(i, j);
    }
}

#[test]
fn test_tags_iter_sorted() {
    let mut tags: Vec<String> = (0..100).map(|i| format!("tag_{i}")).collect();
    shuffle(&mut tags, 1234);

    let mut event = Event::new("foo".to_string(), 0);
    for tag in &tags {
        event.add_tag_mut(tag.clone(), "bar".to_string());
    }

    tags.sort();
    let actual: Vec<String> = event.tags.iter().map(|t| t.name.clone()).collect();
    assert_eq!(actual, tags);
}

#[test]
fn test_fields_iter_sorted() {
    let mut fields: Vec<String> = (0..100).map(|i| format!("field_{i}")).collect();
    shuffle(&mut fields, 1234);

    let mut event = Event::new("foo".to_string(), 0);
    for field in &fields {
        event.add_field_mut(field.clone(), FieldValue::U64(1));
    }

    fields.sort();
    let actual: Vec<String> = event.fields.iter().map(|f| f.name.clone()).collect();
    assert_eq!(actual, fields);
}

#[test]
fn tags_and_fields_share_no_name() {
    let mut event = Event::new("m".to_string(), 5);
    event.add_tag_mut("host".to_string(), "a".to_string());
    event.add_field_mut("value".to_string(), FieldValue::I64(7));
    assert_eq!(event.tags.len(), 1);
    assert_eq!(event.fields.len(), 1);
    assert_eq!(event.measurement, "m");
    assert_eq!(event.time_ns, 5);
}

#[derive(Debug, Clone, Copy, Default)]
struct CpuMeasurement;

impl TypedMeasurement for CpuMeasurement {
    fn name(&self) -> &'static str {
        "cpu"
    }
}

#[test]
fn typed_measurement_names_events() {
    let m = CpuMeasurement;
    let event = Event::new(m.name().to_string(), 0);
    assert_eq!(event.measurement, "cpu");
}
