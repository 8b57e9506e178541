use srtb_integration::srtb::{
    LargeStringValue, LargeStringValuesContainer, RawSrtbFile, UnityObjectValue,
    UnityObjectValuesContainer,
};

fn chart() -> RawSrtbFile {
    RawSrtbFile {
        unity_object_values_container: UnityObjectValuesContainer {
            values: vec![UnityObjectValue {
                key: "SO_TrackInfo_TrackInfo".to_string(),
                json_key: "k".to_string(),
                full_type: "TrackInfo".to_string(),
            }],
        },
        large_string_values_container: LargeStringValuesContainer {
            values: vec![LargeStringValue { key: "other".to_string(), val: "x".to_string() }],
        },
        clip_info_count: Some(1),
        other_fields: "{}".to_string(),
    }
}

#[test]
fn set_twice_keeps_one_entry() {
    let mut c = chart();
    c.set_large_string_value("k", "first");
    c.set_large_string_value("k", "second");
    let vals = &c.large_string_values_container.values;
    assert_eq!(vals.len(), 2);
    assert_eq!(vals.iter().filter(|v| v.key == "k").count(), 1);
    assert_eq!(c.get_large_string_value("k"), Some("second".to_string()));
    assert_eq!(c.get_large_string_value("other"), Some("x".to_string()));
}

#[test]
fn set_appends_new_key_last() {
    let mut c = chart();
    c.set_large_string_value("new", "v");
    let vals = &c.large_string_values_container.values;
    assert_eq!(vals[1].key, "new");
    assert_eq!(vals[1].val, "v");
}

#[test]
fn remove_absent_is_noop() {
    let mut c = chart();
    c.remove_large_string_value("missing");
    assert_eq!(c.large_string_values_container.values.len(), 1);
    assert_eq!(c.get_large_string_value("other"), Some("x".to_string()));
}

#[test]
fn remove_present_key() {
    let mut c = chart();
    c.set_large_string_value("k", "v");
    c.remove_large_string_value("other");
    assert_eq!(c.get_large_string_value("other"), None);
    assert_eq!(c.get_large_string_value("k"), Some("v".to_string()));
    assert_eq!(c.unity_object_values_container.values.len(), 1);
}

#[test]
fn get_missing_key() {
    assert_eq!(chart().get_large_string_value("nope"), None);
}
