use srtb_integration::difficulty::{map_num_to_key, SpinDifficulty};
use srtb_integration::error::{IntegrationError, ParsingError};
use srtb_integration::number::Decimal;
use srtb_integration::speeds::{
    make_key, speeds_to_json_text, text_to_speeds, SpeedTrigger,
    SpeedTriggersData, SpeedsIntegrator,
};
use srtb_integration::srtb::{LargeStringValuesContainer, RawSrtbFile, UnityObjectValuesContainer};

fn dec(x: f64) -> Decimal {
    Decimal { units: (x * 1e9).round() as i64 }
}

fn trig(time: f64, speed_multiplier: f64, interpolate: bool) -> SpeedTrigger {
    SpeedTrigger { time: dec(time), speed_multiplier: dec(speed_multiplier), interpolate }
}

fn parse_error(text: &str) -> (usize, ParsingError) {
    match text_to_speeds(text) {
        Err(IntegrationError::ParsingError(n, e)) => (n, e),
        other => panic!("expected a parsing error, got {:?}", other),
    }
}

fn empty_chart() -> RawSrtbFile {
    RawSrtbFile {
        unity_object_values_container: UnityObjectValuesContainer { values: vec![] },
        large_string_values_container: LargeStringValuesContainer { values: vec![] },
        clip_info_count: None,
        other_fields: "{}".to_string(),
    }
}

#[test]
fn to_speeds() {
    let speeds = r#"
        0 1
        1.5  2    false
        2    1.5  true
        "#;

    let expected_speeds = vec![trig(0., 1., false), trig(1.5, 2., false), trig(2., 1.5, true)];

    let speeds = text_to_speeds(speeds).unwrap();
    assert_eq!(speeds.triggers, expected_speeds);
}

#[test]
fn test_speeds_to_json() {
    let speeds = r#"
        0 1
        1.5  2    false
        2    1.5  true
        "#;

    let expected_speeds = vec![trig(0., 1., false), trig(1.5, 2., false), trig(2., 1.5, true)];

    let speeds = text_to_speeds(speeds).unwrap();
    assert_eq!(speeds.triggers, expected_speeds);
}

#[test]
fn speeds_to_text() {
    let triggers = vec![trig(0., 1., false), trig(1.5, 2., false), trig(2., 1.5, true)];
    let speeds = SpeedTriggersData { triggers };

    let expected_speeds = "0 1 false\n1.5 2 false\n2 1.5 true\n";

    let speeds = srtb_integration::speeds::speeds_to_text(&speeds);
    assert_eq!(speeds, expected_speeds);
}

#[test]
fn struct_to_speeds() {
    let triggers = vec![trig(0., 1., false), trig(1.5, 2., false), trig(2., 1.5, true)];
    let speeds = SpeedTriggersData { triggers };

    let expected_speeds = "0 1 false\n1.5 2 false\n2 1.5 true\n";

    let speeds = srtb_integration::speeds::speeds_to_text(&speeds);
    assert_eq!(speeds, expected_speeds);
}

#[test]
fn to_speeds_repeat() {
    let speeds = r#"
        Repeat 3 interval 1.0
        0.0 0.0 true
        0.75 1.0 false
        EndRepeat
        "#;

    let expected_speeds = vec![
        trig(0., 0., true),
        trig(0.75, 1., false),
        trig(1., 0., true),
        trig(1.75, 1., false),
        trig(2., 0., true),
        trig(2.75, 1., false),
    ];

    let speeds = text_to_speeds(speeds).unwrap();
    assert_eq!(speeds.triggers, expected_speeds);
}

#[test]
fn nested_repeat() {
    let speeds = r#"
        Repeat 3 interval 2.0
        Repeat 2 interval 0.5
        1.0 0.5 true
        1.25 1.0 false
        EndRepeat
        EndRepeat
        "#;

    let expected_speeds = vec![
        trig(1., 0.5, true),
        trig(1.25, 1., false),
        trig(1.5, 0.5, true),
        trig(1.75, 1., false),
        trig(3., 0.5, true),
        trig(3.25, 1., false),
        trig(3.5, 0.5, true),
        trig(3.75, 1., false),
        trig(5., 0.5, true),
        trig(5.25, 1., false),
        trig(5.5, 0.5, true),
        trig(5.75, 1., false),
    ];

    let speeds = text_to_speeds(speeds).unwrap();
    assert_eq!(speeds.triggers, expected_speeds);
}

#[test]
fn sorted_with_ties_in_text_order() {
    let speeds = text_to_speeds("# comment\n2 1\n1 3 TRUE\n2 4\n\n0.5 5\n").unwrap();
    assert_eq!(
        speeds.triggers,
        vec![trig(0.5, 5., false), trig(1., 3., true), trig(2., 1., false), trig(2., 4., false)]
    );
}

#[test]
fn speed_repeat_count_below_one_gives_nothing() {
    let speeds = text_to_speeds("repeat 0 interval 1\n1 1\nendrepeat\n2 2\n").unwrap();
    assert_eq!(speeds.triggers, vec![trig(2., 2., false)]);
    let speeds = text_to_speeds("repeat -3 interval 1\n1 1\nendrepeat\n").unwrap();
    assert_eq!(speeds.triggers, vec![]);
    assert_eq!(parse_error("repeat 0 interval 1\n1\nendrepeat\n"), (1, ParsingError::MissingArguments));
}

#[test]
fn empty_text_gives_no_triggers() {
    assert_eq!(text_to_speeds("").unwrap().triggers, vec![]);
    assert_eq!(text_to_speeds("\n  \n# only a comment\n").unwrap().triggers, vec![]);
}

#[test]
fn speed_errors() {
    assert_eq!(parse_error("0 1\n5\n"), (1, ParsingError::MissingArguments));
    assert_eq!(parse_error("x 1\n"), (0, ParsingError::InvalidFloat("x".to_string())));
    assert_eq!(parse_error("1 y\n"), (0, ParsingError::InvalidFloat("y".to_string())));
    assert_eq!(parse_error("1 1 maybe\n"), (0, ParsingError::InvalidBool("maybe".to_string())));
    assert_eq!(parse_error("\nrepeat 2 every 1\n"), (1, ParsingError::InvalidRepeatCommand));
    assert_eq!(parse_error("repeat 2 interval\n"), (0, ParsingError::MissingArguments));
    assert_eq!(parse_error("repeat two interval 1\n"), (0, ParsingError::InvalidInt("two".to_string())));
    assert_eq!(parse_error("repeat 2 interval z\n"), (0, ParsingError::InvalidFloat("z".to_string())));
    assert_eq!(parse_error("0 1\nendrepeat\n"), (1, ParsingError::UnexpectedEndRepeat));
    assert_eq!(parse_error("0 1\nrepeat 2 interval 1\n1 1\n"), (1, ParsingError::UnclosedRepeat));
}

#[test]
fn repeat_out_of_range_is_rejected() {
    let text = "repeat 3 interval 9000000000\n1 1\nendrepeat\n";
    assert_eq!(parse_error(text), (0, ParsingError::InvalidFloat("9000000000".to_string())));
}

#[test]
fn decimal_literals() {
    assert_eq!(Decimal::read("1.5"), Some(dec(1.5)));
    assert_eq!(Decimal::read("-.25"), Some(dec(-0.25)));
    assert_eq!(Decimal::read("+3."), Some(dec(3.)));
    assert_eq!(Decimal::read("0.000000001"), Some(Decimal { units: 1 }));
    assert_eq!(Decimal::read("0.0000000001"), Some(Decimal { units: 0 }));
    assert_eq!(Decimal::read("-1.1234567899"), Some(Decimal { units: -1_123_456_789 }));
    assert_eq!(Decimal::read("1.1234567899x"), None);
    assert_eq!(Decimal::read("."), None);
    assert_eq!(Decimal::read("1.2.3"), None);
    assert_eq!(Decimal::read("1e5"), None);
    assert_eq!(Decimal::read("99999999999"), None);
}

#[test]
fn decimal_texts() {
    assert_eq!(dec(1.5).to_text(false), "1.5");
    assert_eq!(dec(2.).to_text(false), "2");
    assert_eq!(dec(2.).to_text(true), "2.0");
    assert_eq!(dec(-0.125).to_text(true), "-0.125");
    assert_eq!(Decimal { units: i64::MIN }.to_text(false), "-9223372036.854775808");
}

#[test]
fn speeds_json_text() {
    let data = SpeedTriggersData { triggers: vec![trig(0., 1., false), trig(1.5, 2., true)] };
    assert_eq!(
        speeds_to_json_text(&data),
        "{\"Triggers\":[{\"Time\":0.0,\"SpeedMultiplier\":1.0,\"InterpolateToNextTrigger\":false},{\"Time\":1.5,\"SpeedMultiplier\":2.0,\"InterpolateToNextTrigger\":true}]}"
    );
    assert_eq!(speeds_to_json_text(&SpeedTriggersData { triggers: vec![] }), "{\"Triggers\":[]}");
}

#[test]
fn speed_keys() {
    assert_eq!(make_key(SpinDifficulty::Easy), "SpeedHelper_SpeedTriggers_EASY");
    assert_eq!(make_key(SpinDifficulty::AllDifficulties), "SpeedHelper_SpeedTriggers");
    assert_eq!(make_key(SpinDifficulty::RemiXD), "SpeedHelper_SpeedTriggers_REMIXD");
    assert_eq!(map_num_to_key(4), Some("SpeedHelper_SpeedTriggers_EXPERT".to_string()));
    assert_eq!(map_num_to_key(7), Some("SpeedHelper_SpeedTriggers".to_string()));
    assert_eq!(map_num_to_key(0), None);
}

fn decode(json: &str) -> SpeedTriggersData {
    let v: serde_json::Value = serde_json::from_str(json).unwrap();
    let mut triggers = vec![];
    for t in v["Triggers"].as_array().unwrap() {
        let time = Decimal::read(&t["Time"].to_string()).unwrap();
        let speed_multiplier = Decimal::read(&t["SpeedMultiplier"].to_string()).unwrap();
        let interpolate = t["InterpolateToNextTrigger"].as_bool().unwrap();
        triggers.push(SpeedTrigger { time, speed_multiplier, interpolate });
    }
    SpeedTriggersData { triggers }
}

#[test]
fn integrate_then_extract_round_trip() {
    let mut chart = empty_chart();
    let integrator = SpeedsIntegrator;
    integrator.integrate(&mut chart, "0 1\n1.5 2 false\n2 1.5 true\n", SpinDifficulty::Hard).unwrap();
    let json = integrator.stored_value(&chart, SpinDifficulty::Hard).unwrap();
    let text = srtb_integration::speeds::speeds_to_text(&decode(&json));
    assert_eq!(text, "0 1 false\n1.5 2 false\n2 1.5 true\n");
    assert!(matches!(
        integrator.stored_value(&chart, SpinDifficulty::Easy),
        Err(IntegrationError::MissingData)
    ));
}

#[test]
fn integrate_replaces_and_remove_deletes() {
    let mut chart = empty_chart();
    let integrator = SpeedsIntegrator;
    integrator.integrate(&mut chart, "1 1\n", SpinDifficulty::Easy).unwrap();
    integrator.integrate(&mut chart, "2 2\n", SpinDifficulty::Easy).unwrap();
    assert_eq!(chart.large_string_values_container.values.len(), 1);
    let json = integrator.stored_value(&chart, SpinDifficulty::Easy).unwrap();
    assert_eq!(srtb_integration::speeds::speeds_to_text(&decode(&json)), "2 2 false\n");
    integrator.remove(&mut chart, SpinDifficulty::Easy).unwrap();
    integrator.remove(&mut chart, SpinDifficulty::Easy).unwrap();
    assert_eq!(chart.large_string_values_container.values.len(), 0);
    assert_eq!(integrator.file_extension(), "speeds");
}

#[test]
fn integrate_error_leaves_chart() {
    let mut chart = empty_chart();
    let r = SpeedsIntegrator.integrate(&mut chart, "1 1\nbad\n", SpinDifficulty::Easy);
    assert!(matches!(r, Err(IntegrationError::ParsingError(1, ParsingError::MissingArguments))));
    assert_eq!(chart.large_string_values_container.values.len(), 0);
}

#[test]
fn written_text_reads_back_sorted() {
    let triggers = vec![trig(3., 1., true), trig(-0.5, 2.25, false), trig(3., 0.125, false), trig(0., 7., true)];
    let text = srtb_integration::speeds::speeds_to_text(&SpeedTriggersData { triggers });
    assert_eq!(text, "3 1 true\n-0.5 2.25 false\n3 0.125 false\n0 7 true\n");
    let back = text_to_speeds(&text).unwrap();
    assert_eq!(
        back.triggers,
        vec![trig(-0.5, 2.25, false), trig(0., 7., true), trig(3., 1., true), trig(3., 0.125, false)]
    );
}
