use srtb_integration::chroma::{
    make_key, text_to_chroma, ChromaIntegrator, ChromaNoteType, ChromaTrigger,
    ChromaTriggersData,
};
use srtb_integration::color::{ColorError, HslColor, RgbColor};
use srtb_integration::difficulty::{chroma_map_num_to_key, SpinDifficulty};
use srtb_integration::error::{IntegrationError, ParsingError};
use srtb_integration::integrator::IntegratorKind;
use srtb_integration::number::Decimal;
use srtb_integration::srtb::{LargeStringValuesContainer, RawSrtbFile, UnityObjectValuesContainer};

fn dec(x: f64) -> Decimal {
    Decimal { units: (x * 1e9).round() as i64 }
}

fn rgb(r: u8, g: u8, b: u8) -> HslColor {
    HslColor::from_rgb(RgbColor { r, g, b })
}

fn red() -> HslColor {
    rgb(255, 0, 0)
}

fn cyan() -> HslColor {
    rgb(0, 255, 255)
}

fn white() -> HslColor {
    rgb(255, 255, 255)
}

fn trig(time: f64, duration: f64, start_color: HslColor, end_color: HslColor) -> ChromaTrigger {
    ChromaTrigger { time: dec(time), duration: dec(duration), start_color, end_color }
}

fn empty() -> ChromaTriggersData {
    ChromaTriggersData {
        note_a: vec![],
        note_b: vec![],
        beat: vec![],
        spin_left: vec![],
        spin_right: vec![],
        scratch: vec![],
        ancillary: vec![],
    }
}

fn parse_error(text: &str) -> (usize, ParsingError) {
    match text_to_chroma(text) {
        Err(IntegrationError::ParsingError(n, e)) => (n, e),
        other => panic!("expected a parsing error, got {:?}", other),
    }
}

fn expected_note_a() -> Vec<ChromaTrigger> {
    vec![
        trig(0., 0., red(), red()),
        trig(0.5, 0., cyan(), cyan()),
        trig(3., 0., red(), red()),
        trig(4., 1., white(), cyan()),
    ]
}

fn expected_note_b() -> Vec<ChromaTrigger> {
    vec![
        trig(0., 0., cyan(), cyan()),
        trig(1., 1., cyan(), red()),
        trig(3., 0., cyan(), cyan()),
        trig(4., 1., white(), red()),
    ]
}

#[test]
fn to_chroma() {
    let chroma = r#"
        Set red #ff0000
        Set cyan #00ffff
        Set white #ffffff
        Start NoteA red
        Start NoteB cyan
        Instant NoteA 0.5 cyan
        NoteB 1.0 2.0 cyan red
        Swap Instant 3.0 NoteA NoteB
        Swap Flash 4.0 5.0 NoteA NoteB white
        "#;

    let chroma = text_to_chroma(chroma).unwrap();
    assert_eq!(chroma.note_a, expected_note_a());
    assert_eq!(chroma.note_b, expected_note_b());
}

#[test]
fn chroma_to_text() {
    let data = ChromaTriggersData { note_a: expected_note_a(), note_b: expected_note_b(), ..empty() };

    let expected_chroma = r#"Start NoteA #ff0000
Start NoteB #00ffff
Instant NoteA 0.5 #00ffff
NoteB 1.0 2.0 #00ffff #ff0000
Instant NoteA 3.0 #ff0000
Instant NoteB 3.0 #00ffff
NoteA 4.0 5.0 #ffffff #00ffff
NoteB 4.0 5.0 #ffffff #ff0000
"#;

    let chroma = srtb_integration::chroma::chroma_to_text(&data);
    assert_eq!(chroma, expected_chroma);
}

#[test]
fn to_chroma_repeat() {
    let chroma = r#"
        Repeat 3 interval 0.5
        Instant NoteA 0.0 #ff0000
        EndRepeat
        "#;

    let note_a = vec![trig(0., 0., red(), red()), trig(0.5, 0., red(), red()), trig(1., 0., red(), red())];

    let chroma = text_to_chroma(chroma).unwrap();
    assert_eq!(chroma.note_a, note_a);
    assert_eq!(chroma.note_b, vec![]);
    assert_eq!(chroma.ancillary, vec![]);
}

#[test]
fn swap_needs_triggers_on_both_lanes() {
    assert_eq!(
        parse_error("Start NoteA #ff0000\nSwap Instant 1 NoteA NoteB\n"),
        (1, ParsingError::NoTriggerForNote("Note B".to_string()))
    );
    assert_eq!(
        parse_error("Start NoteB #ff0000\nSwap Instant 1 NoteA NoteB\n"),
        (1, ParsingError::NoTriggerForNote("Note A".to_string()))
    );
    assert_eq!(
        parse_error("Swap Flash 1 2 Beat Scratch #ffffff\n"),
        (0, ParsingError::NoTriggerForNote("Beat".to_string()))
    );
    assert_eq!(
        parse_error("Start Beat #ff0000\n\nSwap Flash 1 2 Beat Scratch #ffffff\n"),
        (2, ParsingError::NoTriggerForNote("Scratch".to_string()))
    );
}

#[test]
fn set_errors() {
    assert_eq!(
        parse_error("Start NoteA #ff0000\nSet redname ghijkl\n"),
        (1, ParsingError::ColorError(ColorError::InvalidInteger))
    );
    assert_eq!(parse_error("Set default xyz\n"), (0, ParsingError::InvalidColorVariableName("default".to_string())));
    assert_eq!(parse_error("Set my.color #ffffff\n"), (0, ParsingError::InvalidColorVariableName("my.color".to_string())));
    assert_eq!(parse_error("Set mydefaultcolor #ffffff\n"), (0, ParsingError::InvalidColorVariableName("mydefaultcolor".to_string())));
    assert_eq!(parse_error("Set red #fff\n"), (0, ParsingError::ColorError(ColorError::InvalidSize(3))));
    assert_eq!(parse_error("Set red\n"), (0, ParsingError::MissingArguments));
}

#[test]
fn variables_are_case_folded_and_overwritten() {
    let d = text_to_chroma("Set My_Color-1 #ff0000\nset my_color-1 #00FFFF\nStart Beat MY_COLOR-1\n").unwrap();
    assert_eq!(d.beat, vec![trig(0., 0., cyan(), cyan())]);
}

#[test]
fn default_colors() {
    let text = "Start NoteA #ff0000\nStart NoteB #00ffff\nInstant NoteA 1 default\nInstant NoteA 2 defaultNoteB\nNoteA 3 4 DEFAULTnoteb default\n";
    let d = text_to_chroma(text).unwrap();
    assert_eq!(
        d.note_a,
        vec![
            trig(0., 0., red(), red()),
            trig(1., 0., red(), red()),
            trig(2., 0., cyan(), cyan()),
            trig(3., 1., cyan(), red()),
        ]
    );
    assert_eq!(parse_error("Instant Beat 1 default\n"), (0, ParsingError::NoDefaultColorForNote("Beat".to_string())));
    assert_eq!(
        parse_error("Instant Beat 1 defaultLeftSpin\n"),
        (0, ParsingError::NoDefaultColorForNote("Left Spin".to_string()))
    );
    assert_eq!(parse_error("Instant Beat 1 defaultnope\n"), (0, ParsingError::InvalidNote("nope".to_string())));
    assert_eq!(parse_error("Start Beat default\n"), (0, ParsingError::ColorVariableNotFound("default".to_string())));
    assert_eq!(parse_error("Instant Beat 1 blue\n"), (0, ParsingError::ColorVariableNotFound("blue".to_string())));
}

#[test]
fn fade_from_white_keeps_hue() {
    let d = text_to_chroma("Scratch 0 1 #ffffff #00ffff\nScratch 1 2 #00ffff #000000\nScratch 2 3 #ffffff #ff0000\n").unwrap();
    let white_cyan = HslColor { base: RgbColor { r: 255, g: 255, b: 255 }, hue_of: RgbColor { r: 0, g: 255, b: 255 } };
    let black_cyan = HslColor { base: RgbColor { r: 0, g: 0, b: 0 }, hue_of: RgbColor { r: 0, g: 255, b: 255 } };
    assert_eq!(
        d.scratch,
        vec![trig(0., 1., white_cyan, cyan()), trig(1., 1., cyan(), black_cyan), trig(2., 1., white(), red())]
    );
}

#[test]
fn smooth_transition_on_trigger() {
    let mut t = trig(0., 1., rgb(128, 128, 128), cyan());
    t.ensure_smooth_transition();
    assert_eq!(t.start_color.hue_of, RgbColor { r: 0, g: 255, b: 255 });
    assert_eq!(t.start_color.to_rgb(), RgbColor { r: 128, g: 128, b: 128 });
    let mut u = trig(0., 1., red(), cyan());
    u.ensure_smooth_transition();
    assert_eq!(u, trig(0., 1., red(), cyan()));
}

#[test]
fn chroma_command_errors() {
    assert_eq!(parse_error("Swap Twirl 1 NoteA NoteB\n"), (0, ParsingError::UnrecognizedCommand("twirl".to_string())));
    assert_eq!(parse_error("Swap\n"), (0, ParsingError::MissingArguments));
    assert_eq!(parse_error("Fade NoteA 1 2 #ffffff\n"), (0, ParsingError::UnrecognizedCommand("fade".to_string())));
    assert_eq!(parse_error("Fade 1\n"), (0, ParsingError::UnrecognizedCommand("fade".to_string())));
    assert_eq!(parse_error("NoteA 1 2 #ffffff\n"), (0, ParsingError::MissingArguments));
    assert_eq!(parse_error("Start Scratchy #ffffff\n"), (0, ParsingError::InvalidNote("scratchy".to_string())));
    assert_eq!(parse_error("Instant NoteA x #ffffff\n"), (0, ParsingError::InvalidFloat("x".to_string())));
    assert_eq!(parse_error("EndRepeat\n"), (0, ParsingError::UnexpectedEndRepeat));
    assert_eq!(
        parse_error("Repeat 2 interval 1\nRepeat 2 interval 1\nEndRepeat\nEndRepeat\n"),
        (1, ParsingError::NoNestedRepeats)
    );
    assert_eq!(parse_error("\nRepeat 2 interval 1\nInstant NoteA 0 #ffffff\n"), (1, ParsingError::UnclosedRepeat));
}

#[test]
fn repeat_moves_ranged_and_flash_times() {
    let text = "Start NoteA #ff0000\nStart NoteB #00ffff\nRepeat 2 interval 10\nNoteA 1 2 #ffffff #ff0000\nSwap Flash 3 4 NoteA NoteB #ffffff\nEndRepeat\n";
    let d = text_to_chroma(text).unwrap();
    let times: Vec<i64> = d.note_a.iter().map(|t| t.time.units).collect();
    assert_eq!(times, vec![0, 1_000_000_000, 3_000_000_000, 11_000_000_000, 13_000_000_000]);
    assert_eq!(d.note_b.len(), 3);
    assert_eq!(d.note_b[2].time, dec(13.));
    assert_eq!(d.note_b[2].duration, dec(1.));
}

#[test]
fn note_names() {
    assert_eq!(ChromaNoteType::from_str("NOTEA").unwrap(), ChromaNoteType::NoteA);
    assert_eq!(ChromaNoteType::from_str("LeftSpin").unwrap(), ChromaNoteType::SpinLeft);
    assert_eq!(ChromaNoteType::from_str("highlights").unwrap(), ChromaNoteType::Ancillary);
    assert_eq!(ChromaNoteType::from_str("Note"), Err(ParsingError::InvalidNote("Note".to_string())));
    assert_eq!(ChromaNoteType::SpinRight.to_str_chroma(), "SpinRight");
    assert_eq!(ChromaNoteType::SpinRight.to_shown_str(), "Right Spin");
}

#[test]
fn chroma_keys_and_extension() {
    assert_eq!(make_key(SpinDifficulty::XD), "SpeenChroma_ChromaTriggers_XD");
    assert_eq!(make_key(SpinDifficulty::AllDifficulties), "SpeenChroma_ChromaTriggers");
    assert_eq!(chroma_map_num_to_key(1), Some("SpeenChroma_ChromaTriggers_EASY".to_string()));
    assert_eq!(chroma_map_num_to_key(8), None);
    assert_eq!(ChromaIntegrator.file_extension(), "chroma");
    assert_eq!(IntegratorKind::Chroma.ext(), "chroma");
    assert_eq!(IntegratorKind::Speeds.ext(), "speeds");
}

#[test]
fn chroma_store_and_remove() {
    let mut chart = RawSrtbFile {
        unity_object_values_container: UnityObjectValuesContainer { values: vec![] },
        large_string_values_container: LargeStringValuesContainer { values: vec![] },
        clip_info_count: None,
        other_fields: "{}".to_string(),
    };
    let integrator = ChromaIntegrator;
    integrator.store_value(&mut chart, "{}", SpinDifficulty::Normal);
    assert_eq!(integrator.stored_value(&chart, SpinDifficulty::Normal).unwrap(), "{}");
    assert!(matches!(integrator.stored_value(&chart, SpinDifficulty::Hard), Err(IntegrationError::MissingData)));
    integrator.remove(&mut chart, SpinDifficulty::Normal).unwrap();
    assert!(matches!(integrator.stored_value(&chart, SpinDifficulty::Normal), Err(IntegrationError::MissingData)));
}

#[test]
fn chroma_text_orders_lanes_by_time() {
    let data = ChromaTriggersData {
        beat: vec![trig(2., 0., red(), red())],
        note_b: vec![trig(2., 0., cyan(), cyan()), trig(5., 0.25, cyan(), white())],
        ..empty()
    };
    assert_eq!(
        srtb_integration::chroma::chroma_to_text(&data),
        "Instant NoteB 2.0 #00ffff\nInstant Beat 2.0 #ff0000\nNoteB 5.0 5.25 #00ffff #ffffff\n"
    );
}

#[test]
fn chroma_repeat_count_below_one_gives_nothing() {
    let d = text_to_chroma("Start NoteA #ff0000\nRepeat 0 interval 1\nInstant NoteA 1 #00ffff\nEndRepeat\n").unwrap();
    assert_eq!(d.note_a, vec![trig(0., 0., red(), red())]);
    assert_eq!(
        parse_error("Repeat 0 interval 1\nSet c #ff0000\nEndRepeat\nStart NoteA c\n"),
        (3, ParsingError::ColorVariableNotFound("c".to_string()))
    );
    assert_eq!(
        parse_error("Repeat -1 interval 1\nInstant NoteA x #ff0000\nEndRepeat\n"),
        (1, ParsingError::InvalidFloat("x".to_string()))
    );
}

#[test]
fn swap_fails_anywhere_in_text() {
    let text = "# colors\nSet red #ff0000\nStart NoteA red\nRepeat 2 interval 1\nInstant NoteA 0 red\nEndRepeat\nSwap Instant 5 NoteA Beat\nInstant NoteA 9 red\n";
    assert_eq!(parse_error(text), (6, ParsingError::NoTriggerForNote("Beat".to_string())));
    let text = "\nSwap Flash 1 2 Scratch NoteB #ffffff\nStart NoteB #ff0000\n";
    assert_eq!(parse_error(text), (1, ParsingError::NoTriggerForNote("Scratch".to_string())));
}
