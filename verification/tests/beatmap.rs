use o_rs_u::number::DecimalNumber;
use o_rs_u::osutypes::{CurveType, OsuBeatmap, OsuHitObjectType, OsuHitSound, OsuTimingPoint, Point};
use o_rs_u::parser::{hit_object_type_from_bits, parse_osu_text, ParseError};

fn num(negative: bool, mantissa: u128, exponent: i64) -> DecimalNumber {
    let ds: Vec<u8> = if mantissa == 0 {
        vec![]
    } else {
        mantissa.to_string().bytes().map(|b| b - b'0').collect()
    };
    DecimalNumber::from_digits(negative, &ds, false, exponent)
}

fn beatmap_text(difficulty: &str, timing: &str, objects: &str) -> String {
    let mut t = String::from("osu file format v14\r\n\r\n[General]\r\nAudioFilename: audio.mp3\r\nMode: 0\r\n\r\n");
    t += "[Editor]\r\nDistanceSpacing: 1\r\n\r\n";
    t += "[Metadata]\r\nTitle:Test\r\n\r\n";
    t += "[Difficulty]\r\n";
    t += difficulty;
    t += "\r\n[Events]\r\n0,0,\"bg.jpg\",0,0\r\n\r\n";
    t += "[TimingPoints]\r\n";
    t += timing;
    t += "\r\n[Colours]\r\nCombo1 : 255,0,0\r\n\r\n";
    t += "[HitObjects]\r\n";
    t += objects;
    t
}

fn sample() -> String {
    beatmap_text(
        "HPDrainRate:6\r\nCircleSize:4.2\r\nOverallDifficulty:7\r\nApproachRate:9.5\r\nSliderMultiplier:1.4\r\nSliderTickRate:1\r\n",
        "100,333.33,4,2,0,60,1,0\r\n2000,-50,4,2,0,60,0,0\r\n",
        "256,192,1000,5,0,0:0:0:0:\r\n100,100,1500.5,2,0,B|200:200|300:100,2,140\r\n256,192,3000,12,0,4000,0:0:0:0:\r\n",
    )
}

fn parsed() -> OsuBeatmap {
    parse_osu_text(&sample()).unwrap()
}

#[test]
fn difficulty_is_read() {
    let b = parsed();
    assert_eq!(b.difficulty.hp_drain, num(false, 6, 0));
    assert_eq!(b.difficulty.circle_size, num(false, 42, -1));
    assert_eq!(b.difficulty.overall_diff, num(false, 7, 0));
    assert_eq!(b.difficulty.approach_rate, num(false, 95, -1));
    assert_eq!(b.difficulty.slider_multiplier, num(false, 14, -1));
}

#[test]
fn difficulty_defaults_when_absent() {
    let b = parse_osu_text(&beatmap_text("", "", "64,64,10,1,0\r\n")).unwrap();
    assert_eq!(b.difficulty.hp_drain, num(false, 5, 0));
    assert_eq!(b.difficulty.circle_size, num(false, 5, 0));
    assert_eq!(b.difficulty.overall_diff, num(false, 5, 0));
    assert_eq!(b.difficulty.approach_rate, num(false, 8, 0));
    assert_eq!(b.difficulty.slider_multiplier, num(false, 5, 0));
    assert!(b.timing_points.is_empty());
}

#[test]
fn difficulty_with_a_huge_exponent_is_read() {
    let b = parse_osu_text(&beatmap_text("OverallDifficulty:1e3000000000\r\n", "", "64,64,10,1,0\r\n")).unwrap();
    assert_eq!(b.difficulty.overall_diff, num(false, 1, 3_000_000_000));
    let long = format!("CircleSize:4.{}\r\n", "2".repeat(60));
    let b = parse_osu_text(&beatmap_text(&long, "", "64,64,10,1,0\r\n")).unwrap();
    let ds: Vec<u8> = format!("4{}", "2".repeat(60)).bytes().map(|c| c - b'0').collect();
    assert_eq!(b.difficulty.circle_size, DecimalNumber::from_digits(false, &ds, false, -60));
}

#[test]
fn later_difficulty_line_wins() {
    let b = parse_osu_text(&beatmap_text("CircleSize:3\r\nCircleSize:6.5\r\n", "", "64,64,10,1,0\r\n")).unwrap();
    assert_eq!(b.difficulty.circle_size, num(false, 65, -1));
}

#[test]
fn timing_points_are_read() {
    let b = parsed();
    assert_eq!(b.timing_points.len(), 2);
    assert_eq!(
        b.timing_points[0],
        OsuTimingPoint::new(100, num(false, 33333, -2), 4, 2, 0, 60, true, 0)
    );
    assert_eq!(
        b.timing_points[1],
        OsuTimingPoint::new(2000, num(true, 50, 0), 4, 2, 0, 60, false, 0)
    );
}

#[test]
fn short_timing_line_keeps_zero_fields() {
    let b = parse_osu_text(&beatmap_text("", "500,400\r\n", "64,64,10,1,0\r\n")).unwrap();
    assert_eq!(b.timing_points[0], OsuTimingPoint::new(500, num(false, 400, 0), 0, 0, 0, 0, false, 0));
    assert_eq!(OsuTimingPoint::default(), OsuTimingPoint::new(0, num(false, 0, 0), 0, 0, 0, 0, false, 0));
}

#[test]
fn timing_field_six_is_uninherited_only_when_one() {
    let b = parse_osu_text(&beatmap_text("", "0,1,1,1,1,1,2,1\r\n", "64,64,10,1,0\r\n")).unwrap();
    assert!(!b.timing_points[0].uninherited);
}

#[test]
fn hit_objects_are_read() {
    let b = parsed();
    assert_eq!(b.hit_objects.len(), 3);
    let c = &b.hit_objects[0];
    assert_eq!(c.pos, Point { x: 256, y: 192 });
    assert_eq!(c.time, num(false, 1000, 0));
    assert_eq!(c.hitobjecttype, OsuHitObjectType::Circle(true));
    assert_eq!(c.hitsound, OsuHitSound::Normal);
    assert!(c.slider_params.is_none() && c.spinner_params.is_none());

    let s = &b.hit_objects[1];
    assert_eq!(s.pos, Point { x: 100, y: 100 });
    assert_eq!(s.time, num(false, 15005, -1));
    assert_eq!(s.hitobjecttype, OsuHitObjectType::Slider(false));
    let sp = s.slider_params.as_ref().unwrap();
    assert_eq!(sp.curve_type, CurveType::Bezier);
    assert_eq!(sp.curve_points, vec![Point { x: 200, y: 200 }, Point { x: 300, y: 100 }]);
    assert_eq!(sp.slides, 2);
    assert_eq!(sp.length, num(false, 140, 0));

    let p = &b.hit_objects[2];
    assert_eq!(p.hitobjecttype, OsuHitObjectType::Spinner(true));
    assert!(p.slider_params.is_none() && p.spinner_params.is_none());
}

#[test]
fn one_hit_object_per_line_and_sliders_have_parameters() {
    let b = parsed();
    for h in &b.hit_objects {
        assert_eq!(h.slider_params.is_some(), matches!(h.hitobjecttype, OsuHitObjectType::Slider(_)));
        assert!(h.spinner_params.is_none());
        assert_eq!(h.hitsound, OsuHitSound::Normal);
    }
}

#[test]
fn type_bits_decide_the_kind() {
    assert_eq!(hit_object_type_from_bits(1), Some(OsuHitObjectType::Circle(false)));
    assert_eq!(hit_object_type_from_bits(3), Some(OsuHitObjectType::Circle(false)));
    assert_eq!(hit_object_type_from_bits(6), Some(OsuHitObjectType::Slider(true)));
    assert_eq!(hit_object_type_from_bits(8), Some(OsuHitObjectType::Spinner(false)));
    assert_eq!(hit_object_type_from_bits(4), None);
    assert_eq!(hit_object_type_from_bits(0), None);
    assert_eq!(hit_object_type_from_bits(0x21), hit_object_type_from_bits(0x21 & 15));
    assert_eq!(hit_object_type_from_bits(0xF4), hit_object_type_from_bits(0xF4 & 15));
}

#[test]
fn every_curve_type_letter() {
    for (letter, kind) in [
        ("B", CurveType::Bezier),
        ("C", CurveType::Centripetal),
        ("L", CurveType::Linear),
        ("P", CurveType::PerfectCircle),
    ] {
        let line = format!("1,2,3,2,0,{}|4:5,1,10\r\n", letter);
        let b = parse_osu_text(&beatmap_text("", "", &line)).unwrap();
        assert_eq!(b.hit_objects[0].slider_params.as_ref().unwrap().curve_type, kind);
    }
}

#[test]
fn error_too_few_sections() {
    assert_eq!(parse_osu_text("[General]\r\nx").unwrap_err(), ParseError::TooFewSections);
    let text = sample().replace("[Colours]\r\nCombo1 : 255,0,0\r\n\r\n", "");
    assert_eq!(parse_osu_text(&text).unwrap_err(), ParseError::TooFewSections);
}

#[test]
fn error_missing_field() {
    let e = parse_osu_text(&beatmap_text("HPDrainRate\r\n", "", "64,64,10,1,0\r\n")).unwrap_err();
    assert_eq!(e, ParseError::MissingField);
    let e = parse_osu_text(&beatmap_text("", "", "64,64,10\r\n")).unwrap_err();
    assert_eq!(e, ParseError::MissingField);
    let e = parse_osu_text(&beatmap_text("", "", "64,64,10,2,0\r\n")).unwrap_err();
    assert_eq!(e, ParseError::MissingField);
    let e = parse_osu_text(&beatmap_text("", "", "64,64,10,2,0,L|1:2\r\n")).unwrap_err();
    assert_eq!(e, ParseError::MissingField);
    let e = parse_osu_text(&beatmap_text("", "", "64,64,10,2,0,L|1\r\n")).unwrap_err();
    assert_eq!(e, ParseError::MissingField);
    // An empty hit object section is one empty line.
    let e = parse_osu_text(&beatmap_text("", "", "")).unwrap_err();
    assert_eq!(e, ParseError::MissingField);
}

#[test]
fn error_bad_integer() {
    let e = parse_osu_text(&beatmap_text("", "x,1\r\n", "64,64,10,1,0\r\n")).unwrap_err();
    assert_eq!(e, ParseError::BadInteger);
    let e = parse_osu_text(&beatmap_text("", "", "64,64,10,256,0\r\n")).unwrap_err();
    assert_eq!(e, ParseError::BadInteger);
    let e = parse_osu_text(&beatmap_text("", "", "64.5,64,10,1,0\r\n")).unwrap_err();
    assert_eq!(e, ParseError::BadInteger);
    let e = parse_osu_text(&beatmap_text("", "", "64,64,10,2,0,L|1:2:z,1,10\r\n")).unwrap_err();
    assert_eq!(e, ParseError::BadInteger);
    let e = parse_osu_text(&beatmap_text("", "", "64,64,10,2,0,L|1:2,-1,10\r\n")).unwrap_err();
    assert_eq!(e, ParseError::BadInteger);
}

#[test]
fn error_bad_number() {
    let e = parse_osu_text(&beatmap_text("CircleSize:big\r\n", "", "64,64,10,1,0\r\n")).unwrap_err();
    assert_eq!(e, ParseError::BadNumber);
    let e = parse_osu_text(&beatmap_text("", "0,fast\r\n", "64,64,10,1,0\r\n")).unwrap_err();
    assert_eq!(e, ParseError::BadNumber);
    let e = parse_osu_text(&beatmap_text("", "", "64,64,soon,1,0\r\n")).unwrap_err();
    assert_eq!(e, ParseError::BadNumber);
    let e = parse_osu_text(&beatmap_text("", "", "64,64,10,2,0,L|1:2,1,long\r\n")).unwrap_err();
    assert_eq!(e, ParseError::BadNumber);
}

#[test]
fn error_too_many_fields() {
    let e = parse_osu_text(&beatmap_text("", "0,1,4,0,0,0,1,0,9\r\n", "64,64,10,1,0\r\n")).unwrap_err();
    assert_eq!(e, ParseError::TooManyFields);
}

#[test]
fn error_unknown_hit_object_type() {
    let e = parse_osu_text(&beatmap_text("", "", "64,64,10,4,0\r\n")).unwrap_err();
    assert_eq!(e, ParseError::UnknownHitObjectType);
}

#[test]
fn error_invalid_curve_type() {
    let e = parse_osu_text(&beatmap_text("", "", "64,64,10,2,0,X|1:2,1,10\r\n")).unwrap_err();
    assert_eq!(e, ParseError::InvalidCurveType);
}

#[test]
fn first_error_in_reading_order_wins() {
    // The difficulty section is read before the hit objects.
    let e = parse_osu_text(&beatmap_text("CircleSize:x\r\n", "", "64,64,10,4,0\r\n")).unwrap_err();
    assert_eq!(e, ParseError::BadNumber);
    // The type field is read before the position.
    let e = parse_osu_text(&beatmap_text("", "", "a,64,10,4,0\r\n")).unwrap_err();
    assert_eq!(e, ParseError::UnknownHitObjectType);
}

#[test]
fn unix_line_endings_do_not_make_sections() {
    let text = sample().replace("\r\n", "\n");
    assert_eq!(parse_osu_text(&text).unwrap_err(), ParseError::TooFewSections);
}
