use o_rs_u::number::DecimalNumber;
use o_rs_u::osutypes::{OsuBeatmap, OsuDifficulty, OsuHitObjectType, OsuTimingPoint, Point};
use o_rs_u::scoring::{
    click_count, tick_check_outcome, AddScore, HitAction, HitScore, ScoreInfo, TickType,
};
use o_rs_u::sliders::{remove_indices, slide_end_index, ticks_passed};
use o_rs_u::timing::default_osu_timing_point;

fn num(negative: bool, mantissa: u128, exponent: i64) -> DecimalNumber {
    let ds: Vec<u8> = if mantissa == 0 {
        vec![]
    } else {
        mantissa.to_string().bytes().map(|b| b - b'0').collect()
    };
    DecimalNumber::from_digits(negative, &ds, false, exponent)
}

fn beatmap_with(points: Vec<OsuTimingPoint>) -> OsuBeatmap {
    OsuBeatmap { hit_objects: Vec::new(), difficulty: OsuDifficulty::default(), timing_points: points }
}

fn red(time: i32, beat: u128) -> OsuTimingPoint {
    OsuTimingPoint::new(time, num(false, beat, 0), 4, 0, 0, 100, true, 0)
}

fn green(time: i32, beat: u128) -> OsuTimingPoint {
    OsuTimingPoint::new(time, num(true, beat, 0), 4, 0, 0, 100, false, 0)
}

#[test]
fn default_timing_point_is_600_ms_in_four() {
    let d = default_osu_timing_point();
    assert_eq!(d, OsuTimingPoint::new(0, num(false, 600, 0), 4, 0, 0, 0, true, 0));
}

#[test]
fn no_timing_points_gives_the_default() {
    let b = beatmap_with(vec![]);
    assert_eq!(b.get_current_timing_points(1234), (default_osu_timing_point(), None));
    assert_eq!(b.get_beat_length(1234), num(false, 600, 0));
    assert_eq!(b.get_current_slider_velocity(1234), None);
}

#[test]
fn timing_points_in_force() {
    let b = beatmap_with(vec![red(100, 400), green(2000, 50), red(3000, 300), green(4000, 200)]);
    assert_eq!(b.get_current_timing_points(50), (default_osu_timing_point(), None));
    assert_eq!(b.get_current_timing_points(100), (default_osu_timing_point(), None));
    assert_eq!(b.get_current_timing_points(101), (red(100, 400), None));
    assert_eq!(b.get_current_timing_points(2000), (red(100, 400), None));
    assert_eq!(b.get_current_timing_points(2001), (red(100, 400), Some(green(2000, 50))));
    assert_eq!(b.get_current_timing_points(3500), (red(3000, 300), None));
    assert_eq!(b.get_current_timing_points(5000), (red(3000, 300), Some(green(4000, 200))));
    assert_eq!(b.get_beat_length(2500), num(false, 400, 0));
    assert_eq!(b.get_current_slider_velocity(2500), Some(num(true, 50, 0)));
    assert_eq!(b.get_current_slider_velocity(3500), None);
}

#[test]
fn reading_stops_at_the_first_later_point() {
    // The 500 point starts after 300, so the 200 point after it is never read.
    let b = beatmap_with(vec![red(100, 400), red(500, 350), green(200, 80)]);
    assert_eq!(b.get_current_timing_points(300), (red(100, 400), None));
    let shorter = beatmap_with(vec![red(100, 400), red(500, 350)]);
    assert_eq!(b.get_current_timing_points(300), shorter.get_current_timing_points(300));
}

#[test]
fn an_inherited_point_is_the_last_read() {
    let b = beatmap_with(vec![green(10, 50), green(20, 25), red(30, 500)]);
    assert_eq!(b.get_current_timing_points(25), (default_osu_timing_point(), Some(green(20, 25))));
    assert_eq!(b.get_current_timing_points(35), (red(30, 500), None));
}

#[test]
fn judgements_by_window() {
    assert_eq!(HitScore::from_window_checks(true, true, true), HitScore::Great);
    assert_eq!(HitScore::from_window_checks(false, true, true), HitScore::Good);
    assert_eq!(HitScore::from_window_checks(false, false, true), HitScore::Meh);
    assert_eq!(HitScore::from_window_checks(false, false, false), HitScore::Miss);
    assert_eq!(HitScore::from_window_checks(true, false, false), HitScore::Great);
}

#[test]
fn hit_values() {
    let all = [
        (HitScore::Great, 300, true, false, 100),
        (HitScore::Good, 100, true, false, 66),
        (HitScore::Meh, 50, true, false, 33),
        (HitScore::Miss, 0, true, true, 0),
        (HitScore::SliderTickHit, 10, false, false, 0),
        (HitScore::SliderRepeatHit, 30, false, false, 0),
        (HitScore::SliderEndHit, 30, false, false, 0),
        (HitScore::ComboMiss, 0, false, true, 0),
    ];
    for (h, value, accuracy, miss, weight) in all {
        assert_eq!(h.to_number(), value);
        assert_eq!(h.affects_accuracy(), accuracy);
        assert_eq!(h.is_miss(), miss);
        assert_eq!(h.accuracy_weight(), weight);
        if miss {
            assert_eq!(h.to_number(), 0);
        }
    }
}

#[test]
fn tick_hits() {
    assert_eq!(TickType::SliderTick.to_hit_score(), HitScore::SliderTickHit);
    assert_eq!(TickType::SliderRepeat.to_hit_score(), HitScore::SliderRepeatHit);
    assert_eq!(TickType::SliderEnd.to_hit_score(), HitScore::SliderEndHit);
    for t in [TickType::SliderTick, TickType::SliderRepeat, TickType::SliderEnd] {
        let h = t.to_hit_score();
        assert!(h.to_number() > 0 && !h.is_miss() && !h.affects_accuracy());
    }
}

#[test]
fn tick_checks() {
    assert_eq!(tick_check_outcome(TickType::SliderTick, true, true), Some(HitScore::SliderTickHit));
    assert_eq!(tick_check_outcome(TickType::SliderTick, true, false), Some(HitScore::ComboMiss));
    assert_eq!(tick_check_outcome(TickType::SliderRepeat, false, true), Some(HitScore::ComboMiss));
    assert_eq!(tick_check_outcome(TickType::SliderEnd, true, true), Some(HitScore::SliderEndHit));
    assert_eq!(tick_check_outcome(TickType::SliderEnd, false, true), None);
    assert_eq!(tick_check_outcome(TickType::SliderEnd, true, false), None);
}

#[test]
fn combo_and_accuracy() {
    let mut s = ScoreInfo::default();
    assert_eq!(s.accuracy_hundredths(), 0);
    s.record_hit(HitScore::Great);
    s.record_hit(HitScore::Good);
    s.record_hit(HitScore::SliderTickHit);
    assert_eq!(s.current_combo, 3);
    s.record_hit(HitScore::ComboMiss);
    assert_eq!(s.current_combo, 4);
    s.record_hit(HitScore::Miss);
    assert_eq!(s.current_combo, 0);
    s.record_hit(HitScore::Meh);
    assert_eq!(s.current_combo, 1);
    assert_eq!(
        s.hit_score,
        vec![
            HitScore::Great,
            HitScore::Good,
            HitScore::SliderTickHit,
            HitScore::ComboMiss,
            HitScore::Miss,
            HitScore::Meh
        ]
    );
    assert_eq!(s.accuracy_hundredths(), 100 + 66 + 33);
    assert!(s.accuracy_hundredths() <= 100 * s.hit_score.len() as u128);
    assert_eq!(s.score, 0);
}

#[test]
fn all_great_is_full_accuracy() {
    let mut s = ScoreInfo::default();
    for _ in 0..4 {
        s.record_hit(HitScore::Great);
    }
    assert_eq!(s.accuracy_hundredths(), 400);
}

#[test]
fn add_score_holds_its_hit() {
    assert_eq!(AddScore::new(HitScore::Meh).score, HitScore::Meh);
}

#[test]
fn clicks_count_keys_and_buttons() {
    assert_eq!(click_count(false, false, false, false), 0);
    assert_eq!(click_count(true, false, false, false), 1);
    assert_eq!(click_count(true, true, false, false), 1);
    assert_eq!(click_count(false, true, false, true), 2);
    assert_eq!(click_count(false, false, true, false), 1);
}

#[test]
fn what_a_hit_does() {
    assert_eq!(OsuHitObjectType::Circle(true).hit_action(), HitAction::Remove);
    assert_eq!(OsuHitObjectType::Slider(false).hit_action(), HitAction::StartSlider);
    assert_eq!(OsuHitObjectType::Spinner(false).hit_action(), HitAction::Keep);
    assert!(OsuHitObjectType::Circle(false).is_circle_like());
    assert!(OsuHitObjectType::Slider(true).is_circle_like());
    assert!(!OsuHitObjectType::Spinner(true).is_circle_like());
    assert_eq!(OsuHitObjectType::default(), OsuHitObjectType::Circle(false));
    assert_eq!(Point::default(), Point { x: 0, y: 0 });
}

#[test]
fn slider_ends_alternate() {
    assert_eq!(slide_end_index(1, 5), 4);
    assert_eq!(slide_end_index(2, 5), 0);
    assert_eq!(slide_end_index(3, 5), 4);
    assert_eq!(slide_end_index(0, 5), 0);
}

#[test]
fn ticks_passed_counts_tick_indices() {
    let ticks = vec![2, 5, 9];
    assert_eq!(ticks_passed(&ticks, 0, 10), 3);
    assert_eq!(ticks_passed(&ticks, 3, 9), 1);
    assert_eq!(ticks_passed(&ticks, 5, 6), 1);
    assert_eq!(ticks_passed(&ticks, 6, 5), 0);
    assert_eq!(ticks_passed(&ticks, 0, 0), 0);
}

#[test]
fn timing_point_from_tuple() {
    let t = OsuTimingPoint::from_tuple((7, num(false, 1, 2), 3, 1, 2, 80, true, 1));
    assert_eq!(t, OsuTimingPoint::new(7, num(false, 1, 2), 3, 1, 2, 80, true, 1));
}

#[test]
fn finished_sliders_are_removed_by_index() {
    let mut v = vec!['a', 'b', 'c', 'd', 'e'];
    remove_indices(&mut v, &vec![0, 2, 4]);
    assert_eq!(v, vec!['b', 'd']);
    let mut w = vec![1, 2, 3];
    remove_indices(&mut w, &vec![]);
    assert_eq!(w, vec![1, 2, 3]);
    remove_indices(&mut w, &vec![0, 1, 2]);
    assert!(w.is_empty());
}
