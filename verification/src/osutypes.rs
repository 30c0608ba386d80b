//! The contents of an osu! beatmap: hit objects, difficulty settings and
//! timing points. Numbers that the game keeps as floating point are held as
//! the decimal numbers that the beatmap text gives for them, in the form of
//! `DecimalNumber`, which keeps what decides the float they round to.
use crate::number::{finite_number, DecimalNumber, MAX_DIGITS};
use vstd::prelude::*;

verus! {

/// What a hit object is; the flag says whether it starts a new combo.
#[derive(Clone, Copy, Debug, PartialEq, Eq, Structural)]
pub enum OsuHitObjectType {
    Circle(bool),
    Slider(bool),
    Spinner(bool),
}

impl Default for OsuHitObjectType {
    fn default() -> (r: Self)
        ensures
            r == OsuHitObjectType::Circle(false),
    {
        OsuHitObjectType::Circle(false)
    }
}

impl OsuHitObjectType {
    /// Circles and sliders are clicked like a circle; spinners are not.
    pub fn is_circle_like(&self) -> (r: bool)
        ensures
            r == !(*self is Spinner),
    {
        match self {
            OsuHitObjectType::Circle(_) | OsuHitObjectType::Slider(_) => true,
            _ => false,
        }
    }
}

/// The sound a hit object plays.
#[derive(Clone, Copy, Debug, PartialEq, Eq, Structural)]
pub enum OsuHitSound {
    Normal,
    Whistle,
    Finish,
    Clap,
}

impl Default for OsuHitSound {
    fn default() -> (r: Self)
        ensures
            r == OsuHitSound::Normal,
    {
        OsuHitSound::Normal
    }
}

/// The kind of curve a slider follows.
#[derive(Clone, Copy, Debug, PartialEq, Eq, Structural)]
pub enum CurveType {
    Bezier,
    Centripetal,
    Linear,
    PerfectCircle,
}

/// A position in osu! pixels (the playfield is 512 by 384).
#[derive(Clone, Copy, Debug, PartialEq, Eq, Structural)]
pub struct Point {
    pub x: i32,
    pub y: i32,
}

impl Default for Point {
    fn default() -> (r: Self)
        ensures
            r == (Point { x: 0, y: 0 }),
    {
        Point { x: 0, y: 0 }
    }
}

/// The path of a slider: its curve kind and control points, how many times
/// it is travelled, and its length in osu! pixels.
#[derive(Clone, Debug)]
pub struct Slider {
    pub curve_type: CurveType,
    pub curve_points: Vec<Point>,
    pub slides: u32,
    pub length: DecimalNumber,
}

/// The mathematical content of a `Slider`.
pub struct SliderView {
    pub curve_type: CurveType,
    pub curve_points: Seq<Point>,
    pub slides: u32,
    pub length: DecimalNumber,
}

impl View for Slider {
    type V = SliderView;

    open spec fn view(&self) -> SliderView {
        SliderView {
            curve_type: self.curve_type,
            curve_points: self.curve_points@,
            slides: self.slides,
            length: self.length,
        }
    }
}

/// The parameters of a spinner (it has none that the game reads).
#[derive(Clone, Copy, Debug, PartialEq, Eq, Structural)]
pub struct Spinner {}

/// One hit object of a beatmap. `time` is when it is to be hit, in
/// milliseconds from the start of the song, as the beatmap writes it.
#[derive(Clone, Debug)]
pub struct OsuHitObject {
    pub pos: Point,
    pub time: DecimalNumber,
    pub hitobjecttype: OsuHitObjectType,
    pub hitsound: OsuHitSound,
    pub slider_params: Option<Slider>,
    pub spinner_params: Option<Spinner>,
}

/// The mathematical content of an `OsuHitObject`.
pub struct HitObjectView {
    pub pos: Point,
    pub time: DecimalNumber,
    pub hitobjecttype: OsuHitObjectType,
    pub hitsound: OsuHitSound,
    pub slider_params: Option<SliderView>,
    pub spinner_params: Option<Spinner>,
}

impl View for OsuHitObject {
    type V = HitObjectView;

    open spec fn view(&self) -> HitObjectView {
        HitObjectView {
            pos: self.pos,
            time: self.time,
            hitobjecttype: self.hitobjecttype,
            hitsound: self.hitsound,
            slider_params: match self.slider_params {
                Some(s) => Some(s@),
                None => None,
            },
            spinner_params: self.spinner_params,
        }
    }
}

/// The difficulty settings of a beatmap.
#[derive(Clone, Copy, Debug, PartialEq, Eq)]
pub struct OsuDifficulty {
    pub hp_drain: DecimalNumber,
    pub circle_size: DecimalNumber,
    pub overall_diff: DecimalNumber,
    pub approach_rate: DecimalNumber,
    pub slider_multiplier: DecimalNumber,
}

/// The whole number with the decimal digits `ds` (none for zero).
pub open spec fn whole(ds: Seq<u8>) -> DecimalNumber {
    finite_number(false, ds, false, 0)
}

/// The whole number with the decimal digits `ds` (none for zero).
pub fn whole_number(ds: &Vec<u8>) -> (r: DecimalNumber)
    requires
        ds@.len() <= MAX_DIGITS,
    ensures
        r == whole(ds@),
{
    DecimalNumber::from_digits(false, ds, false, 0)
}

/// The settings a beatmap has where it gives none: HP drain 5, circle size 5,
/// approach rate 8, overall difficulty 5 and slider multiplier 5.
pub open spec fn default_difficulty() -> OsuDifficulty {
    OsuDifficulty {
        hp_drain: whole(seq![5u8]),
        circle_size: whole(seq![5u8]),
        overall_diff: whole(seq![5u8]),
        approach_rate: whole(seq![8u8]),
        slider_multiplier: whole(seq![5u8]),
    }
}

impl Default for OsuDifficulty {
    fn default() -> (r: Self)
        ensures
            r == default_difficulty(),
    {
        let five_digits = vec![5u8];
        let eight_digits = vec![8u8];
        assert(five_digits@ =~= seq![5u8]);
        assert(eight_digits@ =~= seq![8u8]);
        let five = whole_number(&five_digits);
        OsuDifficulty {
            hp_drain: five,
            circle_size: five,
            approach_rate: whole_number(&eight_digits),
            overall_diff: five,
            slider_multiplier: five,
        }
    }
}

/// A timing point: from `time` (milliseconds) on, either a new beat length
/// (`uninherited`) or a slider velocity change (inherited, where a negative
/// `beat_length` of -100/v stands for velocity v).
#[derive(Clone, Copy, Debug, PartialEq, Eq)]
pub struct OsuTimingPoint {
    pub time: i32,
    pub beat_length: DecimalNumber,
    pub meter: i32,
    pub sample_set: i32,
    pub sample_index: i32,
    pub volume: i32,
    pub uninherited: bool,
    pub effects: i32,
}

/// The timing point whose fields are all zero (and not uninherited).
pub open spec fn zero_timing_point() -> OsuTimingPoint {
    OsuTimingPoint {
        time: 0,
        beat_length: whole(Seq::empty()),
        meter: 0,
        sample_set: 0,
        sample_index: 0,
        volume: 0,
        uninherited: false,
        effects: 0,
    }
}

impl Default for OsuTimingPoint {
    fn default() -> (r: Self)
        ensures
            r == zero_timing_point(),
    {
        let none: Vec<u8> = Vec::new();
        OsuTimingPoint::new(0, whole_number(&none), 0, 0, 0, 0, false, 0)
    }
}

impl OsuTimingPoint {
    /// A timing point with the given fields.
    pub fn new(
        time: i32,
        beat_length: DecimalNumber,
        meter: i32,
        sample_set: i32,
        sample_index: i32,
        volume: i32,
        uninherited: bool,
        effects: i32,
    ) -> (r: Self)
        ensures
            r == (OsuTimingPoint {
                time,
                beat_length,
                meter,
                sample_set,
                sample_index,
                volume,
                uninherited,
                effects,
            }),
    {
        OsuTimingPoint {
            time,
            beat_length,
            meter,
            sample_set,
            sample_index,
            volume,
            uninherited,
            effects,
        }
    }

    /// A timing point whose fields are the tuple's, in order.
    pub fn from_tuple(t: (i32, DecimalNumber, i32, i32, i32, i32, bool, i32)) -> (r: Self)
        ensures
            r == (OsuTimingPoint {
                time: t.0,
                beat_length: t.1,
                meter: t.2,
                sample_set: t.3,
                sample_index: t.4,
                volume: t.5,
                uninherited: t.6,
                effects: t.7,
            }),
    {
        OsuTimingPoint::new(t.0, t.1, t.2, t.3, t.4, t.5, t.6, t.7)
    }
}

/// A beatmap as its text gives it.
#[derive(Clone, Debug)]
pub struct OsuBeatmap {
    pub hit_objects: Vec<OsuHitObject>,
    pub difficulty: OsuDifficulty,
    pub timing_points: Vec<OsuTimingPoint>,
}

/// The mathematical content of an `OsuBeatmap`.
pub struct BeatmapView {
    pub hit_objects: Seq<HitObjectView>,
    pub difficulty: OsuDifficulty,
    pub timing_points: Seq<OsuTimingPoint>,
}

impl View for OsuBeatmap {
    type V = BeatmapView;

    open spec fn view(&self) -> BeatmapView {
        BeatmapView {
            hit_objects: self.hit_objects@.map_values(|h: OsuHitObject| h@),
            difficulty: self.difficulty,
            timing_points: self.timing_points@,
        }
    }
}

impl Default for OsuBeatmap {
    fn default() -> (r: Self)
        ensures
            r@.hit_objects.len() == 0,
            r@.timing_points.len() == 0,
            r@.difficulty == default_difficulty(),
    {
        OsuBeatmap {
            hit_objects: Vec::new(),
            difficulty: OsuDifficulty::default(),
            timing_points: Vec::new(),
        }
    }
}

} // verus!
