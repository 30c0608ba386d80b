//! The scoring rules: how a hit is judged, what it is worth, how it counts
//! for accuracy and combo, and what happens to a hit object once it is hit.
use crate::osutypes::OsuHitObjectType;
use vstd::prelude::*;

verus! {

/// The judgement of one hit.
#[derive(Clone, Copy, Debug, PartialEq, Eq, Structural)]
pub enum HitScore {
    Great,
    Good,
    Meh,
    Miss,
    SliderTickHit,
    SliderRepeatHit,
    SliderEndHit,
    ComboMiss,
}

/// What a hit is worth in points.
pub open spec fn hit_value(h: HitScore) -> int {
    match h {
        HitScore::Great => 300,
        HitScore::Good => 100,
        HitScore::Meh => 50,
        HitScore::Miss | HitScore::ComboMiss => 0,
        HitScore::SliderTickHit => 10,
        HitScore::SliderRepeatHit | HitScore::SliderEndHit => 30,
    }
}

/// What a hit counts for accuracy, in hundredths: 1 for great, 0.66 for
/// good, 0.33 for meh, nothing otherwise.
pub open spec fn accuracy_weight(h: HitScore) -> int {
    match h {
        HitScore::Great => 100,
        HitScore::Good => 66,
        HitScore::Meh => 33,
        _ => 0,
    }
}

/// The accuracy weights of the hits, summed.
pub open spec fn accuracy_sum(hs: Seq<HitScore>) -> int
    decreases hs.len(),
{
    if hs.len() == 0 {
        0
    } else {
        accuracy_sum(hs.drop_last()) + accuracy_weight(hs.last())
    }
}

/// The judgement of a hit by how it lies against the hit windows.
pub open spec fn judgement(within_300: bool, within_100: bool, within_50: bool) -> HitScore {
    if within_300 {
        HitScore::Great
    } else if within_100 {
        HitScore::Good
    } else if within_50 {
        HitScore::Meh
    } else {
        HitScore::Miss
    }
}

impl HitScore {
    /// The judgement of a hit whose distance from its time is (or is not)
    /// within the great, good and meh windows: the first window it is within
    /// decides, and outside all of them it is a miss.
    pub fn from_window_checks(within_300: bool, within_100: bool, within_50: bool) -> (r: Self)
        ensures
            r == judgement(within_300, within_100, within_50),
    {
        if within_300 {
            HitScore::Great
        } else if within_100 {
            HitScore::Good
        } else if within_50 {
            HitScore::Meh
        } else {
            HitScore::Miss
        }
    }

    /// Whether the hit counts for accuracy: the four judgements of a click do.
    pub fn affects_accuracy(&self) -> (r: bool)
        ensures
            r == (*self is Great || *self is Good || *self is Meh || *self is Miss),
    {
        match self {
            HitScore::Great | HitScore::Good | HitScore::Meh | HitScore::Miss => true,
            _ => false,
        }
    }

    /// Whether the hit is a miss of either kind.
    pub fn is_miss(&self) -> (r: bool)
        ensures
            r == (*self is Miss || *self is ComboMiss),
    {
        match self {
            HitScore::Miss | HitScore::ComboMiss => true,
            _ => false,
        }
    }

    /// What the hit is worth in points.
    pub fn to_number(&self) -> (r: i32)
        ensures
            r == hit_value(*self),
    {
        match self {
            HitScore::Great => 300,
            HitScore::Good => 100,
            HitScore::Meh => 50,
            HitScore::Miss | HitScore::ComboMiss => 0,
            HitScore::SliderTickHit => 10,
            HitScore::SliderRepeatHit | HitScore::SliderEndHit => 30,
        }
    }

    /// What the hit counts for accuracy, in hundredths.
    pub fn accuracy_weight(&self) -> (r: u8)
        ensures
            r == accuracy_weight(*self),
    {
        match self {
            HitScore::Great => 100,
            HitScore::Good => 66,
            HitScore::Meh => 33,
            _ => 0,
        }
    }
}

/// The kinds of point along a slider that are checked as it is followed.
#[derive(Clone, Copy, Debug, PartialEq, Eq, Structural)]
pub enum TickType {
    SliderTick,
    SliderEnd,
    SliderRepeat,
}

impl TickType {
    /// The hit that following the slider through this point earns.
    pub fn to_hit_score(&self) -> (r: HitScore)
        ensures
            r == match *self {
                TickType::SliderTick => HitScore::SliderTickHit,
                TickType::SliderRepeat => HitScore::SliderRepeatHit,
                TickType::SliderEnd => HitScore::SliderEndHit,
            },
    {
        match self {
            TickType::SliderTick => HitScore::SliderTickHit,
            TickType::SliderRepeat => HitScore::SliderRepeatHit,
            TickType::SliderEnd => HitScore::SliderEndHit,
        }
    }
}

/// A hit to be added to the score.
#[derive(Clone, Copy, Debug, PartialEq, Eq, Structural)]
pub struct AddScore {
    pub score: HitScore,
}

impl AddScore {
    pub fn new(score: HitScore) -> (r: Self)
        ensures
            r.score == score,
    {
        AddScore { score }
    }
}

/// The score of a play so far: the points, the current combo and every hit
/// in order.
#[derive(Clone, Debug)]
pub struct ScoreInfo {
    pub score: usize,
    pub current_combo: usize,
    pub hit_score: Vec<HitScore>,
}

impl Default for ScoreInfo {
    fn default() -> (r: Self)
        ensures
            r.score == 0,
            r.current_combo == 0,
            r.hit_score@.len() == 0,
    {
        ScoreInfo { score: 0, current_combo: 0, hit_score: Vec::new() }
    }
}

impl ScoreInfo {
    /// Records a hit: it is added to the hits, and a miss ends the combo
    /// while any other hit extends it by one.
    pub fn record_hit(&mut self, hit: HitScore)
        requires
            old(self).current_combo < usize::MAX,
        ensures
            final(self).hit_score@ == old(self).hit_score@.push(hit),
            final(self).current_combo == if hit is Miss {
                0
            } else {
                old(self).current_combo + 1
            },
            final(self).score == old(self).score,
    {
        self.hit_score.push(hit);
        match hit {
            HitScore::Miss => {
                self.current_combo = 0;
            },
            _ => {
                self.current_combo = self.current_combo + 1;
            },
        }
    }

    /// The accuracy weights of all hits so far, summed (in hundredths); the
    /// accuracy is this divided by 100 times the number of hits.
    pub fn accuracy_hundredths(&self) -> (r: u128)
        ensures
            r == accuracy_sum(self.hit_score@),
    {
        let mut sum: u128 = 0;
        let mut i: usize = 0;
        assert(self.hit_score@.take(0) =~= Seq::<HitScore>::empty());
        while i < self.hit_score.len()
            invariant
                i <= self.hit_score@.len(),
                sum == accuracy_sum(self.hit_score@.take(i as int)),
                sum <= 100 * i,
            decreases self.hit_score@.len() - i,
        {
            assert(self.hit_score@.take(i + 1).drop_last() =~= self.hit_score@.take(i as int));
            let w = self.hit_score[i].accuracy_weight();
            sum = sum + (w as u128);
            i = i + 1;
        }
        assert(self.hit_score@.take(self.hit_score@.len() as int) =~= self.hit_score@);
        sum
    }
}

/// How many hits a press makes: one for Z or the left button, one for X or
/// the right button.
pub fn click_count(z_pressed: bool, left_pressed: bool, x_pressed: bool, right_pressed: bool) -> (r:
    usize)
    ensures
        r == (if z_pressed || left_pressed {
            1int
        } else {
            0
        }) + (if x_pressed || right_pressed {
            1int
        } else {
            0
        }),
{
    let mut count: usize = 0;
    if z_pressed || left_pressed {
        count = count + 1;
    }
    if x_pressed || right_pressed {
        count = count + 1;
    }
    count
}

/// What a slider tick that is checked earns: when a key or button is held
/// and the cursor is close enough, the tick's hit; otherwise a combo miss,
/// except at the slider's end, which earns nothing.
pub fn tick_check_outcome(
    tick_type: TickType,
    key_or_button_held: bool,
    cursor_in_range: bool,
) -> (r: Option<HitScore>)
    ensures
        r == if key_or_button_held && cursor_in_range {
            Some(
                match tick_type {
                    TickType::SliderTick => HitScore::SliderTickHit,
                    TickType::SliderRepeat => HitScore::SliderRepeatHit,
                    TickType::SliderEnd => HitScore::SliderEndHit,
                },
            )
        } else if tick_type is SliderEnd {
            None
        } else {
            Some(HitScore::ComboMiss)
        },
{
    if key_or_button_held && cursor_in_range {
        Some(tick_type.to_hit_score())
    } else {
        match tick_type {
            TickType::SliderEnd => None,
            _ => Some(HitScore::ComboMiss),
        }
    }
}

/// What becomes of a hit object once it is clicked or missed.
#[derive(Clone, Copy, Debug, PartialEq, Eq, Structural)]
pub enum HitAction {
    /// The circle is removed.
    Remove,
    /// The slider starts to move.
    StartSlider,
    /// Nothing happens.
    Keep,
}

impl OsuHitObjectType {
    /// A circle is removed, a slider starts to move, a spinner stays.
    pub fn hit_action(&self) -> (r: HitAction)
        ensures
            r == match *self {
                OsuHitObjectType::Circle(_) => HitAction::Remove,
                OsuHitObjectType::Slider(_) => HitAction::StartSlider,
                OsuHitObjectType::Spinner(_) => HitAction::Keep,
            },
    {
        match self {
            OsuHitObjectType::Circle(_) => HitAction::Remove,
            OsuHitObjectType::Slider(_) => HitAction::StartSlider,
            _ => HitAction::Keep,
        }
    }
}

/// A miss, of either kind, is worth no points.
pub proof fn law_miss_scores_nothing(h: HitScore)
    ensures
        (h is Miss || h is ComboMiss) ==> hit_value(h) == 0,
        !(h is Miss || h is ComboMiss) ==> hit_value(h) > 0,
{
}

/// Following a slider through a checked point earns points, is no miss and
/// does not count for accuracy.
pub proof fn law_tick_hits(t: TickType)
    ensures
        ({
            let h = match t {
                TickType::SliderTick => HitScore::SliderTickHit,
                TickType::SliderRepeat => HitScore::SliderRepeatHit,
                TickType::SliderEnd => HitScore::SliderEndHit,
            };
            &&& hit_value(h) > 0
            &&& !(h is Miss || h is ComboMiss)
            &&& accuracy_weight(h) == 0
        }),
{
}

/// The accuracy is between 0 and 1: the weights sum to at most 100 for
/// each hit.
pub proof fn law_accuracy_bounded(hs: Seq<HitScore>)
    ensures
        0 <= accuracy_sum(hs) <= 100 * hs.len(),
        accuracy_sum(hs) == 100 * hs.len() <==> forall|k: int| 0 <= k < hs.len() ==> #[trigger] hs[k]
            is Great,
    decreases hs.len(),
{
    if hs.len() > 0 {
        law_accuracy_bounded(hs.drop_last());
        if forall|k: int| 0 <= k < hs.len() ==> #[trigger] hs[k] is Great {
            assert(forall|k: int| 0 <= k < hs.drop_last().len() ==> #[trigger] hs.drop_last()[k]
                is Great) by {
                assert forall|k: int| 0 <= k < hs.drop_last().len() implies #[trigger] hs.drop_last()[k]
                    is Great by {
                    assert(hs[k] is Great);
                }
            }
            assert(hs[hs.len() - 1] is Great);
        }
        if accuracy_sum(hs) == 100 * hs.len() {
            assert forall|k: int| 0 <= k < hs.len() implies #[trigger] hs[k] is Great by {
                if k < hs.len() - 1 {
                    assert(hs.drop_last()[k] == hs[k]);
                }
            }
        }
    }
}

/// With nested windows (a hit within the great window is within the good
/// one, and one within the good window within the meh one), a hit is a miss
/// exactly when it is outside the meh window, and great exactly when it is
/// within the great window.
pub proof fn law_nested_windows(within_300: bool, within_100: bool, within_50: bool)
    requires
        within_300 ==> within_100,
        within_100 ==> within_50,
    ensures
        judgement(within_300, within_100, within_50) is Miss <==> !within_50,
        judgement(within_300, within_100, within_50) is Great <==> within_300,
        accuracy_weight(judgement(within_300, within_100, within_50)) > 0 <==> within_50,
{
}

/// Each hit adds its own share to the accuracy sum, whatever came before:
/// a great 1, a good 0.66, a meh 0.33 (in hundredths), anything else
/// nothing; and the sum over two runs of hits is the sum of their sums.
pub proof fn law_accuracy_adds(hs: Seq<HitScore>, h: HitScore, more: Seq<HitScore>)
    ensures
        accuracy_sum(hs.push(h)) == accuracy_sum(hs) + match h {
            HitScore::Great => 100int,
            HitScore::Good => 66int,
            HitScore::Meh => 33int,
            _ => 0int,
        },
        accuracy_sum(seq![HitScore::Good]) == 66,
        accuracy_sum(seq![HitScore::Meh]) == 33,
        accuracy_sum(hs + more) == accuracy_sum(hs) + accuracy_sum(more),
    decreases more.len(),
{
    assert(hs.push(h).drop_last() =~= hs);
    assert(accuracy_sum(seq![HitScore::Good]) == 66) by {
        assert(seq![HitScore::Good].drop_last() =~= Seq::<HitScore>::empty());
        assert(accuracy_sum(Seq::<HitScore>::empty()) == 0);
        assert(seq![HitScore::Good].last() == HitScore::Good);
    }
    assert(accuracy_sum(seq![HitScore::Meh]) == 33) by {
        assert(seq![HitScore::Meh].drop_last() =~= Seq::<HitScore>::empty());
        assert(accuracy_sum(Seq::<HitScore>::empty()) == 0);
        assert(seq![HitScore::Meh].last() == HitScore::Meh);
    }
    if more.len() == 0 {
        assert(hs + more =~= hs);
    } else {
        law_accuracy_adds(hs, h, more.drop_last());
        assert((hs + more).drop_last() =~= hs + more.drop_last());
        assert((hs + more).last() == more.last());
    }
}

/// What each hit is worth: a great 300 points, a good 100, a meh 50, a
/// slider tick 10, a slider repeat or end 30, a miss of either kind
/// nothing; so a better judgement of a click is worth more points and
/// more accuracy.
pub proof fn law_hit_values()
    ensures
        hit_value(HitScore::Great) == 300,
        hit_value(HitScore::Good) == 100,
        hit_value(HitScore::Meh) == 50,
        hit_value(HitScore::Miss) == 0,
        hit_value(HitScore::ComboMiss) == 0,
        hit_value(HitScore::SliderTickHit) == 10,
        hit_value(HitScore::SliderRepeatHit) == 30,
        hit_value(HitScore::SliderEndHit) == 30,
        accuracy_weight(HitScore::Great) > accuracy_weight(HitScore::Good) > accuracy_weight(
            HitScore::Meh,
        ) > accuracy_weight(HitScore::Miss) == 0,
{
}

/// The first window a hit is within decides its judgement: great within
/// the great window, else good within the good one, else meh within the
/// meh one, else a miss.
pub proof fn law_first_window_decides(within_300: bool, within_100: bool, within_50: bool)
    ensures
        within_300 ==> judgement(within_300, within_100, within_50) == HitScore::Great,
        !within_300 && within_100 ==> judgement(within_300, within_100, within_50) == HitScore::Good,
        !within_300 && !within_100 && within_50 ==> judgement(within_300, within_100, within_50)
            == HitScore::Meh,
        !within_300 && !within_100 && !within_50 ==> judgement(within_300, within_100, within_50)
            == HitScore::Miss,
{
}

} // verus!
