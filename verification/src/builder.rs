//! The search: it proposes circles at candidate points, keeps those that
//! bring the canvas closer to the reference, and shrinks the radius as the
//! successes get rare.

use crate::canvas::{
    blit_rows, crop_rows, lemma_delta_blit, painted, seq_delta, seq_value, Canvas,
    MAX_DRAW_COORDINATE,
};
use crate::circle::Circle;
use crate::color::Rgba;
use crate::ratio::Ratio;
use crate::point_selector::RandomPointSelector;
use crate::rate_meter::{last_n, seq_sum, Rate, RateMeter};
use crate::region::Region;
use vstd::prelude::*;

verus! {

/// The number of samples over which the success rate at a radius is taken.
pub const METER_WINDOW: usize = 100;

/// The largest radius that a build may start from: a circle of that radius
/// in a crop can still be drawn.
pub const MAX_RADIUS: u32 = MAX_DRAW_COORDINATE / 2;

/// The options of a build.
#[derive(Debug, Copy, Clone)]
pub struct BuildConfig {
    /// The radius of the first circles.
    pub max_radius: u32,
    /// The build ends when the radius falls below this.
    pub min_radius: u32,
    /// The radius steps down when the success rate is below this.
    pub radius_shrink_threshold: Ratio,
    /// The part of the radius that a step takes off.
    pub radius_step: Ratio,
    /// The radius steps down after this many attempts in any case.
    pub radius_attempt_limit: usize,
    /// A region whose value is this close to the reference's is left alone.
    pub similarity_threshold: Ratio,
}

impl BuildConfig {
    /// The radii run from a positive minimum up to a maximum that can be
    /// drawn, the fractions have a value, and a step takes off no more than
    /// the whole radius.
    pub open spec fn valid(&self) -> bool {
        &&& 1 <= self.min_radius <= self.max_radius <= MAX_RADIUS
        &&& self.radius_shrink_threshold.wf()
        &&& self.radius_step.wf()
        &&& self.radius_step.at_most_one()
        &&& self.similarity_threshold.wf()
    }

    /// The most attempts that are made at one radius.
    pub open spec fn attempt_cap(&self) -> int {
        if self.radius_attempt_limit == 0 {
            1
        } else {
            self.radius_attempt_limit as int
        }
    }

    pub fn is_valid(&self) -> (valid: bool)
        ensures
            valid == self.valid(),
    {
        1 <= self.min_radius && self.min_radius <= self.max_radius && self.max_radius
            <= MAX_RADIUS && self.radius_shrink_threshold.denominator > 0
            && self.radius_step.denominator > 0 && self.radius_step.numerator
            <= self.radius_step.denominator && self.similarity_threshold.denominator > 0
    }
}

impl Default for BuildConfig {
    /// The usual options: radii from 500 down to 1, a step of a tenth, a
    /// step down below two successes in ten or after 5000 attempts, and a
    /// similarity threshold of nine tenths.
    fn default() -> (config: BuildConfig)
        ensures
            config.valid(),
            config == (BuildConfig {
                max_radius: 500,
                min_radius: 1,
                radius_shrink_threshold: Ratio { numerator: 2, denominator: 10 },
                radius_step: Ratio { numerator: 1, denominator: 10 },
                radius_attempt_limit: 5000,
                similarity_threshold: Ratio { numerator: 9, denominator: 10 },
            }),
    {
        BuildConfig {
            max_radius: 500,
            min_radius: 1,
            radius_shrink_threshold: Ratio { numerator: 2, denominator: 10 },
            radius_step: Ratio { numerator: 1, denominator: 10 },
            radius_attempt_limit: 5000,
            similarity_threshold: Ratio { numerator: 9, denominator: 10 },
        }
    }
}

/// The counters of a build.
#[derive(Debug, Copy, Clone)]
pub struct Stats {
    /// Attempts made so far.
    pub total_attempts: u128,
    /// Circles placed so far.
    pub total_successes: usize,
    /// Attempts given up because the region was close enough already.
    pub total_skips: u128,
    /// Attempts made at the current radius.
    pub radius_attempts: usize,
    /// Circles placed at the current radius.
    pub radius_successes: usize,
    /// The reading of the meter when the radius last stepped down.
    pub radius_success_rate: Option<Rate>,
    /// The current radius.
    pub radius: u32,
    /// The distance of the canvas from the reference, as it is now.
    pub delta: u64,
}

/// How an attempt ended.
#[derive(Debug, Copy, Clone, PartialEq, Eq, Structural)]
pub enum Attempt {
    /// The radius fell below the minimum: the build is over.
    Finished,
    /// The canvas already had the reference's colour at the point.
    Same,
    /// The region was close enough to the reference already.
    Skipped,
    /// The candidate was closer to the reference and was kept.
    Accepted,
    /// The candidate was no closer and was dropped.
    Rejected,
}

/// What a step takes off a radius: the given part of it, rounded down, and
/// at least one.
pub open spec fn step_of(radius: u32, step: Ratio) -> int {
    let raw = (radius * step.numerator) / (step.denominator as int);
    if raw < 1 {
        1
    } else {
        raw
    }
}

/// A region is close enough when its value is less than the reference's and
/// their quotient is more than the threshold. Where the reference's value is
/// zero there is no quotient, and the region is not close enough.
pub open spec fn similar_enough(current_value: int, reference_value: int, threshold: Ratio) -> bool {
    &&& 0 < reference_value
    &&& current_value < reference_value
    &&& current_value * threshold.denominator > threshold.numerator * reference_value
}

/// The bytes of the section that a canvas gives for a region.
pub open spec fn crop_of(canvas: &Canvas, region: &Region) -> Seq<u8> {
    crop_rows(
        canvas@,
        canvas.spec_width() as int,
        canvas.section_x(region),
        canvas.section_y(region),
        canvas.section_width(region),
        canvas.section_height(region) as nat,
    )
}

/// The colour that a candidate at `(x, y)` has: the reference's there.
pub open spec fn candidate_color(reference: &Canvas, x: u32, y: u32) -> Rgba {
    let pixel = reference.pixel(x as int, y as int);
    Rgba::opaque(pixel.r, pixel.g, pixel.b)
}

/// The candidate at `(x, y)`: the canvas's section for the circle's region,
/// with the circle filled on it.
pub open spec fn candidate_of(reference: &Canvas, current: &Canvas, x: u32, y: u32, radius: u32) -> Seq<
    u8,
> {
    let region = Region::spec_new(x, y, radius);
    painted(
        crop_of(current, &region),
        current.section_width(&region),
        region.spec_real_center_x(),
        region.spec_real_center_y(),
        radius as int,
        candidate_color(reference, x, y),
    )
}

/// How the placement of a circle at `(x, y)` ends.
pub open spec fn placement(
    reference: &Canvas,
    current: &Canvas,
    similarity: Ratio,
    x: u32,
    y: u32,
    radius: u32,
) -> Attempt {
    let region = Region::spec_new(x, y, radius);
    let reference_crop = crop_of(reference, &region);
    let current_crop = crop_of(current, &region);
    if reference.pixel(x as int, y as int) == current.pixel(x as int, y as int) {
        Attempt::Same
    } else if similar_enough(seq_value(current_crop), seq_value(reference_crop), similarity) {
        Attempt::Skipped
    } else if seq_delta(reference_crop, candidate_of(reference, current, x, y, radius))
        < seq_delta(reference_crop, current_crop) {
        Attempt::Accepted
    } else {
        Attempt::Rejected
    }
}

/// The canvas after the candidate at `(x, y)` was kept: the candidate lies
/// where its section was cut.
pub open spec fn placed(reference: &Canvas, current: &Canvas, x: u32, y: u32, radius: u32) -> Seq<
    u8,
> {
    let region = Region::spec_new(x, y, radius);
    blit_rows(
        current@,
        current.spec_width() as int,
        current.section_x(&region),
        current.section_y(&region),
        candidate_of(reference, current, x, y, radius),
        current.section_width(&region),
        current.section_width(&region),
        current.section_height(&region) as nat,
    )
}

/// The distance of the canvas from the reference after the candidate at
/// `(x, y)` was kept.
pub open spec fn placed_delta(
    reference: &Canvas,
    current: &Canvas,
    x: u32,
    y: u32,
    radius: u32,
) -> int {
    seq_delta(reference@, placed(reference, current, x, y, radius))
}

/// The counters after a placement. `delta` is the distance of the canvas
/// from the reference where the candidate was kept.
pub open spec fn placed_stats(stats: Stats, outcome: Attempt, delta: int) -> Stats {
    match outcome {
        Attempt::Skipped => Stats { total_skips: (stats.total_skips + 1) as u128, ..stats },
        Attempt::Accepted => Stats {
            radius_successes: (stats.radius_successes + 1) as usize,
            total_successes: (stats.total_successes + 1) as usize,
            delta: delta as u64,
            ..stats
        },
        _ => stats,
    }
}

/// The meter's window after a placement: a kept candidate counts as one, a
/// dropped or skipped one as zero, and a point that needed nothing does not
/// count.
pub open spec fn placed_window(window: Seq<usize>, outcome: Attempt) -> Seq<usize> {
    match outcome {
        Attempt::Accepted => last_n(window.push(1), METER_WINDOW as int),
        Attempt::Skipped | Attempt::Rejected => last_n(window.push(0), METER_WINDOW as int),
        _ => window,
    }
}

/// The least time between two updates, in milliseconds: ten updates a
/// second.
pub const UPDATE_INTERVAL_MILLIS: u128 = 100;

/// What a build tells its watcher.
pub enum BuilderUpdate {
    /// The canvas as it is now.
    Preview(Canvas),
    /// The counters as they are now.
    Stats(Stats),
}

/// Every sample is a miss or a hit: zero or one.
pub open spec fn at_most_ones(samples: Seq<usize>) -> bool {
    forall|i: int| 0 <= i < samples.len() ==> (#[trigger] samples[i]) <= 1
}

/// Reads colours off a canvas.
pub struct ColorPicker {}

impl ColorPicker {
    /// The colour of the canvas at `(x, y)`.
    pub fn sample(canvas: &Canvas, x: u32, y: u32) -> (color: Rgba)
        requires
            canvas.wf(),
            canvas.contains(x as int, y as int),
        ensures
            color == canvas.pixel(x as int, y as int),
            color.a == 255,
    {
        canvas.get_pixel(x, y)
    }
}

/// A build in progress: the reference, the canvas that approaches it, the
/// circles placed so far, and the state of the radius schedule.
pub struct Builder {
    reference: Canvas,
    current: Canvas,
    config: BuildConfig,
    circles: Vec<Circle>,
    stats: Stats,
    meter: RateMeter,
}

impl Builder {
    pub closed spec fn spec_reference(&self) -> Canvas {
        self.reference
    }

    pub closed spec fn spec_current(&self) -> Canvas {
        self.current
    }

    pub closed spec fn spec_config(&self) -> BuildConfig {
        self.config
    }

    pub closed spec fn spec_circles(&self) -> Seq<Circle> {
        self.circles@
    }

    pub closed spec fn spec_stats(&self) -> Stats {
        self.stats
    }

    pub closed spec fn spec_meter(&self) -> RateMeter {
        self.meter
    }

    /// What a build can start from: a valid configuration and a reference
    /// with at least one pixel whose every region has signed 32-bit bounds.
    pub open spec fn accepts(reference: &Canvas, config: &BuildConfig) -> bool {
        &&& reference.wf()
        &&& config.valid()
        &&& 0 < reference.spec_width()
        &&& 0 < reference.spec_height()
        &&& reference.spec_width() + config.max_radius <= i32::MAX
        &&& reference.spec_height() + config.max_radius <= i32::MAX
    }

    /// The state of a build is consistent: the canvas has the reference's
    /// size, the counters hold its distance from the reference, the meter
    /// holds hits and misses, the success rate is at most one, the radius
    /// has not grown, every attempt is accounted to a radius, and every
    /// success to a circle.
    pub open spec fn wf(&self) -> bool {
        let stats = self.spec_stats();
        let config = self.spec_config();
        &&& Self::accepts(&self.spec_reference(), &config)
        &&& self.spec_current().wf()
        &&& self.spec_current().spec_width() == self.spec_reference().spec_width()
        &&& self.spec_current().spec_height() == self.spec_reference().spec_height()
        &&& stats.delta == self.total_delta()
        &&& self.spec_meter().wf()
        &&& self.spec_meter().spec_limit() == METER_WINDOW
        &&& at_most_ones(self.spec_meter()@)
        &&& match stats.radius_success_rate {
            Some(rate) => rate.sum <= rate.limit,
            None => true,
        }
        &&& stats.radius <= config.max_radius
        &&& stats.radius_attempts < config.attempt_cap()
        &&& stats.total_attempts <= (config.max_radius - stats.radius) * config.attempt_cap()
            + stats.radius_attempts
        &&& stats.total_successes == self.spec_circles().len()
        &&& stats.radius_successes <= stats.total_successes
        &&& stats.total_skips <= stats.total_attempts
    }

    /// The radius is below the minimum: the build is over.
    pub open spec fn finished(&self) -> bool {
        self.spec_stats().radius < self.spec_config().min_radius
    }

    /// The distance of the canvas from the reference.
    pub open spec fn total_delta(&self) -> int {
        self.spec_reference().spec_delta(&self.spec_current())
    }

    /// Whether the next attempt steps the radius down: the success rate has
    /// a reading below the threshold, or the attempts at this radius reach
    /// their limit.
    pub open spec fn fires(&self) -> bool {
        self.spec_meter().spec_is_below(self.spec_config().radius_shrink_threshold)
            || self.spec_stats().radius_attempts + 1 >= self.spec_config().radius_attempt_limit
    }

    /// The radius at which the next attempt places its circle.
    pub open spec fn next_radius(&self) -> u32 {
        if self.fires() {
            (self.spec_stats().radius - step_of(
                self.spec_stats().radius,
                self.spec_config().radius_step,
            )) as u32
        } else {
            self.spec_stats().radius
        }
    }

    /// The counters after the schedule check of the next attempt.
    pub open spec fn scheduled_stats(&self) -> Stats {
        let stats = self.spec_stats();
        if self.fires() {
            Stats {
                total_attempts: (stats.total_attempts + 1) as u128,
                radius_attempts: 0,
                radius_successes: 0,
                radius_success_rate: self.spec_meter().spec_rate(),
                radius: self.next_radius(),
                ..stats
            }
        } else {
            Stats {
                total_attempts: (stats.total_attempts + 1) as u128,
                radius_attempts: (stats.radius_attempts + 1) as usize,
                ..stats
            }
        }
    }

    /// The meter's window after the schedule check of the next attempt.
    pub open spec fn scheduled_window(&self) -> Seq<usize> {
        if self.fires() {
            Seq::empty()
        } else {
            self.spec_meter()@
        }
    }

    /// How the next attempt ends when its point is `(x, y)`.
    pub open spec fn outcome(&self, x: u32, y: u32) -> Attempt {
        if self.next_radius() < self.spec_config().min_radius {
            Attempt::Finished
        } else {
            placement(
                &self.spec_reference(),
                &self.spec_current(),
                self.spec_config().similarity_threshold,
                x,
                y,
                self.next_radius(),
            )
        }
    }

    /// What an attempt at `(x, y)` makes of this state: `after` is the state
    /// that it leaves. The counters, the meter, the circles and the canvas
    /// are those that the schedule check and the placement give.
    pub open spec fn attempted(&self, after: Builder, x: u32, y: u32) -> bool {
        let outcome = self.outcome(x, y);
        let radius = self.next_radius();
        &&& after.wf()
        &&& after.spec_reference() == self.spec_reference()
        &&& after.spec_config() == self.spec_config()
        &&& after.spec_stats() == placed_stats(
            self.scheduled_stats(),
            outcome,
            placed_delta(&self.spec_reference(), &self.spec_current(), x, y, radius),
        )
        &&& after.spec_meter()@ == placed_window(self.scheduled_window(), outcome)
        &&& after.spec_circles() == if outcome == Attempt::Accepted {
            self.spec_circles().push(
                Circle::from_color(x, y, radius, candidate_color(&self.spec_reference(), x, y)),
            )
        } else {
            self.spec_circles()
        }
        &&& after.spec_current()@ == if outcome == Attempt::Accepted {
            placed(&self.spec_reference(), &self.spec_current(), x, y, radius)
        } else {
            self.spec_current()@
        }
    }

    /// A run from this state to `after`: `trace` holds the states that the
    /// run went through, this one first and `after` last, and `points` the
    /// points of its attempts. Each state but the last is not finished, and
    /// the attempt at its point makes the next state of it.
    pub open spec fn ran(&self, after: Builder, trace: Seq<Builder>, points: Seq<(u32, u32)>) -> bool {
        &&& points.len() > 0
        &&& trace.len() == points.len() + 1
        &&& trace[0] == *self
        &&& trace[trace.len() - 1] == after
        &&& after.finished()
        &&& Self::steps(trace, points)
    }

    /// Each state of the trace but the last is not finished, and the
    /// attempt at its point makes the next state of it.
    pub open spec fn steps(trace: Seq<Builder>, points: Seq<(u32, u32)>) -> bool {
        forall|i: int|
            0 <= i < points.len() ==> {
                &&& (#[trigger] trace[i]).wf()
                &&& !trace[i].finished()
                &&& trace[i].spec_reference().contains(points[i].0 as int, points[i].1 as int)
                &&& trace[i].attempted(trace[i + 1], points[i].0, points[i].1)
            }
    }

    /// Whether a build can start from these.
    pub fn can_build(reference: &Canvas, config: &BuildConfig) -> (accepted: bool)
        requires
            reference.wf(),
        ensures
            accepted == Self::accepts(reference, config),
    {
        config.is_valid() && 0 < reference.width() && 0 < reference.height()
            && reference.width() <= i32::MAX as u32 - config.max_radius && reference.height()
            <= i32::MAX as u32 - config.max_radius
    }

    /// A build that has made no attempt yet: the canvas is black, and the
    /// radius is the largest.
    pub fn new(reference: Canvas, config: BuildConfig) -> (builder: Builder)
        requires
            Self::accepts(&reference, &config),
        ensures
            builder.wf(),
            !builder.finished(),
            builder.spec_reference() == reference,
            builder.spec_config() == config,
            builder.spec_current()@ == crate::canvas::blank(
                reference.spec_width() * reference.spec_height(),
            ),
            builder.spec_circles() == Seq::<Circle>::empty(),
            builder.spec_meter()@ == Seq::<usize>::empty(),
            builder.spec_stats() == (Stats {
                total_attempts: 0,
                total_successes: 0,
                total_skips: 0,
                radius_attempts: 0,
                radius_successes: 0,
                radius_success_rate: None,
                radius: config.max_radius,
                delta: builder.total_delta() as u64,
            }),
    {
        let current = Canvas::new(reference.width(), reference.height());
        let delta: u64 = reference.delta(&current);
        let stats = Stats {
            total_attempts: 0,
            total_successes: 0,
            total_skips: 0,
            radius_attempts: 0,
            radius_successes: 0,
            radius_success_rate: None,
            radius: config.max_radius,
            delta,
        };
        proof {
            assert((config.max_radius - stats.radius) * config.attempt_cap() == 0)
                by (nonlinear_arith)
                requires
                    config.max_radius - stats.radius == 0,
            ;
        }
        Builder {
            reference,
            current,
            config,
            circles: Vec::new(),
            stats,
            meter: RateMeter::new(METER_WINDOW),
        }
    }

    /// The reference that the build approaches.
    pub fn reference(&self) -> (reference: &Canvas)
        ensures
            *reference == self.spec_reference(),
    {
        &self.reference
    }

    /// The canvas as the build has it now.
    pub fn current(&self) -> (current: &Canvas)
        ensures
            *current == self.spec_current(),
    {
        &self.current
    }

    /// The circles placed so far, in the order in which they were placed.
    pub fn circles(&self) -> (circles: &Vec<Circle>)
        ensures
            circles@ == self.spec_circles(),
    {
        &self.circles
    }

    /// The counters.
    pub fn stats(&self) -> (stats: Stats)
        ensures
            stats == self.spec_stats(),
    {
        self.stats
    }

    /// The two updates that tell of the build's state: a copy of the canvas,
    /// then the counters.
    pub fn updates(&self) -> (updates: (BuilderUpdate, BuilderUpdate))
        ensures
            match updates.0 {
                BuilderUpdate::Preview(canvas) => {
                    &&& canvas@ == self.spec_current()@
                    &&& canvas.spec_width() == self.spec_current().spec_width()
                    &&& canvas.spec_height() == self.spec_current().spec_height()
                },
                BuilderUpdate::Stats(_) => false,
            },
            match updates.1 {
                BuilderUpdate::Preview(_) => false,
                BuilderUpdate::Stats(stats) => stats == self.spec_stats(),
            },
    {
        (BuilderUpdate::Preview(self.current.clone()), BuilderUpdate::Stats(self.stats))
    }

    /// Whether an update is due when the last one was sent so many
    /// milliseconds ago: it is once the interval has passed.
    pub fn update_due(elapsed_millis: u128) -> (due: bool)
        ensures
            due == (elapsed_millis >= UPDATE_INTERVAL_MILLIS),
    {
        elapsed_millis >= UPDATE_INTERVAL_MILLIS
    }

    /// Whether the build is over.
    pub fn is_finished(&self) -> (finished: bool)
        ensures
            finished == self.finished(),
    {
        self.stats.radius < self.config.min_radius
    }

    /// What the next step takes off the radius.
    fn radius_step_down(&self) -> (step: u32)
        requires
            self.config.valid(),
        ensures
            step == step_of(self.stats.radius, self.config.radius_step),
            1 <= step,
            self.stats.radius >= 1 ==> step <= self.stats.radius,
    {
        let radius: u128 = self.stats.radius as u128;
        let numerator: u128 = self.config.radius_step.numerator as u128;
        let denominator: u128 = self.config.radius_step.denominator as u128;
        proof {
            lemma_step_within_radius(radius as int, numerator as int, denominator as int);
        }
        let raw: u128 = (radius * numerator) / denominator;
        if raw < 1 {
            1
        } else {
            raw as u32
        }
    }

    /// The schedule check that opens an attempt: counts the attempt, steps
    /// the radius down when it is time, and says whether the build is over.
    fn schedule(&mut self) -> (finished: bool)
        requires
            old(self).wf(),
            !old(self).finished(),
        ensures
            final(self).wf(),
            final(self).reference == old(self).reference,
            final(self).current == old(self).current,
            final(self).config == old(self).config,
            final(self).circles == old(self).circles,
            final(self).stats == old(self).scheduled_stats(),
            final(self).meter@ == old(self).scheduled_window(),
            finished == final(self).finished(),
            final(self).stats.total_skips < final(self).stats.total_attempts,
            final(self).stats.radius == old(self).next_radius(),
            final(self).stats.radius < old(self).stats.radius || (final(self).stats.radius == old(
                self,
            ).stats.radius && final(self).stats.radius_attempts == old(self).stats.radius_attempts
                + 1),
    {
        proof {
            lemma_attempts_bounded(
                self.config.max_radius as int,
                self.stats.radius as int,
                self.config.attempt_cap(),
                self.stats.radius_attempts as int,
            );
        }
        self.stats.total_attempts = self.stats.total_attempts + 1;
        self.stats.radius_attempts = self.stats.radius_attempts + 1;

        if self.meter.is_below(self.config.radius_shrink_threshold) || self.stats.radius_attempts
            >= self.config.radius_attempt_limit {
            proof {
                lemma_sum_of_samples(self.meter@);
            }
            self.stats.radius_success_rate = self.meter.rate();
            self.meter.reset();
            self.stats.radius_attempts = 0;
            self.stats.radius_successes = 0;
            let step: u32 = self.radius_step_down();
            proof {
                lemma_attempts_after_step(
                    self.config.max_radius as int,
                    self.stats.radius as int,
                    self.stats.radius - step,
                    self.config.attempt_cap(),
                );
            }
            self.stats.radius = self.stats.radius - step;
        }
        self.stats.radius < self.config.min_radius
    }

    /// The placement that closes an attempt: tries a circle of the current
    /// radius at `(x, y)` and keeps it where it brings the canvas closer to
    /// the reference.
    fn place(&mut self, x: u32, y: u32) -> (outcome: Attempt)
        requires
            old(self).wf(),
            !old(self).finished(),
            old(self).reference.contains(x as int, y as int),
            old(self).stats.total_skips < old(self).stats.total_attempts,
        ensures
            final(self).wf(),
            final(self).reference == old(self).reference,
            final(self).config == old(self).config,
            outcome == placement(
                &old(self).reference,
                &old(self).current,
                old(self).config.similarity_threshold,
                x,
                y,
                old(self).stats.radius,
            ),
            final(self).stats == placed_stats(
                old(self).stats,
                outcome,
                placed_delta(&old(self).reference, &old(self).current, x, y, old(self).stats.radius),
            ),
            final(self).meter@ == placed_window(old(self).meter@, outcome),
            final(self).circles@ == if outcome == Attempt::Accepted {
                old(self).circles@.push(
                    Circle::from_color(
                        x,
                        y,
                        old(self).stats.radius,
                        candidate_color(&old(self).reference, x, y),
                    ),
                )
            } else {
                old(self).circles@
            },
            final(self).current@ == if outcome == Attempt::Accepted {
                placed(&old(self).reference, &old(self).current, x, y, old(self).stats.radius)
            } else {
                old(self).current@
            },
            outcome == Attempt::Accepted ==> final(self).total_delta() < old(self).total_delta(),
            outcome != Attempt::Accepted ==> final(self).total_delta() == old(self).total_delta(),
    {
        let reference_color = ColorPicker::sample(&self.reference, x, y);
        let current_color = ColorPicker::sample(&self.current, x, y);

        if reference_color == current_color {
            return Attempt::Same;
        }
        let region = Region::new(x, y, self.stats.radius);
        assert(region == Region::spec_new(x, y, self.stats.radius));

        let reference_crop = self.reference.section(&region);
        let current_crop = self.current.section(&region);

        let reference_value: u64 = reference_crop.value();
        let current_value: u64 = current_crop.value();

        if is_similar_enough(current_value, reference_value, self.config.similarity_threshold) {
            self.stats.total_skips = self.stats.total_skips + 1;
            self.meter.sample(0);
            return Attempt::Skipped;
        }
        let mut candidate_crop = current_crop.clone();

        let circle = Circle::new(
            candidate_crop.center_x() as u32,
            candidate_crop.center_y() as u32,
            self.stats.radius,
            reference_color,
        );
        candidate_crop.draw_circle(&circle);

        let candidate_delta: u64 = reference_crop.delta(&candidate_crop);
        let current_delta: u64 = reference_crop.delta(&current_crop);

        if candidate_delta < current_delta {
            proof {
                let cols = self.current.section_width(&region);
                let rows = self.current.section_height(&region);
                crate::canvas::lemma_product_not_negative(cols, rows);
                assert(candidate_crop@.subrange(0, 4 * (cols * rows)) =~= candidate_crop@);
                lemma_delta_blit(
                    self.reference@,
                    self.current@,
                    self.current.spec_width() as int,
                    self.current.spec_height() as int,
                    self.current.section_x(&region),
                    self.current.section_y(&region),
                    candidate_crop@,
                    cols,
                    rows as nat,
                );
                crate::canvas::lemma_blit_rows(
                    self.current@,
                    self.current.spec_width() as int,
                    self.current.spec_height() as int,
                    self.current.section_x(&region),
                    self.current.section_y(&region),
                    candidate_crop@,
                    cols,
                    cols,
                    rows as nat,
                );
                crate::canvas::lemma_delta_zero(
                    self.reference@,
                    placed(&self.reference, &self.current, x, y, self.stats.radius),
                );
            }
            self.current.copy_from(&candidate_crop, region.real_origin_x(), region.real_origin_y());
            self.stats.delta = self.stats.delta - (current_delta - candidate_delta);

            let circle = Circle::new(x, y, self.stats.radius, reference_color);
            self.circles.push(circle);

            let placed_circles: usize = self.circles.len();

            self.meter.sample(1);
            self.stats.radius_successes = self.stats.radius_successes + 1;
            self.stats.total_successes = placed_circles;
            Attempt::Accepted
        } else {
            self.meter.sample(0);
            Attempt::Rejected
        }
    }

    /// One attempt of the search with `(x, y)` as its point. It counts the
    /// attempt and lets the radius step down when it is time. Unless the
    /// build is over by then, it tries a circle of the radius at the point,
    /// in the reference's colour there, and keeps it where that brings the
    /// canvas closer to the reference.
    pub fn attempt(&mut self, x: u32, y: u32) -> (outcome: Attempt)
        requires
            old(self).wf(),
            !old(self).finished(),
            old(self).spec_reference().contains(x as int, y as int),
        ensures
            final(self).wf(),
            final(self).spec_reference() == old(self).spec_reference(),
            final(self).spec_config() == old(self).spec_config(),
            outcome == old(self).outcome(x, y),
            (outcome == Attempt::Finished) == final(self).finished(),
            old(self).attempted(*final(self), x, y),
            outcome == Attempt::Accepted ==> final(self).total_delta() < old(self).total_delta(),
            outcome != Attempt::Accepted ==> final(self).total_delta() == old(self).total_delta(),
            final(self).spec_stats().radius <= old(self).spec_stats().radius,
            old(self).fires() ==> final(self).spec_stats().radius < old(self).spec_stats().radius,
    {
        if self.schedule() {
            return Attempt::Finished;
        }
        self.place(x, y)
    }

    /// Runs the search to its end, with points picked at random: it makes
    /// attempt after attempt until the radius is below the minimum. The end
    /// state is what the attempts make of the state at the start, one after
    /// another, each at some point of the reference. The last attempt is the
    /// one in which the radius steps below the minimum, so the counters of
    /// the radius are at zero. There are no more attempts than the radii
    /// from the first down to the minimum allow, each with its cap. The
    /// circles placed before are still there, in their order, and the canvas
    /// is no farther from the reference than it was. With a similarity
    /// threshold of one or more no attempt is skipped.
    pub fn run(&mut self)
        requires
            old(self).wf(),
            !old(self).finished(),
        ensures
            final(self).wf(),
            final(self).finished(),
            final(self).spec_reference() == old(self).spec_reference(),
            final(self).spec_config() == old(self).spec_config(),
            exists|trace: Seq<Builder>, points: Seq<(u32, u32)>| #[trigger]
                old(self).ran(*final(self), trace, points),
            final(self).total_delta() <= old(self).total_delta(),
            old(self).spec_circles().is_prefix_of(final(self).spec_circles()),
            final(self).spec_stats().total_attempts > old(self).spec_stats().total_attempts,
            final(self).spec_stats().total_attempts - old(self).spec_stats().total_attempts <= (
            old(self).spec_stats().radius - old(self).spec_config().min_radius + 1) * old(self).spec_config().attempt_cap() - old(self).spec_stats().radius_attempts,
            final(self).spec_stats().radius_attempts == 0,
            final(self).spec_stats().radius_successes == 0,
            final(self).spec_stats().delta == final(self).total_delta(),
            final(self).spec_stats().total_skips >= old(self).spec_stats().total_skips,
            old(self).spec_config().similarity_threshold.numerator >= old(self).spec_config().similarity_threshold.denominator ==> final(self).spec_stats().total_skips == old(self).spec_stats().total_skips,
    {
        let mut point_selector = RandomPointSelector::new(&self.reference);
        let mut done: bool = false;
        let ghost mut trace: Seq<Builder> = seq![*self];
        let ghost mut points: Seq<(u32, u32)> = Seq::empty();
        proof {
            lemma_run_starts(*self);
        }
        while !done
            invariant
                self.wf(),
                done == self.finished(),
                point_selector.spec_width() == self.reference.spec_width(),
                point_selector.spec_height() == self.reference.spec_height(),
                old(self).wf(),
                !old(self).finished(),
                traced(*old(self), *self, trace, points),
                advanced(*old(self), *self, points.len() as int),
                done ==> points.len() > 0,
            decreases self.stats.radius, self.config.attempt_cap() - self.stats.radius_attempts,
        {
            let ghost before = *self;
            let point = point_selector.next();
            let (x, y) = point.unwrap();
            let outcome = self.attempt(x, y);
            proof {
                lemma_run_traced(*old(self), before, *self, trace, points, x, y);
                lemma_run_advanced(*old(self), before, *self, points.len() as int, x, y);
                trace = trace.push(*self);
                points = points.push((x, y));
            }
            done = outcome == Attempt::Finished;
        }
        proof {
            reveal(traced);
            reveal(advanced);
            assert(old(self).ran(*self, trace, points));
        }
    }
}

/// The trace of a run so far: it leads from the first state to this one.
#[verifier::opaque]
spec fn traced(first: Builder, state: Builder, trace: Seq<Builder>, points: Seq<(u32, u32)>) -> bool {
    &&& trace.len() == points.len() + 1
    &&& trace[0] == first
    &&& trace[trace.len() - 1] == state
    &&& Builder::steps(trace, points)
}

/// What holds of a run after so many attempts: the reference and the options
/// are the first state's, the canvas is no farther from the reference, the
/// circles of the first state are still there, and the attempts are within
/// what the radii allow.
#[verifier::opaque]
spec fn advanced(first: Builder, state: Builder, made: int) -> bool {
    let cap = first.config.attempt_cap();
    &&& state.reference == first.reference
    &&& state.config == first.config
    &&& state.total_delta() <= first.total_delta()
    &&& first.circles@.is_prefix_of(state.circles@)
    &&& state.stats.radius <= first.stats.radius
    &&& state.stats.total_attempts == first.stats.total_attempts + made
    &&& !state.finished() ==> made <= (first.stats.radius - state.stats.radius) * cap
        + state.stats.radius_attempts - first.stats.radius_attempts
    &&& state.finished() ==> {
        &&& made <= (first.stats.radius - first.config.min_radius + 1) * cap
            - first.stats.radius_attempts
        &&& state.stats.radius_attempts == 0
        &&& state.stats.radius_successes == 0
    }
    &&& state.stats.total_skips >= first.stats.total_skips
    &&& first.config.similarity_threshold.numerator
        >= first.config.similarity_threshold.denominator ==> state.stats.total_skips
        == first.stats.total_skips
}

/// A run that has made no attempt is where it started.
proof fn lemma_run_starts(first: Builder)
    requires
        first.wf(),
        !first.finished(),
    ensures
        traced(first, first, seq![first], Seq::empty()),
        advanced(first, first, 0),
{
    reveal(traced);
    reveal(advanced);
    assert((first.stats.radius - first.stats.radius) * first.config.attempt_cap() == 0)
        by (nonlinear_arith);
}

/// An attempt lengthens the trace of a run by a state and a point.
proof fn lemma_run_traced(
    first: Builder,
    before: Builder,
    after: Builder,
    trace: Seq<Builder>,
    points: Seq<(u32, u32)>,
    x: u32,
    y: u32,
)
    requires
        traced(first, before, trace, points),
        before.wf(),
        !before.finished(),
        before.spec_reference().contains(x as int, y as int),
        before.attempted(after, x, y),
    ensures
        traced(first, after, trace.push(after), points.push((x, y))),
{
    reveal(traced);
    let longer = trace.push(after);
    let more = points.push((x, y));
    assert forall|i: int| 0 <= i < more.len() implies {
        &&& (#[trigger] longer[i]).wf()
        &&& !longer[i].finished()
        &&& longer[i].spec_reference().contains(more[i].0 as int, more[i].1 as int)
        &&& longer[i].attempted(longer[i + 1], more[i].0, more[i].1)
    } by {
        if i < points.len() {
            assert(longer[i] == trace[i]);
            assert(longer[i + 1] == trace[i + 1]);
            assert(more[i] == points[i]);
        } else {
            assert(longer[i] == before);
            assert(longer[i + 1] == after);
        }
    }
}

/// An attempt keeps a run within its bounds.
proof fn lemma_run_advanced(first: Builder, before: Builder, after: Builder, made: int, x: u32, y: u32)
    requires
        advanced(first, before, made),
        first.wf(),
        !first.finished(),
        before.wf(),
        !before.finished(),
        before.spec_reference().contains(x as int, y as int),
        before.attempted(after, x, y),
        before.outcome(x, y) == Attempt::Accepted ==> after.total_delta() < before.total_delta(),
        before.outcome(x, y) != Attempt::Accepted ==> after.total_delta() == before.total_delta(),
        (before.outcome(x, y) == Attempt::Finished) == after.finished(),
    ensures
        advanced(first, after, made + 1),
{
    reveal(advanced);
    let region = Region::spec_new(x, y, before.next_radius());
    lemma_similarity_bounds(
        seq_value(crop_of(&before.reference, &region)),
        seq_value(crop_of(&before.current, &region)),
        before.config.similarity_threshold,
    );
    lemma_similarity_bounds(
        seq_value(crop_of(&before.current, &region)),
        seq_value(crop_of(&before.reference, &region)),
        before.config.similarity_threshold,
    );
    lemma_step_bounds(before.stats.radius, before.config.radius_step);
    lemma_attempts_bounded(
        before.config.max_radius as int,
        before.stats.radius as int,
        before.config.attempt_cap(),
        before.stats.radius_attempts as int,
    );
    assert(first.circles@.is_prefix_of(after.circles@)) by {
        assert(first.circles@.is_prefix_of(before.circles@));
        assert(before.circles@.is_prefix_of(after.circles@));
    }
    lemma_run_bound(
        first.stats.radius as int,
        before.stats.radius as int,
        after.stats.radius as int,
        first.config.min_radius as int,
        first.config.attempt_cap(),
        first.stats.radius_attempts as int,
        before.stats.radius_attempts as int,
        made,
    );
}

/// The attempts of a run stay within what the radii allow: an attempt that
/// does not step the radius down is one more at its radius, and one that
/// does leaves the room of a whole radius behind.
proof fn lemma_run_bound(
    first: int,
    radius: int,
    next: int,
    min_radius: int,
    cap: int,
    first_attempts: int,
    attempts: int,
    made: int,
)
    requires
        min_radius <= radius <= first,
        0 <= attempts < cap,
        next <= radius,
        made <= (first - radius) * cap + attempts - first_attempts,
    ensures
        next == radius ==> made + 1 <= (first - next) * cap + (attempts + 1) - first_attempts,
        next < radius ==> made + 1 <= (first - next) * cap - first_attempts,
        next < radius ==> made + 1 <= (first - min_radius + 1) * cap - first_attempts,
{
    if next < radius {
        assert((first - radius) * cap + cap <= (first - next) * cap) by (nonlinear_arith)
            requires
                next < radius,
                0 <= cap,
        ;
        assert((first - radius) * cap + cap <= (first - min_radius + 1) * cap)
            by (nonlinear_arith)
            requires
                min_radius <= radius,
                0 <= cap,
        ;
    }
}

/// The sum of samples that are hits and misses is at most their number.
pub proof fn lemma_sum_of_samples(samples: Seq<usize>)
    requires
        at_most_ones(samples),
    ensures
        0 <= seq_sum(samples) <= samples.len(),
    decreases samples.len(),
{
    if samples.len() > 0 {
        assert(at_most_ones(samples.drop_last())) by {
            assert forall|i: int| 0 <= i < samples.drop_last().len() implies (
            #[trigger] samples.drop_last()[i]) <= 1 by {
                assert(samples.drop_last()[i] == samples[i]);
            }
        }
        lemma_sum_of_samples(samples.drop_last());
        assert(samples.last() == samples[samples.len() - 1]);
    }
}

/// Whether a region of the given value is close enough to the reference's.
fn is_similar_enough(current_value: u64, reference_value: u64, threshold: Ratio) -> (similar: bool)
    ensures
        similar == similar_enough(current_value as int, reference_value as int, threshold),
{
    proof {
        assert(current_value * threshold.denominator <= u64::MAX * u64::MAX) by (nonlinear_arith)
            requires
                0 <= current_value <= u64::MAX,
                0 <= threshold.denominator <= u64::MAX,
        ;
        assert(threshold.numerator * reference_value <= u64::MAX * u64::MAX) by (nonlinear_arith)
            requires
                0 <= reference_value <= u64::MAX,
                0 <= threshold.numerator <= u64::MAX,
        ;
    }
    0 < reference_value && current_value < reference_value && current_value as u128
        * threshold.denominator as u128 > threshold.numerator as u128 * reference_value as u128
}

/// A part of a radius that is at most the whole is at most the radius, and
/// the product that it is taken from fits.
proof fn lemma_step_within_radius(radius: int, numerator: int, denominator: int)
    requires
        0 <= radius <= u32::MAX,
        0 <= numerator <= denominator,
        0 < denominator <= u64::MAX,
    ensures
        0 <= radius * numerator <= u32::MAX * u64::MAX,
        0 <= (radius * numerator) / denominator <= radius,
{
    assert(0 <= radius * numerator <= radius * denominator && radius * denominator
        <= u32::MAX * u64::MAX) by (nonlinear_arith)
        requires
            0 <= radius <= u32::MAX,
            0 <= numerator <= denominator,
            denominator <= u64::MAX,
    ;
    vstd::arithmetic::div_mod::lemma_div_is_ordered(
        radius * numerator,
        radius * denominator,
        denominator,
    );
    assert(radius * denominator == denominator * radius) by (nonlinear_arith);
    vstd::arithmetic::div_mod::lemma_div_multiples_vanish(radius, denominator);
    vstd::arithmetic::div_mod::lemma_div_pos_is_pos(radius * numerator, denominator);
}

/// The attempts that are accounted to the radii fit the counter.
proof fn lemma_attempts_bounded(max_radius: int, radius: int, cap: int, attempts: int)
    requires
        0 <= radius <= max_radius <= MAX_RADIUS,
        0 <= attempts < cap <= usize::MAX,
    ensures
        0 <= (max_radius - radius) * cap,
        (max_radius - radius) * cap + attempts + 1 <= u128::MAX,
{
    assert(0 <= (max_radius - radius) * cap <= MAX_RADIUS * usize::MAX) by (nonlinear_arith)
        requires
            0 <= max_radius - radius <= MAX_RADIUS,
            0 <= cap <= usize::MAX,
    ;
}

/// A step down of the radius leaves room for the attempts of the radius
/// that it ends.
proof fn lemma_attempts_after_step(max_radius: int, radius: int, lower: int, cap: int)
    requires
        lower < radius,
        0 <= cap,
    ensures
        (max_radius - radius) * cap + cap <= (max_radius - lower) * cap,
{
    assert((max_radius - radius) * cap + cap <= (max_radius - lower) * cap) by (nonlinear_arith)
        requires
            lower < radius,
            0 <= cap,
    ;
}

/// A step takes at least one off the radius, whatever part of it is asked
/// for, and no more than the radius where the part is at most the whole.
pub proof fn lemma_step_bounds(radius: u32, step: Ratio)
    requires
        step.wf(),
    ensures
        1 <= step_of(radius, step),
        (radius * step.numerator) / (step.denominator as int) == 0 ==> step_of(radius, step) == 1,
        step.at_most_one() && radius >= 1 ==> step_of(radius, step) <= radius,
{
    if step.at_most_one() {
        lemma_step_within_radius(
            radius as int,
            step.numerator as int,
            step.denominator as int,
        );
    }
}

/// Whenever the schedule steps the radius down, the radius gets smaller by
/// one or more, and does not fall below zero.
pub proof fn lemma_radius_decreases(builder: Builder)
    requires
        builder.wf(),
        !builder.finished(),
        builder.fires(),
    ensures
        0 <= builder.next_radius() <= builder.spec_stats().radius - 1,
        builder.next_radius() == builder.spec_stats().radius - step_of(
            builder.spec_stats().radius,
            builder.spec_config().radius_step,
        ),
{
    lemma_step_bounds(builder.spec_stats().radius, builder.spec_config().radius_step);
}

/// A threshold of one or more lets no region count as close enough. With a
/// threshold of zero a region counts as close enough exactly when its value
/// is above zero and below the reference's.
pub proof fn lemma_similarity_bounds(current_value: int, reference_value: int, threshold: Ratio)
    requires
        threshold.wf(),
    ensures
        threshold.numerator >= threshold.denominator ==> !similar_enough(
            current_value,
            reference_value,
            threshold,
        ),
        threshold.numerator == 0 ==> (similar_enough(current_value, reference_value, threshold)
            <==> 0 < current_value < reference_value),
{
    if threshold.numerator >= threshold.denominator && current_value < reference_value && 0
        < reference_value {
        assert(current_value * threshold.denominator <= threshold.numerator * reference_value)
            by (nonlinear_arith)
            requires
                current_value < reference_value,
                0 < reference_value,
                0 < threshold.denominator <= threshold.numerator,
        ;
    }
    if threshold.numerator == 0 {
        assert(threshold.numerator * reference_value == 0) by (nonlinear_arith)
            requires
                threshold.numerator == 0,
        ;
        assert(current_value > 0 ==> current_value * threshold.denominator > 0)
            by (nonlinear_arith)
            requires
                threshold.denominator > 0,
        ;
        assert(current_value <= 0 ==> current_value * threshold.denominator <= 0)
            by (nonlinear_arith)
            requires
                threshold.denominator > 0,
        ;
    }
}

} // verus!
