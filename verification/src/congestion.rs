//! Video bitrate control.
//!
//! The receiver has every signal worth acting on (loss, round trip, jitter), so
//! it decides the rate and asks the sender for it. The sender clamps that
//! request to what it was configured to allow.
//!
//! Two signals drive it. Loss is the obvious one but arrives late: by the time
//! packets drop, a queue somewhere is already full. Rising round-trip time
//! relative to the quietest measurement seen is the earlier warning, because a
//! filling buffer shows up as delay before it shows up as loss.
//!
//! Measuring the two and holding them against their thresholds happens outside;
//! this module decides what to do about the readings.

use vstd::prelude::*;

verus! {

/// Consecutive clean reports required before probing upward, so a single quiet
/// moment during congestion does not restart the climb.
pub const CLEAN_BEFORE_INCREASE: u32 = 2;

/// How a measurement stands against its two thresholds.
#[derive(Debug, Clone, Copy, PartialEq, Eq, Structural)]
pub enum Level {
    /// The link is clean.
    Low,
    /// Something is off, but not clearly congestion.
    Raised,
    /// Unambiguous congestion.
    High,
}

/// One report on the link.
#[derive(Debug, Clone, Copy, PartialEq, Eq, Structural)]
pub struct Feedback {
    /// Share of video frames lost over the last window.
    pub loss: Level,
    /// Delay above the quietest round trip seen.
    pub queueing: Level,
    /// Whether the smoothed loss is above the clean threshold.
    pub losing: bool,
}

#[derive(Debug, Clone, Copy, PartialEq, Eq, Structural)]
pub enum Action {
    Decreased,
    Held,
    Increased,
}

/// A bitrate multiplied by 0.85, rounded down.
pub open spec fn lowered(bps: u32) -> nat {
    bps as nat * 17 / 20
}

/// A bitrate multiplied by 1.08, rounded down.
pub open spec fn lifted(bps: u32) -> nat {
    bps as nat * 27 / 25
}

/// The number between `low` and `high` that is nearest to `x`.
pub open spec fn clamped(x: nat, low: u32, high: u32) -> u32 {
    if x < low {
        low
    } else if x > high {
        high
    } else {
        x as u32
    }
}

/// Decides the video bitrate.
pub struct Controller {
    pub target_bps: u32,
    pub min_bps: u32,
    pub max_bps: u32,
    pub clean_reports: u32,
    pub losing: bool,
}

impl Controller {
    /// The target never leaves what was configured.
    pub open spec fn valid(self) -> bool {
        self.min_bps <= self.target_bps <= self.max_bps
    }

    /// What a report asks for.
    pub open spec fn verdict(self, feedback: Feedback) -> Action {
        if feedback.loss == Level::High || feedback.queueing == Level::High {
            Action::Decreased
        } else if feedback.loss == Level::Raised || feedback.queueing == Level::Raised {
            // Stop probing rather than give up quality.
            Action::Held
        } else if self.clean_reports + 1 >= CLEAN_BEFORE_INCREASE && self.target_bps
            < self.max_bps {
            Action::Increased
        } else {
            Action::Held
        }
    }

    /// Whether a report shows a clean link.
    pub open spec fn is_clean(feedback: Feedback) -> bool {
        feedback.loss == Level::Low && feedback.queueing == Level::Low
    }

    /// The controller after a report.
    pub open spec fn updated(self, feedback: Feedback) -> Controller {
        Controller {
            target_bps: match self.verdict(feedback) {
                Action::Decreased => clamped(lowered(self.target_bps), self.min_bps, self.max_bps),
                Action::Held => self.target_bps,
                Action::Increased => clamped(lifted(self.target_bps), self.min_bps, self.max_bps),
            },
            clean_reports: if Controller::is_clean(feedback) {
                (self.clean_reports + 1) as u32
            } else {
                0
            },
            losing: feedback.losing,
            ..self
        }
    }

    /// Starts at the maximum: an idle link should never be probed up to its
    /// configured quality, it should simply run there.
    pub fn new(max_bps: u32, min_bps: u32) -> (controller: Self)
        ensures
            controller.valid(),
            controller == (Controller {
                target_bps: max_bps,
                min_bps: if min_bps <= max_bps {
                    min_bps
                } else {
                    max_bps
                },
                max_bps,
                clean_reports: 0,
                losing: false,
            }),
    {
        Controller {
            target_bps: max_bps,
            min_bps: if min_bps <= max_bps {
                min_bps
            } else {
                max_bps
            },
            max_bps,
            clean_reports: 0,
            losing: false,
        }
    }

    pub fn target_bps(&self) -> (bps: u32)
        ensures
            bps == self.target_bps,
    {
        self.target_bps
    }

    /// Parity blocks each fragment group should carry.
    ///
    /// A clean link pays 10% for single-loss repair. Once packets are actually
    /// going missing the second block is worth its 10%, because it makes any
    /// pair of losses in a group recoverable instead of costing a whole frame.
    pub fn parity_blocks(&self) -> (blocks: u32)
        ensures
            blocks == if self.losing {
                2u32
            } else {
                1u32
            },
    {
        if self.losing {
            2
        } else {
            1
        }
    }

    /// Acts on one report. The decrease is sharp enough to clear a queue quickly,
    /// and the increase deliberately slower.
    pub fn update(&mut self, feedback: Feedback) -> (action: Action)
        requires
            old(self).valid(),
            old(self).clean_reports < u32::MAX,
        ensures
            final(self).valid(),
            *final(self) == old(self).updated(feedback),
            action == old(self).verdict(feedback),
    {
        self.losing = feedback.losing;
        if feedback.loss == Level::High || feedback.queueing == Level::High {
            self.clean_reports = 0;
            self.scale(17, 20);
            Action::Decreased
        } else if feedback.loss == Level::Raised || feedback.queueing == Level::Raised {
            // Something is off but not clearly congestion. Stop probing rather
            // than give up quality.
            self.clean_reports = 0;
            Action::Held
        } else {
            self.clean_reports = self.clean_reports + 1;
            if self.clean_reports >= CLEAN_BEFORE_INCREASE && self.target_bps < self.max_bps {
                self.scale(27, 25);
                Action::Increased
            } else {
                Action::Held
            }
        }
    }

    /// Multiplies the target by `times` parts in `parts`, within what was
    /// configured.
    fn scale(&mut self, times: u64, parts: u64)
        requires
            old(self).valid(),
            0 < parts <= 100,
            times <= 100,
        ensures
            *final(self) == (Controller {
                target_bps: clamped(
                    old(self).target_bps as nat * times as nat / parts as nat,
                    old(self).min_bps,
                    old(self).max_bps,
                ),
                ..*old(self)
            }),
    {
        let target: u64 = self.target_bps as u64;
        assert(target * times <= 0xffff_ffff * 100) by (nonlinear_arith)
            requires
                target <= 0xffff_ffff,
                times <= 100,
        ;
        let scaled: u64 = target * times / parts;
        self.target_bps = if scaled < self.min_bps as u64 {
            self.min_bps
        } else if scaled > self.max_bps as u64 {
            self.max_bps
        } else {
            scaled as u32
        };
    }
}

/// An idle link never costs quality: at full quality, clean reports change
/// nothing but their count.
pub proof fn law_a_clean_link_stays_at_full_quality(controller: Controller, feedback: Feedback)
    requires
        controller.target_bps == controller.max_bps,
        Controller::is_clean(feedback),
    ensures
        controller.verdict(feedback) == Action::Held,
        controller.updated(feedback).target_bps == controller.max_bps,
{
}

/// A rising delay backs off before any loss appears.
pub proof fn law_rising_delay_backs_off(controller: Controller, feedback: Feedback)
    requires
        controller.valid(),
        feedback.queueing == Level::High,
        controller.min_bps < controller.target_bps,
    ensures
        controller.verdict(feedback) == Action::Decreased,
        controller.updated(feedback).target_bps < controller.target_bps,
{
}

/// A single clean report after congestion does not restart the climb.
pub proof fn law_one_clean_report_is_not_recovery(
    controller: Controller,
    congested: Feedback,
    clean: Feedback,
)
    requires
        !Controller::is_clean(congested),
        Controller::is_clean(clean),
    ensures
        controller.updated(congested).verdict(clean) == Action::Held,
        controller.updated(congested).updated(clean).target_bps == controller.updated(
            congested,
        ).target_bps,
{
}

/// The controller after the same report `n` times over.
pub open spec fn after_reports(controller: Controller, feedback: Feedback, n: nat) -> Controller
    decreases n,
{
    if n == 0 {
        controller
    } else {
        after_reports(controller, feedback, (n - 1) as nat).updated(feedback)
    }
}

/// Sustained congestion backs off, reaches the floor, and never goes below it.
pub proof fn law_sustained_congestion_reaches_the_floor(
    controller: Controller,
    feedback: Feedback,
    n: nat,
)
    requires
        controller.valid(),
        feedback.loss == Level::High || feedback.queueing == Level::High,
    ensures
        ({
            let after = after_reports(controller, feedback, n);
            &&& after.valid()
            &&& after.min_bps == controller.min_bps
            &&& after.max_bps == controller.max_bps
            &&& after.target_bps + n <= controller.target_bps || after.target_bps
                == controller.min_bps
        }),
    decreases n,
{
    if n > 0 {
        law_sustained_congestion_reaches_the_floor(controller, feedback, (n - 1) as nat);
    }
}

/// Quality comes back once the link clears: from 13 bits per second on, where
/// the increase is not rounded away, enough clean reports restore the maximum.
pub proof fn law_quality_comes_back(controller: Controller, feedback: Feedback, n: nat)
    requires
        controller.valid(),
        controller.target_bps >= 13,
        Controller::is_clean(feedback),
        controller.clean_reports + n <= u32::MAX,
    ensures
        ({
            let after = after_reports(controller, feedback, n);
            &&& after.valid()
            &&& after.max_bps == controller.max_bps
            &&& after.min_bps == controller.min_bps
            &&& after.clean_reports == controller.clean_reports + n
            &&& after.target_bps >= controller.target_bps
            &&& after.target_bps + 1 >= controller.target_bps + n || after.target_bps
                == controller.max_bps
        }),
    decreases n,
{
    if n > 0 {
        law_quality_comes_back(controller, feedback, (n - 1) as nat);
    }
}

/// The controller after several reports.
pub open spec fn after_run(controller: Controller, reports: Seq<Feedback>) -> Controller
    decreases reports.len(),
{
    if reports.len() == 0 {
        controller
    } else {
        after_run(controller, reports.drop_last()).updated(reports.last())
    }
}

/// The target stays within what was configured over any run of reports, and no
/// more reports count as clean than came in.
pub proof fn law_the_target_stays_within_limits(controller: Controller, reports: Seq<Feedback>)
    requires
        controller.valid(),
        controller.clean_reports + reports.len() <= u32::MAX,
    ensures
        after_run(controller, reports).valid(),
        after_run(controller, reports).min_bps == controller.min_bps,
        after_run(controller, reports).max_bps == controller.max_bps,
        after_run(controller, reports).clean_reports <= controller.clean_reports + reports.len(),
    decreases reports.len(),
{
    if reports.len() > 0 {
        law_the_target_stays_within_limits(controller, reports.drop_last());
    }
}

/// The bitrate is raised by a report if and only if that report and the one
/// before it are clean and the target is below the maximum; so never by the first
/// report of all.
pub proof fn law_increase_takes_two_clean_reports(
    controller: Controller,
    reports: Seq<Feedback>,
    feedback: Feedback,
)
    requires
        controller.valid(),
        controller.clean_reports == 0,
        reports.len() <= u32::MAX,
    ensures
        after_run(controller, reports).verdict(feedback) == Action::Increased <==> {
            &&& reports.len() > 0
            &&& Controller::is_clean(reports.last())
            &&& Controller::is_clean(feedback)
            &&& after_run(controller, reports).target_bps < controller.max_bps
        },
{
    law_the_target_stays_within_limits(controller, reports);
    if reports.len() > 0 {
        law_the_target_stays_within_limits(controller, reports.drop_last());
    }
}

/// A decrease never raises the target, an increase never lowers it, and where the
/// rate is held it stays. Only loss or delay that is high brings a decrease.
pub proof fn law_actions_move_the_target_their_way(controller: Controller, feedback: Feedback)
    requires
        controller.valid(),
    ensures
        ({
            let after = controller.updated(feedback);
            &&& controller.verdict(feedback) == Action::Decreased <==> feedback.loss == Level::High
                || feedback.queueing == Level::High
            &&& controller.verdict(feedback) == Action::Decreased ==> after.target_bps
                <= controller.target_bps
            &&& controller.verdict(feedback) == Action::Held ==> after.target_bps
                == controller.target_bps
            &&& controller.verdict(feedback) == Action::Increased ==> after.target_bps
                >= controller.target_bps
        }),
{
}

/// A congested report takes 15% off the target, whatever the target is, and rounds
/// down; only where that would go below the floor does it stop there. Nothing
/// short of congestion lowers the target.
pub proof fn law_congestion_takes_fifteen_percent(controller: Controller, feedback: Feedback)
    requires
        controller.valid(),
        feedback.loss == Level::High || feedback.queueing == Level::High,
    ensures
        ({
            let after = controller.updated(feedback);
            let rounds_to = |bps: int| 20 * bps <= 17 * controller.target_bps < 20 * (bps + 1);
            &&& 17 * controller.target_bps >= 20 * controller.min_bps ==> rounds_to(
                after.target_bps as int,
            )
            &&& 17 * controller.target_bps < 20 * controller.min_bps ==> after.target_bps
                == controller.min_bps
            &&& controller.verdict(feedback) == Action::Decreased
            &&& after.clean_reports == 0
            &&& after.min_bps == controller.min_bps
            &&& after.max_bps == controller.max_bps
            &&& after.losing == feedback.losing
        }),
{
}

/// Of clean reports in a row, each but the first adds 8% to the target, whatever
/// the target is, and rounds down; only where that would go above the maximum does
/// it stop there.
pub proof fn law_clean_reports_add_eight_percent(controller: Controller, feedback: Feedback)
    requires
        controller.valid(),
        controller.clean_reports < u32::MAX,
        feedback.loss == Level::Low && feedback.queueing == Level::Low,
    ensures
        ({
            let after = controller.updated(feedback);
            let rounds_to = |bps: int| 25 * bps <= 27 * controller.target_bps < 25 * (bps + 1);
            &&& controller.clean_reports == 0 ==> after.target_bps == controller.target_bps
                && controller.verdict(feedback) == Action::Held
            &&& controller.clean_reports >= 1 && 27 * controller.target_bps < 25
                * controller.max_bps ==> rounds_to(after.target_bps as int)
            &&& controller.clean_reports >= 1 && 27 * controller.target_bps >= 25
                * controller.max_bps ==> after.target_bps == controller.max_bps
            &&& controller.clean_reports >= 1 ==> (controller.verdict(feedback)
                == Action::Increased <==> controller.target_bps < controller.max_bps)
            &&& after.clean_reports == controller.clean_reports + 1
            &&& after.min_bps == controller.min_bps
            &&& after.max_bps == controller.max_bps
            &&& after.losing == feedback.losing
        }),
{
}

/// A report that is neither clean nor congested holds the target where it is and
/// ends any run of clean reports.
pub proof fn law_an_uneasy_report_only_stops_the_climb(controller: Controller, feedback: Feedback)
    requires
        feedback.loss != Level::High,
        feedback.queueing != Level::High,
        feedback.loss == Level::Raised || feedback.queueing == Level::Raised,
    ensures
        controller.verdict(feedback) == Action::Held,
        controller.updated(feedback) == (Controller {
            clean_reports: 0,
            losing: feedback.losing,
            ..controller
        }),
{
}

} // verus!
