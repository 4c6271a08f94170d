use pair::congestion::{Action, Controller, Feedback as Judged, Level, CLEAN_BEFORE_INCREASE};

const LOSS_HIGH: f32 = 0.05;
const LOSS_LOW: f32 = 0.01;
const QUEUE_HIGH_MS: f64 = 60.0;
const QUEUE_LOW_MS: f64 = 25.0;

const MAX: u32 = 40_000_000;
const MIN: u32 = 5_000_000;

#[derive(Clone, Copy)]
struct Feedback {
    loss: f32,
    rtt_ms: f64,
}

/// Judges measurements against their thresholds for the controller.
struct Metered {
    controller: Controller,
    baseline_rtt_ms: f64,
    recent_loss: f32,
}

impl Metered {
    fn new(max_bps: u32, min_bps: u32) -> Self {
        Metered {
            controller: Controller::new(max_bps, min_bps),
            baseline_rtt_ms: f64::INFINITY,
            recent_loss: 0.0,
        }
    }

    fn update(&mut self, feedback: Feedback) -> Action {
        self.recent_loss = self.recent_loss.max(feedback.loss) * 0.75 + feedback.loss * 0.25;
        if feedback.rtt_ms > 0.0 {
            self.baseline_rtt_ms = self.baseline_rtt_ms.min(feedback.rtt_ms);
        }
        let queueing = if self.baseline_rtt_ms.is_finite() {
            (feedback.rtt_ms - self.baseline_rtt_ms).max(0.0)
        } else {
            0.0
        };
        self.controller.update(Judged {
            loss: level(
                feedback.loss as f64,
                LOSS_LOW as f64,
                LOSS_HIGH as f64,
            ),
            queueing: level(queueing, QUEUE_LOW_MS, QUEUE_HIGH_MS),
            losing: self.recent_loss > LOSS_LOW,
        })
    }

    fn target_bps(&self) -> u32 {
        self.controller.target_bps()
    }

    fn parity_blocks(&self) -> u32 {
        self.controller.parity_blocks()
    }
}

fn level(value: f64, low: f64, high: f64) -> Level {
    if value > high {
        Level::High
    } else if value > low {
        Level::Raised
    } else {
        Level::Low
    }
}

fn clean() -> Feedback {
    Feedback {
        loss: 0.0,
        rtt_ms: 80.0,
    }
}

fn judged(loss: Level) -> Judged {
    Judged {
        loss,
        queueing: Level::Low,
        losing: false,
    }
}

#[test]
fn parity_rises_with_loss_and_settles_back_when_it_clears() {
    let mut c = Metered::new(MAX, MIN);
    assert_eq!(
        c.parity_blocks(),
        1,
        "a fresh link pays only for single-loss repair"
    );

    for _ in 0..5 {
        c.update(Feedback {
            loss: 0.03,
            rtt_ms: 80.0,
        });
    }
    assert_eq!(
        c.parity_blocks(),
        2,
        "real loss is worth the second parity block"
    );

    for _ in 0..50 {
        c.update(clean());
    }
    assert_eq!(
        c.parity_blocks(),
        1,
        "a link that clears should stop paying for it"
    );
}

#[test]
fn a_single_unlucky_window_does_not_flap_the_parity() {
    let mut c = Metered::new(MAX, MIN);
    for _ in 0..20 {
        c.update(clean());
    }
    c.update(Feedback {
        loss: 0.03,
        rtt_ms: 80.0,
    });
    assert_eq!(c.parity_blocks(), 2);
    // One clean report straight after must not immediately undo it.
    c.update(clean());
    assert_eq!(
        c.parity_blocks(),
        2,
        "parity should not chatter report to report"
    );
}

#[test]
fn a_clean_link_stays_at_full_quality() {
    let mut c = Metered::new(MAX, MIN);
    for _ in 0..100 {
        c.update(clean());
    }
    assert_eq!(c.target_bps(), MAX, "an idle link must never cost quality");
}

#[test]
fn occasional_loss_does_not_cost_quality() {
    let mut c = Metered::new(MAX, MIN);
    for _ in 0..50 {
        // Half a percent is normal for the internet.
        c.update(Feedback {
            loss: 0.005,
            rtt_ms: 80.0,
        });
    }
    assert_eq!(
        c.target_bps(),
        MAX,
        "sporadic loss must not trigger backoff"
    );
}

#[test]
fn sustained_loss_backs_off_but_never_below_the_floor() {
    let mut c = Metered::new(MAX, MIN);
    for _ in 0..200 {
        c.update(Feedback {
            loss: 0.20,
            rtt_ms: 80.0,
        });
    }
    assert_eq!(c.target_bps(), MIN, "must stop at the floor");
}

#[test]
fn rising_delay_backs_off_before_any_loss_appears() {
    let mut c = Metered::new(MAX, MIN);
    c.update(clean());
    let before = c.target_bps();
    // A queue is filling: the round trip climbs while loss is still zero.
    let action = c.update(Feedback {
        loss: 0.0,
        rtt_ms: 80.0 + QUEUE_HIGH_MS + 10.0,
    });
    assert_eq!(action, Action::Decreased, "delay is the early warning");
    assert!(c.target_bps() < before);
}

#[test]
fn recovers_to_full_quality_once_the_link_clears() {
    let mut c = Metered::new(MAX, MIN);
    for _ in 0..20 {
        c.update(Feedback {
            loss: 0.20,
            rtt_ms: 80.0,
        });
    }
    assert!(c.target_bps() < MAX);
    for _ in 0..200 {
        c.update(clean());
    }
    assert_eq!(c.target_bps(), MAX, "quality must come back");
}

#[test]
fn one_clean_report_during_congestion_does_not_restart_the_climb() {
    let mut c = Metered::new(MAX, MIN);
    for _ in 0..5 {
        c.update(Feedback {
            loss: 0.20,
            rtt_ms: 80.0,
        });
    }
    let dipped = c.target_bps();
    // A single quiet window between bursts must not be read as recovery.
    assert_eq!(c.update(clean()), Action::Held);
    assert_eq!(c.target_bps(), dipped);
}

#[test]
fn the_baseline_tracks_the_quietest_round_trip() {
    let mut c = Metered::new(MAX, MIN);
    // A link that starts congested should not treat that as normal.
    c.update(Feedback {
        loss: 0.0,
        rtt_ms: 200.0,
    });
    c.update(Feedback {
        loss: 0.0,
        rtt_ms: 80.0,
    });
    // 80 is now the baseline, so 80 is not queueing and must not back off.
    for _ in 0..10 {
        c.update(Feedback {
            loss: 0.0,
            rtt_ms: 82.0,
        });
    }
    assert_eq!(c.target_bps(), MAX);
}

#[test]
fn the_steps_are_fifteen_percent_down_and_eight_up() {
    for start in [
        5_000_000u32,
        7_777_777,
        12_345_678,
        39_999_999,
        1,
        13,
        1_000_000_007,
        u32::MAX,
    ] {
        let mut c = Controller::new(start, 0);
        assert_eq!(c.update(judged(Level::High)), Action::Decreased);
        let down = (start as f64 * 0.85) as u32;
        assert_eq!(c.target_bps(), down, "down from {start}");
        assert_eq!(c.update(judged(Level::Low)), Action::Held);
        if down < start {
            assert_eq!(c.update(judged(Level::Low)), Action::Increased);
            let up = (down as f64 * 1.08) as u32;
            assert_eq!(c.target_bps(), up.clamp(0, start), "up from {down}");
        }
    }
}

#[test]
fn a_raised_signal_only_stops_the_climb() {
    let mut c = Controller::new(MAX, MIN);
    c.update(judged(Level::High));
    let dipped = c.target_bps();
    c.update(judged(Level::Low));
    assert_eq!(c.update(judged(Level::Raised)), Action::Held);
    assert_eq!(c.clean_reports, 0);
    // The count of clean reports starts again.
    for _ in 1..CLEAN_BEFORE_INCREASE {
        assert_eq!(c.update(judged(Level::Low)), Action::Held);
    }
    assert_eq!(c.target_bps(), dipped);
    assert_eq!(c.update(judged(Level::Low)), Action::Increased);
    let mut queueing = judged(Level::Low);
    queueing.queueing = Level::Raised;
    assert_eq!(c.update(queueing), Action::Held);
}

#[test]
fn a_floor_above_the_ceiling_is_lowered_to_it() {
    let mut c = Controller::new(10, 20);
    c.update(judged(Level::High));
    assert_eq!(c.target_bps(), 10);
    assert_eq!(c.min_bps, 10);
}

#[test]
fn an_increase_takes_two_clean_reports_in_a_row() {
    let levels = [Level::Low, Level::Raised, Level::High];
    // Every run of five reports.
    for run in 0..3usize.pow(5) {
        let mut c = Controller::new(MAX, MIN);
        c.update(judged(Level::High));
        let mut before = Level::High;
        for step in 0..5 {
            let now = levels[run / 3usize.pow(step) % 3];
            let target = c.target_bps();
            let action = c.update(judged(now));
            assert_eq!(
                action == Action::Increased,
                before == Level::Low && now == Level::Low && target < MAX
            );
            match action {
                Action::Increased => assert!(c.target_bps() >= target),
                Action::Held => assert_eq!(c.target_bps(), target),
                Action::Decreased => assert!(c.target_bps() <= target),
            }
            before = now;
        }
    }
}
