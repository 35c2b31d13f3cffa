//! Congestion-control strategies over a window counted in segments.
use vstd::prelude::*;

verus! {

/// Largest window any strategy grows to.
pub const MAX_CWND: u64 = 1_000_000;

/// Window a fresh connection starts with.
pub const INIT_CWND: u64 = 10;

/// A closed set of congestion-control strategies.
///
/// `Reno` grows the window by one segment per window of acknowledgements and
/// halves it on loss. `Cubic` remembers the window at the last loss, backs off
/// to seven tenths of it, and grows quickly while far below that mark, slowly
/// near it, and quickly again once well beyond it.
#[derive(Clone, Copy, Debug, PartialEq, Eq)]
pub enum CongestionControl {
    Reno { cwnd: u64, acked: u64 },
    Cubic { cwnd: u64, w_max: u64, acked: u64 },
}

/// Number of acknowledgements Cubic needs before it adds one segment.
pub open spec fn cubic_step(cwnd: nat, w_max: nat) -> nat {
    if cwnd < w_max {
        cwnd / ((w_max - cwnd) as nat) + 1
    } else {
        cwnd / ((cwnd - w_max + 1) as nat) + 1
    }
}

impl CongestionControl {
    /// The window in segments.
    pub open spec fn window(self) -> nat {
        match self {
            CongestionControl::Reno { cwnd, .. } => cwnd as nat,
            CongestionControl::Cubic { cwnd, .. } => cwnd as nat,
        }
    }

    pub open spec fn wf(self) -> bool {
        match self {
            CongestionControl::Reno { cwnd, acked } => 1 <= cwnd <= MAX_CWND && acked < cwnd,
            CongestionControl::Cubic { cwnd, w_max, acked } => {
                &&& 1 <= cwnd <= MAX_CWND
                &&& w_max <= MAX_CWND
                &&& acked < cubic_step(cwnd as nat, w_max as nat)
            },
        }
    }

    /// The state after one newly acknowledged segment.
    pub open spec fn after_ack(self) -> CongestionControl {
        match self {
            CongestionControl::Reno { cwnd, acked } => {
                if acked + 1 < cwnd {
                    CongestionControl::Reno { cwnd, acked: (acked + 1) as u64 }
                } else if cwnd < MAX_CWND {
                    CongestionControl::Reno { cwnd: (cwnd + 1) as u64, acked: 0 }
                } else {
                    CongestionControl::Reno { cwnd, acked: 0 }
                }
            },
            CongestionControl::Cubic { cwnd, w_max, acked } => {
                if acked + 1 < cubic_step(cwnd as nat, w_max as nat) {
                    CongestionControl::Cubic { cwnd, w_max, acked: (acked + 1) as u64 }
                } else if cwnd < MAX_CWND {
                    CongestionControl::Cubic { cwnd: (cwnd + 1) as u64, w_max, acked: 0 }
                } else {
                    CongestionControl::Cubic { cwnd, w_max, acked: 0 }
                }
            },
        }
    }

    /// The state after a loss signal.
    pub open spec fn after_loss(self) -> CongestionControl {
        match self {
            CongestionControl::Reno { cwnd, .. } => {
                CongestionControl::Reno {
                    cwnd: if cwnd / 2 >= 1 { (cwnd / 2) as u64 } else { 1 },
                    acked: 0,
                }
            },
            CongestionControl::Cubic { cwnd, .. } => {
                CongestionControl::Cubic {
                    cwnd: if cwnd * 7 / 10 >= 1 { (cwnd * 7 / 10) as u64 } else { 1 },
                    w_max: cwnd,
                    acked: 0,
                }
            },
        }
    }

    /// A Reno strategy with the initial window.
    pub fn new_reno() -> (r: CongestionControl)
        ensures
            r == (CongestionControl::Reno { cwnd: INIT_CWND, acked: 0 }),
            r.wf(),
    {
        CongestionControl::Reno { cwnd: INIT_CWND, acked: 0 }
    }

    pub open spec fn new_cubic_spec() -> CongestionControl {
        CongestionControl::Cubic { cwnd: INIT_CWND, w_max: 0, acked: 0 }
    }

    /// A Cubic strategy with the initial window and no loss seen yet.
    pub fn new_cubic() -> (r: CongestionControl)
        ensures
            r == CongestionControl::new_cubic_spec(),
            r.wf(),
    {
        CongestionControl::Cubic { cwnd: INIT_CWND, w_max: 0, acked: 0 }
    }

    /// The congestion window in segments; never below one.
    pub fn cwnd(&self) -> (r: u64)
        requires
            self.wf(),
        ensures
            r == self.window(),
            r >= 1,
    {
        match self {
            CongestionControl::Reno { cwnd, .. } => *cwnd,
            CongestionControl::Cubic { cwnd, .. } => *cwnd,
        }
    }

    /// Feedback for one newly acknowledged segment; the window never shrinks.
    pub fn mark_ack(&mut self)
        requires
            old(self).wf(),
        ensures
            *final(self) == old(self).after_ack(),
            final(self).wf(),
            final(self).window() >= old(self).window(),
    {
        match *self {
            CongestionControl::Reno { cwnd, acked } => {
                if acked + 1 < cwnd {
                    *self = CongestionControl::Reno { cwnd, acked: acked + 1 };
                } else if cwnd < MAX_CWND {
                    *self = CongestionControl::Reno { cwnd: cwnd + 1, acked: 0 };
                } else {
                    *self = CongestionControl::Reno { cwnd, acked: 0 };
                }
            },
            CongestionControl::Cubic { cwnd, w_max, acked } => {
                let step = if cwnd < w_max {
                    cwnd / (w_max - cwnd) + 1
                } else {
                    cwnd / (cwnd - w_max + 1) + 1
                };
                if acked + 1 < step {
                    *self = CongestionControl::Cubic { cwnd, w_max, acked: acked + 1 };
                } else if cwnd < MAX_CWND {
                    *self = CongestionControl::Cubic { cwnd: cwnd + 1, w_max, acked: 0 };
                } else {
                    *self = CongestionControl::Cubic { cwnd, w_max, acked: 0 };
                }
            },
        }
    }

    /// Feedback for a detected loss; the window never grows.
    pub fn mark_loss(&mut self)
        requires
            old(self).wf(),
        ensures
            *final(self) == old(self).after_loss(),
            final(self).wf(),
            final(self).window() <= old(self).window(),
    {
        match *self {
            CongestionControl::Reno { cwnd, .. } => {
                let half = cwnd / 2;
                *self = CongestionControl::Reno { cwnd: if half >= 1 { half } else { 1 }, acked: 0 };
            },
            CongestionControl::Cubic { cwnd, .. } => {
                let backed = cwnd * 7 / 10;
                *self = CongestionControl::Cubic {
                    cwnd: if backed >= 1 { backed } else { 1 },
                    w_max: cwnd,
                    acked: 0,
                };
            },
        }
    }
}

} // verus!
