//! Congestion control after TCP Reno: how many bytes may be under way at a time.

use vstd::prelude::*;

verus! {

/// The congestion window of a new connection.
pub const INITIAL_CWND: usize = 2048;

/// The receive window that is taken for granted before the peer announces a larger one.
pub const INITIAL_RWND: usize = 65536;

/// The state of the congestion control in plain numbers.
pub struct RenoView {
    /// The congestion window.
    pub cwnd: nat,
    /// The floor of the congestion window: the maximum segment size.
    pub min_cwnd: nat,
    /// The slow start threshold.
    pub ssthresh: nat,
    /// The receive window of the peer: the ceiling of the congestion window.
    pub rwnd: nat,
}

/// The larger of two numbers.
pub open spec fn larger(a: nat, b: nat) -> nat {
    if a < b {
        b
    } else {
        a
    }
}

/// The smaller of two numbers.
pub open spec fn smaller(a: nat, b: nat) -> nat {
    if a < b {
        a
    } else {
        b
    }
}

impl RenoView {
    /// The state of a new connection with the maximum segment size `mss`.
    pub open spec fn fresh(mss: nat) -> RenoView {
        RenoView {
            cwnd: INITIAL_CWND as nat,
            min_cwnd: mss,
            ssthresh: usize::MAX as nat,
            rwnd: INITIAL_RWND as nat,
        }
    }

    /// Every number fits its counter, and the ceiling is not below the one that is taken for
    /// granted.
    pub open spec fn wf(self) -> bool {
        &&& self.cwnd <= usize::MAX
        &&& self.min_cwnd <= usize::MAX
        &&& self.ssthresh <= usize::MAX
        &&& INITIAL_RWND <= self.rwnd <= usize::MAX
    }

    /// Whether the window still grows by what is acknowledged, not by a segment at a time.
    pub open spec fn in_slow_start(self) -> bool {
        self.cwnd < self.ssthresh
    }

    /// The window brought under the ceiling and then over the floor.
    pub open spec fn confine(self, window: nat) -> nat {
        larger(smaller(window, self.rwnd), self.min_cwnd)
    }

    /// The state after `len` bytes were acknowledged.
    pub open spec fn after_ack(self, len: nat) -> RenoView {
        if self.in_slow_start() {
            RenoView { cwnd: self.confine(self.cwnd + len), ..self }
        } else {
            RenoView {
                cwnd: self.confine(self.cwnd + self.min_cwnd),
                ssthresh: self.cwnd,
                ..self
            }
        }
    }

    /// The state after a duplicate acknowledgement.
    pub open spec fn after_duplicate_ack(self) -> RenoView {
        RenoView { ssthresh: larger(self.cwnd / 2, self.min_cwnd), ..self }
    }

    /// The state after a retransmission.
    pub open spec fn after_retransmit(self) -> RenoView {
        RenoView { cwnd: larger(self.cwnd / 2, self.min_cwnd), ..self }
    }

    /// The state after the peer announced the window `remote_window`.
    pub open spec fn after_remote_window(self, remote_window: nat) -> RenoView {
        RenoView { rwnd: larger(self.rwnd, remote_window), ..self }
    }
}

/// The congestion control of one connection.
#[derive(Debug)]
pub struct Reno {
    cwnd: usize,
    min_cwnd: usize,
    ssthresh: usize,
    rwnd: usize,
}

impl View for Reno {
    type V = RenoView;

    closed spec fn view(&self) -> RenoView {
        RenoView {
            cwnd: self.cwnd as nat,
            min_cwnd: self.min_cwnd as nat,
            ssthresh: self.ssthresh as nat,
            rwnd: self.rwnd as nat,
        }
    }
}

impl Reno {
    /// Holds of every value of the type.
    #[verifier::type_invariant]
    pub open spec fn type_inv(self) -> bool {
        self@.wf()
    }
}

impl Default for Reno {
    fn default() -> (reno: Self)
        ensures
            reno@ == RenoView::fresh(INITIAL_CWND as nat),
            reno@.wf(),
    {
        Reno {
            cwnd: INITIAL_CWND,
            min_cwnd: INITIAL_CWND,
            ssthresh: usize::MAX,
            rwnd: INITIAL_RWND,
        }
    }
}

impl Reno {
    /// The congestion control of a new connection with the maximum segment size `mss`.
    pub fn new(mss: usize) -> (reno: Self)
        ensures
            reno@ == RenoView::fresh(mss as nat),
            reno@.wf(),
    {
        Reno { min_cwnd: mss, ..Reno::default() }
    }

    /// The congestion window.
    pub fn window(&self) -> (window: usize)
        ensures
            window == self@.cwnd,
            self@.wf(),
    {
        proof {
            use_type_invariant(self);
        }
        self.cwnd
    }

    /// The floor of the congestion window.
    pub fn min_cwnd(&self) -> (floor: usize)
        ensures
            floor == self@.min_cwnd,
    {
        self.min_cwnd
    }

    /// Lets the window grow: in slow start by the `len` bytes that were acknowledged, and after
    /// it by one segment, within the ceiling and the floor.
    pub fn on_ack(&mut self, len: usize)
        ensures
            final(self)@ == old(self)@.after_ack(len as nat),
            final(self)@.wf(),
    {
        proof {
            use_type_invariant(&*self);
        }
        let len: usize = if self.cwnd < self.ssthresh {
            len
        } else {
            self.ssthresh = self.cwnd;
            self.min_cwnd
        };

        self.cwnd = self.cwnd.saturating_add(len).min(self.rwnd).max(self.min_cwnd);
    }

    /// Lowers the slow start threshold to half the window, but not below the floor.
    pub fn on_duplicate_ack(&mut self)
        ensures
            final(self)@ == old(self)@.after_duplicate_ack(),
            final(self)@.wf(),
    {
        proof {
            use_type_invariant(&*self);
        }
        let cwnd: usize = self.cwnd;
        assert(cwnd >> 1 == cwnd / 2) by (bit_vector);
        self.ssthresh = (cwnd >> 1).max(self.min_cwnd);
    }

    /// Halves the window, but not below the floor.
    pub fn on_retransmit(&mut self)
        ensures
            final(self)@ == old(self)@.after_retransmit(),
            final(self)@.wf(),
    {
        proof {
            use_type_invariant(&*self);
        }
        let cwnd: usize = self.cwnd;
        assert(cwnd >> 1 == cwnd / 2) by (bit_vector);
        self.cwnd = (cwnd >> 1).max(self.min_cwnd);
    }

    /// Sets the floor of the window to the maximum segment size `mss`.
    pub fn set_mss(&mut self, mss: usize)
        ensures
            final(self)@ == (RenoView { min_cwnd: mss as nat, ..old(self)@ }),
            final(self)@.wf(),
    {
        proof {
            use_type_invariant(&*self);
        }
        self.min_cwnd = mss;
    }

    /// Raises the ceiling of the window to `remote_window`, where that is higher.
    pub fn set_remote_window(&mut self, remote_window: usize)
        ensures
            final(self)@ == old(self)@.after_remote_window(remote_window as nat),
            final(self)@.wf(),
    {
        proof {
            use_type_invariant(&*self);
        }
        if self.rwnd < remote_window {
            self.rwnd = remote_window;
        }
    }
}

/// What can happen to the congestion control.
pub enum RenoEvent {
    Ack(usize),
    DuplicateAck,
    Retransmit,
    RemoteWindow(usize),
    Mss(usize),
}

impl RenoView {
    /// The state after one event.
    pub open spec fn after(self, event: RenoEvent) -> RenoView {
        match event {
            RenoEvent::Ack(len) => self.after_ack(len as nat),
            RenoEvent::DuplicateAck => self.after_duplicate_ack(),
            RenoEvent::Retransmit => self.after_retransmit(),
            RenoEvent::RemoteWindow(window) => self.after_remote_window(window as nat),
            RenoEvent::Mss(mss) => RenoView { min_cwnd: mss as nat, ..self },
        }
    }

    /// The state after a series of events.
    pub open spec fn after_all(self, events: Seq<RenoEvent>) -> RenoView
        decreases events.len(),
    {
        if events.len() == 0 {
            self
        } else {
            self.after_all(events.drop_last()).after(events.last())
        }
    }

    /// Whether the window lies between its floor and the higher of its ceiling and its floor.
    pub open spec fn in_bounds(self) -> bool {
        self.min_cwnd <= self.cwnd <= larger(self.rwnd, self.min_cwnd)
    }

    /// Whether no event of a series sets a floor that the window of that moment would violate.
    pub open spec fn admits(self, events: Seq<RenoEvent>) -> bool {
        forall|i: int|
            0 <= i < events.len() ==> match #[trigger] events[i] {
                RenoEvent::Mss(mss) => {
                    let before = self.after_all(events.take(i));
                    mss <= before.cwnd <= larger(before.rwnd, mss as nat)
                },
                _ => true,
            }
    }
}

/// Whatever the state was, an acknowledgement and a retransmission leave a window that is at
/// least the floor, and an acknowledgement one that is at most the ceiling, or the floor where
/// that is higher.
pub proof fn law_window_is_confined(reno: RenoView, len: nat)
    ensures
        reno.after_ack(len).in_bounds(),
        reno.after_retransmit().min_cwnd <= reno.after_retransmit().cwnd,
{
}

/// On a connection whose segments are no longer than the initial window, the window stays
/// between its floor and its ceiling (or its floor, where that is higher) through every series
/// of events, as long as no new floor is set that the window violates at that moment.
pub proof fn law_window_stays_in_bounds(mss: nat, events: Seq<RenoEvent>)
    requires
        mss <= INITIAL_CWND,
        RenoView::fresh(mss).admits(events),
    ensures
        RenoView::fresh(mss).after_all(events).in_bounds(),
    decreases events.len(),
{
    if events.len() > 0 {
        let start = RenoView::fresh(mss);
        let others = events.drop_last();
        assert(start.admits(others)) by {
            assert forall|i: int| 0 <= i < others.len() implies match #[trigger] others[i] {
                RenoEvent::Mss(mss) => {
                    let before = start.after_all(others.take(i));
                    mss <= before.cwnd <= larger(before.rwnd, mss as nat)
                },
                _ => true,
            } by {
                assert(others[i] == events[i]);
                assert(others.take(i) =~= events.take(i));
            }
        }
        law_window_stays_in_bounds(mss, others);
        assert(events.take(events.len() - 1) =~= others);
        assert(events[events.len() - 1] == events.last());
    }
}

/// The ceiling never falls, through no series of events, and a well-formed state stays
/// well-formed.
pub proof fn law_ceiling_never_falls(reno: RenoView, events: Seq<RenoEvent>)
    ensures
        reno.after_all(events).rwnd >= reno.rwnd,
        reno.wf() ==> reno.after_all(events).wf(),
    decreases events.len(),
{
    if events.len() > 0 {
        law_ceiling_never_falls(reno, events.drop_last());
    }
}

/// In a well-formed state it makes no difference whether the window grows without limit or stops
/// at the largest number that its counter can hold, before it is confined.
pub proof fn law_saturation_is_confined(reno: RenoView, len: nat)
    requires
        reno.wf(),
    ensures
        reno.confine(smaller(reno.cwnd + len, usize::MAX as nat)) == reno.confine(reno.cwnd + len),
        reno.after_ack(len).cwnd == reno.confine(
            smaller(
                reno.cwnd + (if reno.in_slow_start() {
                    len
                } else {
                    reno.min_cwnd
                }),
                usize::MAX as nat,
            ),
        ),
{
}

/// A window that a 16-bit field can hold never moves the ceiling of a well-formed state.
pub proof fn law_small_remote_window_changes_nothing(reno: RenoView, window: nat)
    requires
        reno.wf(),
        window <= u16::MAX,
    ensures
        reno.after_remote_window(window) == reno,
{
}

/// An acknowledgement never shrinks a window that is under its ceiling, or under its floor
/// where that is higher.
pub proof fn law_ack_never_shrinks_the_window(reno: RenoView, len: nat)
    requires
        reno.cwnd <= larger(reno.rwnd, reno.min_cwnd),
    ensures
        reno.after_ack(len).cwnd >= reno.cwnd,
{
}

/// A window at or above its floor grows by at most what is acknowledged in slow start, and by
/// at most one segment after it.
pub proof fn law_growth_is_limited(reno: RenoView, len: nat)
    requires
        reno.min_cwnd <= reno.cwnd,
    ensures
        reno.in_slow_start() ==> reno.after_ack(len).cwnd <= reno.cwnd + len,
        !reno.in_slow_start() ==> reno.after_ack(len).cwnd <= reno.cwnd + reno.min_cwnd,
{
}

/// A duplicate acknowledgement ends the slow start of a window at or above its floor, and leaves
/// the window as it is.
pub proof fn law_duplicate_ack_ends_slow_start(reno: RenoView)
    requires
        reno.min_cwnd <= reno.cwnd,
    ensures
        !reno.after_duplicate_ack().in_slow_start(),
        reno.after_duplicate_ack().cwnd == reno.cwnd,
{
}

/// A retransmission never raises a window at or above its floor, and halves it where half is
/// still at or above the floor.
pub proof fn law_retransmit_backs_off(reno: RenoView)
    requires
        reno.min_cwnd <= reno.cwnd,
    ensures
        reno.after_retransmit().cwnd <= reno.cwnd,
        reno.min_cwnd <= reno.cwnd / 2 ==> reno.after_retransmit().cwnd == reno.cwnd / 2,
        reno.cwnd / 2 <= reno.min_cwnd ==> reno.after_retransmit().cwnd == reno.min_cwnd,
{
}

/// A new connection starts with a window of 2048 bytes, the segment size as its floor, no
/// threshold, and a ceiling of 65536 bytes.
pub proof fn law_where_the_window_starts(mss: nat)
    ensures
        RenoView::fresh(mss).cwnd == 2048,
        RenoView::fresh(mss).min_cwnd == mss,
        RenoView::fresh(mss).ssthresh == usize::MAX,
        RenoView::fresh(mss).rwnd == 65536,
{
}

/// Below the threshold an acknowledgement of `len` bytes moves the window by exactly `len`, where
/// the sum lies between the floor and the ceiling. Beyond the ceiling the window is the ceiling,
/// and below the floor, or where the floor is above the ceiling, it is the floor. Nothing else
/// changes.
pub proof fn law_slow_start_adds_exactly_the_acknowledged(reno: RenoView, len: nat)
    requires
        reno.cwnd < reno.ssthresh,
    ensures
        reno.min_cwnd <= reno.cwnd + len <= reno.rwnd ==> reno.after_ack(len).cwnd == reno.cwnd
            + len,
        reno.cwnd + len >= reno.rwnd >= reno.min_cwnd ==> reno.after_ack(len).cwnd == reno.rwnd,
        reno.cwnd + len <= reno.min_cwnd || reno.rwnd <= reno.min_cwnd ==> reno.after_ack(len).cwnd
            == reno.min_cwnd,
        reno.after_ack(len).ssthresh == reno.ssthresh,
        reno.after_ack(len).min_cwnd == reno.min_cwnd,
        reno.after_ack(len).rwnd == reno.rwnd,
{
}

/// From the threshold on an acknowledgement, however long, moves the window by exactly one
/// segment within the same limits, and the threshold to where the window was. Nothing else
/// changes.
pub proof fn law_avoidance_adds_exactly_one_segment(reno: RenoView, len: nat)
    requires
        reno.cwnd >= reno.ssthresh,
    ensures
        reno.cwnd + reno.min_cwnd <= reno.rwnd ==> reno.after_ack(len).cwnd == reno.cwnd
            + reno.min_cwnd,
        reno.cwnd + reno.min_cwnd >= reno.rwnd >= reno.min_cwnd ==> reno.after_ack(len).cwnd
            == reno.rwnd,
        reno.rwnd <= reno.min_cwnd ==> reno.after_ack(len).cwnd == reno.min_cwnd,
        reno.after_ack(len).ssthresh == reno.cwnd,
        reno.after_ack(len).min_cwnd == reno.min_cwnd,
        reno.after_ack(len).rwnd == reno.rwnd,
{
}

/// In slow start two acknowledgements do what one of their sum does, as long as the window stays
/// at or above its floor and below its threshold.
pub proof fn law_slow_start_acks_add_up(reno: RenoView, a: nat, b: nat)
    requires
        reno.min_cwnd <= reno.cwnd,
        reno.cwnd + a < reno.ssthresh,
    ensures
        reno.after_ack(a).after_ack(b) == reno.after_ack(a + b),
{
}

/// A duplicate acknowledgement moves only the threshold: to half the window, rounded down, or to
/// the floor where half is below it.
pub proof fn law_duplicate_ack_moves_only_the_threshold(reno: RenoView)
    ensures
        reno.min_cwnd <= reno.cwnd / 2 ==> reno.cwnd - 1 <= 2
            * reno.after_duplicate_ack().ssthresh <= reno.cwnd,
        reno.min_cwnd >= reno.cwnd / 2 ==> reno.after_duplicate_ack().ssthresh == reno.min_cwnd,
        reno.after_duplicate_ack().cwnd == reno.cwnd,
        reno.after_duplicate_ack().min_cwnd == reno.min_cwnd,
        reno.after_duplicate_ack().rwnd == reno.rwnd,
{
}

/// A retransmission moves only the window: to half of it, rounded down, or to the floor where
/// half is below it.
pub proof fn law_retransmit_moves_only_the_window(reno: RenoView)
    ensures
        reno.min_cwnd <= reno.cwnd / 2 ==> reno.cwnd - 1 <= 2 * reno.after_retransmit().cwnd
            <= reno.cwnd,
        reno.min_cwnd >= reno.cwnd / 2 ==> reno.after_retransmit().cwnd == reno.min_cwnd,
        reno.after_retransmit().ssthresh == reno.ssthresh,
        reno.after_retransmit().min_cwnd == reno.min_cwnd,
        reno.after_retransmit().rwnd == reno.rwnd,
{
}

/// A window that the peer announces moves only the ceiling, to the announced one where that is
/// higher.
pub proof fn law_remote_window_moves_only_the_ceiling(reno: RenoView, window: nat)
    ensures
        window <= reno.rwnd ==> reno.after_remote_window(window).rwnd == reno.rwnd,
        window >= reno.rwnd ==> reno.after_remote_window(window).rwnd == window,
        reno.after_remote_window(window).cwnd == reno.cwnd,
        reno.after_remote_window(window).ssthresh == reno.ssthresh,
        reno.after_remote_window(window).min_cwnd == reno.min_cwnd,
{
}

} // verus!
