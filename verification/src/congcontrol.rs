//! Congestion control: how many packets a sender may have in flight.

use vstd::prelude::*;
use crate::Nanos;

verus! {

/// Why a sender is asked to slow down.
#[derive(Clone, Copy, Debug, PartialEq, Eq, Structural)]
pub enum ReductionType {
    Drop,
    Ecn,
}

/// A congestion-control algorithm. The window is counted in packets. What an
/// algorithm does with an acknowledgement or a congestion signal is given by
/// `after_packet` and `after_reduction`; the methods carry them out and
/// return the window that results.
pub trait CongAlg: Sized {
    /// The window, in packets.
    spec fn window(&self) -> u32;

    /// The algorithm once `acked` more bytes are acknowledged, with a round
    /// trip of `rtt`.
    spec fn after_packet(&self, acked: u32, rtt: Nanos) -> Self;

    /// The algorithm once congestion has been signalled.
    spec fn after_reduction(&self, reduction: ReductionType) -> Self;

    /// The algorithm that `new` yields.
    spec fn initial() -> Self;

    fn new() -> (cc: Self)
        ensures
            cc == Self::initial(),
    ;

    fn cwnd(&self) -> (w: u32)
        ensures
            w == self.window(),
    ;

    fn on_packet(&mut self, acked: u32, rtt: Nanos) -> (w: u32)
        ensures
            *final(self) == old(self).after_packet(acked, rtt),
            w == final(self).window(),
    ;

    fn reduction(&mut self, reduction: ReductionType) -> (w: u32)
        ensures
            *final(self) == old(self).after_reduction(reduction),
            w == final(self).window(),
    ;
}

/// A window that never changes.
#[derive(Clone, Copy, Debug)]
pub struct ConstCwnd(pub u32);

/// The window of `ConstCwnd`, in packets.
pub const CONST_WINDOW: u32 = 10;

impl CongAlg for ConstCwnd {
    open spec fn window(&self) -> u32 {
        self.0
    }

    open spec fn after_packet(&self, acked: u32, rtt: Nanos) -> Self {
        *self
    }

    open spec fn after_reduction(&self, reduction: ReductionType) -> Self {
        *self
    }

    open spec fn initial() -> Self {
        ConstCwnd(CONST_WINDOW)
    }

    fn new() -> (cc: Self) {
        ConstCwnd(CONST_WINDOW)
    }

    fn cwnd(&self) -> (w: u32) {
        self.0
    }

    fn on_packet(&mut self, _acked: u32, _rtt: Nanos) -> (w: u32) {
        self.0
    }

    fn reduction(&mut self, _reduction: ReductionType) -> (w: u32) {
        self.0
    }
}

} // verus!
