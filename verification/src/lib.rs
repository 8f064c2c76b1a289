//! Core infrastructure for an algorithmic trading platform.
//!
//! Three subsystems make up the core:
//!
//! - [`types`] and [`level`]: the order-book price-level engine, which keeps
//!   the resting orders at a single discrete price in FIFO arrival order and
//!   maintains their aggregate size and notional exposure;
//! - [`clock`]: a deterministic logical clock with named periodic timers and
//!   one-shot time alerts, advanced explicitly by the caller;
//! - [`socket`]: the pure logic of a framed TCP client — suffix framing of the
//!   inbound byte stream, outbound message framing, and the supervisor's
//!   reconnect/disconnect decision table.

pub mod clock;
pub mod level;
pub mod socket;
pub mod types;

use vstd::prelude::*;

verus! {

/// Multiplier converting fixed-point prices and quantities to raw integer units.
pub const FIXED_SCALAR: u64 = 1_000_000_000;

} // verus!
