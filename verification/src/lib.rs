//! Core of a per-keyboard layout switcher for a window manager whose only
//! switching primitive is "advance to the next layout". The library holds
//! everything the daemon decides: which devices count as keyboards and how
//! they are identified, how persisted bindings become a configuration, how
//! the registry of per-device monitors is reconciled against each
//! enumeration pass, when a key press becomes a layout switch (and when
//! debounce suppresses it), what the layout service's replies mean, and how
//! many advance commands a switch takes. The surrounding binary only
//! performs the I/O these decisions ask for.

pub mod config;
pub mod daemon;
pub mod input;
pub mod niri;
pub mod text;

use vstd::prelude::*;

verus! {

/// The stable key for a keyboard across enumerations: the hardware
/// vendor/product pair. A display name is informational only and is never
/// used as identity, because distinct devices can report the same name.
#[derive(Clone, Copy, PartialEq, Eq, Structural, Hash, Debug)]
pub struct KeyboardIdentity {
    pub vendor_id: u16,
    pub product_id: u16,
}

} // verus!
