//! Offline IPv4 range-table lookup engine.
//!
//! The engine maps a 32-bit IPv4 address to a short label (a country or
//! region code) by scanning a sorted, comma-separated range table that the
//! caller has loaded into memory as one immutable byte buffer.  Every line of
//! the table has the form `min,max,label\n`, where `min` and `max` are the
//! decimal bounds of an address range.
//!
//! The lookup contracts hold for tables whose lines span 16 to 24 bytes
//! before the terminator — the country-style tables the engine's fixed
//! probe windows are sized for, with six to ten digits per bound and a
//! short label.  Tables with longer free-text labels fall outside that
//! precondition: near the end of a buffer or partition the widening probes
//! genuinely cannot distinguish a long line from a trailing remnant.
use vstd::prelude::*;

pub mod chunk;
pub mod codec;
pub mod engine;
pub mod laws;
pub mod mask;
pub mod scan;
pub mod table;

pub use chunk::chunks;
pub use codec::into_num;
pub use engine::guess;
pub use engine::parallel;
pub use scan::find_nl;
pub use scan::lookup_ipv4;

verus! {

/// The numeric value of one IPv4 address given as its four dotted octets,
/// most significant first.
pub fn ipv4_num(o0: u8, o1: u8, o2: u8, o3: u8) -> (r: u32)
    ensures
        r == (o0 as u32) * 0x1000000 + (o1 as u32) * 0x10000 + (o2 as u32) * 0x100 + (o3 as u32),
{
    (o0 as u32) * 0x1000000 + (o1 as u32) * 0x10000 + (o2 as u32) * 0x100 + (o3 as u32)
}

} // verus!
