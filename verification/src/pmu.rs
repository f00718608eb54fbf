//! Decoding of the processor's performance-monitoring capabilities.
//!
//! The privileged identification instruction itself cannot be issued from
//! verified code; a caller issues it and hands the two 32-bit registers it
//! returns to [`Pmu::from_registers`], which performs the documented
//! bit-field extraction.

use vstd::prelude::*;

verus! {

/// PMU details, an immutable snapshot of the hardware's monitoring
/// capabilities.
#[derive(Debug, Clone, Copy, PartialEq, Eq, Structural)]
pub struct Pmu {
    /// Width of general-purpose PMCs
    pub pmc_width: u8,
    /// General-purpose PMCs per logical processor
    pub pmc_per_lp: u8,
    /// Version ID of PM architecture
    pub version: u8,
    /// Width of fixed counters
    pub counter_width: u8,
    /// Number of fixed counters
    pub num_counters: u8,
}

impl Pmu {
    /// Decodes the two registers of the monitoring-capability leaf.
    ///
    /// From the selector register `eax`, least to most significant: byte 0 is
    /// the version, byte 1 the counters per logical processor, byte 2 the
    /// counter width.  From `edx`: bits 0 to 4 are the fixed-counter count,
    /// and the byte after that 5-bit field is the fixed-counter width.
    pub fn from_registers(eax: u32, edx: u32) -> (p: Pmu)
        ensures
            p.version == eax & 0xff,
            p.pmc_per_lp == (eax >> 8) & 0xff,
            p.pmc_width == (eax >> 16) & 0xff,
            p.num_counters == edx & 0x1f,
            p.counter_width == (edx >> 5) & 0xff,
    {
        proof {
            assert(eax & 0xff < 256 && (eax >> 8) & 0xff < 256 && (eax >> 16) & 0xff < 256
                && edx & 0x1f < 256 && (edx >> 5) & 0xff < 256) by (bit_vector);
        }
        Pmu {
            version: (eax & 0xff) as u8,
            pmc_per_lp: ((eax >> 8) & 0xff) as u8,
            pmc_width: ((eax >> 16) & 0xff) as u8,
            num_counters: (edx & 0x1f) as u8,
            counter_width: ((edx >> 5) & 0xff) as u8,
        }
    }
}

} // verus!
