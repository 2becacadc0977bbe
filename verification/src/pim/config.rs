//! Fixed hardware parameters of the simulated PIM array.
use vstd::prelude::*;

verus! {

/// Fixed hardware parameters for PIM simulation (all sizes in bytes unless
/// noted). The GPU reference bandwidth used for the GPU comparison is not
/// part of the bank model and is kept by the caller.
#[derive(Debug, Clone, Copy, PartialEq, Eq)]
pub struct PimConfig {
    pub page_size: u64,
    pub banks: u64,
    pub channels: u64,
    pub banks_per_channel: u64,
    pub data_width: u64,
    /// Weight element width in BITS (32=f32, 16=f16, 8=int8, 6=int6,
    /// 4=int4); the layout model derives chunk and row geometry from it,
    /// which allows sub-byte widths that `data_width` cannot express.
    pub weight_bits: u64,
    pub activation_size: u64,
    pub neuron_size: u64,
}

impl Default for PimConfig {
    /// 1024 banks (32 channels x 32 banks), 1 KiB pages, f32 weights, a
    /// 4096-wide activation and 11008 neurons.
    fn default() -> (c: Self)
        ensures
            c.page_size == 1024,
            c.banks == 1024,
            c.channels == 32,
            c.banks_per_channel == 32,
            c.data_width == 4,
            c.weight_bits == 32,
            c.activation_size == 4096,
            c.neuron_size == 11008,
    {
        PimConfig {
            page_size: 1024,
            banks: 32 * 32,
            channels: 32,
            banks_per_channel: 32,
            data_width: 4,
            weight_bits: 32,
            activation_size: 4 * 1024,
            neuron_size: 11008,
        }
    }
}

} // verus!
