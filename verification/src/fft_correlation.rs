use vstd::prelude::*;
use crate::sync::{is_pow2, next_power_of_two};

verus! {

// ---------------------------------------------------------------------
// Layout of an FFT cross-correlation (scipy conventions); the transforms
// themselves work on floating-point samples outside this library.

/// Output mode for correlation.
#[derive(Debug, Clone, Copy, PartialEq, Eq, Structural)]
pub enum Mode {
    /// Full correlation output (signal length + template length - 1 samples)
    Full,
    /// Centered output matching the signal length
    Same,
    /// Only the fully-overlapping region (signal length - template length + 1 samples)
    Valid,
}

/// Where the output of a correlation sits in the inverse transform: its start and
/// length, for non-empty signal (`n`) and template (`m`).
pub open spec fn output_window(n: nat, m: nat, mode: Mode) -> (nat, nat) {
    match mode {
        Mode::Full => (0, (n + m - 1) as nat),
        Mode::Same => (((m - 1) / 2) as nat, n),
        Mode::Valid => if n < m { (0, 0) } else { ((m - 1) as nat, (n - m + 1) as nat) },
    }
}

/// The transform size and output window of a correlation of a signal with a template;
/// `None` when either is empty (the result is then empty).
pub fn correlation_layout(signal_len: usize, template_len: usize, mode: Mode) -> (res: Option<(usize, usize, usize)>)
    requires
        signal_len + template_len - 1 <= usize::MAX / 2 + 1,
    ensures
        (signal_len == 0 || template_len == 0) <==> res is None,
        res matches Some(l) ==> {
            let out_len = signal_len + template_len - 1;
            &&& is_pow2(l.0 as nat)
            &&& l.0 >= out_len
            &&& (l.0 == 1 || l.0 / 2 < out_len)
            &&& (l.1 as nat, l.2 as nat) == output_window(signal_len as nat, template_len as nat, mode)
            &&& l.1 + l.2 <= out_len
        },
{
    if signal_len == 0 || template_len == 0 {
        return None;
    }
    let output_len = signal_len + template_len - 1;
    let fft_size = next_power_of_two(output_len);
    let (start, len) = match mode {
        Mode::Full => (0, output_len),
        Mode::Same => ((output_len - signal_len) / 2, signal_len),
        Mode::Valid => {
            if signal_len < template_len {
                (0, 0)
            } else {
                (template_len - 1, signal_len - template_len + 1)
            }
        },
    };
    Some((fft_size, start, len))
}

} // verus!
