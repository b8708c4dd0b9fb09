//! Conversion between the host ledger's native unit and the virtual
//! machine's: lamports are billionths of the native coin, gwei billionths
//! of the machine's.

use vstd::prelude::*;

use crate::types::U256;

verus! {

/// Billionths-to-billionths: one lamport is worth this many gwei.
pub const LAMPORTS_TO_GWEI_PRICE: u64 = 1_000_000_000;

/// The gwei value of `lamports`, as a 256-bit word: exactly
/// `lamports * 1_000_000_000`.
pub fn lamports_to_gwei(lamports: u64) -> (r: U256)
    ensures
        r.as_nat() == lamports * 1_000_000_000,
{
    proof {
        vstd::arithmetic::mul::lemma_mul_inequality(
            lamports as int,
            u64::MAX as int,
            1_000_000_000,
        );
    }
    let g: u128 = (lamports as u128) * 1_000_000_000;
    proof {
        vstd::arithmetic::div_mod::lemma_fundamental_div_mod(
            g as int,
            0x1_0000_0000_0000_0000,
        );
        assert(g as int / 0x1_0000_0000_0000_0000 < 0x1_0000_0000_0000_0000) by (nonlinear_arith)
            requires
                0 <= g as int <= u128::MAX as int,
        ;
    }
    let w1 = (g / 0x1_0000_0000_0000_0000) as u64;
    let w0 = (g % 0x1_0000_0000_0000_0000) as u64;
    U256 { w3: 0, w2: 0, w1, w0 }
}

} // verus!
