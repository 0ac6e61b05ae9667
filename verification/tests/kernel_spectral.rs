use pack::kernel::key::{SpectralPeakCode, SpectralProgram};
use pack::kernel::spectral::synthesise_spectral_bits;

#[test]
fn spectral_program_expands_a_walsh_basis_without_prng_state() {
    let program = SpectralProgram {
        bit_len: 32,
        peaks: vec![SpectralPeakCode {
            index: 0b10101,
            positive: true,
            amplitude: 31,
        }],
        tie_bit: false,
    };
    let bits = synthesise_spectral_bits(&program).unwrap();
    for (position, bit) in bits.iter().enumerate() {
        let expected = u8::from((position & 0b10101).count_ones() & 1 == 0);
        assert_eq!(*bit, expected);
    }
}
