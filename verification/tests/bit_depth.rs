use wav_optimizer::sample::int_bit_to_max;
use wav_optimizer::sample::is_silent;
use wav_optimizer::sample::supported_bit_depth;

#[test]
fn bit_to_max() {
    assert_eq!(int_bit_to_max(16, true) as i16, i16::MAX);
    assert_eq!(int_bit_to_max(16, false) as u16, u16::MAX);
    assert_eq!(int_bit_to_max(24, true) as i32, 8388607_i32);
    assert_eq!(int_bit_to_max(24, false) as u32, 16777215_u32);
    assert_eq!(int_bit_to_max(32, true) as i32, i32::MAX);
    assert_eq!(int_bit_to_max(32, false) as u32, u32::MAX);
}

#[test]
fn supported_depths() {
    assert!(supported_bit_depth(16));
    assert!(supported_bit_depth(24));
    assert!(supported_bit_depth(32));
    assert!(!supported_bit_depth(8));
    assert!(!supported_bit_depth(20));
    assert!(!supported_bit_depth(64));
}

#[test]
fn silence_band_is_symmetric_and_inclusive() {
    assert!(is_silent(100, 100));
    assert!(is_silent(-100, 100));
    assert!(is_silent(0, 100));
    assert!(!is_silent(101, 100));
    assert!(!is_silent(-101, 100));
    assert!(is_silent(0, 0));
    assert!(!is_silent(1, 0));
    assert!(!is_silent(-1, 0));
}
