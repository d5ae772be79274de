use wav_optimizer::naming::cut_postfix;
use wav_optimizer::naming::format_two_digits;
use wav_optimizer::naming::is_wav_file_name;
use wav_optimizer::naming::output_file_name;

#[test]
fn two_digit_numbers_are_zero_padded() {
    assert_eq!(format_two_digits(0), b"00".to_vec());
    assert_eq!(format_two_digits(1), b"01".to_vec());
    assert_eq!(format_two_digits(9), b"09".to_vec());
    assert_eq!(format_two_digits(10), b"10".to_vec());
    assert_eq!(format_two_digits(99), b"99".to_vec());
    assert_eq!(format_two_digits(123), b"123".to_vec());
}

#[test]
fn cut_postfix_numbers_from_one() {
    assert_eq!(cut_postfix(&b"-".to_vec(), 0), b"-01".to_vec());
    assert_eq!(cut_postfix(&b".".to_vec(), 11), b".12".to_vec());
    assert_eq!(cut_postfix(&b"".to_vec(), 99), b"100".to_vec());
}

#[test]
fn output_names_follow_the_policy() {
    let stem = b"take".to_vec();
    assert_eq!(output_file_name(&stem, true, None), b"take.wav".to_vec());
    assert_eq!(output_file_name(&stem, false, None), b"take_stripped.wav".to_vec());
    let pf = cut_postfix(&b"-".to_vec(), 0);
    assert_eq!(output_file_name(&stem, true, Some(&pf)), b"take-01.wav".to_vec());
    assert_eq!(
        output_file_name(&stem, false, Some(&pf)),
        b"take_stripped-01.wav".to_vec()
    );
}

#[test]
fn wav_names_are_detected_case_insensitively() {
    assert!(is_wav_file_name(&b"sound.wav".to_vec()));
    assert!(is_wav_file_name(&b"Sound.WAV".to_vec()));
    assert!(is_wav_file_name(&b"a.b.Wav".to_vec()));
    assert!(is_wav_file_name(&b"wav".to_vec()));
    assert!(!is_wav_file_name(&b"sound.wave".to_vec()));
    assert!(!is_wav_file_name(&b"sound.wav.bak".to_vec()));
    assert!(!is_wav_file_name(&b"sound.".to_vec()));
    assert!(!is_wav_file_name(&b"".to_vec()));
}
