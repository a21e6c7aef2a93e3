use raug_fft::frame::{copy_into, repeat, Complex, Frame};
use raug_fft::signal::{
    indexed_ports, Fft, Fft1024, Fft128, Fft2048, Fft256, Fft4096, Fft512, Fft64, Fft8192,
    SignalSpec, SignalType,
};
use raug_fft::WindowFunction;

#[test]
fn the_family_has_eight_sizes() {
    assert_eq!((Fft64::n_fft(), Fft64::n_real_bins()), (64, 33));
    assert_eq!((Fft128::n_fft(), Fft128::n_real_bins()), (128, 65));
    assert_eq!((Fft256::n_fft(), Fft256::n_real_bins()), (256, 129));
    assert_eq!((Fft512::n_fft(), Fft512::n_real_bins()), (512, 257));
    assert_eq!((Fft1024::n_fft(), Fft1024::n_real_bins()), (1024, 513));
    assert_eq!((Fft2048::n_fft(), Fft2048::n_real_bins()), (2048, 1025));
    assert_eq!((Fft4096::n_fft(), Fft4096::n_real_bins()), (4096, 2049));
    assert_eq!((Fft8192::n_fft(), Fft8192::n_real_bins()), (8192, 4097));
}

#[test]
fn ports_connect_when_their_types_are_equal() {
    let all = [
        SignalType::Sample,
        SignalType::AudioBlock,
        SignalType::RealSpectrum,
        SignalType::ComplexSpectrum,
    ];
    for a in all {
        for b in all {
            assert_eq!(a.connects_to(b), a == b);
        }
    }
}

#[test]
fn a_port_has_a_name_and_a_type() {
    let port = SignalSpec::new("input", SignalType::RealSpectrum);
    assert_eq!(port.name, "input");
    assert_eq!(port.signal_type, SignalType::RealSpectrum);
    let copy = port.clone();
    assert_eq!(copy.name, "input");
    assert_eq!(copy.signal_type, SignalType::RealSpectrum);
}

#[test]
fn indexed_ports_are_named_in_decimal() {
    let ports = indexed_ports(102);
    assert_eq!(ports.len(), 102);
    assert_eq!(ports[0].name, "0");
    assert_eq!(ports[7].name, "7");
    assert_eq!(ports[10].name, "10");
    assert_eq!(ports[99].name, "99");
    assert_eq!(ports[101].name, "101");
    assert!(ports.iter().all(|p| p.signal_type == SignalType::Sample));
    assert!(indexed_ports(0).is_empty());
}

#[test]
fn zeroed_frames_have_the_length_of_their_type() {
    let audio = Frame::<i64>::zeros(SignalType::AudioBlock, 64, 0).unwrap();
    assert_eq!(audio.signal_type(), SignalType::AudioBlock);
    assert_eq!(audio.len(), 64);
    assert_eq!(audio.as_audio(), Some(&vec![0; 64]));
    assert!(audio.as_real_spectrum().is_none());
    let real = Frame::<i64>::zeros(SignalType::RealSpectrum, 64, 5).unwrap();
    assert_eq!(real.signal_type(), SignalType::RealSpectrum);
    assert_eq!(real.len(), 33);
    let bins = real.as_real_spectrum().unwrap();
    assert!(bins.iter().all(|b| b.re == 5 && b.im == 5));
    assert!(real.as_audio().is_none());
    let full = Frame::<i64>::zeros(SignalType::ComplexSpectrum, 64, 0).unwrap();
    assert_eq!(full.signal_type(), SignalType::ComplexSpectrum);
    assert_eq!(full.len(), 64);
    assert!(full.as_audio().is_none());
    assert!(full.as_real_spectrum().is_none());
    assert!(Frame::<i64>::zeros(SignalType::Sample, 64, 0).is_none());
}

#[test]
fn frames_are_overwritten_only_by_their_like() {
    let mut audio = Frame::Audio(vec![1, 2, 3]);
    assert!(audio.write_audio(&vec![4, 5, 6]));
    assert_eq!(audio.as_audio(), Some(&vec![4, 5, 6]));
    assert!(!audio.write_audio(&vec![7, 8]));
    assert_eq!(audio.as_audio(), Some(&vec![4, 5, 6]));
    assert!(!audio.write_real_spectrum(&vec![Complex { re: 1, im: 1 }; 3]));
    assert_eq!(audio.as_audio(), Some(&vec![4, 5, 6]));
    let mut real = Frame::RealSpectrum(vec![Complex { re: 0, im: 0 }; 2]);
    assert!(real.write_real_spectrum(&vec![Complex { re: 1, im: 2 }, Complex { re: 3, im: 4 }]));
    let bins = real.as_real_spectrum().unwrap();
    assert_eq!((bins[1].re, bins[1].im), (3, 4));
    assert!(!real.write_audio(&vec![1, 2]));
    assert!(!real.write_real_spectrum(&vec![Complex { re: 1, im: 2 }]));
}

#[test]
fn vectors_are_filled_and_copied() {
    assert_eq!(repeat(7u8, 3), vec![7, 7, 7]);
    assert_eq!(repeat(7u8, 0), Vec::<u8>::new());
    let mut target = vec![0, 0, 0];
    copy_into(&vec![1, 2, 3], &mut target);
    assert_eq!(target, vec![1, 2, 3]);
}

#[test]
fn the_default_window_is_hann() {
    assert_eq!(WindowFunction::default(), WindowFunction::Hann);
}
