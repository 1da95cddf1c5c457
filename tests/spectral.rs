use fourier_epicycles::spectrum::{
    epicycle_terms, rank_bins, signed_frequency, PipelineError, SpectralConfig, Term,
};
use rustfft::num_complex::Complex;
use rustfft::FftPlanner;

fn spectrum(samples: &[(f32, f32)]) -> Vec<Complex<f32>> {
    let mut buffer: Vec<Complex<f32>> = samples.iter().map(|&(x, y)| Complex::new(x, y)).collect();
    let mut planner = FftPlanner::new();
    let fft = planner.plan_fft_forward(buffer.len());
    fft.process(&mut buffer);
    buffer
}

fn keys_of(buffer: &[Complex<f32>]) -> Vec<u32> {
    let n = buffer.len() as f32;
    buffer.iter().map(|c| (c.norm() / n).to_bits()).collect()
}

fn config(min_amplitude: f32, max_terms: usize) -> SpectralConfig {
    SpectralConfig { min_amplitude_key: min_amplitude.to_bits(), max_terms }
}

#[test]
fn frequencies_above_nyquist_are_negative() {
    let four: Vec<i128> = (0..4).map(|k| signed_frequency(k, 4)).collect();
    assert_eq!(four, vec![0, 1, 2, -1]);
    let five: Vec<i128> = (0..5).map(|k| signed_frequency(k, 5)).collect();
    assert_eq!(five, vec![0, 1, 2, -2, -1]);
    assert_eq!(signed_frequency(0, 1), 0);
}

#[test]
fn ranking_filters_sorts_and_truncates() {
    let keys = vec![5, 1, 9, 5, 3, 9, 2];
    assert_eq!(rank_bins(&keys, 2, 10), vec![2, 5, 0, 3, 4]);
    assert_eq!(rank_bins(&keys, 2, 3), vec![2, 5, 0]);
    assert_eq!(rank_bins(&keys, 2, 0), Vec::<usize>::new());
    assert_eq!(rank_bins(&keys, 9, 10), Vec::<usize>::new());
    assert_eq!(rank_bins(&Vec::new(), 0, 10), Vec::<usize>::new());
}

#[test]
fn threshold_is_strict() {
    let keys = vec![4, 4, 5];
    assert_eq!(rank_bins(&keys, 4, 10), vec![2]);
}

#[test]
fn empty_path_is_an_empty_input_error() {
    assert_eq!(epicycle_terms(&Vec::new(), config(0.001, 500)), Err(PipelineError::EmptyInput));
}

#[test]
fn all_bins_below_threshold_is_degenerate() {
    let keys = keys_of(&spectrum(&[(0.0, 0.0), (0.0, 0.0), (0.0, 0.0)]));
    assert_eq!(epicycle_terms(&keys, config(0.001, 500)), Err(PipelineError::DegenerateSpectrum));
}

#[test]
fn terms_carry_frequency_and_key_of_their_bin() {
    let keys = vec![7, 2, 9, 3];
    let terms = epicycle_terms(&keys, SpectralConfig { min_amplitude_key: 2, max_terms: 2 }).unwrap();
    assert_eq!(
        terms,
        vec![
            Term { bin: 2, frequency: 2, amplitude_key: 9 },
            Term { bin: 0, frequency: 0, amplitude_key: 7 },
        ]
    );
    let none = epicycle_terms(&keys, SpectralConfig { min_amplitude_key: 2, max_terms: 0 }).unwrap();
    assert!(none.is_empty());
}

#[test]
fn single_sample_gives_one_dc_term() {
    let buffer = spectrum(&[(3.0, 0.0)]);
    let terms = epicycle_terms(&keys_of(&buffer), config(0.001, 500)).unwrap();
    assert_eq!(terms.len(), 1);
    assert_eq!(terms[0].frequency, 0);
    let amplitude = f32::from_bits(terms[0].amplitude_key);
    assert!((amplitude - 3.0).abs() < 1e-6);
    assert!(buffer[terms[0].bin].arg().abs() < 1e-6);
}

#[test]
fn centred_square_has_one_dominant_unit_harmonic() {
    let square = [(1.0, 1.0), (-1.0, 1.0), (-1.0, -1.0), (1.0, -1.0)];
    let buffer = spectrum(&square);
    let keys = keys_of(&buffer);
    let terms = epicycle_terms(&keys, config(0.001, 500)).unwrap();
    assert_eq!(terms.len(), 1);
    assert_eq!(terms[0].frequency.abs(), 1);
    let amplitude = f32::from_bits(terms[0].amplitude_key);
    assert!((amplitude - 2.0f32.sqrt()).abs() < 1e-5);
    assert!(f32::from_bits(keys[0]) < 1e-6);
}

#[test]
fn all_bins_reconstruct_the_samples() {
    let samples = [(3.0, -1.0), (0.5, 2.0), (-2.0, 1.5), (-1.0, -3.0), (2.5, 0.25)];
    let n = samples.len();
    let buffer = spectrum(&samples);
    let terms = epicycle_terms(&keys_of(&buffer), config(0.0, n)).unwrap();
    for (j, &(x, y)) in samples.iter().enumerate() {
        let t = 2.0 * std::f32::consts::PI * j as f32 / n as f32;
        let mut sum = Complex::new(0.0f32, 0.0f32);
        for term in &terms {
            let c = buffer[term.bin];
            let amplitude = c.norm() / n as f32;
            let angle = term.frequency as f32 * t + c.arg();
            sum += Complex::new(amplitude * angle.cos(), amplitude * angle.sin());
        }
        assert!((sum.re - x).abs() < 1e-4);
        assert!((sum.im - y).abs() < 1e-4);
    }
}
