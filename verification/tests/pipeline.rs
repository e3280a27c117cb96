use sin_gen::args::{DataType, SineWave, SineWaves};
use sin_gen::single::Single;
use wavegen::{PeriodicFunction, Waveform};

fn component(wave: &SineWave) -> PeriodicFunction<f32> {
    let frequency = wave.frequency.as_str().parse::<f32>().unwrap();
    let amplitude = wave.amplitude.0.as_str().parse::<f32>().unwrap();
    let degrees = wave.phase.0.as_str().parse::<f32>().unwrap();
    PeriodicFunction::sine(frequency, amplitude, degrees / 360.0)
}

fn waveform(signals: &str, rate: f32) -> Waveform<f32> {
    let SineWaves(waves) = SineWaves::from_str(signals).unwrap();
    Waveform::with_components(rate, waves.iter().map(component).collect())
}

fn sample(waveform: &Waveform<f32>, rate: f32, index: usize) -> f32 {
    let time = index as f32 / rate;
    waveform.components().iter().map(|c| c.sample(time)).sum()
}

fn close(a: f32, b: f32) -> bool {
    (a - b).abs() < 1e-5
}

#[test]
fn one_sine_at_four_samples_a_period() {
    let wf = waveform("f1p0a1", 4.0);
    let expected = [0.0f32, 1.0, 0.0, -1.0];
    for round in 0..3 {
        for (index, want) in expected.iter().enumerate() {
            let got = sample(&wf, 4.0, index);
            assert!(close(got, *want), "round {}, index {}: {}", round, index, got);
        }
    }
    let first: Vec<u32> = (0..4).map(|n| sample(&wf, 4.0, n).to_bits()).collect();
    let again: Vec<u32> = (0..4).map(|n| sample(&wf, 4.0, n).to_bits()).collect();
    assert_eq!(first, again);
}

#[test]
fn a_phase_of_ninety_degrees_makes_a_cosine() {
    let wf = waveform("f1p90", 4.0);
    let expected = [1.0f32, 0.0, -1.0, 0.0];
    for (index, want) in expected.iter().enumerate() {
        assert!(close(sample(&wf, 4.0, index), *want));
    }
}

#[test]
fn two_sines_are_written_as_their_sum() {
    let rate = 8.0f32;
    let wf = waveform("f1a1,f2a0.5", rate);
    let mut lines = Vec::new();
    for index in 0..8 {
        let value = sample(&wf, rate, index);
        let encoded = DataType::Float.encode(Single::from_bits(value.to_bits()));
        lines.push(encoded.to_string(&value.to_string()));
    }
    assert_eq!(lines.len(), 8);
    for (index, line) in lines.iter().enumerate() {
        let t = index as f32 / rate;
        let sum = (2.0 * std::f32::consts::PI * t).sin()
            + 0.5 * (2.0 * std::f32::consts::PI * 2.0 * t).sin();
        assert!(line.ends_with(" 0\n"), "{:?}", line);
        let written = line[..line.len() - 3].parse::<f32>().unwrap();
        assert!(close(written, sum), "index {}: {} and {}", index, written, sum);
        assert_eq!(*line, format!("{} 0\n", sample(&wf, rate, index)));
    }
    assert!(close(lines[1][..lines[1].len() - 3].parse::<f32>().unwrap(), 1.2071068));
    assert!(close(lines[2][..lines[2].len() - 3].parse::<f32>().unwrap(), 1.0));
}

#[test]
fn two_sines_are_written_as_codes() {
    let rate = 8.0f32;
    let wf = waveform("f1a0.5,f2a0.25", rate);
    for index in 0..8 {
        let value = sample(&wf, rate, index);
        let line = DataType::Hex16.encode(Single::from_bits(value.to_bits())).to_string("");
        let code = line[..line.len() - 3].parse::<u32>().unwrap();
        if value > 0.0 {
            assert_eq!(code, (value * 32768.0) as u32, "index {}", index);
            assert!(code < 32768);
        } else {
            assert_eq!(code, ((2.0 + value) * 32768.0).min(65535.0) as u32, "index {}", index);
            assert!(code >= 32768);
        }
    }
}
