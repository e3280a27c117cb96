use regex::Regex;
use sin_gen::args::{
    Amplitude, Args, ConfigurationError, DataForm, DataType, Degree, Length, ParseError, SaveMode,
    SineWave, SineWaves,
};
use sin_gen::decimal::Decimal;
use sin_gen::single::Single;

fn number(text: &str) -> Decimal {
    Decimal::new(text).unwrap()
}

fn value(d: &Decimal) -> f32 {
    d.as_str().parse::<f32>().unwrap()
}

fn wave(frequency: &str, phase: &str, amplitude: &str) -> SineWave {
    SineWave {
        frequency: number(frequency),
        phase: Degree(number(phase)),
        amplitude: Amplitude(number(amplitude)),
    }
}

#[test]
fn all_three_tags_are_read() {
    let w = SineWave::from_str("f440p90a0.5").unwrap();
    assert_eq!(w, wave("440", "90", "0.5"));
    assert_eq!(value(&w.frequency), 440.0);
    assert_eq!(value(&w.phase.0), 90.0);
    assert_eq!(value(&w.amplitude.0), 0.5);
}

#[test]
fn reading_twice_gives_the_same_wave() {
    assert_eq!(SineWave::from_str("f440p90a0.5"), SineWave::from_str("f440p90a0.5"));
}

#[test]
fn an_empty_description_is_the_default_wave() {
    let w = SineWave::from_str("").unwrap();
    assert_eq!(w, SineWave::default());
    assert_eq!(value(&w.frequency), 0.0);
    assert_eq!(value(&w.phase.0), 0.0);
    assert_eq!(value(&w.amplitude.0), 1.0);
}

#[test]
fn white_space_alone_is_the_default_wave() {
    assert_eq!(SineWave::from_str("  \t \n"), Ok(SineWave::default()));
}

#[test]
fn white_space_is_what_a_character_says_of_itself() {
    for code in 0..0x11_0000u32 {
        if let Some(c) = char::from_u32(code) {
            let text = format!("f1{}p2", c);
            let read = SineWave::from_str(&text);
            if c.is_whitespace() {
                assert_eq!(read, Ok(wave("1", "2", "1")), "{:?}", c);
            } else if c.is_ascii_digit() || c == '.' {
                assert!(read.is_ok(), "{:?}", c);
            } else if c == 'f' || c == 'p' || c == 'a' {
                assert_eq!(read, Err(ParseError::MissingNumber { at: 2, tag: c }), "{:?}", c);
            } else {
                assert_eq!(read, Err(ParseError::InvalidToken { at: 2, found: c }), "{:?}", c);
            }
        }
    }
}

#[test]
fn white_space_may_stand_between_tokens() {
    assert_eq!(SineWave::from_str(" f440 p90\ta0.5 "), Ok(wave("440", "90", "0.5")));
}

#[test]
fn tags_may_come_in_any_order() {
    assert_eq!(SineWave::from_str("p90f440"), SineWave::from_str("f440p90"));
    assert_eq!(SineWave::from_str("p90f440"), Ok(wave("440", "90", "1")));
    assert_eq!(SineWave::from_str("a2p90f440"), SineWave::from_str("f440a2p90"));
}

#[test]
fn the_last_of_two_tokens_with_one_tag_wins() {
    let w = SineWave::from_str("f100f200").unwrap();
    assert_eq!(value(&w.frequency), 200.0);
    assert_eq!(w, wave("200", "0", "1"));
    assert_eq!(SineWave::from_str("a1p5a2p6a3"), Ok(wave("0", "6", "3")));
}

#[test]
fn numbers_may_have_a_sign_and_a_fraction() {
    let w = SineWave::from_str("f-1.5p+90a.25").unwrap();
    assert_eq!(value(&w.frequency), -1.5);
    assert_eq!(value(&w.phase.0), 90.0);
    assert_eq!(value(&w.amplitude.0), 0.25);
    assert_eq!(value(&SineWave::from_str("f7.").unwrap().frequency), 7.0);
}

#[test]
fn a_character_that_is_no_tag_is_refused() {
    assert_eq!(SineWave::from_str("x5"), Err(ParseError::InvalidToken { at: 0, found: 'x' }));
    assert_eq!(SineWave::from_str("f1 5"), Err(ParseError::InvalidToken { at: 3, found: '5' }));
    assert_eq!(SineWave::from_str("f1.2.3"), Err(ParseError::InvalidToken { at: 4, found: '.' }));
    assert_eq!(SineWave::from_str("f1e5"), Err(ParseError::InvalidToken { at: 2, found: 'e' }));
    assert_eq!(SineWave::from_str("f١"), Err(ParseError::MissingNumber { at: 0, tag: 'f' }));
}

#[test]
fn a_tag_without_a_number_is_refused() {
    assert_eq!(SineWave::from_str("f"), Err(ParseError::MissingNumber { at: 0, tag: 'f' }));
    assert_eq!(SineWave::from_str("f1p"), Err(ParseError::MissingNumber { at: 2, tag: 'p' }));
    assert_eq!(SineWave::from_str("a."), Err(ParseError::MissingNumber { at: 0, tag: 'a' }));
    assert_eq!(SineWave::from_str("a-"), Err(ParseError::MissingNumber { at: 0, tag: 'a' }));
    assert_eq!(SineWave::from_str("fp1"), Err(ParseError::MissingNumber { at: 0, tag: 'f' }));
}

#[test]
fn errors_say_what_and_where() {
    let stray = ParseError::InvalidToken { at: 12, found: 'x' };
    assert_eq!(stray.to_string(), "Invalid token x at 12");
    assert_eq!(ParseError::MissingNumber { at: 0, tag: 'p' }.to_string(), "No number after p at 0");
}

#[test]
fn a_list_is_split_at_its_commas() {
    let SineWaves(waves) = SineWaves::from_str("f1,f2,f3").unwrap();
    assert_eq!(waves.len(), 3);
    assert_eq!(value(&waves[0].frequency), 1.0);
    assert_eq!(value(&waves[1].frequency), 2.0);
    assert_eq!(value(&waves[2].frequency), 3.0);
    assert_eq!(waves, vec![wave("1", "0", "1"), wave("2", "0", "1"), wave("3", "0", "1")]);
}

#[test]
fn a_list_without_a_comma_holds_one_wave() {
    assert_eq!(SineWaves::from_str("f1a2"), Ok(SineWaves(vec![wave("1", "0", "2")])));
    assert_eq!(SineWaves::from_str(""), Ok(SineWaves(vec![SineWave::default()])));
}

#[test]
fn a_comma_at_either_end_adds_a_default_wave() {
    assert_eq!(
        SineWaves::from_str("f1,"),
        Ok(SineWaves(vec![wave("1", "0", "1"), SineWave::default()]))
    );
    assert_eq!(
        SineWaves::from_str(",f1"),
        Ok(SineWaves(vec![SineWave::default(), wave("1", "0", "1")]))
    );
    assert_eq!(SineWaves::from_str(",,").unwrap().0.len(), 3);
}

#[test]
fn the_first_description_that_is_refused_decides() {
    assert_eq!(
        SineWaves::from_str("f1,x5,f"),
        Err(ParseError::InvalidToken { at: 0, found: 'x' })
    );
    assert_eq!(
        SineWaves::from_str("f1,p,x5"),
        Err(ParseError::MissingNumber { at: 0, tag: 'p' })
    );
}

#[test]
fn waves_are_described_in_three_lines() {
    assert_eq!(
        wave("440", "90", "0.5").to_string(),
        "\nSine Wave\nFrequency   : 440\nPhase       : 90\nAmplitude   : 0.5\n"
    );
}

#[test]
fn copies_are_equal() {
    let w = wave("440", "90", "0.5");
    assert_eq!(w.clone(), w);
    let ws = SineWaves::from_str("f1,f2p3").unwrap();
    assert_eq!(ws.clone(), ws);
}

#[test]
fn numbers_are_literals_and_nothing_else() {
    for text in ["0", "1", "440", "0.5", ".5", "5.", "-1", "+1.25", "-.5", "007"] {
        assert_eq!(Decimal::new(text).unwrap().as_str(), text);
    }
    for text in ["", ".", "-", "+", "1e5", "1.2.3", " 1", "1 ", "--1", "f1", "1,2", "٣"] {
        assert_eq!(Decimal::new(text), None, "{:?}", text);
    }
    assert_eq!(Decimal::zero().as_str(), "0");
    assert_eq!(Decimal::one().as_str(), "1");
}

#[test]
fn unsigned_tokens_are_those_that_the_pattern_finds() {
    let pattern = Regex::new(r"[fpa]((\d+\.?\d*)|(\.\d+)|(\d+))").unwrap();
    let tags = ['f', 'p', 'a'];
    let numbers = ["0", "1", "440", "0.5", ".5", "1.", "007", "3.14159", "12345678901234567890"];
    let gaps = ["", "", "", " ", "\t", "  "];
    let mut seed: u32 = 7;
    let mut next = |n: usize| {
        seed = seed.wrapping_mul(1_664_525).wrapping_add(1_013_904_223);
        (seed >> 8) as usize % n
    };
    for _ in 0..2000 {
        let mut text = String::new();
        for _ in 0..next(6) {
            text.push_str(gaps[next(gaps.len())]);
            text.push(tags[next(tags.len())]);
            text.push_str(numbers[next(numbers.len())]);
        }
        text.push_str(gaps[next(gaps.len())]);
        let mut expected = [String::from("0"), String::from("0"), String::from("1")];
        for found in pattern.find_iter(&text) {
            let token = found.as_str();
            let field = tags.iter().position(|t| token.starts_with(*t)).unwrap();
            expected[field] = token[1..].to_string();
        }
        let w = SineWave::from_str(&text).unwrap();
        assert_eq!(w.frequency.as_str(), expected[0], "{:?}", text);
        assert_eq!(w.phase.0.as_str(), expected[1], "{:?}", text);
        assert_eq!(w.amplitude.0.as_str(), expected[2], "{:?}", text);
        assert_eq!(value(&w.frequency), expected[0].parse::<f32>().unwrap());
    }
}

#[test]
fn exactly_one_length_is_to_be_given() {
    let args = |points: Option<usize>, time: Option<f32>| Args {
        sampling_rate: Single::from_bits(8.0f32.to_bits()),
        signals: SineWaves::from_str("f1").unwrap(),
        sampling_time: time.map(|t| Single::from_bits(t.to_bits())),
        sample_points: points,
        out_file: String::from("out.txt"),
        data_type: DataType::Float,
        save_mode: SaveMode::Raw,
    };
    assert_eq!(args(Some(8), None).length(), Ok(Length::Points(8)));
    assert_eq!(args(Some(0), None).length(), Ok(Length::Points(0)));
    assert_eq!(
        args(None, Some(1.5)).length(),
        Ok(Length::Time(Single::from_bits(1.5f32.to_bits())))
    );
    assert_eq!(args(None, None).length(), Err(ConfigurationError::NoLength));
    assert_eq!(args(Some(8), Some(1.0)).length(), Err(ConfigurationError::TwoLengths));
}

#[test]
fn each_form_encodes_a_sample_in_its_own_way() {
    let sample = Single::from_bits((-0.5f32).to_bits());
    assert_eq!(
        DataType::Float.encode(sample),
        sin_gen::DataType::FloatData(sin_gen::FloatData(sample))
    );
    assert_eq!(
        DataType::Hex16.encode(sample),
        sin_gen::DataType::HexData16(sin_gen::HexData16(49152))
    );
    assert_eq!(
        DataType::Hex32.encode(sample),
        sin_gen::DataType::HexData32(sin_gen::HexData32(0xc000_0000))
    );
    assert_ne!(DataForm::Real, DataForm::IQ);
    assert_ne!(SaveMode::Raw, SaveMode::Wave);
}
