//! The description of a run: the sine waves to add up, given as text, and
//! the choices of length and output form.
use vstd::prelude::*;
use crate::decimal::Decimal;
use crate::decimal::number_end;
use crate::decimal::scan_number;
use crate::decimal::lemma_number_end_is_number;
use crate::decimal::lemma_number_end_bounds;
use crate::decimal::lemma_number_end_append;
use crate::decimal::lemma_number_end_prefix;
use crate::decimal::ends_literal;
use crate::decimal::is_number;
use crate::text::chars_of;
use crate::record::decimal;
use crate::record::write_decimal;
use crate::single::Single;
use crate::fixed::fixed;
use crate::samples::samples;
use crate::samples::count;
use crate::FloatData;
use crate::HexData16;
use crate::HexData32;
use vstd::string::StringExecFns;

verus! {

/// A phase, in degrees.
#[derive(Debug, PartialEq, Eq)]
pub struct Degree(pub Decimal);

impl Clone for Degree {
    fn clone(&self) -> (d: Degree)
        ensures
            d.0@ == self.0@,
    {
        Degree(self.0.clone())
    }
}

impl Default for Degree {
    fn default() -> (d: Degree)
        ensures
            d.0@ == seq!['0'],
    {
        Degree(Decimal::zero())
    }
}

/// An amplitude.
#[derive(Debug, PartialEq, Eq)]
pub struct Amplitude(pub Decimal);

impl Clone for Amplitude {
    fn clone(&self) -> (a: Amplitude)
        ensures
            a.0@ == self.0@,
    {
        Amplitude(self.0.clone())
    }
}

impl Default for Amplitude {
    fn default() -> (a: Amplitude)
        ensures
            a.0@ == seq!['1'],
    {
        Amplitude(Decimal::one())
    }
}

/// One sine wave: its frequency in hertz, its phase and its amplitude.
#[derive(Debug, PartialEq, Eq)]
pub struct SineWave {
    pub frequency: Decimal,
    pub phase: Degree,
    pub amplitude: Amplitude,
}

impl Clone for SineWave {
    fn clone(&self) -> (w: SineWave)
        ensures
            w@ == self@,
    {
        SineWave {
            frequency: self.frequency.clone(),
            phase: self.phase.clone(),
            amplitude: self.amplitude.clone(),
        }
    }
}

/// A sine wave as its three literals.
pub ghost struct Component {
    pub frequency: Seq<char>,
    pub phase: Seq<char>,
    pub amplitude: Seq<char>,
}

impl Component {
    /// Frequency 0, phase 0, amplitude 1.
    pub open spec fn default() -> Component {
        Component { frequency: seq!['0'], phase: seq!['0'], amplitude: seq!['1'] }
    }

    /// This component with the field that `tag` names set to `number`.
    pub open spec fn with(self, tag: char, number: Seq<char>) -> Component {
        if tag == 'f' {
            Component { frequency: number, ..self }
        } else if tag == 'p' {
            Component { phase: number, ..self }
        } else {
            Component { amplitude: number, ..self }
        }
    }
}

impl Component {
    /// The lines that describe the wave to a reader, with the numbers as
    /// they were written.
    pub open spec fn description(self) -> Seq<char> {
        "\nSine Wave\nFrequency   : "@ + self.frequency + "\nPhase       : "@ + self.phase
            + "\nAmplitude   : "@ + self.amplitude + "\n"@
    }
}

impl View for SineWave {
    type V = Component;

    open spec fn view(&self) -> Component {
        Component {
            frequency: self.frequency@,
            phase: self.phase.0@,
            amplitude: self.amplitude.0@,
        }
    }
}

impl Default for SineWave {
    fn default() -> (w: SineWave)
        ensures
            w@ == Component::default(),
    {
        SineWave {
            frequency: Decimal::zero(),
            phase: Degree::default(),
            amplitude: Amplitude::default(),
        }
    }
}

/// Why a description is not one of a sine wave.
#[derive(Clone, Copy, Debug, PartialEq, Eq, Structural)]
pub enum ParseError {
    /// At `at` stands `found`, which is neither a tag nor white space.
    InvalidToken { at: usize, found: char },
    /// The tag at `at` has no number behind it.
    MissingNumber { at: usize, tag: char },
}

impl ParseError {
    /// What went wrong and where, in words.
    pub open spec fn message(self) -> Seq<char> {
        match self {
            ParseError::InvalidToken { at, found } => "Invalid token "@.push(found) + " at "@
                + decimal(at as nat),
            ParseError::MissingNumber { at, tag } => "No number after "@.push(tag) + " at "@
                + decimal(at as nat),
        }
    }

    pub fn to_string(&self) -> (s: String)
        ensures
            s@ == self.message(),
    {
        match self {
            ParseError::InvalidToken { at, found } => {
                let mut s = String::from_str("Invalid token ");
                s.push(*found);
                s.append(" at ");
                let position = write_decimal(*at as u64);
                s.append(position.as_str());
                s
            },
            ParseError::MissingNumber { at, tag } => {
                let mut s = String::from_str("No number after ");
                s.push(*tag);
                s.append(" at ");
                let position = write_decimal(*at as u64);
                s.append(position.as_str());
                s
            },
        }
    }
}

pub open spec fn is_tag(c: char) -> bool {
    c == 'f' || c == 'p' || c == 'a'
}

/// White space, as Unicode lists it.
pub open spec fn is_space(c: char) -> bool {
    c == ' ' || ('\t' <= c && c <= '\r') || c == '\u{85}' || c == '\u{a0}' || c == '\u{1680}' || (
    '\u{2000}' <= c && c <= '\u{200a}') || c == '\u{2028}' || c == '\u{2029}' || c == '\u{202f}'
        || c == '\u{205f}' || c == '\u{3000}'
}

/// Reads the tokens of `s` from position `i` on into `acc`, left to right.
pub open spec fn scan(s: Seq<char>, i: int, acc: Component) -> Result<Component, ParseError>
    decreases s.len() - i,
{
    if i < 0 || i >= s.len() {
        Ok(acc)
    } else if is_space(s[i]) {
        scan(s, i + 1, acc)
    } else if is_tag(s[i]) {
        let end = number_end(s, i + 1);
        if i + 1 < end <= s.len() {
            scan(s, end, acc.with(s[i], s.subrange(i + 1, end)))
        } else {
            Err(ParseError::MissingNumber { at: i as usize, tag: s[i] })
        }
    } else {
        Err(ParseError::InvalidToken { at: i as usize, found: s[i] })
    }
}

/// The sine wave that `s` describes: each token sets the field that its tag
/// names, and a field that no token sets keeps its default.
pub open spec fn parse(s: Seq<char>) -> Result<Component, ParseError> {
    scan(s, 0, Component::default())
}

/// A description of nothing but white space, the empty one among them,
/// is that of the default wave.
pub proof fn lemma_blank_is_default(s: Seq<char>)
    requires
        forall|k: int| 0 <= k < s.len() ==> is_space(#[trigger] s[k]),
    ensures
        parse(s) == Ok::<Component, ParseError>(Component::default()),
{
    lemma_blank_from(s, 0, Component::default());
}

proof fn lemma_blank_from(s: Seq<char>, i: int, acc: Component)
    requires
        0 <= i <= s.len(),
        forall|k: int| 0 <= k < s.len() ==> is_space(#[trigger] s[k]),
    ensures
        scan(s, i, acc) == Ok::<Component, ParseError>(acc),
    decreases s.len() - i,
{
    if i < s.len() {
        lemma_blank_from(s, i + 1, acc);
    }
}

/// A tag with its number.
pub open spec fn token(tag: char, number: Seq<char>) -> Seq<char> {
    seq![tag] + number
}

/// Where the description `a` up to its end is read without error, what
/// follows it is read from there, with what `a` has set: provided that it
/// begins with no character of numbers.
pub proof fn lemma_scan_append(a: Seq<char>, t: Seq<char>, i: int, acc: Component)
    requires
        0 <= i <= a.len(),
        scan(a, i, acc) is Ok,
        ends_literal(t),
    ensures
        scan(a + t, i, acc) == scan(a + t, a.len() as int, scan(a, i, acc)->Ok_0),
    decreases a.len() - i,
{
    let s = a + t;
    if i < a.len() {
        assert(s[i] == a[i]);
        if is_space(a[i]) {
            lemma_scan_append(a, t, i + 1, acc);
        } else if is_tag(a[i]) {
            let end = number_end(a, i + 1);
            lemma_number_end_append(a, t, i + 1);
            assert(s.subrange(i + 1, end) =~= a.subrange(i + 1, end));
            lemma_scan_append(a, t, end, acc.with(a[i], a.subrange(i + 1, end)));
        }
    }
}

/// A token at the end of a description sets its field, whatever stood
/// there, and leaves the other two as the description before it set them.
pub proof fn lemma_last_token_wins(a: Seq<char>, tag: char, number: Seq<char>)
    requires
        parse(a) is Ok,
        is_tag(tag),
        is_number(number),
    ensures
        parse(a + token(tag, number)) == Ok::<Component, ParseError>(
            parse(a)->Ok_0.with(tag, number),
        ),
{
    let t = token(tag, number);
    let s = a + t;
    let n = a.len() as int;
    let before = parse(a)->Ok_0;
    assert(t[0] == tag);
    lemma_scan_append(a, t, 0, Component::default());
    assert(s[n] == tag);
    assert(s =~= (a + seq![tag]) + number);
    lemma_number_end_prefix(a + seq![tag], number);
    assert(number_end(s, n + 1) == s.len());
    assert(s.subrange(n + 1, s.len() as int) =~= number);
    let after = before.with(tag, number);
    assert(scan(s, s.len() as int, after) == Ok::<Component, ParseError>(after));
    assert(scan(s, n, before) == scan(s, s.len() as int, after));
}

/// Two tokens with different tags may change places at the end of a
/// description.
pub proof fn lemma_order_of_tags(
    a: Seq<char>,
    tag1: char,
    number1: Seq<char>,
    tag2: char,
    number2: Seq<char>,
)
    requires
        parse(a) is Ok,
        is_tag(tag1),
        is_tag(tag2),
        tag1 != tag2,
        is_number(number1),
        is_number(number2),
    ensures
        parse(a + token(tag1, number1) + token(tag2, number2)) == parse(
            a + token(tag2, number2) + token(tag1, number1),
        ),
{
    lemma_last_token_wins(a, tag1, number1);
    lemma_last_token_wins(a + token(tag1, number1), tag2, number2);
    lemma_last_token_wins(a, tag2, number2);
    lemma_last_token_wins(a + token(tag2, number2), tag1, number1);
}

/// Of two tokens with one tag at the end of a description the first may
/// be left out.
pub proof fn lemma_repeated_tag(a: Seq<char>, tag: char, number1: Seq<char>, number2: Seq<char>)
    requires
        parse(a) is Ok,
        is_tag(tag),
        is_number(number1),
        is_number(number2),
    ensures
        parse(a + token(tag, number1) + token(tag, number2)) == parse(a + token(tag, number2)),
{
    lemma_last_token_wins(a, tag, number1);
    lemma_last_token_wins(a + token(tag, number1), tag, number2);
    lemma_last_token_wins(a, tag, number2);
}

fn is_space_char(c: char) -> (r: bool)
    ensures
        r == is_space(c),
{
    c == ' ' || ('\t' <= c && c <= '\r') || c == '\u{85}' || c == '\u{a0}' || c == '\u{1680}' || (
    '\u{2000}' <= c && c <= '\u{200a}') || c == '\u{2028}' || c == '\u{2029}' || c == '\u{202f}'
        || c == '\u{205f}' || c == '\u{3000}'
}

fn is_tag_char(c: char) -> (r: bool)
    ensures
        r == is_tag(c),
{
    c == 'f' || c == 'p' || c == 'a'
}

impl SineWave {
    /// Reads a sine wave from the characters `s`.
    pub fn from_chars(s: &Vec<char>) -> (r: Result<SineWave, ParseError>)
        ensures
            r is Ok <==> parse(s@) is Ok,
            r matches Ok(w) ==> parse(s@) == Ok::<Component, ParseError>(w@),
            r matches Err(e) ==> parse(s@) == Err::<Component, ParseError>(e),
    {
        let mut wave = SineWave::default();
        let mut i: usize = 0;
        while i < s.len()
            invariant
                i <= s.len(),
                parse(s@) == scan(s@, i as int, wave@),
            decreases s.len() - i,
        {
            let c = s[i];
            if is_space_char(c) {
                i += 1;
            } else if is_tag_char(c) {
                let end = scan_number(s, i + 1);
                proof {
                    lemma_number_end_bounds(s@, i + 1);
                }
                if end == i + 1 {
                    return Err(ParseError::MissingNumber { at: i, tag: c });
                }
                proof {
                    lemma_number_end_is_number(s@, i + 1);
                }
                let number = Decimal::from_chars(s, i + 1, end);
                if c == 'f' {
                    wave.frequency = number;
                } else if c == 'p' {
                    wave.phase = Degree(number);
                } else {
                    wave.amplitude = Amplitude(number);
                }
                i = end;
            } else {
                return Err(ParseError::InvalidToken { at: i, found: c });
            }
        }
        Ok(wave)
    }

    /// Describes the wave to a reader.
    pub fn to_string(&self) -> (s: String)
        ensures
            s@ == self@.description(),
    {
        let mut s = String::from_str("\nSine Wave\nFrequency   : ");
        s.append(self.frequency.as_str());
        s.append("\nPhase       : ");
        s.append(self.phase.0.as_str());
        s.append("\nAmplitude   : ");
        s.append(self.amplitude.0.as_str());
        s.append("\n");
        s
    }

    /// Reads a sine wave from its description.
    pub fn from_str(s: &str) -> (r: Result<SineWave, ParseError>)
        ensures
            r is Ok <==> parse(s@) is Ok,
            r matches Ok(w) ==> parse(s@) == Ok::<Component, ParseError>(w@),
            r matches Err(e) ==> parse(s@) == Err::<Component, ParseError>(e),
    {
        let v = chars_of(s);
        SineWave::from_chars(&v)
    }
}

/// Sine waves in the order in which they were given.
#[derive(Debug, PartialEq, Eq)]
pub struct SineWaves(pub Vec<SineWave>);

impl Clone for SineWaves {
    fn clone(&self) -> (ws: SineWaves)
        ensures
            ws@ == self@,
    {
        let mut waves: Vec<SineWave> = Vec::new();
        let mut i: usize = 0;
        while i < self.0.len()
            invariant
                i <= self.0.len(),
                waves.len() == i,
                forall|k: int| 0 <= k < i ==> (#[trigger] waves@[k])@ == self.0@[k]@,
            decreases self.0.len() - i,
        {
            waves.push(self.0[i].clone());
            i += 1;
        }
        let ws = SineWaves(waves);
        proof {
            assert(ws@ =~= self@);
        }
        ws
    }
}

impl View for SineWaves {
    type V = Seq<Component>;

    open spec fn view(&self) -> Seq<Component> {
        self.0@.map_values(|w: SineWave| w@)
    }
}

/// The first position at or after `i` that holds a comma, or the length of
/// `s` where none follows.
pub open spec fn comma_from(s: Seq<char>, i: int) -> int
    decreases s.len() - i,
{
    if 0 <= i < s.len() && s[i] != ',' {
        comma_from(s, i + 1)
    } else {
        i
    }
}

/// The stretches of `s` from `i` on that the commas separate.
pub open spec fn pieces_from(s: Seq<char>, i: int) -> Seq<Seq<char>>
    decreases s.len() - i,
{
    let j = comma_from(s, i);
    if 0 <= i <= j < s.len() {
        seq![s.subrange(i, j)] + pieces_from(s, j + 1)
    } else {
        seq![s.subrange(i, s.len() as int)]
    }
}

/// The stretches of `s` that the commas separate: one more than there are
/// commas, some of them empty where a comma stands first, last or next to
/// another.
pub open spec fn pieces(s: Seq<char>) -> Seq<Seq<char>> {
    pieces_from(s, 0)
}

/// The number of commas in `s` from `i` on.
pub open spec fn commas_from(s: Seq<char>, i: int) -> nat
    decreases s.len() - i,
{
    if 0 <= i < s.len() {
        commas_from(s, i + 1) + if s[i] == ',' {
            1nat
        } else {
            0nat
        }
    } else {
        0
    }
}

/// The number of commas in `s`.
pub open spec fn commas(s: Seq<char>) -> nat {
    commas_from(s, 0)
}

pub proof fn lemma_comma_from_bounds(s: Seq<char>, i: int)
    requires
        0 <= i <= s.len(),
    ensures
        i <= comma_from(s, i) <= s.len(),
        comma_from(s, i) < s.len() ==> s[comma_from(s, i)] == ',',
        commas_from(s, i) == commas_from(s, comma_from(s, i)),
        forall|k: int| i <= k < comma_from(s, i) ==> #[trigger] s[k] != ',',
    decreases s.len() - i,
{
    if i < s.len() && s[i] != ',' {
        lemma_comma_from_bounds(s, i + 1);
    }
}

/// There is one piece more than there are commas.
pub proof fn lemma_pieces_count(s: Seq<char>, i: int)
    requires
        0 <= i <= s.len(),
    ensures
        pieces_from(s, i).len() == commas_from(s, i) + 1,
    decreases s.len() - i,
{
    lemma_comma_from_bounds(s, i);
    let j = comma_from(s, i);
    if j < s.len() {
        lemma_pieces_count(s, j + 1);
    }
}

/// The pieces `ps`, put together again with a comma between each two.
pub open spec fn joined(ps: Seq<Seq<char>>) -> Seq<char>
    decreases ps.len(),
{
    if ps.len() == 0 {
        Seq::empty()
    } else if ps.len() == 1 {
        ps[0]
    } else {
        ps[0] + seq![','] + joined(ps.drop_first())
    }
}

/// The pieces hold no comma, and with the commas between them they make up
/// the text that was split.
pub proof fn lemma_pieces_make_up(s: Seq<char>, i: int)
    requires
        0 <= i <= s.len(),
    ensures
        joined(pieces_from(s, i)) == s.subrange(i, s.len() as int),
        forall|k: int, j: int|
            0 <= k < pieces_from(s, i).len() && 0 <= j < pieces_from(s, i)[k].len()
                ==> #[trigger] pieces_from(s, i)[k][j] != ',',
    decreases s.len() - i,
{
    lemma_comma_from_bounds(s, i);
    let c = comma_from(s, i);
    let ps = pieces_from(s, i);
    if c < s.len() {
        lemma_pieces_make_up(s, c + 1);
        let rest = pieces_from(s, c + 1);
        assert(ps.drop_first() =~= rest);
        assert(s.subrange(i, c) + seq![','] + s.subrange(c + 1, s.len() as int) =~= s.subrange(
            i,
            s.len() as int,
        ));
        assert forall|k: int, j: int|
            0 <= k < ps.len() && 0 <= j < ps[k].len() implies #[trigger] ps[k][j] != ',' by {
            if k == 0 {
                assert(ps[0][j] == s[i + j]);
            } else {
                assert(ps[k] == rest[k - 1]);
            }
        }
    } else {
        assert forall|k: int, j: int|
            0 <= k < ps.len() && 0 <= j < ps[k].len() implies #[trigger] ps[k][j] != ',' by {
            assert(ps[0][j] == s[i + j]);
        }
    }
}

impl SineWaves {
    /// Reads a list of sine waves, which commas separate. The first
    /// description that is refused decides the error.
    pub fn from_str(s: &str) -> (r: Result<SineWaves, ParseError>)
        ensures
            r is Ok <==> forall|k: int|
                0 <= k < pieces(s@).len() ==> #[trigger] parse(pieces(s@)[k]) is Ok,
            r matches Ok(ws) ==> {
                &&& ws@.len() == pieces(s@).len()
                &&& ws@.len() == commas(s@) + 1
                &&& forall|k: int|
                    0 <= k < ws@.len() ==> parse(#[trigger] pieces(s@)[k]) == Ok::<
                        Component,
                        ParseError,
                    >(ws@[k])
            },
            r matches Err(e) ==> exists|k: int|
                {
                    &&& 0 <= k < pieces(s@).len()
                    &&& #[trigger] parse(pieces(s@)[k]) == Err::<Component, ParseError>(e)
                    &&& forall|j: int| 0 <= j < k ==> #[trigger] parse(pieces(s@)[j]) is Ok
                },
    {
        let v = chars_of(s);
        let mut waves: Vec<SineWave> = Vec::new();
        let ghost mut done: Seq<Seq<char>> = Seq::empty();
        let mut start: usize = 0;
        proof {
            lemma_pieces_count(v@, 0);
        }
        loop
            invariant
                v@ == s@,
                start <= v.len(),
                pieces(v@).len() == commas(v@) + 1,
                pieces(v@) == done + pieces_from(v@, start as int),
                waves.len() == done.len(),
                forall|k: int|
                    0 <= k < done.len() ==> parse(#[trigger] done[k]) == Ok::<
                        Component,
                        ParseError,
                    >(waves@[k]@),
            decreases v.len() - start,
        {
            let mut piece: Vec<char> = Vec::new();
            let mut j: usize = start;
            while j < v.len() && v[j] != ','
                invariant
                    start <= j <= v.len(),
                    comma_from(v@, start as int) == comma_from(v@, j as int),
                    piece@ == v@.subrange(start as int, j as int),
                decreases v.len() - j,
            {
                piece.push(v[j]);
                j += 1;
                proof {
                    assert(piece@ =~= v@.subrange(start as int, j as int));
                }
            }
            let ghost rest = pieces_from(v@, start as int);
            assert(rest[0] == piece@);
            assert(pieces(v@)[done.len() as int] == piece@);
            match SineWave::from_chars(&piece) {
                Err(e) => {
                    proof {
                        let k = done.len() as int;
                        assert(parse(pieces(s@)[k]) == Err::<Component, ParseError>(e));
                        assert forall|i: int| 0 <= i < k implies #[trigger] parse(
                            pieces(s@)[i],
                        ) is Ok by {
                            assert(pieces(s@)[i] == done[i]);
                        }
                    }
                    return Err(e);
                },
                Ok(wave) => {
                    waves.push(wave);
                    proof {
                        done = done.push(piece@);
                    }
                },
            }
            if j == v.len() {
                let ws = SineWaves(waves);
                proof {
                    assert(pieces(v@) =~= done);
                    assert forall|k: int| 0 <= k < ws@.len() implies parse(
                        #[trigger] pieces(s@)[k],
                    ) == Ok::<Component, ParseError>(ws@[k]) by {
                        assert(pieces(s@)[k] == done[k]);
                    }
                }
                return Ok(ws);
            }
            proof {
                assert(rest =~= seq![piece@] + pieces_from(v@, j + 1));
                assert(pieces(v@) =~= done + pieces_from(v@, j + 1));
            }
            start = j + 1;
        }
    }
}

/// How the samples are saved.
#[derive(Clone, Copy, Debug, PartialEq, Eq, Structural)]
pub enum SaveMode {
    /// As a wave file.
    Wave,
    /// As text, one record to a line.
    Raw,
}

/// Whether the samples are real or come in pairs, in phase and quadrature.
#[derive(Clone, Copy, Debug, PartialEq, Eq, Structural)]
pub enum DataForm {
    Real,
    IQ,
}

/// The form in which each sample is written.
#[derive(Clone, Copy, Debug, PartialEq, Eq, Structural)]
pub enum DataType {
    Float,
    Hex16,
    Hex32,
}

impl DataType {
    /// The sample `sample` in this form.
    pub open spec fn encoded(self, sample: Single) -> crate::DataType {
        match self {
            DataType::Float => crate::DataType::FloatData(FloatData(sample)),
            DataType::Hex16 => crate::DataType::HexData16(HexData16(fixed(sample, 16) as u16)),
            DataType::Hex32 => crate::DataType::HexData32(HexData32(fixed(sample, 32) as u32)),
        }
    }

    /// Puts the sample `sample` in this form.
    pub fn encode(&self, sample: Single) -> (r: crate::DataType)
        ensures
            r == self.encoded(sample),
    {
        match self {
            DataType::Float => crate::DataType::FloatData(FloatData::from(sample)),
            DataType::Hex16 => crate::DataType::HexData16(HexData16::from(sample)),
            DataType::Hex32 => crate::DataType::HexData32(HexData32::from(sample)),
        }
    }
}

/// How many samples a run takes: a number of them, or a time in seconds
/// that the sampling rate turns into a number.
#[derive(Clone, Copy, Debug, PartialEq, Eq, Structural)]
pub enum Length {
    Points(usize),
    Time(Single),
}

/// Why the options of a run do not fix its length.
#[derive(Clone, Copy, Debug, PartialEq, Eq, Structural)]
pub enum ConfigurationError {
    /// Neither a number of samples nor a time is given.
    NoLength,
    /// Both a number of samples and a time are given.
    TwoLengths,
}

/// The length that a number of samples and a time fix, of which exactly
/// one is to be given.
pub open spec fn length_of(points: Option<usize>, time: Option<Single>) -> Result<
    Length,
    ConfigurationError,
> {
    match (points, time) {
        (Some(n), None) => Ok(Length::Points(n)),
        (None, Some(t)) => Ok(Length::Time(t)),
        (None, None) => Err(ConfigurationError::NoLength),
        (Some(_), Some(_)) => Err(ConfigurationError::TwoLengths),
    }
}

/// The number of samples that a number of samples and a time fix at the
/// sampling rate `rate`, of which exactly one is to be given.
pub open spec fn points_of(rate: Single, points: Option<usize>, time: Option<Single>) -> Result<
    usize,
    ConfigurationError,
> {
    match length_of(points, time) {
        Ok(Length::Points(n)) => Ok(n),
        Ok(Length::Time(t)) => Ok(samples(rate, t, usize::MAX as nat) as usize),
        Err(e) => Err(e),
    }
}

/// The options of a run.
pub struct Args {
    /// Samples in a second.
    pub sampling_rate: Single,
    /// The sine waves that are added up.
    pub signals: SineWaves,
    /// For how many seconds to sample.
    pub sampling_time: Option<Single>,
    /// How many samples to take.
    pub sample_points: Option<usize>,
    /// Where the records go.
    pub out_file: String,
    pub data_type: DataType,
    pub save_mode: SaveMode,
}

impl Args {
    /// The length of the run.
    pub fn length(&self) -> (r: Result<Length, ConfigurationError>)
        ensures
            r == length_of(self.sample_points, self.sampling_time),
    {
        match (self.sample_points, self.sampling_time) {
            (Some(n), None) => Ok(Length::Points(n)),
            (None, Some(t)) => Ok(Length::Time(t)),
            (None, None) => Err(ConfigurationError::NoLength),
            (Some(_), Some(_)) => Err(ConfigurationError::TwoLengths),
        }
    }

    /// The number of samples of the run.
    pub fn points(&self) -> (r: Result<usize, ConfigurationError>)
        ensures
            r == points_of(self.sampling_rate, self.sample_points, self.sampling_time),
    {
        match self.length() {
            Ok(Length::Points(n)) => Ok(n),
            Ok(Length::Time(t)) => Ok(count(self.sampling_rate, t)),
            Err(e) => Err(e),
        }
    }
}

} // verus!
