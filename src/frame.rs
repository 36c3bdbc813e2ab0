use vstd::prelude::*;
use crate::text::chars_of;

verus! {

/// An ASCII decimal digit.
pub open spec fn is_digit(c: char) -> bool {
    '0' <= c && c <= '9'
}

/// A character with the Unicode `White_Space` property, as `char::is_whitespace`
/// decides it.
pub open spec fn is_blank(c: char) -> bool {
    c == ' ' || ('\t' <= c && c <= '\r') || c == '\u{85}' || c == '\u{a0}' || c == '\u{1680}'
        || ('\u{2000}' <= c && c <= '\u{200a}') || c == '\u{2028}' || c == '\u{2029}'
        || c == '\u{202f}' || c == '\u{205f}' || c == '\u{3000}'
}

/// The whitespace-delimited fields of `s`: its maximal runs of
/// non-whitespace characters, in order, as `str::split_whitespace` gives them.
pub open spec fn words(s: Seq<char>) -> Seq<Seq<char>>
    decreases s.len(),
{
    if s.len() == 0 {
        Seq::empty()
    } else {
        let w = words(s.drop_last());
        let c = s.last();
        if is_blank(c) {
            w
        } else if s.len() >= 2 && !is_blank(s[s.len() - 2]) {
            w.update(w.len() - 1, w.last().push(c))
        } else {
            w.push(seq![c])
        }
    }
}

/// Structural validity of a frame body: only digits and whitespace, and
/// exactly five whitespace-delimited fields.
pub open spec fn valid_body(s: Seq<char>) -> bool {
    (forall|i: int| 0 <= i < s.len() ==> is_digit(#[trigger] s[i]) || is_blank(s[i])) && words(s).len()
        == 5
}

/// The value of a decimal digit.
pub open spec fn digit_value(c: char) -> nat {
    ((c as int) - ('0' as int)) as nat
}

/// The value of a string of decimal digits.
pub open spec fn decimal_value(d: Seq<char>) -> nat
    decreases d.len(),
{
    if d.len() == 0 {
        0
    } else {
        decimal_value(d.drop_last()) * 10 + digit_value(d.last())
    }
}

/// `d` is a non-empty string of decimal digits whose value is at most `max`.
pub open spec fn parses_within(d: Seq<char>, max: nat) -> bool {
    d.len() > 0 && (forall|i: int| 0 <= i < d.len() ==> is_digit(#[trigger] d[i])) && decimal_value(d)
        <= max
}

/// The 16-bit transmission value of the temperature: the low byte of the
/// high field shifted up by eight bits, plus the low field, modulo 2^16.
pub open spec fn raw_temperature(high: nat, low: nat) -> int {
    (((high % 256) * 256 + low) % 65536) as int
}

/// Why a frame body was not decoded.
#[derive(Clone, Copy, Debug, PartialEq, Eq, Structural)]
pub enum FrameError {
    /// The body holds something else than digits and whitespace, or not
    /// exactly five whitespace-delimited fields.
    NotValid,
    /// A field is too large for its width.
    CannotParse,
}

/// Data frame received from the sensor bridge.
#[derive(Clone, Copy, Debug, PartialEq, Eq, Structural)]
pub struct Frame {
    pub id: u8,
    pub sensor_type: u8,
    pub new_battery: bool,
    pub weak_battery: bool,
    /// Temperature in tenths of a degree Celsius.
    pub temperature_tenths: i32,
    pub humidity: u8,
}

/// The reading that the five fields of a frame body stand for, or `None`
/// where there are not five fields or one does not fit its width.
pub open spec fn decode(s: Seq<char>) -> Option<Frame> {
    let f = words(s);
    if f.len() == 5 && parses_within(f[0], 255) && parses_within(f[1], 255) && parses_within(f[2], 65535)
        && parses_within(f[3], 65535) && parses_within(f[4], 255) {
        let b1 = decimal_value(f[1]);
        let b4 = decimal_value(f[4]);
        Some(
            Frame {
                id: decimal_value(f[0]) as u8,
                sensor_type: (b1 % 128) as u8,
                new_battery: b1 >= 128,
                weak_battery: b4 >= 128,
                temperature_tenths: (raw_temperature(decimal_value(f[2]), decimal_value(f[3])) - 1000) as i32,
                humidity: (b4 % 128) as u8,
            },
        )
    } else {
        None
    }
}

/// What decoding a frame body gives: validation first, then the fields.
pub open spec fn frame_of(s: Seq<char>) -> Result<Frame, FrameError> {
    if !valid_body(s) {
        Err(FrameError::NotValid)
    } else {
        match decode(s) {
            Some(f) => Ok(f),
            None => Err(FrameError::CannotParse),
        }
    }
}

/// `char::is_whitespace`, decided by the `White_Space` table.
fn is_blank_char(c: char) -> (r: bool)
    ensures
        r == is_blank(c),
{
    c == ' ' || ('\t' <= c && c <= '\r') || c == '\u{85}' || c == '\u{a0}' || c == '\u{1680}'
        || ('\u{2000}' <= c && c <= '\u{200a}') || c == '\u{2028}' || c == '\u{2029}'
        || c == '\u{202f}' || c == '\u{205f}' || c == '\u{3000}'
}

proof fn lemma_decimal_value_grows(d: Seq<char>, i: int, j: int)
    requires
        0 <= i <= j <= d.len(),
    ensures
        decimal_value(d.subrange(0, i)) <= decimal_value(d.subrange(0, j)),
    decreases j - i,
{
    if i < j {
        lemma_decimal_value_grows(d, i, j - 1);
        assert(d.subrange(0, j).drop_last() =~= d.subrange(0, j - 1));
    }
}

/// The value of the digit string `d`, if it is one whose value is at most `max`.
fn parse_field(d: &Vec<char>, max: u32) -> (r: Option<u32>)
    requires
        max <= 65535,
    ensures
        r == (if parses_within(d@, max as nat) {
            Some(decimal_value(d@) as u32)
        } else {
            None::<u32>
        }),
{
    if d.len() == 0 {
        return None;
    }
    let mut value: u32 = 0;
    let mut i: usize = 0;
    while i < d.len()
        invariant
            i <= d@.len(),
            max <= 65535,
            value <= max,
            value == decimal_value(d@.subrange(0, i as int)),
            forall|k: int| 0 <= k < i ==> is_digit(#[trigger] d@[k]),
        decreases d.len() - i,
    {
        let c = d[i];
        if !('0' <= c && c <= '9') {
            return None;
        }
        assert(d@.subrange(0, i + 1).drop_last() =~= d@.subrange(0, i as int));
        let next = value * 10 + ((c as u32) - ('0' as u32));
        if next > max {
            proof {
                lemma_decimal_value_grows(d@, i + 1, d@.len() as int);
                assert(d@.subrange(0, d@.len() as int) =~= d@);
            }
            return None;
        }
        value = next;
        i = i + 1;
    }
    assert(d@.subrange(0, d@.len() as int) =~= d@);
    Some(value)
}

/// The views of a vector of character vectors.
pub open spec fn pieces_view(v: Seq<Vec<char>>) -> Seq<Seq<char>> {
    v.map_values(|p: Vec<char>| p@)
}

/// The whitespace-delimited fields of `v`.
fn split_words(v: &Vec<char>) -> (r: Vec<Vec<char>>)
    ensures
        pieces_view(r@) == words(v@),
{
    let mut done: Vec<Vec<char>> = Vec::new();
    let mut current: Vec<char> = Vec::new();
    let mut i: usize = 0;
    assert(pieces_view(done@) =~= words(v@.subrange(0, 0)));
    while i < v.len()
        invariant
            i <= v@.len(),
            current@.len() > 0 <==> (i > 0 && !is_blank(v@[i - 1])),
            current@.len() > 0 ==> pieces_view(done@).push(current@) == words(v@.subrange(0, i as int)),
            current@.len() == 0 ==> pieces_view(done@) == words(v@.subrange(0, i as int)),
        decreases v.len() - i,
    {
        let c = v[i];
        let ghost before = v@.subrange(0, i as int);
        let ghost w = words(before);
        let ghost next = v@.subrange(0, i + 1);
        assert(next.drop_last() =~= before);
        assert(next.last() == c);
        if is_blank_char(c) {
            if current.len() > 0 {
                let piece = current;
                done.push(piece);
                current = Vec::new();
                assert(pieces_view(done@) =~= w);
            }
        } else {
            if current.len() > 0 {
                assert(next[next.len() - 2] == v@[i - 1]);
                current.push(c);
                assert(pieces_view(done@).push(current@) =~= w.update(w.len() - 1, w.last().push(c)));
            } else {
                if i > 0 {
                    assert(next[next.len() - 2] == v@[i - 1]);
                }
                current.push(c);
                assert(current@ =~= seq![c]);
                assert(pieces_view(done@).push(current@) =~= w.push(seq![c]));
            }
        }
        i = i + 1;
    }
    assert(v@.subrange(0, i as int) =~= v@);
    if current.len() > 0 {
        done.push(current);
    }
    assert(pieces_view(done@) =~= words(v@));
    done
}

} // verus!

verus! {

impl Frame {
    /// Decodes the five whitespace-delimited fields of a frame body. Any field
    /// that is missing or does not fit its width makes the whole body fail.
    fn parse(s: &str) -> (r: Option<Frame>)
        ensures
            r == decode(s@),
    {
        let chars = chars_of(s);
        let fields = split_words(&chars);
        proof {
            assert(pieces_view(fields@).len() == fields@.len());
        }
        if fields.len() != 5 {
            return None;
        }
        proof {
            assert(forall|k: int| 0 <= k < 5 ==> #[trigger] pieces_view(fields@)[k] == fields@[k]@);
        }
        let id = match parse_field(&fields[0], 255) {
            Some(v) => v,
            None => return None,
        };
        let b1 = match parse_field(&fields[1], 255) {
            Some(v) => v,
            None => return None,
        };
        let high = match parse_field(&fields[2], 65535) {
            Some(v) => v,
            None => return None,
        };
        let low = match parse_field(&fields[3], 65535) {
            Some(v) => v,
            None => return None,
        };
        let b4 = match parse_field(&fields[4], 255) {
            Some(v) => v,
            None => return None,
        };
        let raw: u32 = ((high % 256) * 256 + low) % 65536;
        Some(
            Frame {
                id: id as u8,
                sensor_type: (b1 % 128) as u8,
                new_battery: b1 >= 128,
                weak_battery: b4 >= 128,
                temperature_tenths: (raw as i32) - 1000,
                humidity: (b4 % 128) as u8,
            },
        )
    }

    /// Structural validation: only digits and whitespace, and exactly five
    /// whitespace-delimited fields.
    fn validate(s: &str) -> (r: bool)
        ensures
            r == valid_body(s@),
    {
        let chars = chars_of(s);
        let mut all_allowed = true;
        let mut i: usize = 0;
        while i < chars.len()
            invariant
                i <= chars@.len(),
                chars@ == s@,
                all_allowed == (forall|k: int|
                    0 <= k < i ==> is_digit(#[trigger] chars@[k]) || is_blank(chars@[k])),
            decreases chars.len() - i,
        {
            let c = chars[i];
            if !(('0' <= c && c <= '9') || is_blank_char(c)) {
                all_allowed = false;
            }
            i = i + 1;
        }
        let fields = split_words(&chars);
        proof {
            assert(pieces_view(fields@).len() == fields@.len());
        }
        all_allowed && fields.len() == 5
    }

    /// Decodes a frame body such as `"50 1 4 193 65"`: validation first, then
    /// the fields.
    pub fn from_str(s: &str) -> (r: Result<Frame, FrameError>)
        ensures
            r == frame_of(s@),
    {
        if Self::validate(s) {
            match Self::parse(s) {
                Some(f) => Ok(f),
                None => Err(FrameError::CannotParse),
            }
        } else {
            Err(FrameError::NotValid)
        }
    }
}

/// Decoding is a function of the body's characters alone: two bodies with
/// the same characters decode to the same result, so decoding one body twice
/// gives identical readings.
pub proof fn lemma_decode_is_pure(a: Seq<char>, b: Seq<char>)
    requires
        a == b,
    ensures
        frame_of(a) == frame_of(b),
{
}

/// `d` is a non-empty string of decimal digits.
pub open spec fn is_digits(d: Seq<char>) -> bool {
    d.len() > 0 && forall|i: int| 0 <= i < d.len() ==> is_digit(#[trigger] d[i])
}

proof fn lemma_words_of_digits(x: Seq<char>, d: Seq<char>)
    requires
        is_digits(d),
        x.len() == 0 || is_blank(x.last()),
    ensures
        words(x + d) == words(x).push(d),
    decreases d.len(),
{
    let xd = x + d;
    assert(xd.last() == d.last());
    assert(is_digit(d[d.len() - 1]));
    if d.len() == 1 {
        assert(xd.drop_last() =~= x);
        assert(d =~= seq![d[0]]);
    } else {
        let p = d.drop_last();
        assert(is_digit(p[p.len() - 1]));
        assert(forall|i: int| 0 <= i < p.len() ==> #[trigger] p[i] == d[i]);
        lemma_words_of_digits(x, p);
        assert(xd.drop_last() =~= x + p);
        assert(xd[xd.len() - 2] == d[d.len() - 2]);
        assert(is_digit(d[d.len() - 2]));
        assert(p.push(d.last()) =~= d);
        assert(words(x).push(p).update(words(x).len() as int, p.push(d.last())) =~= words(x).push(d));
    }
}

/// Five fields written out with one space between each.
pub open spec fn join_fields(d: Seq<Seq<char>>) -> Seq<char> {
    d[0] + seq![' '] + d[1] + seq![' '] + d[2] + seq![' '] + d[3] + seq![' '] + d[4]
}

/// Five decimal numbers written out with one space between each decode by
/// the documented layout: the first is the id; the second gives the new
/// battery flag (its top bit) and the sensor type (its low seven bits); the
/// third and fourth give the 16-bit temperature value, whose excess over
/// 1000 is the temperature in tenths of a degree; the fifth gives the weak
/// battery flag (its top bit) and the humidity (its low seven bits).
pub proof fn lemma_fields_decode(d: Seq<Seq<char>>)
    requires
        d.len() == 5,
        forall|k: int| 0 <= k < 5 ==> is_digits(#[trigger] d[k]),
        decimal_value(d[0]) <= 255,
        decimal_value(d[1]) <= 255,
        decimal_value(d[2]) <= 65535,
        decimal_value(d[3]) <= 65535,
        decimal_value(d[4]) <= 255,
    ensures
        frame_of(join_fields(d)) == Ok::<Frame, FrameError>(
            Frame {
                id: decimal_value(d[0]) as u8,
                sensor_type: (decimal_value(d[1]) % 128) as u8,
                new_battery: decimal_value(d[1]) >= 128,
                weak_battery: decimal_value(d[4]) >= 128,
                temperature_tenths: (((decimal_value(d[2]) % 256) * 256 + decimal_value(d[3])) % 65536 - 1000) as i32,
                humidity: (decimal_value(d[4]) % 128) as u8,
            },
        ),
{
    let sp = seq![' '];
    let e = Seq::<char>::empty();
    assert(is_digits(d[0]) && is_digits(d[1]) && is_digits(d[2]) && is_digits(d[3]) && is_digits(d[4]));
    assert(words(e) == Seq::<Seq<char>>::empty());
    lemma_words_of_digits(e, d[0]);
    assert(e + d[0] =~= d[0]);
    let s0 = d[0] + sp;
    assert(s0.drop_last() =~= d[0]);
    assert(words(s0) == words(d[0]));
    lemma_words_of_digits(s0, d[1]);
    let s1 = s0 + d[1] + sp;
    assert(s1.drop_last() =~= s0 + d[1]);
    lemma_words_of_digits(s1, d[2]);
    let s2 = s1 + d[2] + sp;
    assert(s2.drop_last() =~= s1 + d[2]);
    lemma_words_of_digits(s2, d[3]);
    let s3 = s2 + d[3] + sp;
    assert(s3.drop_last() =~= s2 + d[3]);
    lemma_words_of_digits(s3, d[4]);
    let s = join_fields(d);
    assert(s =~= s3 + d[4]);
    let w = words(s);
    assert(w =~= seq![d[0], d[1], d[2], d[3], d[4]]);
    assert forall|i: int| 0 <= i < s.len() implies is_digit(#[trigger] s[i]) || is_blank(s[i]) by {
        let l0 = d[0].len() as int;
        let l1 = l0 + 1 + d[1].len();
        let l2 = l1 + 1 + d[2].len();
        let l3 = l2 + 1 + d[3].len();
        if i < l0 {
            assert(s[i] == d[0][i]);
        } else if i == l0 {
        } else if i < l1 {
            assert(s[i] == d[1][i - l0 - 1]);
        } else if i == l1 {
        } else if i < l2 {
            assert(s[i] == d[2][i - l1 - 1]);
        } else if i == l2 {
        } else if i < l3 {
            assert(s[i] == d[3][i - l2 - 1]);
        } else if i == l3 {
        } else {
            assert(s[i] == d[4][i - l3 - 1]);
        }
    }
}

/// A body with a character that is neither a digit nor whitespace, or with
/// other than five whitespace-delimited fields, fails structural validation,
/// and its fields are never decoded.
pub proof fn lemma_malformed_body_rejected(s: Seq<char>)
    requires
        (exists|i: int| 0 <= i < s.len() && !is_digit(#[trigger] s[i]) && !is_blank(s[i])) || words(s).len() != 5,
    ensures
        !valid_body(s),
        frame_of(s) == Err::<Frame, FrameError>(FrameError::NotValid),
{
}

impl std::str::FromStr for Frame {
    type Err = FrameError;

    /// Lets `str::parse` decode a frame body.
    fn from_str(s: &str) -> Result<Frame, FrameError> {
        Frame::from_str(s)
    }
}

} // verus!
