//! Parsing of textual CD-TOC track descriptors.
//!
//! A CHD file carries its table of contents as metadata blobs whose payload
//! is an ASCII line of whitespace- or comma-separated `KEY:VALUE` tokens,
//! for example `TRACK:1 TYPE:MODE1 FRAMES:26888 PREGAP:0 POSTGAP:0`.
//! This module turns one such line into a typed [`TrackRecord`].

use vstd::prelude::*;

verus! {

/// The kind of a CD track, as named in CHD track metadata.
#[derive(Clone, Copy, Debug, PartialEq, Eq, Structural)]
pub enum TrackKind {
    Audio,
    Mode1,
    Mode2Form1,
    Mode2Form2,
    Mode2Raw,
}

/// One parsed track descriptor.
///
/// `frames`, `pregap` and `postgap` are counted in 2352-byte frames.
#[derive(Clone, Copy, Debug, PartialEq, Eq, Structural)]
pub struct TrackRecord {
    pub number: u32,
    pub kind: TrackKind,
    pub frames: u32,
    pub pregap: u32,
    pub postgap: u32,
}

/// Accumulator while walking the tokens of one track line.
#[derive(Clone, Copy, Debug, PartialEq, Eq, Structural)]
pub struct TrackParseState {
    pub number: Option<u32>,
    pub frames: u32,
    pub pregap: u32,
    pub postgap: u32,
    pub kind: Option<TrackKind>,
}

/// Token separators: space, tab, newline, carriage return, comma.
pub open spec fn is_sep_byte(c: u8) -> bool {
    c == 32 || c == 9 || c == 10 || c == 13 || c == 44
}

pub open spec fn kw_track() -> Seq<u8> {
    seq![84u8, 82u8, 65u8, 67u8, 75u8]
}

pub open spec fn kw_frames() -> Seq<u8> {
    seq![70u8, 82u8, 65u8, 77u8, 69u8, 83u8]
}

pub open spec fn kw_pregap() -> Seq<u8> {
    seq![80u8, 82u8, 69u8, 71u8, 65u8, 80u8]
}

pub open spec fn kw_postgap() -> Seq<u8> {
    seq![80u8, 79u8, 83u8, 84u8, 71u8, 65u8, 80u8]
}

pub open spec fn kw_type() -> Seq<u8> {
    seq![84u8, 89u8, 80u8, 69u8]
}

pub open spec fn kw_mode1() -> Seq<u8> {
    seq![77u8, 79u8, 68u8, 69u8, 49u8]
}

pub open spec fn kw_mode2_2048() -> Seq<u8> {
    seq![77u8, 79u8, 68u8, 69u8, 50u8, 47u8, 50u8, 48u8, 52u8, 56u8]
}

pub open spec fn kw_mode2_form1() -> Seq<u8> {
    seq![77u8, 79u8, 68u8, 69u8, 50u8, 95u8, 70u8, 79u8, 82u8, 77u8, 49u8]
}

pub open spec fn kw_mode2_2324() -> Seq<u8> {
    seq![77u8, 79u8, 68u8, 69u8, 50u8, 47u8, 50u8, 51u8, 50u8, 52u8]
}

pub open spec fn kw_mode2_form2() -> Seq<u8> {
    seq![77u8, 79u8, 68u8, 69u8, 50u8, 95u8, 70u8, 79u8, 82u8, 77u8, 50u8]
}

pub open spec fn kw_mode2_2352() -> Seq<u8> {
    seq![77u8, 79u8, 68u8, 69u8, 50u8, 47u8, 50u8, 51u8, 53u8, 50u8]
}

pub open spec fn kw_mode2_raw() -> Seq<u8> {
    seq![77u8, 79u8, 68u8, 69u8, 50u8, 95u8, 82u8, 65u8, 87u8]
}

pub open spec fn kw_cdi_2352() -> Seq<u8> {
    seq![67u8, 68u8, 73u8, 47u8, 50u8, 51u8, 53u8, 50u8]
}

pub open spec fn kw_audio() -> Seq<u8> {
    seq![65u8, 85u8, 68u8, 73u8, 79u8]
}

pub open spec fn kw_mode2() -> Seq<u8> {
    seq![77u8, 79u8, 68u8, 69u8, 50u8]
}

pub open spec fn kw_2048() -> Seq<u8> {
    seq![50u8, 48u8, 52u8, 56u8]
}

pub open spec fn kw_2324() -> Seq<u8> {
    seq![50u8, 51u8, 50u8, 52u8]
}

/// Index of the first colon in `tok`, or -1 when there is none.
pub open spec fn find_colon(tok: Seq<u8>) -> int
    decreases tok.len(),
{
    if tok.len() == 0 {
        -1
    } else if tok[0] == 58 {
        0
    } else {
        let r = find_colon(tok.drop_first());
        if r == -1 {
            -1
        } else {
            r + 1
        }
    }
}

pub open spec fn is_digit(c: u8) -> bool {
    48 <= c <= 57
}

pub open spec fn all_digits(v: Seq<u8>) -> bool {
    forall|i: int| 0 <= i < v.len() ==> is_digit(#[trigger] v[i])
}

/// Value of a digit string, most significant digit first.
pub open spec fn digits_value(v: Seq<u8>) -> int
    decreases v.len(),
{
    if v.len() == 0 {
        0
    } else {
        digits_value(v.drop_last()) * 10 + (v.last() - 48)
    }
}

/// Decimal digits only, non-empty, value within `u32`.
pub open spec fn parse_u32_digits(v: Seq<u8>) -> Option<u32> {
    if v.len() > 0 && all_digits(v) && digits_value(v) <= u32::MAX {
        Some(digits_value(v) as u32)
    } else {
        None
    }
}

/// `u32::from_str`: an optional leading `+`, then decimal digits.
pub open spec fn parse_u32_spec(v: Seq<u8>) -> Option<u32> {
    if v.len() > 0 && v[0] == 43 {
        parse_u32_digits(v.drop_first())
    } else {
        parse_u32_digits(v)
    }
}

pub open spec fn or_zero(o: Option<u32>) -> u32 {
    match o {
        Some(n) => n,
        None => 0u32,
    }
}

pub open spec fn starts_with(v: Seq<u8>, p: Seq<u8>) -> bool {
    p.len() <= v.len() && v.subrange(0, p.len() as int) == p
}

pub open spec fn contains_seq(v: Seq<u8>, n: Seq<u8>) -> bool {
    exists|i: int| 0 <= i && i + n.len() <= v.len() && #[trigger] v.subrange(i, i + n.len()) == n
}

/// Decode a `TYPE:` value. Exact names are tried first; any other name
/// beginning with `MODE2` is decided by whether it mentions a payload
/// size; everything else counts as audio.
pub open spec fn decode_type(v: Seq<u8>) -> TrackKind {
    if v == kw_mode1() {
        TrackKind::Mode1
    } else if v == kw_mode2_2048() || v == kw_mode2_form1() {
        TrackKind::Mode2Form1
    } else if v == kw_mode2_2324() || v == kw_mode2_form2() {
        TrackKind::Mode2Form2
    } else if v == kw_mode2_2352() || v == kw_mode2_raw() || v == kw_cdi_2352() {
        TrackKind::Mode2Raw
    } else if v == kw_audio() {
        TrackKind::Audio
    } else if starts_with(v, kw_mode2()) && contains_seq(v, kw_2048()) {
        TrackKind::Mode2Form1
    } else if starts_with(v, kw_mode2()) && contains_seq(v, kw_2324()) {
        TrackKind::Mode2Form2
    } else {
        TrackKind::Audio
    }
}

/// Effect of one `KEY:VALUE` token on the accumulator.
/// A token without a colon, or with an unknown key, is ignored.
/// Malformed numeric values become 0, the track number included.
pub open spec fn apply_token(st: TrackParseState, tok: Seq<u8>) -> TrackParseState {
    let ci = find_colon(tok);
    if ci < 0 {
        st
    } else {
        let key = tok.take(ci);
        let v = tok.skip(ci + 1);
        if key == kw_track() {
            TrackParseState {
                number: Some(or_zero(parse_u32_spec(v))),
                frames: st.frames,
                pregap: st.pregap,
                postgap: st.postgap,
                kind: st.kind,
            }
        } else if key == kw_frames() {
            TrackParseState {
                number: st.number,
                frames: or_zero(parse_u32_spec(v)),
                pregap: st.pregap,
                postgap: st.postgap,
                kind: st.kind,
            }
        } else if key == kw_pregap() {
            TrackParseState {
                number: st.number,
                frames: st.frames,
                pregap: or_zero(parse_u32_spec(v)),
                postgap: st.postgap,
                kind: st.kind,
            }
        } else if key == kw_postgap() {
            TrackParseState {
                number: st.number,
                frames: st.frames,
                pregap: st.pregap,
                postgap: or_zero(parse_u32_spec(v)),
                kind: st.kind,
            }
        } else if key == kw_type() {
            TrackParseState {
                number: st.number,
                frames: st.frames,
                pregap: st.pregap,
                postgap: st.postgap,
                kind: Some(decode_type(v)),
            }
        } else {
            st
        }
    }
}

/// Walk the bytes of a line, splitting at separators and applying each
/// completed token; `cur` is the token gathered so far.
pub open spec fn parse_chars(s: Seq<u8>, cur: Seq<u8>, st: TrackParseState) -> TrackParseState
    decreases s.len(),
{
    if s.len() == 0 {
        if cur.len() > 0 {
            apply_token(st, cur)
        } else {
            st
        }
    } else if is_sep_byte(s[0]) {
        parse_chars(
            s.drop_first(),
            Seq::<u8>::empty(),
            if cur.len() > 0 {
                apply_token(st, cur)
            } else {
                st
            },
        )
    } else {
        parse_chars(s.drop_first(), cur.push(s[0]), st)
    }
}

pub open spec fn initial_track_state() -> TrackParseState {
    TrackParseState { number: None, frames: 0, pregap: 0, postgap: 0, kind: None }
}

/// A record is produced exactly when both a track number and a type were seen.
pub open spec fn finish_track(st: TrackParseState) -> Option<TrackRecord> {
    if st.number is Some && st.kind is Some {
        Some(
            TrackRecord {
                number: st.number.unwrap(),
                kind: st.kind.unwrap(),
                frames: st.frames,
                pregap: st.pregap,
                postgap: st.postgap,
            },
        )
    } else {
        None
    }
}

/// What [`parse_track_line`] returns for a given line.
pub open spec fn spec_parse_track_line(s: Seq<u8>) -> Option<TrackRecord> {
    finish_track(parse_chars(s, Seq::<u8>::empty(), initial_track_state()))
}

fn is_sep(c: u8) -> (r: bool)
    ensures
        r == is_sep_byte(c),
{
    c == 32 || c == 9 || c == 10 || c == 13 || c == 44
}

/// `r` is true exactly when `s[start..end]` equals `kw`.
fn range_eq(s: &[u8], start: usize, end: usize, kw: &Vec<u8>) -> (r: bool)
    requires
        start <= end <= s@.len(),
    ensures
        r == (s@.subrange(start as int, end as int) == kw@),
{
    if end - start != kw.len() {
        assert(s@.subrange(start as int, end as int).len() != kw@.len());
        return false;
    }
    let n = kw.len();
    let mut j: usize = 0;
    while j < n
        invariant
            0 <= j <= n,
            n == kw@.len(),
            start <= end <= s@.len(),
            end - start == n,
            forall|k: int| 0 <= k < j ==> s@[start + k] == kw@[k],
        decreases n - j,
    {
        if s[start + j] != kw[j] {
            assert(s@.subrange(start as int, end as int)[j as int] != kw@[j as int]);
            return false;
        }
        j += 1;
    }
    assert(s@.subrange(start as int, end as int) =~= kw@);
    true
}

fn kw_track_vec() -> (v: Vec<u8>)
    ensures
        v@ == kw_track(),
{
    let mut v: Vec<u8> = Vec::new();
    v.push(84);
    v.push(82);
    v.push(65);
    v.push(67);
    v.push(75);
    assert(v@ =~= kw_track());
    v
}

fn kw_frames_vec() -> (v: Vec<u8>)
    ensures
        v@ == kw_frames(),
{
    let mut v: Vec<u8> = Vec::new();
    v.push(70);
    v.push(82);
    v.push(65);
    v.push(77);
    v.push(69);
    v.push(83);
    assert(v@ =~= kw_frames());
    v
}

fn kw_pregap_vec() -> (v: Vec<u8>)
    ensures
        v@ == kw_pregap(),
{
    let mut v: Vec<u8> = Vec::new();
    v.push(80);
    v.push(82);
    v.push(69);
    v.push(71);
    v.push(65);
    v.push(80);
    assert(v@ =~= kw_pregap());
    v
}

fn kw_postgap_vec() -> (v: Vec<u8>)
    ensures
        v@ == kw_postgap(),
{
    let mut v: Vec<u8> = Vec::new();
    v.push(80);
    v.push(79);
    v.push(83);
    v.push(84);
    v.push(71);
    v.push(65);
    v.push(80);
    assert(v@ =~= kw_postgap());
    v
}

fn kw_type_vec() -> (v: Vec<u8>)
    ensures
        v@ == kw_type(),
{
    let mut v: Vec<u8> = Vec::new();
    v.push(84);
    v.push(89);
    v.push(80);
    v.push(69);
    assert(v@ =~= kw_type());
    v
}

fn kw_mode1_vec() -> (v: Vec<u8>)
    ensures
        v@ == kw_mode1(),
{
    let mut v: Vec<u8> = Vec::new();
    v.push(77);
    v.push(79);
    v.push(68);
    v.push(69);
    v.push(49);
    assert(v@ =~= kw_mode1());
    v
}

fn kw_mode2_2048_vec() -> (v: Vec<u8>)
    ensures
        v@ == kw_mode2_2048(),
{
    let mut v: Vec<u8> = Vec::new();
    v.push(77);
    v.push(79);
    v.push(68);
    v.push(69);
    v.push(50);
    v.push(47);
    v.push(50);
    v.push(48);
    v.push(52);
    v.push(56);
    assert(v@ =~= kw_mode2_2048());
    v
}

fn kw_mode2_form1_vec() -> (v: Vec<u8>)
    ensures
        v@ == kw_mode2_form1(),
{
    let mut v: Vec<u8> = Vec::new();
    v.push(77);
    v.push(79);
    v.push(68);
    v.push(69);
    v.push(50);
    v.push(95);
    v.push(70);
    v.push(79);
    v.push(82);
    v.push(77);
    v.push(49);
    assert(v@ =~= kw_mode2_form1());
    v
}

fn kw_mode2_2324_vec() -> (v: Vec<u8>)
    ensures
        v@ == kw_mode2_2324(),
{
    let mut v: Vec<u8> = Vec::new();
    v.push(77);
    v.push(79);
    v.push(68);
    v.push(69);
    v.push(50);
    v.push(47);
    v.push(50);
    v.push(51);
    v.push(50);
    v.push(52);
    assert(v@ =~= kw_mode2_2324());
    v
}

fn kw_mode2_form2_vec() -> (v: Vec<u8>)
    ensures
        v@ == kw_mode2_form2(),
{
    let mut v: Vec<u8> = Vec::new();
    v.push(77);
    v.push(79);
    v.push(68);
    v.push(69);
    v.push(50);
    v.push(95);
    v.push(70);
    v.push(79);
    v.push(82);
    v.push(77);
    v.push(50);
    assert(v@ =~= kw_mode2_form2());
    v
}

fn kw_mode2_2352_vec() -> (v: Vec<u8>)
    ensures
        v@ == kw_mode2_2352(),
{
    let mut v: Vec<u8> = Vec::new();
    v.push(77);
    v.push(79);
    v.push(68);
    v.push(69);
    v.push(50);
    v.push(47);
    v.push(50);
    v.push(51);
    v.push(53);
    v.push(50);
    assert(v@ =~= kw_mode2_2352());
    v
}

fn kw_mode2_raw_vec() -> (v: Vec<u8>)
    ensures
        v@ == kw_mode2_raw(),
{
    let mut v: Vec<u8> = Vec::new();
    v.push(77);
    v.push(79);
    v.push(68);
    v.push(69);
    v.push(50);
    v.push(95);
    v.push(82);
    v.push(65);
    v.push(87);
    assert(v@ =~= kw_mode2_raw());
    v
}

fn kw_cdi_2352_vec() -> (v: Vec<u8>)
    ensures
        v@ == kw_cdi_2352(),
{
    let mut v: Vec<u8> = Vec::new();
    v.push(67);
    v.push(68);
    v.push(73);
    v.push(47);
    v.push(50);
    v.push(51);
    v.push(53);
    v.push(50);
    assert(v@ =~= kw_cdi_2352());
    v
}

fn kw_audio_vec() -> (v: Vec<u8>)
    ensures
        v@ == kw_audio(),
{
    let mut v: Vec<u8> = Vec::new();
    v.push(65);
    v.push(85);
    v.push(68);
    v.push(73);
    v.push(79);
    assert(v@ =~= kw_audio());
    v
}

fn kw_mode2_vec() -> (v: Vec<u8>)
    ensures
        v@ == kw_mode2(),
{
    let mut v: Vec<u8> = Vec::new();
    v.push(77);
    v.push(79);
    v.push(68);
    v.push(69);
    v.push(50);
    assert(v@ =~= kw_mode2());
    v
}

fn kw_2048_vec() -> (v: Vec<u8>)
    ensures
        v@ == kw_2048(),
{
    let mut v: Vec<u8> = Vec::new();
    v.push(50);
    v.push(48);
    v.push(52);
    v.push(56);
    assert(v@ =~= kw_2048());
    v
}

fn kw_2324_vec() -> (v: Vec<u8>)
    ensures
        v@ == kw_2324(),
{
    let mut v: Vec<u8> = Vec::new();
    v.push(50);
    v.push(51);
    v.push(50);
    v.push(52);
    assert(v@ =~= kw_2324());
    v
}

proof fn lemma_find_colon_character(tok: Seq<u8>)
    ensures
        find_colon(tok) == -1 ==> forall|i: int| 0 <= i < tok.len() ==> tok[i] != 58,
        find_colon(tok) != -1 ==> 0 <= find_colon(tok) < tok.len() && tok[find_colon(tok)] == 58
            && forall|i: int| 0 <= i < find_colon(tok) ==> tok[i] != 58,
    decreases tok.len(),
{
    if tok.len() == 0 {
    } else if tok[0] == 58 {
    } else {
        lemma_find_colon_character(tok.drop_first());
        assert forall|i: int| 1 <= i < tok.len() implies tok[i] == tok.drop_first()[i - 1] by {}
    }
}

/// Find the first colon in `s[start..end]`, as an absolute index.
fn find_colon_in(s: &[u8], start: usize, end: usize) -> (r: Option<usize>)
    requires
        start <= end <= s@.len(),
    ensures
        ({
            let fc = find_colon(s@.subrange(start as int, end as int));
            match r {
                Some(j) => start <= j < end && fc == j - start,
                None => fc == -1,
            }
        }),
{
    proof {
        lemma_find_colon_character(s@.subrange(start as int, end as int));
    }
    let mut j: usize = start;
    while j < end
        invariant
            start <= j <= end <= s@.len(),
            forall|k: int| start <= k < j ==> s@[k] != 58,
        decreases end - j,
    {
        if s[j] == 58 {
            proof {
                let tok = s@.subrange(start as int, end as int);
                lemma_find_colon_character(tok);
                let fc = find_colon(tok);
                assert(tok[j - start] == 58);
                if fc == -1 {
                    assert(tok[j - start] != 58);
                } else if fc < j - start {
                    assert(tok[fc] == 58);
                    assert(s@[start + fc] == tok[fc]);
                    assert(s@[start + fc] != 58);
                } else if fc > j - start {
                    assert(tok[j - start] != 58);
                }
            }
            return Some(j);
        }
        j += 1;
    }
    proof {
        let tok = s@.subrange(start as int, end as int);
        let fc = find_colon(tok);
        if fc != -1 {
            assert(tok[fc] == 58);
            assert(s@[start + fc] == tok[fc]);
            assert(s@[start + fc] != 58);
        }
    }
    None
}

/// `digits_value` grows (weakly) as digits are appended.
proof fn lemma_digits_value_monotone(v: Seq<u8>, k: int)
    requires
        0 <= k <= v.len(),
        all_digits(v),
    ensures
        digits_value(v.take(k)) <= digits_value(v),
        digits_value(v) >= 0,
    decreases v.len() - k,
{
    if k == v.len() {
        assert(v.take(k) =~= v);
        lemma_digits_value_nonneg(v);
    } else {
        lemma_digits_value_monotone(v, k + 1);
        let w = v.take(k + 1);
        assert(w.drop_last() =~= v.take(k));
        lemma_digits_value_nonneg(v.take(k));
        assert(is_digit(w.last()));
        assert(digits_value(w) == digits_value(v.take(k)) * 10 + (w.last() - 48));
        assert(digits_value(v.take(k)) * 10 >= digits_value(v.take(k))) by (nonlinear_arith)
            requires
                digits_value(v.take(k)) >= 0,
        ;
    }
}

proof fn lemma_digits_value_nonneg(v: Seq<u8>)
    requires
        all_digits(v),
    ensures
        digits_value(v) >= 0,
    decreases v.len(),
{
    if v.len() > 0 {
        assert(all_digits(v.drop_last())) by {
            assert(forall|i: int| 0 <= i < v.len() - 1 ==> v.drop_last()[i] == v[i]);
        }
        lemma_digits_value_nonneg(v.drop_last());
        assert(is_digit(v.last()));
        assert(digits_value(v.drop_last()) * 10 >= 0) by (nonlinear_arith)
            requires
                digits_value(v.drop_last()) >= 0,
        ;
    }
}

/// Parse `s[start..end]` as a decimal digit string (no sign).
fn parse_digits_in(s: &[u8], start: usize, end: usize) -> (r: Option<u32>)
    requires
        start <= end <= s@.len(),
    ensures
        r == parse_u32_digits(s@.subrange(start as int, end as int)),
{
    let ghost v = s@.subrange(start as int, end as int);
    if start == end {
        return None;
    }
    let mut acc: u64 = 0;
    let mut j: usize = start;
    while j < end
        invariant
            start <= j <= end <= s@.len(),
            start < end,
            v == s@.subrange(start as int, end as int),
            all_digits(v.take(j - start)),
            acc == digits_value(v.take(j - start)),
            acc <= u32::MAX,
        decreases end - j,
    {
        let c = s[j];
        if c < 48 || c > 57 {
            assert(!is_digit(v[j - start]));
            assert(!all_digits(v));
            return None;
        }
        let d: u64 = (c - 48) as u64;
        let next: u64 = acc * 10 + d;
        proof {
            assert(v.take(j - start + 1).drop_last() =~= v.take(j - start));
            assert(v.take(j - start + 1).last() == v[j - start]);
            assert(all_digits(v.take(j - start + 1))) by {
                assert(forall|i: int|
                    0 <= i < j - start + 1 ==> v.take(j - start + 1)[i] == v[i]);
                assert(forall|i: int| 0 <= i < j - start ==> v.take(j - start)[i] == v[i]);
            }
        }
        if next > u32::MAX as u64 {
            proof {
                assert(digits_value(v.take(j - start + 1)) == next);
                if all_digits(v) {
                    lemma_digits_value_monotone(v, j - start + 1);
                    assert(digits_value(v) >= digits_value(v.take(j - start + 1)));
                }
            }
            return None;
        }
        acc = next;
        j += 1;
    }
    assert(v.take(end - start) =~= v);
    Some(acc as u32)
}

/// Parse `s[start..end]` as `u32::from_str` would.
fn parse_u32_in(s: &[u8], start: usize, end: usize) -> (r: Option<u32>)
    requires
        start <= end <= s@.len(),
    ensures
        r == parse_u32_spec(s@.subrange(start as int, end as int)),
{
    let ghost v = s@.subrange(start as int, end as int);
    if start < end && s[start] == 43 {
        let r = parse_digits_in(s, start + 1, end);
        proof {
            assert(v.drop_first() =~= s@.subrange(start + 1, end as int));
        }
        r
    } else {
        parse_digits_in(s, start, end)
    }
}

/// Does `s[start..end]` start with `MODE2`?
fn starts_with_mode2(s: &[u8], start: usize, end: usize) -> (r: bool)
    requires
        start <= end <= s@.len(),
    ensures
        r == starts_with(s@.subrange(start as int, end as int), kw_mode2()),
{
    let ghost v = s@.subrange(start as int, end as int);
    if end - start < 5 {
        return false;
    }
    let kw = kw_mode2_vec();
    let r = range_eq(s, start, start + 5, &kw);
    proof {
        assert(v.subrange(0, 5) =~= s@.subrange(start as int, start + 5));
    }
    r
}

/// Does `s[start..end]` contain `needle` as a contiguous run?
fn contains_in(s: &[u8], start: usize, end: usize, needle: &Vec<u8>) -> (r: bool)
    requires
        start <= end <= s@.len(),
        needle@.len() > 0,
    ensures
        r == contains_seq(s@.subrange(start as int, end as int), needle@),
{
    let ghost v = s@.subrange(start as int, end as int);
    let n = needle.len();
    if end - start < n {
        proof {
            if contains_seq(v, needle@) {
                let i = choose|i: int| 0 <= i && i + needle@.len() <= v.len()
                    && #[trigger] v.subrange(i, i + needle@.len()) == needle@;
            }
        }
        return false;
    }
    let mut i: usize = start;
    while i <= end - n
        invariant
            start <= i,
            i + n <= end + 1,
            n <= end,
            n == needle@.len() > 0,
            start <= end <= s@.len(),
            v == s@.subrange(start as int, end as int),
            forall|k: int|
                0 <= k < i - start ==> #[trigger] v.subrange(k, k + needle@.len()) != needle@,
        decreases end - i,
    {
        let hit = range_eq(s, i, i + n, needle);
        proof {
            assert(v.subrange(i - start, i - start + needle@.len()) =~= s@.subrange(
                i as int,
                i + needle@.len(),
            ));
        }
        if hit {
            assert(contains_seq(v, needle@));
            return true;
        }
        i += 1;
    }
    proof {
        if contains_seq(v, needle@) {
            let k = choose|k: int| 0 <= k && k + needle@.len() <= v.len()
                && #[trigger] v.subrange(k, k + needle@.len()) == needle@;
            assert(k < i - start);
        }
    }
    false
}

/// Decode the `TYPE:` value found at `s[start..end]`.
fn decode_type_in(s: &[u8], start: usize, end: usize) -> (r: TrackKind)
    requires
        start <= end <= s@.len(),
    ensures
        r == decode_type(s@.subrange(start as int, end as int)),
{
    let kw = kw_mode1_vec();
    if range_eq(s, start, end, &kw) {
        return TrackKind::Mode1;
    }
    let kw = kw_mode2_2048_vec();
    if range_eq(s, start, end, &kw) {
        return TrackKind::Mode2Form1;
    }
    let kw = kw_mode2_form1_vec();
    if range_eq(s, start, end, &kw) {
        return TrackKind::Mode2Form1;
    }
    let kw = kw_mode2_2324_vec();
    if range_eq(s, start, end, &kw) {
        return TrackKind::Mode2Form2;
    }
    let kw = kw_mode2_form2_vec();
    if range_eq(s, start, end, &kw) {
        return TrackKind::Mode2Form2;
    }
    let kw = kw_mode2_2352_vec();
    if range_eq(s, start, end, &kw) {
        return TrackKind::Mode2Raw;
    }
    let kw = kw_mode2_raw_vec();
    if range_eq(s, start, end, &kw) {
        return TrackKind::Mode2Raw;
    }
    let kw = kw_cdi_2352_vec();
    if range_eq(s, start, end, &kw) {
        return TrackKind::Mode2Raw;
    }
    let kw = kw_audio_vec();
    if range_eq(s, start, end, &kw) {
        return TrackKind::Audio;
    }
    if starts_with_mode2(s, start, end) {
        let kw = kw_2048_vec();
        if contains_in(s, start, end, &kw) {
            return TrackKind::Mode2Form1;
        }
        let kw = kw_2324_vec();
        if contains_in(s, start, end, &kw) {
            return TrackKind::Mode2Form2;
        }
    }
    TrackKind::Audio
}

/// Apply the token `s[start..end]` to the accumulator.
fn apply_token_in(s: &[u8], start: usize, end: usize, st: TrackParseState) -> (r:
    TrackParseState)
    requires
        start <= end <= s@.len(),
    ensures
        r == apply_token(st, s@.subrange(start as int, end as int)),
{
    let ghost tok = s@.subrange(start as int, end as int);
    let colon = find_colon_in(s, start, end);
    match colon {
        None => st,
        Some(j) => {
            proof {
                assert(tok.take(j - start) =~= s@.subrange(start as int, j as int));
                assert(tok.skip(j - start + 1) =~= s@.subrange(j + 1, end as int));
            }
            let kw = kw_track_vec();
            if range_eq(s, start, j, &kw) {
                let number = parse_u32_in(s, j + 1, end);
                return TrackParseState {
                    number: Some(match number {
                        Some(x) => x,
                        None => 0,
                    }),
                    frames: st.frames,
                    pregap: st.pregap,
                    postgap: st.postgap,
                    kind: st.kind,
                };
            }
            let kw = kw_frames_vec();
            if range_eq(s, start, j, &kw) {
                let n = parse_u32_in(s, j + 1, end);
                return TrackParseState {
                    number: st.number,
                    frames: match n {
                        Some(x) => x,
                        None => 0,
                    },
                    pregap: st.pregap,
                    postgap: st.postgap,
                    kind: st.kind,
                };
            }
            let kw = kw_pregap_vec();
            if range_eq(s, start, j, &kw) {
                let n = parse_u32_in(s, j + 1, end);
                return TrackParseState {
                    number: st.number,
                    frames: st.frames,
                    pregap: match n {
                        Some(x) => x,
                        None => 0,
                    },
                    postgap: st.postgap,
                    kind: st.kind,
                };
            }
            let kw = kw_postgap_vec();
            if range_eq(s, start, j, &kw) {
                let n = parse_u32_in(s, j + 1, end);
                return TrackParseState {
                    number: st.number,
                    frames: st.frames,
                    pregap: st.pregap,
                    postgap: match n {
                        Some(x) => x,
                        None => 0,
                    },
                    kind: st.kind,
                };
            }
            let kw = kw_type_vec();
            if range_eq(s, start, j, &kw) {
                let k = decode_type_in(s, j + 1, end);
                return TrackParseState {
                    number: st.number,
                    frames: st.frames,
                    pregap: st.pregap,
                    postgap: st.postgap,
                    kind: Some(k),
                };
            }
            st
        },
    }
}

/// Parse one track-descriptor line.
///
/// Returns a record exactly when the line carries both a `TRACK` and a
/// `TYPE` key; malformed numeric fields, the track number included,
/// become zero.
pub fn parse_track_line(s: &[u8]) -> (r: Option<TrackRecord>)
    ensures
        r == spec_parse_track_line(s@),
{
    let n = s.len();
    let mut st = TrackParseState { number: None, frames: 0, pregap: 0, postgap: 0, kind: None };
    let mut i: usize = 0;
    let mut tok_start: usize = 0;
    proof {
        assert(s@.skip(0) =~= s@);
        assert(s@.subrange(0, 0) =~= Seq::<u8>::empty());
    }
    while i < n
        invariant
            0 <= tok_start <= i <= n == s@.len(),
            parse_chars(s@, Seq::<u8>::empty(), initial_track_state()) == parse_chars(
                s@.skip(i as int),
                s@.subrange(tok_start as int, i as int),
                st,
            ),
        decreases n - i,
    {
        let ghost pre_rest = s@.skip(i as int);
        let ghost pre_cur = s@.subrange(tok_start as int, i as int);
        proof {
            assert(pre_rest.len() > 0);
            assert(pre_rest[0] == s@[i as int]);
            assert(pre_rest.drop_first() =~= s@.skip(i + 1));
        }
        let c = s[i];
        if is_sep(c) {
            if i > tok_start {
                st = apply_token_in(s, tok_start, i, st);
            }
            i += 1;
            tok_start = i;
            proof {
                assert(s@.subrange(i as int, i as int) =~= Seq::<u8>::empty());
            }
        } else {
            i += 1;
            proof {
                assert(pre_cur.push(c) =~= s@.subrange(tok_start as int, i as int));
            }
        }
    }
    proof {
        assert(s@.skip(n as int) =~= Seq::<u8>::empty());
    }
    if n > tok_start {
        st = apply_token_in(s, tok_start, n, st);
    }
    if st.number.is_some() && st.kind.is_some() {
        let number = st.number.unwrap();
        let kind = st.kind.unwrap();
        Some(
            TrackRecord {
                number,
                kind,
                frames: st.frames,
                pregap: st.pregap,
                postgap: st.postgap,
            },
        )
    } else {
        None
    }
}

} // verus!
