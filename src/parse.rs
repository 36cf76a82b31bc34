//! Root pitch inference from a sample file name.
//!
//! Two notations are recognised. Letter notation is a note letter `A`-`G`
//! (either case) that does not follow another ASCII letter, an optional
//! accidental (`#` or `b`) and an octave from `-1` to `8`, as in
//! `"Violin-C#3.wav"`. Numeric notation is the first run of digits, leading
//! zeros skipped, read as the longest prefix that is at most `127`, as in
//! `"Flute-043.wav"`.
use vstd::prelude::*;

use crate::range::MAX_PITCH;

verus! {

pub open spec fn is_ascii_letter(c: char) -> bool {
    ('A' <= c && c <= 'Z') || ('a' <= c && c <= 'z')
}

pub open spec fn is_digit(c: char) -> bool {
    '0' <= c && c <= '9'
}

pub open spec fn digit_value(c: char) -> int {
    (c as int) - ('0' as int)
}

/// Pitch class of a natural note letter, from `C` = 0.
pub open spec fn natural_class(c: char) -> Option<int> {
    if c == 'C' || c == 'c' {
        Some(0)
    } else if c == 'D' || c == 'd' {
        Some(2)
    } else if c == 'E' || c == 'e' {
        Some(4)
    } else if c == 'F' || c == 'f' {
        Some(5)
    } else if c == 'G' || c == 'g' {
        Some(7)
    } else if c == 'A' || c == 'a' {
        Some(9)
    } else if c == 'B' || c == 'b' {
        Some(11)
    } else {
        None
    }
}

/// The pitch of a note: twelve per octave, octave `-1` starting at `0`.
pub open spec fn note_pitch(class: int, accidental: int, octave: int) -> int {
    12 * (octave + 1) + (class + accidental + 12) % 12
}

/// The accidental after the letter at `p` (`+1` sharp, `-1` flat, `0` none).
pub open spec fn accidental_at(s: Seq<char>, p: int) -> int {
    if p + 1 < s.len() && s[p + 1] == '#' {
        1
    } else if p + 1 < s.len() && s[p + 1] == 'b' {
        -1
    } else {
        0
    }
}

/// The octave written at `q`: `-1` or a single digit `0`-`8`.
pub open spec fn octave_at(s: Seq<char>, q: int) -> Option<int> {
    if q + 1 < s.len() && s[q] == '-' && s[q + 1] == '1' {
        Some(-1)
    } else if 0 <= q < s.len() && '0' <= s[q] && s[q] <= '8' {
        Some(digit_value(s[q]))
    } else {
        None
    }
}

/// The pitch of a letter notation whose note letter stands at `p`, if one
/// stands there.
pub open spec fn letter_at(s: Seq<char>, p: int) -> Option<int> {
    if 0 <= p < s.len() && (p == 0 || !is_ascii_letter(s[p - 1])) && natural_class(s[p]) is Some {
        let accidental = accidental_at(s, p);
        let q = if accidental == 0 { p + 1 } else { p + 2 };
        match octave_at(s, q) {
            Some(octave) => Some(note_pitch(natural_class(s[p])->0, accidental, octave)),
            None => None,
        }
    } else {
        None
    }
}

/// The first letter notation at or after `p`.
pub open spec fn letter_from(s: Seq<char>, p: int) -> Option<int>
    decreases s.len() - p,
{
    if p < 0 || p >= s.len() {
        None
    } else if letter_at(s, p) is Some {
        letter_at(s, p)
    } else {
        letter_from(s, p + 1)
    }
}

/// The pitch that letter notation reads from a file name.
pub open spec fn letter_pitch(s: Seq<char>) -> Option<int> {
    letter_from(s, 0)
}

/// The first index at or after `q` that does not hold `'0'`.
pub open spec fn skip_zeros(s: Seq<char>, q: int) -> int
    decreases s.len() - q,
{
    if q < 0 || q >= s.len() || s[q] != '0' {
        q
    } else {
        skip_zeros(s, q + 1)
    }
}

/// The number read from digits starting at `q` (the first one not `'0'`):
/// as many digits as keep it at most `127`, and `0` if no digit is left.
pub open spec fn bounded_number_at(s: Seq<char>, q: int) -> int {
    if q >= s.len() || !is_digit(s[q]) {
        0
    } else if q + 1 < s.len() && is_digit(s[q + 1]) {
        let two = 10 * digit_value(s[q]) + digit_value(s[q + 1]);
        if q + 2 < s.len() && is_digit(s[q + 2]) && 10 * two + digit_value(s[q + 2]) <= 127 {
            10 * two + digit_value(s[q + 2])
        } else {
            two
        }
    } else {
        digit_value(s[q])
    }
}

/// The first numeric notation at or after `p`.
pub open spec fn number_from(s: Seq<char>, p: int) -> Option<int>
    decreases s.len() - p,
{
    if p < 0 || p >= s.len() {
        None
    } else if is_digit(s[p]) {
        Some(bounded_number_at(s, skip_zeros(s, p)))
    } else {
        number_from(s, p + 1)
    }
}

/// The pitch that numeric notation reads from a file name.
pub open spec fn number_pitch(s: Seq<char>) -> Option<int> {
    number_from(s, 0)
}

/// The pitch read from one file name: letter notation first, then numeric.
pub open spec fn file_pitch(s: Seq<char>) -> Option<int> {
    if letter_pitch(s) is Some {
        letter_pitch(s)
    } else {
        number_pitch(s)
    }
}

/// The characters of a string.
pub fn chars_of(s: &str) -> (r: Vec<char>)
    ensures
        r@ == s@,
{
    let n = s.unicode_len();
    let mut r: Vec<char> = Vec::new();
    let mut i: usize = 0;
    while i < n
        invariant
            n == s@.len(),
            i <= n,
            r@ == s@.subrange(0, i as int),
        decreases n - i,
    {
        r.push(s.get_char(i));
        i = i + 1;
        assert(r@ =~= s@.subrange(0, i as int));
    }
    assert(r@ =~= s@);
    r
}

fn is_letter(c: char) -> (r: bool)
    ensures
        r == is_ascii_letter(c),
{
    ('A' <= c && c <= 'Z') || ('a' <= c && c <= 'z')
}

fn natural_class_of(c: char) -> (r: Option<u8>)
    ensures
        r matches Some(v) ==> natural_class(c) == Some(v as int),
        r is None ==> natural_class(c) is None,
{
    if c == 'C' || c == 'c' {
        Some(0)
    } else if c == 'D' || c == 'd' {
        Some(2)
    } else if c == 'E' || c == 'e' {
        Some(4)
    } else if c == 'F' || c == 'f' {
        Some(5)
    } else if c == 'G' || c == 'g' {
        Some(7)
    } else if c == 'A' || c == 'a' {
        Some(9)
    } else if c == 'B' || c == 'b' {
        Some(11)
    } else {
        None
    }
}

fn letter_at_exec(s: &Vec<char>, p: usize) -> (r: Option<u8>)
    requires
        p < s@.len(),
    ensures
        r matches Some(v) ==> letter_at(s@, p as int) == Some(v as int) && v <= MAX_PITCH,
        r is None ==> letter_at(s@, p as int) is None,
{
    let n = s.len();
    if p > 0 && is_letter(s[p - 1]) {
        return None;
    }
    let class = match natural_class_of(s[p]) {
        Some(c) => c,
        None => return None,
    };
    let (accidental, q): (i8, usize) = if p + 1 < n && s[p + 1] == '#' {
        (1, p + 2)
    } else if p + 1 < n && s[p + 1] == 'b' {
        (-1, p + 2)
    } else {
        (0, p + 1)
    };
    let octave: i8 = if q < n && q + 1 < n && s[q] == '-' && s[q + 1] == '1' {
        -1
    } else if q < n && '0' <= s[q] && s[q] <= '8' {
        (s[q] as u32 - '0' as u32) as i8
    } else {
        return None;
    };
    let shifted: u8 = ((class as i8 + accidental + 12) % 12) as u8;
    Some((12 * (octave + 1)) as u8 + shifted)
}

fn digit_of(c: char) -> (r: u8)
    requires
        is_digit(c),
    ensures
        r as int == digit_value(c),
{
    (c as u32 - '0' as u32) as u8
}

/// Where a letter notation first stands at or after `p`.
pub open spec fn letter_position(s: Seq<char>, p: int) -> Option<int>
    decreases s.len() - p,
{
    if p < 0 || p >= s.len() {
        None
    } else if letter_at(s, p) is Some {
        Some(p)
    } else {
        letter_position(s, p + 1)
    }
}

/// Where the letter notation whose letter stands at `q` ends.
pub open spec fn letter_end(s: Seq<char>, q: int) -> int {
    let after = if accidental_at(s, q) == 0 { q + 1 } else { q + 2 };
    if octave_at(s, after) == Some(-1int) { after + 2 } else { after + 1 }
}

/// Where the first digit at or after `p` stands.
pub open spec fn number_position(s: Seq<char>, p: int) -> Option<int>
    decreases s.len() - p,
{
    if p < 0 || p >= s.len() {
        None
    } else if is_digit(s[p]) {
        Some(p)
    } else {
        number_position(s, p + 1)
    }
}

/// Where the numeric notation starting at `i` ends: after its leading
/// zeros and the digits that make up the number.
pub open spec fn number_end(s: Seq<char>, i: int) -> int {
    let z = skip_zeros(s, i);
    if z >= s.len() || !is_digit(s[z]) {
        z
    } else if z + 1 < s.len() && is_digit(s[z + 1]) {
        let two = 10 * digit_value(s[z]) + digit_value(s[z + 1]);
        if z + 2 < s.len() && is_digit(s[z + 2]) && 10 * two + digit_value(s[z + 2]) <= 127 {
            z + 3
        } else {
            z + 2
        }
    } else {
        z + 1
    }
}

/// The pitch read from a name, with where its notation starts and ends:
/// letter notation first, then numeric.
pub open spec fn note_span(s: Seq<char>) -> Option<(int, int, int)> {
    match letter_position(s, 0) {
        Some(q) => Some((letter_at(s, q)->0, q, letter_end(s, q))),
        None => match number_position(s, 0) {
            Some(i) => Some((bounded_number_at(s, skip_zeros(s, i)), i, number_end(s, i))),
            None => None,
        },
    }
}

proof fn lemma_letter_position(s: Seq<char>, p: int)
    requires
        0 <= p,
    ensures
        letter_position(s, p) matches Some(q) ==> p <= q < s.len() && letter_at(s, q) is Some
            && letter_from(s, p) == letter_at(s, q) && q < letter_end(s, q) <= s.len(),
        letter_position(s, p) is None ==> letter_from(s, p) is None,
    decreases s.len() - p,
{
    if p < s.len() && letter_at(s, p) is None {
        lemma_letter_position(s, p + 1);
    }
}

proof fn lemma_skip_zeros(s: Seq<char>, q: int)
    requires
        0 <= q <= s.len(),
    ensures
        q <= skip_zeros(s, q) <= s.len(),
    decreases s.len() - q,
{
    if q < s.len() && s[q] == '0' {
        lemma_skip_zeros(s, q + 1);
    }
}

proof fn lemma_number_position(s: Seq<char>, p: int)
    requires
        0 <= p,
    ensures
        number_position(s, p) matches Some(i) ==> p <= i < s.len() && is_digit(s[i])
            && number_from(s, p) == Some(bounded_number_at(s, skip_zeros(s, i)))
            && i < number_end(s, i) <= s.len(),
        number_position(s, p) is None ==> number_from(s, p) is None,
    decreases s.len() - p,
{
    if p < s.len() && !is_digit(s[p]) {
        lemma_number_position(s, p + 1);
    }
    if p < s.len() && is_digit(s[p]) {
        lemma_skip_zeros(s, p);
        if s[p] == '0' {
            lemma_skip_zeros(s, p + 1);
        }
    }
}

/// Finds the first letter notation: where its letter stands and its pitch.
fn find_letter(s: &Vec<char>) -> (r: Option<(usize, u8)>)
    ensures
        r matches Some((q, v)) ==> letter_position(s@, 0) == Some(q as int) && letter_at(s@, q as int)
            == Some(v as int) && v <= MAX_PITCH,
        r is None ==> letter_position(s@, 0) is None,
{
    let n = s.len();
    let mut p: usize = 0;
    while p < n
        invariant
            n == s@.len(),
            p <= n,
            letter_position(s@, 0) == letter_position(s@, p as int),
        decreases n - p,
    {
        match letter_at_exec(s, p) {
            Some(v) => {
                return Some((p, v));
            },
            None => {},
        }
        p = p + 1;
    }
    None
}

/// Where the letter notation whose letter stands at `q` ends.
fn letter_end_exec(s: &Vec<char>, q: usize) -> (r: usize)
    requires
        q < s@.len(),
        letter_at(s@, q as int) is Some,
    ensures
        r as int == letter_end(s@, q as int),
{
    let n = s.len();
    let after: usize = if q + 1 < n && (s[q + 1] == '#' || s[q + 1] == 'b') { q + 2 } else { q + 1 };
    if after < n && after + 1 < n && s[after] == '-' && s[after + 1] == '1' {
        after + 2
    } else {
        after + 1
    }
}

/// Finds the first numeric notation: where it starts, where it ends and
/// its pitch.
fn find_number(s: &Vec<char>) -> (r: Option<(usize, usize, u8)>)
    ensures
        r matches Some((i, e, v)) ==> number_position(s@, 0) == Some(i as int) && e as int == number_end(
            s@,
            i as int,
        ) && v as int == bounded_number_at(s@, skip_zeros(s@, i as int)) && v <= MAX_PITCH,
        r is None ==> number_position(s@, 0) is None,
{
    let n = s.len();
    let mut p: usize = 0;
    while p < n
        invariant
            n == s@.len(),
            p <= n,
            number_position(s@, 0) == number_position(s@, p as int),
        decreases n - p,
    {
        if '0' <= s[p] && s[p] <= '9' {
            let mut q: usize = p;
            while q < n && s[q] == '0'
                invariant
                    n == s@.len(),
                    p <= q <= n,
                    skip_zeros(s@, p as int) == skip_zeros(s@, q as int),
                decreases n - q,
            {
                q = q + 1;
            }
            if q >= n || !('0' <= s[q] && s[q] <= '9') {
                return Some((p, q, 0));
            }
            if q + 1 < n && '0' <= s[q + 1] && s[q + 1] <= '9' {
                let two: u8 = 10 * digit_of(s[q]) + digit_of(s[q + 1]);
                if q + 2 < n && '0' <= s[q + 2] && s[q + 2] <= '9' && (two as u16) * 10 + (digit_of(
                    s[q + 2],
                ) as u16) <= 127 {
                    return Some((p, q + 3, 10 * two + digit_of(s[q + 2])));
                }
                return Some((p, q + 2, two));
            }
            return Some((p, q + 1, digit_of(s[q])));
        }
        p = p + 1;
    }
    None
}

/// Reads a pitch in letter notation (`"MELCEL-Db0.WAV"` gives 13).
pub fn parse_letter_notation(filename: &str) -> (r: Option<u8>)
    ensures
        r matches Some(v) ==> letter_pitch(filename@) == Some(v as int) && v <= MAX_PITCH,
        r is None ==> letter_pitch(filename@) is None,
{
    let s = chars_of(filename);
    proof {
        lemma_letter_position(s@, 0);
    }
    match find_letter(&s) {
        Some((_, v)) => Some(v),
        None => None,
    }
}

/// Reads a pitch in numeric notation (`"THMB048.wav"` gives 48).
pub fn parse_number_notation(filename: &str) -> (r: Option<u8>)
    ensures
        r matches Some(v) ==> number_pitch(filename@) == Some(v as int) && v <= MAX_PITCH,
        r is None ==> number_pitch(filename@) is None,
{
    let s = chars_of(filename);
    proof {
        lemma_number_position(s@, 0);
    }
    match find_number(&s) {
        Some((_, _, v)) => Some(v),
        None => None,
    }
}

/// A value read from a longer string, with the text before and after it.
#[derive(Debug, PartialEq, Eq)]
pub struct Parsed<T> {
    pub value: T,
    pub prefix: String,
    pub suffix: String,
}

/// The string holds no note.
#[derive(Debug, Clone, Copy, PartialEq, Eq, Structural)]
pub struct NotANote;

/// Reading a value from a string that may hold more than the value.
pub trait PartialFromStr: Sized {
    /// The value read from `s`, with where its text starts and ends.
    spec fn spec_partial(s: Seq<char>) -> Option<(Self, int, int)>;

    /// Reads the value and keeps the text around it.
    fn partial_from_str(s: &str) -> (r: Result<Parsed<Self>, NotANote>)
        ensures
            Self::spec_partial(s@) is None ==> r is Err,
            Self::spec_partial(s@) matches Some((v, start, end)) ==> (r matches Ok(p) && p.value == v
                && p.prefix@ == s@.subrange(0, start) && p.suffix@ == s@.subrange(end, s@.len() as int)),
    ;
}

/// A pitch read from a file name (see `note_span`).
impl PartialFromStr for u8 {
    open spec fn spec_partial(s: Seq<char>) -> Option<(u8, int, int)> {
        match note_span(s) {
            Some((v, start, end)) => Some((v as u8, start, end)),
            None => None,
        }
    }

    fn partial_from_str(s: &str) -> (r: Result<Parsed<u8>, NotANote>) {
        let chars = chars_of(s);
        proof {
            lemma_letter_position(chars@, 0);
            lemma_number_position(chars@, 0);
        }
        let (value, start, end): (u8, usize, usize) = match find_letter(&chars) {
            Some((q, v)) => (v, q, letter_end_exec(&chars, q)),
            None => match find_number(&chars) {
                Some((i, e, v)) => (v, i, e),
                None => return Err(NotANote),
            },
        };
        let n = s.unicode_len();
        let prefix = String::from_str(s.substring_char(0, start));
        let suffix = String::from_str(s.substring_char(end, n));
        Ok(Parsed { value, prefix, suffix })
    }
}

/// Reads a pitch from one file name: letter notation first, then numeric.
pub fn parse_pitch(filename: &str) -> (r: Option<u8>)
    ensures
        r matches Some(v) ==> file_pitch(filename@) == Some(v as int) && v <= MAX_PITCH,
        r is None ==> file_pitch(filename@) is None,
{
    match parse_letter_notation(filename) {
        Some(v) => Some(v),
        None => parse_number_notation(filename),
    }
}

pub open spec fn as_int(o: Option<u8>) -> Option<int> {
    match o {
        Some(v) => Some(v as int),
        None => None,
    }
}

/// The names of a batch of files.
pub open spec fn names_of(files: Seq<String>) -> Seq<Seq<char>> {
    files.map_values(|f: String| f@)
}

/// Every file of the batch got a pitch, and no two the same one.
pub open spec fn resolved_and_distinct(pitches: Seq<Option<int>>) -> bool {
    &&& forall|i: int| 0 <= i < pitches.len() ==> #[trigger] pitches[i] is Some
    &&& forall|i: int, j: int|
        0 <= i < j < pitches.len() ==> #[trigger] pitches[i] != #[trigger] pitches[j]
}

pub open spec fn letter_pitches(names: Seq<Seq<char>>) -> Seq<Option<int>> {
    Seq::new(names.len(), |i: int| letter_pitch(names[i]))
}

pub open spec fn number_pitches(names: Seq<Seq<char>>) -> Seq<Option<int>> {
    Seq::new(names.len(), |i: int| number_pitch(names[i]))
}

pub open spec fn file_pitches(names: Seq<Seq<char>>) -> Seq<Option<int>> {
    Seq::new(names.len(), |i: int| file_pitch(names[i]))
}

/// The pitches of a batch of files that follow one naming convention:
/// letter notation for all of them where it reads a distinct pitch from each,
/// else numeric notation where it does, else each file on its own.
pub open spec fn batch_pitches(names: Seq<Seq<char>>) -> Seq<Option<int>> {
    if resolved_and_distinct(letter_pitches(names)) {
        letter_pitches(names)
    } else if resolved_and_distinct(number_pitches(names)) {
        number_pitches(names)
    } else {
        file_pitches(names)
    }
}

fn check_resolved_and_distinct(pitches: &Vec<Option<u8>>) -> (r: bool)
    ensures
        r == resolved_and_distinct(pitches@.map_values(|o: Option<u8>| as_int(o))),
{
    let ghost view = pitches@.map_values(|o: Option<u8>| as_int(o));
    let n = pitches.len();
    let mut i: usize = 0;
    while i < n
        invariant
            n == pitches@.len(),
            view == pitches@.map_values(|o: Option<u8>| as_int(o)),
            i <= n,
            forall|k: int| 0 <= k < i ==> #[trigger] view[k] is Some,
            forall|k: int, j: int| 0 <= k < i && k < j < n ==> #[trigger] view[k] != #[trigger] view[j],
        decreases n - i,
    {
        if pitches[i].is_none() {
            assert(view[i as int] is None);
            return false;
        }
        let mut j: usize = i + 1;
        while j < n
            invariant
                n == pitches@.len(),
                view == pitches@.map_values(|o: Option<u8>| as_int(o)),
                i < n,
                i < j <= n,
                pitches@[i as int] is Some,
                forall|l: int| i < l < j ==> view[i as int] != #[trigger] view[l],
            decreases n - j,
        {
            if pitches[i] == pitches[j] {
                assert(view[i as int] == view[j as int]);
                return false;
            }
            j = j + 1;
        }
        i = i + 1;
    }
    true
}

/// Reads the pitches of a batch of sample files (one program's worth),
/// following `batch_pitches`.
pub fn guess_roots(files: &Vec<String>) -> (r: Vec<Option<u8>>)
    ensures
        r@.map_values(|o: Option<u8>| as_int(o)) == batch_pitches(names_of(files@)),
{
    let ghost names = names_of(files@);
    let n = files.len();
    let mut letters: Vec<Option<u8>> = Vec::new();
    let mut numbers: Vec<Option<u8>> = Vec::new();
    let mut each: Vec<Option<u8>> = Vec::new();
    let mut i: usize = 0;
    while i < n
        invariant
            n == files@.len(),
            names == names_of(files@),
            i <= n,
            letters@.len() == i,
            numbers@.len() == i,
            each@.len() == i,
            forall|k: int| 0 <= k < i ==> as_int(#[trigger] letters@[k]) == letter_pitch(names[k]),
            forall|k: int| 0 <= k < i ==> as_int(#[trigger] numbers@[k]) == number_pitch(names[k]),
            forall|k: int| 0 <= k < i ==> as_int(#[trigger] each@[k]) == file_pitch(names[k]),
        decreases n - i,
    {
        let name = files[i].as_str();
        let letter = parse_letter_notation(name);
        let number = parse_number_notation(name);
        let one = match letter {
            Some(v) => Some(v),
            None => number,
        };
        letters.push(letter);
        numbers.push(number);
        each.push(one);
        i = i + 1;
    }
    assert(letters@.map_values(|o: Option<u8>| as_int(o)) =~= letter_pitches(names));
    assert(numbers@.map_values(|o: Option<u8>| as_int(o)) =~= number_pitches(names));
    assert(each@.map_values(|o: Option<u8>| as_int(o)) =~= file_pitches(names));
    if check_resolved_and_distinct(&letters) {
        letters
    } else if check_resolved_and_distinct(&numbers) {
        numbers
    } else {
        each
    }
}

} // verus!
