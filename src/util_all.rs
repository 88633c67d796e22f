//! Hex, decimal and date text, schedule matching and directory lists.

use chrono::{Datelike, Timelike};
use vstd::prelude::*;

verus! {

/// The digit `d` (below sixteen) in upper-case hexadecimal.
pub open spec fn hex_char(d: nat) -> char {
    if d < 10 {
        (d + 48) as char
    } else {
        (d + 55) as char
    }
}

/// Two upper-case hex digits for each byte, high nibble first.
pub open spec fn hex_of_bytes(s: Seq<u8>) -> Seq<char>
    decreases s.len(),
{
    if s.len() == 0 {
        Seq::empty()
    } else {
        let b = s.last();
        hex_of_bytes(s.drop_last()) + seq![hex_char((b / 16) as nat), hex_char((b % 16) as nat)]
    }
}

/// Upper-case hexadecimal digits of `n`, without leading zeros (`0` for zero).
pub open spec fn upper_hex(n: nat) -> Seq<char>
    decreases n,
{
    if n < 16 {
        seq![hex_char(n)]
    } else {
        upper_hex(n / 16).push(hex_char(n % 16))
    }
}

/// The last `w` decimal digits of `n`, zero-padded on the left.
pub open spec fn dec_fixed(n: nat, w: nat) -> Seq<char>
    decreases w,
{
    if w == 0 {
        Seq::empty()
    } else {
        dec_fixed(n / 10, (w - 1) as nat).push(((n % 10) + 48) as char)
    }
}

/// The bit pattern of a 32-bit integer read as unsigned (two's complement).
pub open spec fn i32_bits(v: i32) -> nat {
    if v < 0 {
        (v + 0x1_0000_0000) as nat
    } else {
        v as nat
    }
}

/// The bit pattern of a 16-bit integer read as unsigned (two's complement).
pub open spec fn i16_bits(v: i16) -> nat {
    if v < 0 {
        (v + 0x1_0000) as nat
    } else {
        v as nat
    }
}

/// `buf` with the characters from `pos` on replaced by `chars`.
pub open spec fn overwrite(buf: Seq<char>, pos: int, chars: Seq<char>) -> Seq<char> {
    buf.take(pos) + chars + buf.skip(pos + chars.len())
}

/// Position of `c` among the upper-case hex digits; zero for any other character.
pub open spec fn hex_value(c: char) -> u8 {
    if '0' <= c && c <= '9' {
        (c as u32 - 48) as u8
    } else if 'A' <= c && c <= 'F' {
        (c as u32 - 55) as u8
    } else {
        0
    }
}

/// Number of bytes that the UTF-8 encoding of `s` takes.
pub open spec fn utf8_len(s: Seq<char>) -> nat
    decreases s.len(),
{
    if s.len() == 0 {
        0
    } else {
        let c = s.last() as u32;
        let w: nat = if c < 0x80 {
            1
        } else if c < 0x800 {
            2
        } else if c < 0x10000 {
            3
        } else {
            4
        };
        utf8_len(s.drop_last()) + w
    }
}

/// What `str::to_uppercase` makes of a string.
pub uninterp spec fn upper_of(s: Seq<char>) -> Seq<char>;

/// What `str::trim` makes of a string.
pub uninterp spec fn trimmed_of(s: Seq<char>) -> Seq<char>;

/// What `str::parse::<i32>` makes of a string.
pub uninterp spec fn parsed_i32(s: Seq<char>) -> Option<i32>;

/// The bytes read from pairs of hex digits in `s`, as the decoder defines them:
/// nothing for an empty string or when the upper-cased text has fewer characters
/// than twice half its encoded length.
pub open spec fn hex_decode(s: Seq<char>) -> Option<Seq<u8>> {
    let u = upper_of(s);
    let n = utf8_len(u) / 2;
    if s.len() == 0 || 2 * n > u.len() {
        None
    } else {
        Some(Seq::new(n, |i: int| (hex_value(u[2 * i]) * 16 + hex_value(u[2 * i + 1])) as u8))
    }
}

/// Pieces of `s` between occurrences of `sep`; at least one piece, possibly empty.
pub open spec fn split_on(s: Seq<char>, sep: char) -> Seq<Seq<char>>
    decreases s.len(),
{
    if s.len() == 0 {
        seq![Seq::empty()]
    } else {
        let prev = split_on(s.drop_last(), sep);
        if s.last() == sep {
            prev.push(Seq::empty())
        } else {
            prev.update(prev.len() - 1, prev.last().push(s.last()))
        }
    }
}

pub proof fn lemma_split_nonempty(s: Seq<char>, sep: char)
    ensures
        split_on(s, sep).len() >= 1,
    decreases s.len(),
{
    if s.len() > 0 {
        lemma_split_nonempty(s.drop_last(), sep);
    }
}

/// Hour of the day that a piece of a schedule names: its integer value, or zero.
pub open spec fn scheduled_hour(piece: Seq<char>) -> int {
    match parsed_i32(piece) {
        Some(v) => v as int,
        None => 0,
    }
}

/// Whether one of the `;`-separated hours in `when` is `hour`.
pub open spec fn schedule_names_hour(when: Seq<char>, hour: int) -> bool {
    let parts = split_on(when, ';');
    exists|i: int| 0 <= i < parts.len() && scheduled_hour(#[trigger] parts[i]) == hour
}

#[verifier::external_type_specification]
#[verifier::external_body]
pub struct ExInstant(std::time::Instant);

/// Relies on `Instant::elapsed`: the time passed since `begin`, which depends
/// on the clock.
#[verifier::external_body]
fn instant_elapsed(begin: &std::time::Instant) -> std::time::Duration {
    begin.elapsed()
}

/// Relies on `Duration::as_millis`: the whole milliseconds of `d`.
#[verifier::external_body]
fn duration_millis(d: &std::time::Duration) -> u128 {
    d.as_millis()
}

/// Whole milliseconds passed since `begin_time`, truncated to 64 bits.
pub fn compute_elapsed_time_milliseconds(begin_time: std::time::Instant) -> u64 {
    let elapsed = instant_elapsed(&begin_time);
    let millis = duration_millis(&elapsed);
    #[verifier::truncate]
    (millis as u64)
}

/// Calendar fields of a UTC instant: year, month, day, hour, minute, second
/// and millisecond.
pub type CivilFields = (i32, u32, u32, u32, u32, u32, u32);

/// What chrono's `DateTime::<Utc>::from_timestamp_millis` makes of a
/// millisecond timestamp, read through its calendar fields.
pub uninterp spec fn utc_fields(t: i64) -> Option<CivilFields>;

/// Relies on chrono's `DateTime::<Utc>::from_timestamp_millis` (nothing out of
/// its range) and on `year`, `month`, `day`, `hour`, `minute`, `second` and
/// `timestamp_subsec_millis`: the result depends on `t` alone.
#[verifier::external_body]
fn utc_fields_of(t: i64) -> (r: Option<CivilFields>)
    ensures
        r == utc_fields(t),
{
    match chrono::DateTime::<chrono::Utc>::from_timestamp_millis(t) {
        Some(dt) => Some((Datelike::year(&dt), Datelike::month(&dt), Datelike::day(&dt),
            Timelike::hour(&dt), Timelike::minute(&dt), Timelike::second(&dt),
            dt.timestamp_subsec_millis())),
        None => None,
    }
}

/// Relies on `Iterator::collect` into `String`: the characters in order.
#[verifier::external_body]
fn chars_to_string(v: &Vec<char>) -> (r: String)
    ensures
        r@ == v@,
{
    v.iter().collect()
}

/// Relies on `str::chars`: the characters of the string in order.
#[verifier::external_body]
fn str_chars(s: &str) -> (r: Vec<char>)
    ensures
        r@ == s@,
{
    s.chars().collect()
}

/// Relies on `str::to_uppercase`: the result depends on the characters alone.
#[verifier::external_body]
fn to_upper(s: &str) -> (r: String)
    ensures
        r@ == upper_of(s@),
{
    s.to_uppercase()
}

/// Relies on `str::len`: the length in bytes of the UTF-8 encoding.
#[verifier::external_body]
fn byte_len(s: &str) -> (r: usize)
    ensures
        r == utf8_len(s@),
{
    s.len()
}

/// Relies on `str::trim`: the result depends on the characters alone.
#[verifier::external_body]
fn trim_str(s: &str) -> (r: String)
    ensures
        r@ == trimmed_of(s@),
{
    s.trim().to_string()
}

/// Relies on `str::parse::<i32>`: the result depends on the characters alone.
#[verifier::external_body]
fn parse_i32(s: &str) -> (r: Option<i32>)
    ensures
        r == parsed_i32(s@),
{
    s.parse::<i32>().ok()
}

/// Relies on chrono's `Local::now` and `Timelike::hour`: the hour of the local
/// time, below twenty-four.
#[verifier::external_body]
fn current_local_hour() -> (r: u32)
    ensures
        r < 24,
{
    Timelike::hour(&chrono::Local::now())
}

fn hex_digit(d: u8) -> (r: char)
    requires
        d < 16,
    ensures
        r == hex_char(d as nat),
{
    if d < 10 {
        (d + 48) as char
    } else {
        (d + 55) as char
    }
}

/// Hexadecimal text of a byte string, two upper-case digits per byte.
pub fn bytes_to_string(src: &[u8]) -> (r: String)
    ensures
        r@ == hex_of_bytes(src@),
{
    let mut hex_chars: Vec<char> = Vec::new();
    let mut i: usize = 0;
    while i < src.len()
        invariant
            i <= src@.len(),
            hex_chars@ == hex_of_bytes(src@.take(i as int)),
        decreases src@.len() - i,
    {
        let b = src[i];
        hex_chars.push(hex_digit(b / 16));
        hex_chars.push(hex_digit(b % 16));
        proof {
            assert(src@.take(i + 1).drop_last() == src@.take(i as int));
        }
        i = i + 1;
    }
    assert(src@.take(src@.len() as int) == src@);
    chars_to_string(&hex_chars)
}

fn upper_hex_digits(n: u64) -> (r: Vec<char>)
    ensures
        r@ == upper_hex(n as nat),
    decreases n,
{
    if n < 16 {
        vec![hex_digit(n as u8)]
    } else {
        let mut v = upper_hex_digits(n / 16);
        v.push(hex_digit((n % 16) as u8));
        v
    }
}

fn write_chars(buffer: &mut [char], pos: usize, chars: &Vec<char>)
    requires
        pos + chars@.len() <= old(buffer)@.len(),
    ensures
        final(buffer)@ == overwrite(old(buffer)@, pos as int, chars@),
{
    let blen = buffer.len();
    let mut i: usize = 0;
    while i < chars.len()
        invariant
            i <= chars@.len(),
            blen == buffer@.len(),
            pos + chars@.len() <= buffer@.len(),
            buffer@.len() == old(buffer)@.len(),
            forall|k: int| 0 <= k < buffer@.len() ==> #[trigger] buffer@[k] == if pos <= k < pos + i {
                chars@[k - pos]
            } else {
                old(buffer)@[k]
            },
        decreases chars@.len() - i,
    {
        buffer[pos + i] = chars[i];
        i = i + 1;
    }
    assert(buffer@ =~= overwrite(old(buffer)@, pos as int, chars@));
}

/// Writes the upper-case hexadecimal digits of `value` (two's complement for a
/// negative value) into `buffer` from `pos` on.
pub fn write_int(buffer: &mut [char], pos: usize, value: i32)
    requires
        pos + upper_hex(i32_bits(value)).len() <= old(buffer)@.len(),
    ensures
        final(buffer)@ == overwrite(old(buffer)@, pos as int, upper_hex(i32_bits(value))),
{
    let bits: u64 = if value < 0 {
        (value as i64 + 0x1_0000_0000i64) as u64
    } else {
        value as u64
    };
    let digits = upper_hex_digits(bits);
    write_chars(buffer, pos, &digits);
}

/// Writes the upper-case hexadecimal digits of `value` (two's complement for a
/// negative value) into `buffer` from `pos` on.
pub fn write_short(buffer: &mut [char], pos: usize, value: i16)
    requires
        pos + upper_hex(i16_bits(value)).len() <= old(buffer)@.len(),
    ensures
        final(buffer)@ == overwrite(old(buffer)@, pos as int, upper_hex(i16_bits(value))),
{
    let bits: u64 = if value < 0 {
        (value as i64 + 0x1_0000i64) as u64
    } else {
        value as u64
    };
    let digits = upper_hex_digits(bits);
    write_chars(buffer, pos, &digits);
}

/// Value of an upper-case hex digit; zero for any other character.
pub fn char_to_byte(c: char) -> (r: u8)
    ensures
        r == hex_value(c),
{
    if '0' <= c && c <= '9' {
        (c as u32 - 48) as u8
    } else if 'A' <= c && c <= 'F' {
        (c as u32 - 55) as u8
    } else {
        0
    }
}

/// Reads pairs of hex digits (either case) into bytes.
pub fn string_to_bytes(hex_string: String) -> (r: Option<Vec<u8>>)
    ensures
        match r {
            Some(v) => hex_decode(hex_string@) == Some(v@),
            None => hex_decode(hex_string@) is None,
        },
{
    if hex_string.as_str().is_empty() {
        return None;
    }
    let upper = to_upper(hex_string.as_str());
    let length = byte_len(upper.as_str()) / 2;
    let chars = str_chars(upper.as_str());
    let clen = chars.len();
    if clen / 2 < length {
        return None;
    }
    let mut bytes: Vec<u8> = Vec::new();
    let mut i: usize = 0;
    while i < length
        invariant
            i <= length,
            2 * length <= chars@.len(),
            clen == chars@.len(),
            chars@ == upper_of(hex_string@),
            bytes@.len() == i,
            forall|k: int| 0 <= k < i ==> #[trigger] bytes@[k] == (hex_value(chars@[2 * k]) * 16
                + hex_value(chars@[2 * k + 1])) as u8,
        decreases length - i,
    {
        let hi = char_to_byte(chars[2 * i]);
        let lo = char_to_byte(chars[2 * i + 1]);
        assert(hi < 16 && lo < 16);
        let byte: u8 = hi * 16 + lo;
        bytes.push(byte);
        i = i + 1;
    }
    assert(bytes@ =~= Seq::new(length as nat, |k: int| (hex_value(chars@[2 * k]) * 16
        + hex_value(chars@[2 * k + 1])) as u8));
    Some(bytes)
}

fn dec_fixed_digits(n: u64, w: usize) -> (r: Vec<char>)
    ensures
        r@ == dec_fixed(n as nat, w as nat),
    decreases w,
{
    if w == 0 {
        Vec::new()
    } else {
        let mut v = dec_fixed_digits(n / 10, w - 1);
        v.push(((n % 10) as u8 + 48) as char);
        v
    }
}

/// The name of a file that starts at `offset`: the offset in twenty decimal
/// digits, zero-padded (every `u64` fits in twenty digits).
pub fn offset_to_file_name(offset: u64) -> (r: String)
    ensures
        r@ == dec_fixed(offset as nat, 20),
{
    let digits = dec_fixed_digits(offset, 20);
    chars_to_string(&digits)
}

/// Decimal digits of `n`, zero-padded on the left to at least `w` digits.
pub open spec fn dec_min(n: nat, w: nat) -> Seq<char>
    decreases n + w,
{
    if n < 10 && w <= 1 {
        seq![(n + 48) as char]
    } else {
        dec_min(n / 10, if w > 0 { (w - 1) as nat } else { 0 }).push(((n % 10) + 48) as char)
    }
}

/// A year as `{:04}` writes it: four digits at least, after a minus sign
/// that takes one of the four places.
pub open spec fn year_padded(y: i32) -> Seq<char> {
    if y < 0 {
        seq!['-'] + dec_min((-y) as nat, 3)
    } else {
        dec_min(y as nat, 4)
    }
}

/// A year as chrono's `%Y` writes it: four digits for years 0 to 9999, else a
/// sign and four digits at least.
pub open spec fn year_signed(y: i32) -> Seq<char> {
    if 0 <= y <= 9999 {
        dec_min(y as nat, 4)
    } else if y < 0 {
        seq!['-'] + dec_min((-y) as nat, 4)
    } else {
        seq!['+'] + dec_min(y as nat, 4)
    }
}

/// `yyyymmddHHMMSS` after the given year text.
pub open spec fn compact_tail(f: CivilFields) -> Seq<char> {
    dec_min(f.1 as nat, 2) + dec_min(f.2 as nat, 2) + dec_min(f.3 as nat, 2) + dec_min(f.4 as nat, 2)
        + dec_min(f.5 as nat, 2)
}

/// `yyyy-mm-dd HH:MM:SS,mmm`.
pub open spec fn human_text2(f: CivilFields) -> Seq<char> {
    year_padded(f.0) + seq!['-'] + dec_min(f.1 as nat, 2) + seq!['-'] + dec_min(f.2 as nat, 2) + seq![' ']
        + dec_min(f.3 as nat, 2) + seq![':'] + dec_min(f.4 as nat, 2) + seq![':'] + dec_min(f.5 as nat, 2)
        + seq![','] + dec_min(f.6 as nat, 3)
}

fn dec_min_digits(n: u64, w: usize) -> (r: Vec<char>)
    ensures
        r@ == dec_min(n as nat, w as nat),
    decreases n + w,
{
    if n < 10 && w <= 1 {
        vec![(n as u8 + 48) as char]
    } else {
        let mut v = dec_min_digits(n / 10, if w > 0 { w - 1 } else { 0 });
        v.push(((n % 10) as u8 + 48) as char);
        v
    }
}

fn push_all(out: &mut Vec<char>, s: Vec<char>)
    ensures
        final(out)@ == old(out)@ + s@,
{
    let mut i: usize = 0;
    while i < s.len()
        invariant
            i <= s@.len(),
            out@ == old(out)@ + s@.take(i as int),
        decreases s@.len() - i,
    {
        out.push(s[i]);
        i = i + 1;
        assert(out@ =~= old(out)@ + s@.take(i as int));
    }
    assert(s@.take(s@.len() as int) =~= s@);
}

fn year_padded_digits(y: i32) -> (r: Vec<char>)
    ensures
        r@ == year_padded(y),
{
    if y < 0 {
        let mut v = vec!['-'];
        push_all(&mut v, dec_min_digits((-(y as i64)) as u64, 3));
        v
    } else {
        dec_min_digits(y as u64, 4)
    }
}

fn compact_tail_digits(f: CivilFields) -> (r: Vec<char>)
    ensures
        r@ == compact_tail(f),
{
    let mut v = dec_min_digits(f.1 as u64, 2);
    push_all(&mut v, dec_min_digits(f.2 as u64, 2));
    push_all(&mut v, dec_min_digits(f.3 as u64, 2));
    push_all(&mut v, dec_min_digits(f.4 as u64, 2));
    push_all(&mut v, dec_min_digits(f.5 as u64, 2));
    v
}

/// `t` as `yyyy-mm-dd HH:MM:SS,mmm` in UTC; nothing where chrono has no date.
pub fn time_millis_to_human_string2(t: i64) -> (r: Option<String>)
    ensures
        match utc_fields(t) {
            Some(f) => r matches Some(s) && s@ == human_text2(f),
            None => r is None,
        },
{
    match utc_fields_of(t) {
        None => None,
        Some(f) => {
            let mut v = year_padded_digits(f.0);
            v.push('-');
            push_all(&mut v, dec_min_digits(f.1 as u64, 2));
            v.push('-');
            push_all(&mut v, dec_min_digits(f.2 as u64, 2));
            v.push(' ');
            push_all(&mut v, dec_min_digits(f.3 as u64, 2));
            v.push(':');
            push_all(&mut v, dec_min_digits(f.4 as u64, 2));
            v.push(':');
            push_all(&mut v, dec_min_digits(f.5 as u64, 2));
            v.push(',');
            push_all(&mut v, dec_min_digits(f.6 as u64, 3));
            assert(v@ =~= human_text2(f));
            Some(chars_to_string(&v))
        },
    }
}

/// `t` as `yyyymmddHHMMSS` in UTC, the year as `{:04}` writes it; nothing
/// where chrono has no date.
pub fn time_millis_to_human_string3(t: i64) -> (r: Option<String>)
    ensures
        match utc_fields(t) {
            Some(f) => r matches Some(s) && s@ == year_padded(f.0) + compact_tail(f),
            None => r is None,
        },
{
    match utc_fields_of(t) {
        None => None,
        Some(f) => {
            let mut v = year_padded_digits(f.0);
            push_all(&mut v, compact_tail_digits(f));
            Some(chars_to_string(&v))
        },
    }
}

/// `t` as chrono's `%Y%m%d%H%M%S%3f` writes it in UTC; nothing where chrono
/// has no date.
pub fn time_millis_to_human_string(t: i64) -> (r: Option<String>)
    ensures
        match utc_fields(t) {
            Some(f) => r matches Some(s) && s@ == year_signed(f.0) + compact_tail(f) + dec_min(f.6 as nat, 3),
            None => r is None,
        },
{
    match utc_fields_of(t) {
        None => None,
        Some(f) => {
            let mut v: Vec<char>;
            if 0 <= f.0 && f.0 <= 9999 {
                v = dec_min_digits(f.0 as u64, 4);
            } else if f.0 < 0 {
                v = vec!['-'];
                push_all(&mut v, dec_min_digits((-(f.0 as i64)) as u64, 4));
            } else {
                v = vec!['+'];
                push_all(&mut v, dec_min_digits(f.0 as u64, 4));
            }
            push_all(&mut v, compact_tail_digits(f));
            push_all(&mut v, dec_min_digits(f.6 as u64, 3));
            Some(chars_to_string(&v))
        },
    }
}

/// Splits `s` at each `sep`.
pub fn split_chars(s: &Vec<char>, sep: char) -> (r: Vec<Vec<char>>)
    ensures
        r@.len() == split_on(s@, sep).len(),
        forall|i: int| 0 <= i < r@.len() ==> #[trigger] r@[i]@ == split_on(s@, sep)[i],
{
    let mut parts: Vec<Vec<char>> = vec![Vec::new()];
    let mut i: usize = 0;
    while i < s.len()
        invariant
            i <= s@.len(),
            parts@.len() == split_on(s@.take(i as int), sep).len(),
            forall|k: int| 0 <= k < parts@.len() ==> #[trigger] parts@[k]@ == split_on(
                s@.take(i as int),
                sep,
            )[k],
        decreases s@.len() - i,
    {
        proof {
            assert(s@.take(i + 1).drop_last() == s@.take(i as int));
            lemma_split_nonempty(s@.take(i as int), sep);
        }
        let c = s[i];
        if c == sep {
            parts.push(Vec::new());
        } else {
            let last = parts.len() - 1;
            let mut piece = parts[last].clone();
            piece.push(c);
            parts.set(last, piece);
        }
        i = i + 1;
    }
    assert(s@.take(s@.len() as int) == s@);
    parts
}

/// Whether `when`, a `;`-separated list of hours, names `hour`; a piece that is
/// not a number stands for hour zero.
pub fn is_it_time_to_do_at(when: &str, hour: u32) -> (r: bool)
    ensures
        r == schedule_names_hour(when@, hour as int),
{
    let chars = str_chars(when);
    let parts = split_chars(&chars, ';');
    let mut i: usize = 0;
    while i < parts.len()
        invariant
            i <= parts@.len(),
            parts@.len() == split_on(when@, ';').len(),
            forall|k: int| 0 <= k < parts@.len() ==> #[trigger] parts@[k]@ == split_on(when@, ';')[k],
            forall|k: int| 0 <= k < i ==> scheduled_hour(#[trigger] split_on(when@, ';')[k]) != hour,
        decreases parts@.len() - i,
    {
        let text = chars_to_string(&parts[i]);
        let value: i32 = match parse_i32(text.as_str()) {
            Some(v) => v,
            None => 0,
        };
        if value as i64 == hour as i64 {
            return true;
        }
        i = i + 1;
    }
    false
}

/// Whether the current local hour is among the `;`-separated hours in `when`.
pub fn is_it_time_to_do(when: &str) -> (r: bool)
    ensures
        exists|h: int| 0 <= h < 24 && r == schedule_names_hour(when@, h),
{
    let hour = current_local_hour();
    is_it_time_to_do_at(when, hour)
}

/// Share of a partition in use, in hundredths rounded up: `used * 100` over
/// `used + usable`, where `used` is `total - free` (zero when `free` exceeds
/// `total`); nothing when that sum is zero.
pub open spec fn used_share(total: u64, free: u64, usable: u64) -> Option<int> {
    let used: int = if free <= total { total - free } else { 0 };
    let entire: int = used + usable;
    if entire == 0 {
        None
    } else {
        Some((used * 100 + entire - 1) / entire)
    }
}

/// The used share of a partition from its total, free and usable sizes.
pub fn used_share_hundredths(total: u64, free: u64, usable: u64) -> (r: Option<u64>)
    ensures
        match used_share(total, free, usable) {
            Some(v) => r == Some(v as u64) && v <= 100,
            None => r is None,
        },
{
    let used: u64 = total.saturating_sub(free);
    let entire: u128 = used as u128 + usable as u128;
    if entire == 0 {
        return None;
    }
    let u = used as u128;
    assert(u <= entire);
    proof {
        let ui = u as int;
        let ei = entire as int;
        assert((ui * 100 + ei - 1) / ei <= 100) by (nonlinear_arith)
            requires
                ui <= ei,
                ei > 0,
        {
            assert(ui * 100 + ei - 1 < ei * 101);
        }
    }
    let share = (u * 100 + entire - 1) / entire;
    Some(share as u64)
}

/// The directories named by `dir_name`: when it holds `splitter`, the pieces of
/// its trimmed text between occurrences of it; otherwise the name itself; none
/// for an empty name.
pub open spec fn dirs_named(dir_name: Seq<char>, splitter: char) -> Seq<Seq<char>> {
    if dir_name.len() == 0 {
        Seq::empty()
    } else if dir_name.contains(splitter) {
        split_on(trimmed_of(dir_name), splitter)
    } else {
        seq![dir_name]
    }
}

/// The directories that `ensure_dir_ok` must create for `dir_name`.
pub fn dirs_to_ensure(dir_name: &str, splitter: char) -> (r: Vec<String>)
    ensures
        r@.len() == dirs_named(dir_name@, splitter).len(),
        forall|i: int| 0 <= i < r@.len() ==> #[trigger] r@[i]@ == dirs_named(dir_name@, splitter)[i],
{
    let chars = str_chars(dir_name);
    let mut out: Vec<String> = Vec::new();
    if chars.len() == 0 {
        assert(dirs_named(dir_name@, splitter) =~= Seq::empty());
        return out;
    }
    let mut found = false;
    let mut j: usize = 0;
    while j < chars.len()
        invariant
            j <= chars@.len(),
            chars@ == dir_name@,
            found == exists|k: int| 0 <= k < j && chars@[k] == splitter,
        decreases chars@.len() - j,
    {
        if chars[j] == splitter {
            found = true;
        }
        j = j + 1;
    }
    if !found {
        assert(!dir_name@.contains(splitter));
        out.push(chars_to_string(&chars));
        return out;
    }
    let trimmed = trim_str(dir_name);
    let tchars = str_chars(trimmed.as_str());
    let parts = split_chars(&tchars, splitter);
    let mut i: usize = 0;
    while i < parts.len()
        invariant
            i <= parts@.len(),
            dir_name@.contains(splitter),
            dir_name@.len() > 0,
            parts@.len() == split_on(trimmed_of(dir_name@), splitter).len(),
            forall|k: int| 0 <= k < parts@.len() ==> #[trigger] parts@[k]@ == split_on(trimmed_of(dir_name@), splitter)[k],
            out@.len() == i,
            forall|k: int| 0 <= k < i ==> #[trigger] out@[k]@ == split_on(trimmed_of(dir_name@), splitter)[k],
        decreases parts@.len() - i,
    {
        out.push(chars_to_string(&parts[i]));
        i = i + 1;
    }
    out
}

} // verus!
