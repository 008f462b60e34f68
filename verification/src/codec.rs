//! The on-storage encoding of a task list and its strict decoder.
//!
//! A task list is stored as a single structured text document: a bracketed,
//! comma-separated list of records, each record holding the task text (quoted,
//! with the quote, backslash and control characters escaped) and the creation
//! instant (a signed decimal count of seconds since the Unix epoch).
//! `spec_encode` defines that document shape mathematically; the decoder
//! accepts exactly the documents that `spec_encode` produces.

use vstd::prelude::*;

verus! {

/// Mathematical model of one task record: its text and its creation instant
/// in seconds since the Unix epoch.
pub struct TaskView {
    pub text: Seq<char>,
    pub created_at: int,
}

/// A task record is well formed when its instant fits a 64-bit signed count.
pub open spec fn task_wf(t: TaskView) -> bool {
    i64::MIN <= t.created_at <= i64::MAX
}

/// All records of a list are well formed.
pub open spec fn tasks_wf(ts: Seq<TaskView>) -> bool {
    forall|i: int| 0 <= i < ts.len() ==> task_wf(#[trigger] ts[i])
}

/// The character for one decimal digit.
pub open spec fn digit_char(d: int) -> char
    recommends
        0 <= d < 10,
{
    if d == 0 { '0' }
    else if d == 1 { '1' }
    else if d == 2 { '2' }
    else if d == 3 { '3' }
    else if d == 4 { '4' }
    else if d == 5 { '5' }
    else if d == 6 { '6' }
    else if d == 7 { '7' }
    else if d == 8 { '8' }
    else { '9' }
}

/// The decimal digits of a natural number, most significant first,
/// with no leading zero (a lone zero for zero itself).
pub open spec fn spec_digits(n: nat) -> Seq<char>
    decreases n,
{
    if n < 10 {
        seq![digit_char(n as int)]
    } else {
        spec_digits(n / 10) + seq![digit_char((n % 10) as int)]
    }
}

/// The decimal rendering of an integer: a minus sign for negatives,
/// then the digits of the magnitude.
pub open spec fn spec_int_chars(n: int) -> Seq<char> {
    if n < 0 {
        seq!['-'] + spec_digits((-n) as nat)
    } else {
        spec_digits(n as nat)
    }
}

/// The lowercase character for one hexadecimal digit.
pub open spec fn hex_char(d: int) -> char
    recommends
        0 <= d < 16,
{
    if d < 10 {
        digit_char(d)
    } else if d == 10 { 'a' }
    else if d == 11 { 'b' }
    else if d == 12 { 'c' }
    else if d == 13 { 'd' }
    else if d == 14 { 'e' }
    else { 'f' }
}

/// How one character of task text is written inside the quotes: the quote
/// and the backslash get a backslash escape, control characters a four-digit
/// hexadecimal escape, and every other character stands for itself.
pub open spec fn escape_char(c: char) -> Seq<char> {
    if c == '"' {
        seq!['\\', '"']
    } else if c == '\\' {
        seq!['\\', '\\']
    } else if (c as u32) < 32 {
        seq!['\\', 'u', '0', '0', hex_char(c as u32 as int / 16), hex_char(c as u32 as int % 16)]
    } else {
        seq![c]
    }
}

/// The escaped writing of a whole task text.
pub open spec fn spec_text_chars(t: Seq<char>) -> Seq<char>
    decreases t.len(),
{
    if t.len() == 0 {
        Seq::empty()
    } else {
        escape_char(t[0]) + spec_text_chars(t.skip(1))
    }
}

/// The characters that open a record, up to and including the opening quote
/// of the text field.
pub open spec fn lit_open() -> Seq<char> {
    seq!['{', '"', 't', 'e', 'x', 't', '"', ':', '"']
}

/// The characters between the closing quote of the text field and the
/// decimal value of the instant field.
pub open spec fn lit_mid() -> Seq<char> {
    seq![',', '"', 'c', 'r', 'e', 'a', 't', 'e', 'd', '_', 'a', 't', '"', ':']
}

/// The encoding of one record.
pub open spec fn spec_encode_task(t: TaskView) -> Seq<char> {
    lit_open() + spec_text_chars(t.text) + seq!['"'] + lit_mid() + spec_int_chars(t.created_at)
        + seq!['}']
}

/// The encodings of the records of a list, separated by commas.
pub open spec fn spec_encode_body(ts: Seq<TaskView>) -> Seq<char>
    decreases ts.len(),
{
    if ts.len() == 0 {
        Seq::empty()
    } else if ts.len() == 1 {
        spec_encode_task(ts[0])
    } else {
        spec_encode_task(ts[0]) + seq![','] + spec_encode_body(ts.skip(1))
    }
}

/// The encoding of a whole task list: the bracketed record list.
pub open spec fn spec_encode(ts: Seq<TaskView>) -> Seq<char> {
    seq!['['] + spec_encode_body(ts) + seq![']']
}

/// Whether a character is a decimal digit.
pub open spec fn is_digit(c: char) -> bool {
    48 <= c as u32 <= 57
}

/// The value of a decimal digit character.
pub open spec fn digit_val(c: char) -> int
    recommends
        is_digit(c),
{
    c as u32 - 48
}

/// The value of a run of decimal digit characters, most significant first.
pub open spec fn digits_val(d: Seq<char>) -> int
    decreases d.len(),
{
    if d.len() == 0 {
        0
    } else {
        digits_val(d.take(d.len() - 1)) * 10 + digit_val(d[d.len() - 1])
    }
}

/// Whether every character of a run is a decimal digit.
pub open spec fn all_digits(d: Seq<char>) -> bool {
    forall|i: int| 0 <= i < d.len() ==> is_digit(#[trigger] d[i])
}

/// The length of the longest digit prefix of a sequence.
pub open spec fn digit_run(s: Seq<char>) -> int
    decreases s.len(),
{
    if s.len() == 0 || !is_digit(s[0]) {
        0
    } else {
        1 + digit_run(s.skip(1))
    }
}

/// Whether a character is a lowercase hexadecimal digit.
pub open spec fn is_hex_lo(c: char) -> bool {
    is_digit(c) || 97 <= c as u32 <= 102
}

/// The value of a lowercase hexadecimal digit character.
pub open spec fn hex_val(c: char) -> int
    recommends
        is_hex_lo(c),
{
    if is_digit(c) {
        digit_val(c)
    } else {
        c as u32 - 87
    }
}

/// The control character with the given code point.
pub open spec fn ctrl_char(v: int) -> char
    recommends
        0 <= v < 32,
{
    (v as u8) as char
}

/// Reads the quoted task text from the characters after the opening quote:
/// unescapes up to and through the closing quote and returns the text with
/// the characters that follow the quote. Accepts exactly the escapes that
/// `escape_char` writes.
pub open spec fn parse_text(s: Seq<char>) -> Option<(Seq<char>, Seq<char>)>
    decreases s.len(),
{
    if s.len() == 0 {
        None
    } else if s[0] == '"' {
        Some((Seq::empty(), s.skip(1)))
    } else if s[0] == '\\' {
        if s.len() >= 2 && (s[1] == '"' || s[1] == '\\') {
            match parse_text(s.skip(2)) {
                Some(tr) => Some((seq![s[1]] + tr.0, tr.1)),
                None => None,
            }
        } else if s.len() >= 6 && s[1] == 'u' && s[2] == '0' && s[3] == '0' && is_hex_lo(s[4])
            && is_hex_lo(s[5]) && hex_val(s[4]) * 16 + hex_val(s[5]) < 32 {
            match parse_text(s.skip(6)) {
                Some(tr) => Some((seq![ctrl_char(hex_val(s[4]) * 16 + hex_val(s[5]))] + tr.0, tr.1)),
                None => None,
            }
        } else {
            None
        }
    } else if (s[0] as u32) < 32 {
        None
    } else {
        match parse_text(s.skip(1)) {
            Some(tr) => Some((seq![s[0]] + tr.0, tr.1)),
            None => None,
        }
    }
}

/// Reads a decimal integer: an optional minus sign, then digits with no
/// leading zero, whose value must fit a 64-bit signed count. Returns the
/// value and the characters after the digits.
pub open spec fn parse_int(s: Seq<char>) -> Option<(int, Seq<char>)> {
    if s.len() > 0 && s[0] == '-' {
        let k = digit_run(s.skip(1));
        let d = s.skip(1).take(k);
        if k == 0 {
            None
        } else if digit_val(d[0]) == 0 {
            None
        } else if digits_val(d) > 9223372036854775808 {
            None
        } else {
            Some((-digits_val(d), s.skip(1 + k)))
        }
    } else {
        let k = digit_run(s);
        let d = s.take(k);
        if k == 0 {
            None
        } else if k > 1 && digit_val(d[0]) == 0 {
            None
        } else if digits_val(d) > 9223372036854775807 {
            None
        } else {
            Some((digits_val(d), s.skip(k)))
        }
    }
}

/// Whether a sequence begins with the given prefix.
pub open spec fn starts_with(s: Seq<char>, p: Seq<char>) -> bool {
    p.len() <= s.len() && s.take(p.len() as int) == p
}

/// Reads one record: the field names and punctuation exactly as
/// `spec_encode_task` writes them, the text and the instant between them.
pub open spec fn parse_task(s: Seq<char>) -> Option<(TaskView, Seq<char>)> {
    if starts_with(s, lit_open()) {
        match parse_text(s.skip(9)) {
            Some(tr) => {
                if starts_with(tr.1, lit_mid()) {
                    match parse_int(tr.1.skip(14)) {
                        Some(nr) => {
                            if nr.1.len() > 0 && nr.1[0] == '}' {
                                Some(
                                    (
                                        TaskView { text: tr.0, created_at: nr.0 },
                                        nr.1.skip(1),
                                    ),
                                )
                            } else {
                                None
                            }
                        },
                        None => None,
                    }
                } else {
                    None
                }
            },
            None => None,
        }
    } else {
        None
    }
}

/// Reads a comma-separated run of records. The fuel bounds the recursion;
/// any fuel at least the number of records suffices.
pub open spec fn parse_tasks(s: Seq<char>, fuel: nat) -> Option<(Seq<TaskView>, Seq<char>)>
    decreases fuel,
{
    if fuel == 0 {
        None
    } else {
        match parse_task(s) {
            Some(tr) => {
                if tr.1.len() > 0 && tr.1[0] == ',' {
                    match parse_tasks(tr.1.skip(1), (fuel - 1) as nat) {
                        Some(tsr) => Some((seq![tr.0] + tsr.0, tsr.1)),
                        None => None,
                    }
                } else {
                    Some((seq![tr.0], tr.1))
                }
            },
            None => None,
        }
    }
}

/// Reads a whole document: an empty bracket pair, or brackets around a
/// comma-separated run of records, with nothing before or after. This is the
/// strict decoder: it accepts exactly the documents `spec_encode` writes.
pub open spec fn spec_parse(s: Seq<char>) -> Option<Seq<TaskView>> {
    if s.len() < 2 || s[0] != '[' {
        None
    } else if s.len() == 2 && s[1] == ']' {
        Some(Seq::empty())
    } else {
        match parse_tasks(s.skip(1), s.len() as nat) {
            Some(tsr) => {
                if tsr.1 == seq![']'] {
                    Some(tsr.0)
                } else {
                    None
                }
            },
            None => None,
        }
    }
}

/// What a storage snapshot holds: a zero-length snapshot is the empty list,
/// any other snapshot must be a well-formed document.
pub open spec fn spec_tasks_of(s: Seq<char>) -> Option<Seq<TaskView>> {
    if s.len() == 0 {
        Some(Seq::empty())
    } else {
        spec_parse(s)
    }
}

fn digit_char_exec(d: u64) -> (r: char)
    requires
        d < 10,
    ensures
        r == digit_char(d as int),
{
    match d {
        0 => '0',
        1 => '1',
        2 => '2',
        3 => '3',
        4 => '4',
        5 => '5',
        6 => '6',
        7 => '7',
        8 => '8',
        _ => '9',
    }
}

pub(crate) fn u64_digits(n: u64) -> (r: Vec<char>)
    ensures
        r@ == spec_digits(n as nat),
    decreases n,
{
    if n < 10 {
        let mut v: Vec<char> = Vec::new();
        v.push(digit_char_exec(n));
        proof {
            assert(v@ =~= spec_digits(n as nat));
        }
        v
    } else {
        let mut v = u64_digits(n / 10);
        v.push(digit_char_exec(n % 10));
        proof {
            assert(v@ =~= spec_digits(n as nat));
        }
        v
    }
}

fn i64_chars(n: i64) -> (r: Vec<char>)
    ensures
        r@ == spec_int_chars(n as int),
{
    if n >= 0 {
        u64_digits(n as u64)
    } else {
        let mag: u64 = if n == i64::MIN {
            9223372036854775808u64
        } else {
            (-n) as u64
        };
        let mut v: Vec<char> = Vec::new();
        v.push('-');
        let mut d = u64_digits(mag);
        v.append(&mut d);
        proof {
            assert(v@ =~= spec_int_chars(n as int));
        }
        v
    }
}

fn hex_char_exec(d: u32) -> (r: char)
    requires
        d < 16,
    ensures
        r == hex_char(d as int),
{
    match d {
        0 => '0',
        1 => '1',
        2 => '2',
        3 => '3',
        4 => '4',
        5 => '5',
        6 => '6',
        7 => '7',
        8 => '8',
        9 => '9',
        10 => 'a',
        11 => 'b',
        12 => 'c',
        13 => 'd',
        14 => 'e',
        _ => 'f',
    }
}

fn push_escaped(out: &mut Vec<char>, c: char)
    ensures
        final(out)@ == old(out)@ + escape_char(c),
{
    if c == '"' {
        out.push('\\');
        out.push('"');
    } else if c == '\\' {
        out.push('\\');
        out.push('\\');
    } else if (c as u32) < 32 {
        let v = c as u32;
        out.push('\\');
        out.push('u');
        out.push('0');
        out.push('0');
        out.push(hex_char_exec(v / 16));
        out.push(hex_char_exec(v % 16));
    } else {
        out.push(c);
    }
    proof {
        assert(out@ =~= old(out)@ + escape_char(c));
    }
}

proof fn lemma_text_chars_snoc(t: Seq<char>, c: char)
    ensures
        spec_text_chars(t + seq![c]) == spec_text_chars(t) + escape_char(c),
    decreases t.len(),
{
    if t.len() == 0 {
        assert((t + seq![c])[0] == c);
        assert((t + seq![c]).skip(1) =~= Seq::<char>::empty());
        assert(spec_text_chars(t + seq![c]) == escape_char(c) + spec_text_chars(
            Seq::<char>::empty(),
        ));
        assert(spec_text_chars(t + seq![c]) =~= spec_text_chars(t) + escape_char(c));
    } else {
        assert((t + seq![c])[0] == t[0]);
        assert((t + seq![c]).skip(1) =~= t.skip(1) + seq![c]);
        lemma_text_chars_snoc(t.skip(1), c);
        assert(spec_text_chars(t + seq![c]) =~= spec_text_chars(t) + escape_char(c));
    }
}

fn encode_text(out: &mut Vec<char>, text: &str)
    ensures
        final(out)@ == old(out)@ + spec_text_chars(text@),
{
    let n = text.unicode_len();
    let mut i: usize = 0;
    while i < n
        invariant
            n == text@.len(),
            i <= n,
            out@ == old(out)@ + spec_text_chars(text@.take(i as int)),
        decreases n - i,
    {
        let c = text.get_char(i);
        push_escaped(out, c);
        proof {
            assert(text@.take(i + 1 as int) =~= text@.take(i as int) + seq![text@[i as int]]);
            lemma_text_chars_snoc(text@.take(i as int), text@[i as int]);
        }
        i = i + 1;
    }
    proof {
        assert(text@.take(n as int) =~= text@);
    }
}

/// Writes the encoding of one record with the given text and instant.
pub fn encode_record(out: &mut Vec<char>, text: &str, created_at: i64)
    ensures
        final(out)@ == old(out)@ + spec_encode_task(
            TaskView { text: text@, created_at: created_at as int },
        ),
{
    out.push('{');
    out.push('"');
    out.push('t');
    out.push('e');
    out.push('x');
    out.push('t');
    out.push('"');
    out.push(':');
    out.push('"');
    proof {
        assert(out@ =~= old(out)@ + lit_open());
    }
    encode_text(out, text);
    out.push('"');
    out.push(',');
    out.push('"');
    out.push('c');
    out.push('r');
    out.push('e');
    out.push('a');
    out.push('t');
    out.push('e');
    out.push('d');
    out.push('_');
    out.push('a');
    out.push('t');
    out.push('"');
    out.push(':');
    let mut num = i64_chars(created_at);
    out.append(&mut num);
    out.push('}');
    proof {
        assert(out@ =~= old(out)@ + spec_encode_task(
            TaskView { text: text@, created_at: created_at as int },
        ));
    }
}

/// Adding one record at the end of a list adds a comma (when the list was
/// not empty) and the record's encoding at the end of the body.
pub(crate) proof fn lemma_body_snoc(ts: Seq<TaskView>, t: TaskView)
    ensures
        spec_encode_body(ts + seq![t]) == if ts.len() == 0 {
            spec_encode_task(t)
        } else {
            spec_encode_body(ts) + seq![','] + spec_encode_task(t)
        },
    decreases ts.len(),
{
    if ts.len() == 0 {
        assert((ts + seq![t])[0] == t);
        assert(spec_encode_body(ts + seq![t]) =~= spec_encode_task(t));
    } else if ts.len() == 1 {
        assert((ts + seq![t]).skip(1) =~= seq![t]);
        assert(spec_encode_body(seq![t]) == spec_encode_task(t));
        assert(spec_encode_body(ts + seq![t]) =~= spec_encode_body(ts) + seq![',']
            + spec_encode_task(t));
    } else {
        assert((ts + seq![t]).skip(1) =~= ts.skip(1) + seq![t]);
        lemma_body_snoc(ts.skip(1), t);
        assert(spec_encode_body(ts + seq![t]) =~= spec_encode_body(ts) + seq![',']
            + spec_encode_task(t));
    }
}

/// Powers of ten.
pub open spec fn pow10(n: nat) -> int
    decreases n,
{
    if n == 0 {
        1
    } else {
        10 * pow10((n - 1) as nat)
    }
}

proof fn lemma_pow10_vals()
    ensures
        pow10(18) == 1000000000000000000,
        pow10(19) == 10000000000000000000,
{
    reveal_with_fuel(pow10, 21);
}

proof fn lemma_pow10_mono(a: nat, b: nat)
    requires
        a <= b,
    ensures
        pow10(a) <= pow10(b),
    decreases b,
{
    if a < b {
        lemma_pow10_mono(a, (b - 1) as nat);
        lemma_pow10_pos((b - 1) as nat);
    }
}

proof fn lemma_pow10_pos(n: nat)
    ensures
        pow10(n) >= 1,
    decreases n,
{
    if n > 0 {
        lemma_pow10_pos((n - 1) as nat);
    }
}

/// The value of a digit run is non-negative and below ten to its length.
proof fn lemma_digits_val_bounds(d: Seq<char>)
    requires
        all_digits(d),
    ensures
        0 <= digits_val(d) < pow10(d.len()),
    decreases d.len(),
{
    if d.len() > 0 {
        let init = d.take(d.len() - 1);
        assert(all_digits(init));
        lemma_digits_val_bounds(init);
        assert(is_digit(d[d.len() - 1]));
        assert(pow10(d.len()) == 10 * pow10((d.len() - 1) as nat));
    }
}

/// With no leading zero, the value of a digit run reaches ten to the length
/// less one.
proof fn lemma_digits_val_lower(d: Seq<char>)
    requires
        all_digits(d),
        d.len() >= 1,
        digit_val(d[0]) != 0,
    ensures
        digits_val(d) >= pow10((d.len() - 1) as nat),
    decreases d.len(),
{
    if d.len() == 1 {
        assert(d.take(0).len() == 0);
        assert(digits_val(d.take(0)) == 0);
        assert(digits_val(d) == digit_val(d[0]));
    } else {
        let init = d.take(d.len() - 1);
        assert(all_digits(init));
        assert(init[0] == d[0]);
        lemma_digits_val_lower(init);
        assert(is_digit(d[d.len() - 1]));
        assert(pow10((d.len() - 1) as nat) == 10 * pow10((d.len() - 2) as nat));
    }
}

fn is_digit_exec(c: char) -> (r: bool)
    ensures
        r == is_digit(c),
{
    let u = c as u32;
    48 <= u && u <= 57
}

fn is_hex_lo_exec(c: char) -> (r: bool)
    ensures
        r == is_hex_lo(c),
{
    let u = c as u32;
    (48 <= u && u <= 57) || (97 <= u && u <= 102)
}

fn hex_val_exec(c: char) -> (r: u32)
    requires
        is_hex_lo(c),
    ensures
        r == hex_val(c),
        r < 16,
{
    let u = c as u32;
    if u <= 57 {
        u - 48
    } else {
        u - 87
    }
}

fn ctrl_char_exec(v: u32) -> (r: char)
    requires
        v < 32,
    ensures
        r == ctrl_char(v as int),
{
    (v as u8) as char
}

/// Relies on std's `String: FromIterator<char>`: collecting the characters
/// of the vector yields a string whose characters are exactly those, in order.
#[verifier::external_body]
pub(crate) fn string_from_chars(v: &Vec<char>) -> (r: String)
    ensures
        r@ == v@,
{
    v.iter().collect()
}

/// The end of the digit run that starts at position `i`.
fn digit_run_end(s: &str, i: usize) -> (j: usize)
    requires
        i <= s@.len(),
    ensures
        i <= j <= s@.len(),
        j - i == digit_run(s@.skip(i as int)),
        all_digits(s@.skip(i as int).take(j - i)),
{
    let n = s.unicode_len();
    let mut j = i;
    while j < n && is_digit_exec(s.get_char(j))
        invariant
            i <= j <= n,
            n == s@.len(),
            digit_run(s@.skip(i as int)) == j - i + digit_run(s@.skip(j as int)),
            forall|m: int| i <= m < j ==> is_digit(#[trigger] s@[m]),
        decreases n - j,
    {
        proof {
            assert(s@.skip(j as int)[0] == s@[j as int]);
            assert(s@.skip(j as int).skip(1) =~= s@.skip(j + 1 as int));
        }
        j = j + 1;
    }
    proof {
        if j < n {
            assert(s@.skip(j as int)[0] == s@[j as int]);
        }
        assert(digit_run(s@.skip(j as int)) == 0);
        assert(forall|m: int|
            0 <= m < j - i ==> #[trigger] s@.skip(i as int).take(j - i)[m] == s@[i + m]);
    }
    j
}

/// Reads a decimal integer at position `i`, as `parse_int` describes.
fn p_int(s: &str, i: usize) -> (r: Option<(i64, usize)>)
    requires
        i <= s@.len(),
    ensures
        match r {
            Some(vj) => vj.1 <= s@.len() && parse_int(s@.skip(i as int)) == Some(
                (vj.0 as int, s@.skip(vj.1 as int)),
            ),
            None => parse_int(s@.skip(i as int)) is None,
        },
{
    let n = s.unicode_len();
    let ghost whole = s@.skip(i as int);
    let neg = i < n && s.get_char(i) == '-';
    let start = if neg { i + 1 } else { i };
    proof {
        if neg {
            assert(whole[0] == s@[i as int]);
            assert(whole.skip(1) =~= s@.skip(start as int));
        } else if i < n {
            assert(whole[0] == s@[i as int]);
        }
    }
    let j = digit_run_end(s, start);
    let k = j - start;
    let ghost d = s@.skip(start as int).take(k as int);
    if k == 0 {
        return None;
    }
    let first = s.get_char(start);
    let first_zero = (first as u32) == 48;
    proof {
        assert(d[0] == s@[start as int]);
        assert(is_digit(d[0]));
    }
    if neg && first_zero {
        return None;
    }
    if !neg && k > 1 && first_zero {
        return None;
    }
    proof {
        lemma_digits_val_bounds(d);
        lemma_pow10_vals();
    }
    if k > 19 {
        proof {
            lemma_digits_val_lower(d);
            lemma_pow10_mono(19, (k - 1) as nat);
        }
        return None;
    }
    let mut acc: u64 = 0;
    let mut idx: usize = 0;
    while idx < k
        invariant
            idx <= k,
            k == d.len(),
            start + k <= n,
            n == s@.len(),
            k <= 19,
            d == s@.skip(start as int).take(k as int),
            all_digits(d),
            acc == digits_val(d.take(idx as int)),
            acc < pow10(idx as nat),
        decreases k - idx,
    {
        let c = s.get_char(start + idx);
        proof {
            assert(d[idx as int] == s@[start + idx]);
            assert(d.take(idx + 1 as int).take(idx as int) =~= d.take(idx as int));
            assert(d.take(idx + 1 as int)[idx as int] == d[idx as int]);
            assert(all_digits(d.take(idx as int)));
            lemma_digits_val_bounds(d.take(idx as int));
            lemma_pow10_mono(idx as nat, 18);
            lemma_pow10_vals();
        }
        acc = acc * 10 + (hex_val_exec(c) as u64);
        idx = idx + 1;
    }
    proof {
        assert(d.take(k as int) =~= d);
    }
    if neg {
        if acc > 9223372036854775808u64 {
            return None;
        }
        let v: i64 = if acc == 9223372036854775808u64 {
            i64::MIN
        } else {
            -(acc as i64)
        };
        proof {
            assert(s@.skip(start as int).skip(k as int) =~= s@.skip(start + k));
            assert(whole.skip(1).take(k as int) =~= d);
            assert(whole.skip(1 + k as int) =~= s@.skip(start + k));
        }
        Some((v, j))
    } else {
        if acc > 9223372036854775807u64 {
            return None;
        }
        proof {
            assert(whole.take(k as int) =~= d);
            assert(whole.skip(k as int) =~= s@.skip(start + k));
        }
        Some((acc as i64, j))
    }
}

/// Reads the quoted task text at position `i`, as `parse_text` describes.
fn p_text(s: &str, i: usize) -> (r: Option<(Vec<char>, usize)>)
    requires
        i <= s@.len(),
    ensures
        match r {
            Some(tj) => tj.1 <= s@.len() && parse_text(s@.skip(i as int)) == Some(
                (tj.0@, s@.skip(tj.1 as int)),
            ),
            None => parse_text(s@.skip(i as int)) is None,
        },
    decreases s@.len() - i,
{
    let n = s.unicode_len();
    let ghost whole = s@.skip(i as int);
    if i >= n {
        return None;
    }
    let c0 = s.get_char(i);
    proof {
        assert(whole[0] == s@[i as int]);
    }
    if c0 == '"' {
        proof {
            assert(whole.skip(1) =~= s@.skip(i + 1 as int));
        }
        let v: Vec<char> = Vec::new();
        proof {
            assert(v@ =~= Seq::<char>::empty());
        }
        return Some((v, i + 1));
    }
    if c0 == '\\' {
        if n - i < 2 {
            return None;
        }
        let c1 = s.get_char(i + 1);
        proof {
            assert(whole[1] == s@[i + 1 as int]);
        }
        if c1 == '"' || c1 == '\\' {
            proof {
                assert(whole.skip(2) =~= s@.skip(i + 2 as int));
            }
            match p_text(s, i + 2) {
                Some((t, j)) => {
                    let mut t2 = t;
                    let ghost told = t2@;
                    t2.insert(0, c1);
                    proof {
                        assert(t2@ =~= seq![whole[1]] + told);
                    }
                    return Some((t2, j));
                },
                None => {
                    return None;
                },
            }
        } else if c1 == 'u' {
            if n - i < 6 {
                return None;
            }
            let c2 = s.get_char(i + 2);
            let c3 = s.get_char(i + 3);
            let c4 = s.get_char(i + 4);
            let c5 = s.get_char(i + 5);
            proof {
                assert(whole[2] == s@[i + 2 as int]);
                assert(whole[3] == s@[i + 3 as int]);
                assert(whole[4] == s@[i + 4 as int]);
                assert(whole[5] == s@[i + 5 as int]);
            }
            if c2 == '0' && c3 == '0' && is_hex_lo_exec(c4) && is_hex_lo_exec(c5) {
                let v = hex_val_exec(c4) * 16 + hex_val_exec(c5);
                if v < 32 {
                    proof {
                        assert(whole.skip(6) =~= s@.skip(i + 6 as int));
                    }
                    match p_text(s, i + 6) {
                        Some((t, j)) => {
                            let mut t2 = t;
                            let ghost told = t2@;
                            t2.insert(0, ctrl_char_exec(v));
                            proof {
                                assert(t2@ =~= seq![
                                    ctrl_char(hex_val(whole[4]) * 16 + hex_val(whole[5])),
                                ] + told);
                            }
                            return Some((t2, j));
                        },
                        None => {
                            return None;
                        },
                    }
                } else {
                    return None;
                }
            } else {
                return None;
            }
        } else {
            return None;
        }
    }
    if (c0 as u32) < 32 {
        return None;
    }
    proof {
        assert(whole.skip(1) =~= s@.skip(i + 1 as int));
    }
    match p_text(s, i + 1) {
        Some((t, j)) => {
            let mut t2 = t;
            let ghost told = t2@;
            t2.insert(0, c0);
            proof {
                assert(t2@ =~= seq![whole[0]] + told);
            }
            Some((t2, j))
        },
        None => None,
    }
}

/// Matches the characters that open a record at position `i`.
fn eat_lit_open(s: &str, i: usize) -> (r: Option<usize>)
    requires
        i <= s@.len(),
    ensures
        match r {
            Some(j) => j == i + 9 && j <= s@.len() && starts_with(s@.skip(i as int), lit_open()),
            None => !starts_with(s@.skip(i as int), lit_open()),
        },
{
    let n = s.unicode_len();
    if n - i < 9 {
        return None;
    }
    if s.get_char(i) == '{' && s.get_char(i + 1) == '"' && s.get_char(i + 2) == 't' && s.get_char(
        i + 3,
    ) == 'e' && s.get_char(i + 4) == 'x' && s.get_char(i + 5) == 't' && s.get_char(i + 6) == '"'
        && s.get_char(i + 7) == ':' && s.get_char(i + 8) == '"' {
        proof {
            assert(s@.skip(i as int).take(9) =~= lit_open());
        }
        Some(i + 9)
    } else {
        proof {
            if starts_with(s@.skip(i as int), lit_open()) {
                assert(s@.skip(i as int).take(9) == lit_open());
                assert(s@[i + 0] == '{');
                assert(s@[i + 1] == '"');
                assert(s@[i + 2] == 't');
                assert(s@[i + 3] == 'e');
                assert(s@[i + 4] == 'x');
                assert(s@[i + 5] == 't');
                assert(s@[i + 6] == '"');
                assert(s@[i + 7] == ':');
                assert(s@[i + 8] == '"');
                assert(false);
            }
        }
        None
    }
}

/// Matches the characters between the text field and the instant field at
/// position `i`.
fn eat_lit_mid(s: &str, i: usize) -> (r: Option<usize>)
    requires
        i <= s@.len(),
    ensures
        match r {
            Some(j) => j == i + 14 && j <= s@.len() && starts_with(s@.skip(i as int), lit_mid()),
            None => !starts_with(s@.skip(i as int), lit_mid()),
        },
{
    let n = s.unicode_len();
    if n - i < 14 {
        return None;
    }
    if s.get_char(i) == ',' && s.get_char(i + 1) == '"' && s.get_char(i + 2) == 'c' && s.get_char(
        i + 3,
    ) == 'r' && s.get_char(i + 4) == 'e' && s.get_char(i + 5) == 'a' && s.get_char(i + 6) == 't'
        && s.get_char(i + 7) == 'e' && s.get_char(i + 8) == 'd' && s.get_char(i + 9) == '_'
        && s.get_char(i + 10) == 'a' && s.get_char(i + 11) == 't' && s.get_char(i + 12) == '"'
        && s.get_char(i + 13) == ':' {
        proof {
            assert(s@.skip(i as int).take(14) =~= lit_mid());
        }
        Some(i + 14)
    } else {
        proof {
            if starts_with(s@.skip(i as int), lit_mid()) {
                assert(s@.skip(i as int).take(14) == lit_mid());
                assert(s@[i + 0] == ',');
                assert(s@[i + 1] == '"');
                assert(s@[i + 2] == 'c');
                assert(s@[i + 3] == 'r');
                assert(s@[i + 4] == 'e');
                assert(s@[i + 5] == 'a');
                assert(s@[i + 6] == 't');
                assert(s@[i + 7] == 'e');
                assert(s@[i + 8] == 'd');
                assert(s@[i + 9] == '_');
                assert(s@[i + 10] == 'a');
                assert(s@[i + 11] == 't');
                assert(s@[i + 12] == '"');
                assert(s@[i + 13] == ':');
                assert(false);
            }
        }
        None
    }
}

/// The views of a run of decoded records, each a text with its instant.
pub open spec fn pairs_views(ps: Seq<(String, i64)>) -> Seq<TaskView> {
    ps.map_values(|p: (String, i64)| TaskView { text: p.0@, created_at: p.1 as int })
}

/// Reads one record at position `i`, as `parse_task` describes.
fn p_task(s: &str, i: usize) -> (r: Option<(String, i64, usize)>)
    requires
        i <= s@.len(),
    ensures
        match r {
            Some(tvj) => tvj.2 <= s@.len() && parse_task(s@.skip(i as int)) == Some(
                (TaskView { text: tvj.0@, created_at: tvj.1 as int }, s@.skip(tvj.2 as int)),
            ),
            None => parse_task(s@.skip(i as int)) is None,
        },
{
    let ghost whole = s@.skip(i as int);
    let j0 = match eat_lit_open(s, i) {
        Some(j0) => j0,
        None => {
            return None;
        },
    };
    proof {
        assert(whole.skip(9) =~= s@.skip(i + 9 as int));
    }
    let (text, j1) = match p_text(s, j0) {
        Some(tj) => tj,
        None => {
            return None;
        },
    };
    let j2 = match eat_lit_mid(s, j1) {
        Some(j2) => j2,
        None => {
            return None;
        },
    };
    proof {
        assert(s@.skip(j1 as int).skip(14) =~= s@.skip(j1 + 14 as int));
    }
    let (v, j3) = match p_int(s, j2) {
        Some(vj) => vj,
        None => {
            return None;
        },
    };
    let n = s.unicode_len();
    if j3 < n {
        let cc = s.get_char(j3);
        proof {
            assert(s@.skip(j3 as int)[0] == s@[j3 as int]);
        }
        if cc == '}' {
            proof {
                assert(s@.skip(j3 as int).skip(1) =~= s@.skip(j3 + 1 as int));
            }
            let st = string_from_chars(&text);
            Some((st, v, j3 + 1))
        } else {
            None
        }
    } else {
        None
    }
}

/// Reads a comma-separated run of records at position `i`, as `parse_tasks`
/// describes.
fn p_tasks(s: &str, i: usize, fuel: usize) -> (r: Option<(Vec<(String, i64)>, usize)>)
    requires
        i <= s@.len(),
    ensures
        match r {
            Some(pj) => pj.1 <= s@.len() && parse_tasks(s@.skip(i as int), fuel as nat) == Some(
                (pairs_views(pj.0@), s@.skip(pj.1 as int)),
            ),
            None => parse_tasks(s@.skip(i as int), fuel as nat) is None,
        },
    decreases fuel,
{
    if fuel == 0 {
        return None;
    }
    let (text, v, j) = match p_task(s, i) {
        Some(t) => t,
        None => {
            return None;
        },
    };
    let n = s.unicode_len();
    if j < n && s.get_char(j) == ',' {
        proof {
            assert(s@.skip(j as int)[0] == s@[j as int]);
            assert(s@.skip(j as int).skip(1) =~= s@.skip(j + 1 as int));
        }
        match p_tasks(s, j + 1, fuel - 1) {
            Some((ps, j2)) => {
                let mut ps2 = ps;
                let ghost pold = ps2@;
                let ghost tv = TaskView { text: text@, created_at: v as int };
                ps2.insert(0, (text, v));
                proof {
                    assert(ps2@ == pold.insert(0, (ps2[0].0, ps2[0].1)));
                    assert(pairs_views(ps2@) =~= seq![tv] + pairs_views(pold));
                }
                Some((ps2, j2))
            },
            None => None,
        }
    } else {
        proof {
            if j < n {
                assert(s@.skip(j as int)[0] == s@[j as int]);
            }
        }
        let ghost tv = TaskView { text: text@, created_at: v as int };
        let mut ps: Vec<(String, i64)> = Vec::new();
        ps.push((text, v));
        proof {
            assert(pairs_views(ps@) =~= seq![tv]);
        }
        Some((ps, j))
    }
}

/// Reads a whole storage document: the decoded records, or nothing when the
/// document is not exactly as `spec_encode` writes it.
pub fn decode_content(s: &str) -> (r: Option<Vec<(String, i64)>>)
    ensures
        match r {
            Some(ps) => spec_parse(s@) == Some(pairs_views(ps@)),
            None => spec_parse(s@) is None,
        },
{
    let n = s.unicode_len();
    if n < 2 {
        return None;
    }
    if s.get_char(0) != '[' {
        return None;
    }
    if n == 2 && s.get_char(1) == ']' {
        let ps: Vec<(String, i64)> = Vec::new();
        proof {
            assert(pairs_views(ps@) =~= Seq::<TaskView>::empty());
        }
        return Some(ps);
    }
    proof {
        assert(s@.skip(1).len() == n - 1);
    }
    match p_tasks(s, 1, n) {
        Some((ps, j)) => {
            if n - j == 1 && s.get_char(j) == ']' {
                proof {
                    assert(s@.skip(j as int) =~= seq![']']);
                }
                Some(ps)
            } else {
                proof {
                    if s@.skip(j as int) == seq![']'] {
                        assert(s@.skip(j as int).len() == 1);
                        assert(s@.skip(j as int)[0] == ']');
                        assert(s@[j as int] == ']');
                        assert(false);
                    }
                }
                None
            }
        },
        None => None,
    }
}

/// Characters with the same code point are the same character.
proof fn lemma_char_inj(a: char, b: char)
    requires
        a as u32 == b as u32,
    ensures
        a == b,
{
    vstd::utf8::char_u32_cast(a, a as u32);
    vstd::utf8::char_u32_cast(b, b as u32);
}

/// The digit characters carry their values.
proof fn lemma_digit_char_val(d: int)
    requires
        0 <= d < 10,
    ensures
        is_digit(digit_char(d)),
        digit_val(digit_char(d)) == d,
{
}

/// The hexadecimal digit characters carry their values.
proof fn lemma_hex_char_val(d: int)
    requires
        0 <= d < 16,
    ensures
        is_hex_lo(hex_char(d)),
        hex_val(hex_char(d)) == d,
{
}

/// A control character survives the trip through its code point.
proof fn lemma_ctrl_char_id(c: char)
    requires
        (c as u32) < 32,
    ensures
        ctrl_char(c as u32 as int) == c,
{
    vstd::utf8::char_u32_cast(c, c as u32);
    lemma_char_inj(ctrl_char(c as u32 as int), c);
}

/// The digits of a number are all digit characters.
proof fn lemma_spec_digits_all(m: nat)
    ensures
        spec_digits(m).len() >= 1,
        all_digits(spec_digits(m)),
    decreases m,
{
    if m < 10 {
        lemma_digit_char_val(m as int);
    } else {
        lemma_spec_digits_all(m / 10);
        lemma_digit_char_val((m % 10) as int);
        assert forall|i: int| 0 <= i < spec_digits(m).len() implies is_digit(
            #[trigger] spec_digits(m)[i],
        ) by {
            if i < spec_digits(m / 10).len() {
                assert(spec_digits(m)[i] == spec_digits(m / 10)[i]);
            }
        }
    }
}

/// Reading back the digits of a number gives the number.
proof fn lemma_digits_val_of_spec(m: nat)
    ensures
        digits_val(spec_digits(m)) == m,
    decreases m,
{
    if m < 10 {
        lemma_digit_char_val(m as int);
        let d = spec_digits(m);
        assert(d.take(0).len() == 0);
        assert(digits_val(d.take(0)) == 0);
    } else {
        lemma_digits_val_of_spec(m / 10);
        lemma_digit_char_val((m % 10) as int);
        let d = spec_digits(m);
        assert(d.take(d.len() - 1) =~= spec_digits(m / 10));
        assert(d[d.len() - 1] == digit_char((m % 10) as int));
    }
}

/// The digits of a positive number do not begin with zero.
proof fn lemma_spec_digits_no_leading_zero(m: nat)
    requires
        m > 0,
    ensures
        digit_val(spec_digits(m)[0]) != 0,
    decreases m,
{
    if m < 10 {
        lemma_digit_char_val(m as int);
    } else {
        lemma_spec_digits_no_leading_zero(m / 10);
        assert(spec_digits(m)[0] == spec_digits(m / 10)[0]);
    }
}

/// The digit run of digits followed by a non-digit covers exactly the digits.
proof fn lemma_digit_run_of(d: Seq<char>, r: Seq<char>)
    requires
        all_digits(d),
        r.len() == 0 || !is_digit(r[0]),
    ensures
        digit_run(d + r) == d.len(),
    decreases d.len(),
{
    if d.len() == 0 {
        assert(d + r =~= r);
    } else {
        assert((d + r)[0] == d[0]);
        assert((d + r).skip(1) =~= d.skip(1) + r);
        assert(all_digits(d.skip(1)));
        lemma_digit_run_of(d.skip(1), r);
    }
}

/// Reading a rendered integer back, with anything but a digit after it,
/// gives the integer and the rest.
proof fn lemma_int_complete(v: int, r: Seq<char>)
    requires
        i64::MIN <= v <= i64::MAX,
        r.len() == 0 || !is_digit(r[0]),
    ensures
        parse_int(spec_int_chars(v) + r) == Some((v, r)),
{
    let s = spec_int_chars(v) + r;
    if v >= 0 {
        let dd = spec_digits(v as nat);
        lemma_spec_digits_all(v as nat);
        lemma_digits_val_of_spec(v as nat);
        assert(s =~= dd + r);
        assert(s[0] == dd[0]);
        assert(s[0] != '-') by {
            if s[0] == '-' {
                assert(is_digit(dd[0]));
                assert(('-' as u32) == 45);
            }
        }
        lemma_digit_run_of(dd, r);
        let k = digit_run(s);
        assert(k == dd.len());
        assert(s.take(k) =~= dd);
        if k > 1 {
            assert(dd.len() >= 2);
            assert(v >= 10) by {
                if v < 10 {
                    assert(dd.len() == 1);
                }
            }
            lemma_spec_digits_no_leading_zero(v as nat);
        }
        assert(s.skip(k) =~= r);
    } else {
        let m = (-v) as nat;
        let dd = spec_digits(m);
        lemma_spec_digits_all(m);
        lemma_digits_val_of_spec(m);
        lemma_spec_digits_no_leading_zero(m);
        assert(s =~= seq!['-'] + dd + r);
        assert(s[0] == '-');
        assert(s.skip(1) =~= dd + r);
        lemma_digit_run_of(dd, r);
        let k = digit_run(s.skip(1));
        assert(k == dd.len());
        assert(s.skip(1).take(k) =~= dd);
        assert(digits_val(dd) == m <= 9223372036854775808);
        assert(s.skip(1 + k) =~= r);
    }
}

/// Reading a written task text back, through its closing quote, gives the
/// text and the rest.
proof fn lemma_text_complete(x: Seq<char>, r: Seq<char>)
    ensures
        parse_text(spec_text_chars(x) + seq!['"'] + r) == Some((x, r)),
    decreases x.len(),
{
    let s = spec_text_chars(x) + seq!['"'] + r;
    if x.len() == 0 {
        assert(s =~= seq!['"'] + r);
        assert(s[0] == '"');
        assert(s.skip(1) =~= r);
    } else {
        let c = x[0];
        let tail = spec_text_chars(x.skip(1)) + seq!['"'] + r;
        lemma_text_complete(x.skip(1), r);
        assert(s =~= escape_char(c) + tail);
        if c == '"' || c == '\\' {
            assert(escape_char(c) =~= seq!['\\', c]);
            assert(s[0] == '\\');
            assert(s[1] == c);
            assert(s.skip(2) =~= tail);
            assert(seq![s[1]] + x.skip(1) =~= x);
        } else if (c as u32) < 32 {
            let v = c as u32 as int;
            assert(escape_char(c) =~= seq!['\\', 'u', '0', '0', hex_char(v / 16), hex_char(v % 16)]);
            assert(s[0] == '\\');
            assert(s[1] == 'u');
            assert(s[2] == '0');
            assert(s[3] == '0');
            assert(s[4] == hex_char(v / 16));
            assert(s[5] == hex_char(v % 16));
            lemma_hex_char_val(v / 16);
            lemma_hex_char_val(v % 16);
            assert(hex_val(s[4]) * 16 + hex_val(s[5]) == v);
            lemma_ctrl_char_id(c);
            assert(s.skip(6) =~= tail);
            assert(seq![ctrl_char(hex_val(s[4]) * 16 + hex_val(s[5]))] + x.skip(1) =~= x);
        } else {
            assert(escape_char(c) =~= seq![c]);
            assert(s[0] == c);
            assert(s.skip(1) =~= tail);
            assert(seq![s[0]] + x.skip(1) =~= x);
        }
    }
}

/// Reading an encoded record back gives the record and the rest.
proof fn lemma_task_complete(t: TaskView, rest: Seq<char>)
    requires
        task_wf(t),
    ensures
        parse_task(spec_encode_task(t) + rest) == Some((t, rest)),
{
    let s = spec_encode_task(t) + rest;
    let r1 = lit_mid() + spec_int_chars(t.created_at) + seq!['}'] + rest;
    assert(s.take(9) =~= lit_open());
    assert(starts_with(s, lit_open()));
    assert(s.skip(9) =~= spec_text_chars(t.text) + seq!['"'] + r1);
    lemma_text_complete(t.text, r1);
    assert(r1.take(14) =~= lit_mid());
    assert(starts_with(r1, lit_mid()));
    assert(r1.skip(14) =~= spec_int_chars(t.created_at) + (seq!['}'] + rest));
    assert(!is_digit('}')) by {
        assert('}' as u32 == 125);
    }
    lemma_int_complete(t.created_at, seq!['}'] + rest);
    let r2 = seq!['}'] + rest;
    assert(r2[0] == '}');
    assert(r2.skip(1) =~= rest);
    assert(TaskView { text: t.text, created_at: t.created_at } == t);
}

/// The encoding of a list is at least as long as the list.
proof fn lemma_body_len(ts: Seq<TaskView>)
    ensures
        spec_encode_body(ts).len() >= ts.len(),
    decreases ts.len(),
{
    if ts.len() > 1 {
        lemma_body_len(ts.skip(1));
    }
}

/// Reading an encoded record run back, with enough fuel and a rest that does
/// not begin with a comma, gives the records and the rest.
proof fn lemma_tasks_complete(ts: Seq<TaskView>, rest: Seq<char>, fuel: nat)
    requires
        tasks_wf(ts),
        ts.len() >= 1,
        fuel >= ts.len(),
        rest.len() > 0,
        rest[0] != ',',
    ensures
        parse_tasks(spec_encode_body(ts) + rest, fuel) == Some((ts, rest)),
    decreases ts.len(),
{
    let s = spec_encode_body(ts) + rest;
    assert(task_wf(ts[0]));
    if ts.len() == 1 {
        assert(s =~= spec_encode_task(ts[0]) + rest);
        lemma_task_complete(ts[0], rest);
        assert(seq![ts[0]] =~= ts);
    } else {
        let tail = seq![','] + spec_encode_body(ts.skip(1)) + rest;
        assert(s =~= spec_encode_task(ts[0]) + tail);
        lemma_task_complete(ts[0], tail);
        assert(tail[0] == ',');
        assert(tail.skip(1) =~= spec_encode_body(ts.skip(1)) + rest);
        assert(tasks_wf(ts.skip(1)));
        lemma_tasks_complete(ts.skip(1), rest, (fuel - 1) as nat);
        assert(seq![ts[0]] + ts.skip(1) =~= ts);
    }
}

/// A decimal digit character is recovered from its value.
proof fn lemma_digit_char_of_val(c: char)
    requires
        is_digit(c),
    ensures
        digit_char(digit_val(c)) == c,
{
    lemma_char_inj(digit_char(digit_val(c)), c);
}

/// A lowercase hexadecimal digit character is recovered from its value.
proof fn lemma_hex_char_of_val(c: char)
    requires
        is_hex_lo(c),
    ensures
        hex_char(hex_val(c)) == c,
{
    lemma_char_inj(hex_char(hex_val(c)), c);
}

/// A control character's code point round trips through `ctrl_char`.
proof fn lemma_ctrl_char_u32(v: int)
    requires
        0 <= v < 32,
    ensures
        ctrl_char(v) as u32 == v,
{
}

/// The digit run of a sequence is a digit prefix of it.
proof fn lemma_digit_run_prefix(s: Seq<char>)
    ensures
        0 <= digit_run(s) <= s.len(),
        all_digits(s.take(digit_run(s))),
    decreases s.len(),
{
    if s.len() == 0 || !is_digit(s[0]) {
        assert(s.take(0).len() == 0);
    } else {
        lemma_digit_run_prefix(s.skip(1));
        let k = digit_run(s);
        assert forall|m: int| 0 <= m < k implies is_digit(#[trigger] s.take(k)[m]) by {
            if m > 0 {
                assert(s.take(k)[m] == s.skip(1)[m - 1]);
                assert(s.skip(1).take(k - 1)[m - 1] == s.skip(1)[m - 1]);
                assert(is_digit(s.skip(1).take(digit_run(s.skip(1)))[m - 1]));
            }
        }
    }
}

/// A canonical digit run is recovered from its value.
proof fn lemma_spec_digits_of_val(d: Seq<char>)
    requires
        all_digits(d),
        d.len() >= 1,
        d.len() == 1 || digit_val(d[0]) != 0,
    ensures
        digits_val(d) >= 0,
        spec_digits(digits_val(d) as nat) == d,
    decreases d.len(),
{
    lemma_digits_val_bounds(d);
    if d.len() == 1 {
        assert(d.take(0).len() == 0);
        assert(digits_val(d.take(0)) == 0);
        assert(digits_val(d) == digit_val(d[0]));
        lemma_digit_char_of_val(d[0]);
        assert(spec_digits(digits_val(d) as nat) =~= d);
    } else {
        let init = d.take(d.len() - 1);
        let last = d[d.len() - 1];
        assert(all_digits(init));
        assert(init[0] == d[0]);
        lemma_spec_digits_of_val(init);
        lemma_digits_val_lower(init);
        lemma_pow10_pos((init.len() - 1) as nat);
        let v = digits_val(d);
        assert(v == digits_val(init) * 10 + digit_val(last));
        assert(digits_val(init) >= 1);
        assert(v >= 10);
        assert(v / 10 == digits_val(init) && v % 10 == digit_val(last)) by (nonlinear_arith)
            requires
                v == digits_val(init) * 10 + digit_val(last),
                0 <= digit_val(last) < 10,
        ;
        lemma_digit_char_of_val(last);
        assert(spec_digits(v as nat) == spec_digits(digits_val(init) as nat) + seq![
            digit_char(digit_val(last)),
        ]);
        assert(spec_digits(v as nat) =~= d);
    }
}

/// Only the rendering of an integer, followed by the returned rest, reads
/// back as that integer.
proof fn lemma_int_sound(s: Seq<char>, v: int, r: Seq<char>)
    requires
        parse_int(s) == Some((v, r)),
    ensures
        s == spec_int_chars(v) + r,
        i64::MIN <= v <= i64::MAX,
{
    if s.len() > 0 && s[0] == '-' {
        let k = digit_run(s.skip(1));
        let d = s.skip(1).take(k);
        lemma_digit_run_prefix(s.skip(1));
        assert(all_digits(d));
        lemma_spec_digits_of_val(d);
        lemma_digits_val_lower(d);
        lemma_pow10_pos((d.len() - 1) as nat);
        assert(v == -digits_val(d));
        assert(spec_int_chars(v) =~= seq!['-'] + d);
        assert(s.skip(1).skip(k) =~= s.skip(1 + k));
        assert(s.skip(1) =~= d + s.skip(1 + k));
        assert(s =~= spec_int_chars(v) + r);
    } else {
        let k = digit_run(s);
        let d = s.take(k);
        lemma_digit_run_prefix(s);
        assert(all_digits(d));
        lemma_spec_digits_of_val(d);
        assert(v == digits_val(d));
        assert(spec_int_chars(v) =~= d);
        assert(s =~= d + s.skip(k));
        assert(s =~= spec_int_chars(v) + r);
    }
}

/// Only the writing of a text, followed by a quote and the returned rest,
/// reads back as that text.
proof fn lemma_text_sound(s: Seq<char>, t: Seq<char>, r: Seq<char>)
    requires
        parse_text(s) == Some((t, r)),
    ensures
        s == spec_text_chars(t) + seq!['"'] + r,
    decreases s.len(),
{
    if s[0] == '"' {
        assert(t =~= Seq::<char>::empty());
        assert(spec_text_chars(t) =~= Seq::<char>::empty());
        assert(s =~= spec_text_chars(t) + seq!['"'] + r);
    } else if s[0] == '\\' {
        if s.len() >= 2 && (s[1] == '"' || s[1] == '\\') {
            match parse_text(s.skip(2)) {
                Some(tr) => {
                    lemma_text_sound(s.skip(2), tr.0, tr.1);
                    assert(t == seq![s[1]] + tr.0);
                    assert(t[0] == s[1]);
                    assert(t.skip(1) =~= tr.0);
                    assert(escape_char(t[0]) =~= seq![s[0], s[1]]);
                    assert(spec_text_chars(t) == escape_char(t[0]) + spec_text_chars(tr.0));
                    assert(r == tr.1);
                    assert(s.skip(2) == spec_text_chars(tr.0) + seq!['"'] + r);
                    assert(spec_text_chars(t) + seq!['"'] + r =~= seq![s[0], s[1]] + (
                    spec_text_chars(tr.0) + seq!['"'] + r));
                    assert(s =~= seq![s[0], s[1]] + s.skip(2));
                    assert(s =~= spec_text_chars(t) + seq!['"'] + r);
                },
                None => {
                    assert(false);
                },
            }
        } else {
            let w = hex_val(s[4]) * 16 + hex_val(s[5]);
            let c = ctrl_char(w);
            match parse_text(s.skip(6)) {
                Some(tr) => {
                    lemma_text_sound(s.skip(6), tr.0, tr.1);
                    assert(t == seq![c] + tr.0);
                    assert(t[0] == c);
                    assert(t.skip(1) =~= tr.0);
                    lemma_ctrl_char_u32(w);
                    assert(c as u32 == w);
                    lemma_hex_char_of_val(s[4]);
                    lemma_hex_char_of_val(s[5]);
                    assert(w / 16 == hex_val(s[4]) && w % 16 == hex_val(s[5])) by (nonlinear_arith)
                        requires
                            w == hex_val(s[4]) * 16 + hex_val(s[5]),
                            0 <= hex_val(s[5]) < 16,
                    ;
                    assert(escape_char(c) =~= seq![s[0], s[1], s[2], s[3], s[4], s[5]]);
                    assert(spec_text_chars(t) == escape_char(t[0]) + spec_text_chars(tr.0));
                    assert(r == tr.1);
                    assert(s.skip(6) == spec_text_chars(tr.0) + seq!['"'] + r);
                    assert(spec_text_chars(t) + seq!['"'] + r =~= seq![s[0], s[1], s[2], s[3], s[4], s[5]] + (spec_text_chars(tr.0) + seq!['"'] + r));
                    assert(s =~= seq![s[0], s[1], s[2], s[3], s[4], s[5]] + s.skip(6));
                    assert(s =~= spec_text_chars(t) + seq!['"'] + r);
                },
                None => {
                    assert(false);
                },
            }
        }
    } else {
        match parse_text(s.skip(1)) {
            Some(tr) => {
                lemma_text_sound(s.skip(1), tr.0, tr.1);
                assert(t == seq![s[0]] + tr.0);
                assert(t[0] == s[0]);
                assert(t.skip(1) =~= tr.0);
                assert(escape_char(t[0]) =~= seq![s[0]]);
                assert(spec_text_chars(t) == escape_char(t[0]) + spec_text_chars(tr.0));
                assert(r == tr.1);
                assert(s.skip(1) == spec_text_chars(tr.0) + seq!['"'] + r);
                assert(spec_text_chars(t) + seq!['"'] + r =~= seq![s[0]] + (spec_text_chars(tr.0)
                    + seq!['"'] + r));
                assert(s =~= seq![s[0]] + s.skip(1));
                assert(s =~= spec_text_chars(t) + seq!['"'] + r);
            },
            None => {
                assert(false);
            },
        }
    }
}

/// Only the encoding of a record, followed by the returned rest, reads back
/// as that record; and every record read back is well formed.
proof fn lemma_task_sound(s: Seq<char>, t: TaskView, r: Seq<char>)
    requires
        parse_task(s) == Some((t, r)),
    ensures
        s == spec_encode_task(t) + r,
        task_wf(t),
{
    match parse_text(s.skip(9)) {
        Some(tr) => {
            lemma_text_sound(s.skip(9), tr.0, tr.1);
            let r1 = tr.1;
            match parse_int(r1.skip(14)) {
                Some(nr) => {
                    lemma_int_sound(r1.skip(14), nr.0, nr.1);
                    let r2 = nr.1;
                    assert(t == TaskView { text: tr.0, created_at: nr.0 });
                    assert(r == r2.skip(1));
                    assert(r2 =~= seq!['}'] + r);
                    assert(r1 =~= lit_mid() + (spec_int_chars(nr.0) + (seq!['}'] + r))) by {
                        assert(r1.take(14) == lit_mid());
                        assert(r1.skip(14) == spec_int_chars(nr.0) + r2);
                        assert(r1 =~= r1.take(14) + r1.skip(14));
                        assert(r1.take(14) + r1.skip(14) =~= lit_mid() + (spec_int_chars(nr.0) + (
                        seq!['}'] + r)));
                    }
                    assert(s =~= lit_open() + (spec_text_chars(tr.0) + (seq!['"'] + r1))) by {
                        assert(s.take(9) == lit_open());
                        assert(s.skip(9) == spec_text_chars(tr.0) + seq!['"'] + r1);
                        assert(s =~= s.take(9) + s.skip(9));
                        assert(s.take(9) + s.skip(9) =~= lit_open() + (spec_text_chars(tr.0) + (
                        seq!['"'] + r1)));
                    }
                    assert(s =~= spec_encode_task(t) + r);
                },
                None => {
                    assert(false);
                },
            }
        },
        None => {
            assert(false);
        },
    }
}

/// Only the encoding of a record run, followed by the returned rest, reads
/// back as that run; the run read back is never empty and is well formed.
proof fn lemma_tasks_sound(s: Seq<char>, fuel: nat, ts: Seq<TaskView>, r: Seq<char>)
    requires
        parse_tasks(s, fuel) == Some((ts, r)),
    ensures
        s == spec_encode_body(ts) + r,
        ts.len() >= 1,
        tasks_wf(ts),
    decreases fuel,
{
    match parse_task(s) {
        Some(tr) => {
            lemma_task_sound(s, tr.0, tr.1);
            let r0 = tr.1;
            if r0.len() > 0 && r0[0] == ',' {
                match parse_tasks(r0.skip(1), (fuel - 1) as nat) {
                    Some(tsr) => {
                        lemma_tasks_sound(r0.skip(1), (fuel - 1) as nat, tsr.0, tsr.1);
                        assert(ts == seq![tr.0] + tsr.0);
                        assert(ts.len() >= 2);
                        assert(ts[0] == tr.0);
                        assert(ts.skip(1) =~= tsr.0);
                        assert(r0 =~= seq![','] + (spec_encode_body(tsr.0) + r));
                        assert(spec_encode_body(ts) == spec_encode_task(ts[0]) + seq![',']
                            + spec_encode_body(ts.skip(1)));
                        assert(s =~= spec_encode_body(ts) + r);
                        assert forall|i: int| 0 <= i < ts.len() implies task_wf(
                            #[trigger] ts[i],
                        ) by {
                            if i > 0 {
                                assert(ts[i] == tsr.0[i - 1]);
                            }
                        }
                    },
                    None => {
                        assert(false);
                    },
                }
            } else {
                assert(ts == seq![tr.0]);
                assert(ts.len() == 1);
                assert(ts[0] == tr.0);
                assert(spec_encode_body(ts) == spec_encode_task(tr.0));
                assert(s =~= spec_encode_body(ts) + r);
            }
        },
        None => {
            assert(false);
        },
    }
}

/// Decoding is strict: a document that decodes at all is exactly the
/// encoding of the well-formed list it decodes to. With `lemma_round_trip`
/// this makes encoding and decoding mutually inverse.
pub proof fn lemma_decode_canonical(s: Seq<char>, ts: Seq<TaskView>)
    requires
        spec_parse(s) == Some(ts),
    ensures
        s == spec_encode(ts),
        tasks_wf(ts),
{
    if s.len() == 2 && s[1] == ']' {
        assert(ts =~= Seq::<TaskView>::empty());
        assert(spec_encode(ts) =~= seq!['[', ']']);
        assert(s =~= seq!['[', ']']);
    } else {
        match parse_tasks(s.skip(1), s.len() as nat) {
            Some(tsr) => {
                lemma_tasks_sound(s.skip(1), s.len() as nat, tsr.0, tsr.1);
                assert(tsr.0 == ts);
                assert(tsr.1 == seq![']']);
                assert(s.skip(1) == spec_encode_body(ts) + seq![']']);
                assert(s =~= seq![s[0]] + s.skip(1));
                assert(s =~= spec_encode(ts));
            },
            None => {
                assert(false);
            },
        }
    }
}

/// Encoding any well-formed task list and decoding the document gives the
/// same list back: text and instant of every record preserved exactly, in
/// order.
pub proof fn lemma_round_trip(ts: Seq<TaskView>)
    requires
        tasks_wf(ts),
    ensures
        spec_parse(spec_encode(ts)) == Some(ts),
        spec_tasks_of(spec_encode(ts)) == Some(ts),
{
    let s = spec_encode(ts);
    let body = spec_encode_body(ts);
    assert(s[0] == '[');
    if ts.len() == 0 {
        assert(s =~= seq!['[', ']']);
        assert(s.len() == 2 && s[1] == ']');
        assert(spec_parse(s) == Some(Seq::<TaskView>::empty()));
        assert(ts =~= Seq::<TaskView>::empty());
    } else {
        lemma_body_len(ts);
        assert(body.len() >= 1);
        assert(s.len() == 2 + body.len());
        assert(s.len() > 2);
        assert(s.skip(1) =~= body + seq![']']);
        assert((seq![']'])[0] == ']');
        assert(']' != ',') by {
            assert(']' as u32 == 93);
            assert(',' as u32 == 44);
        }
        lemma_tasks_complete(ts, seq![']'], s.len() as nat);
    }
}

} // verus!
