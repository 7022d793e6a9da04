//! The records that a graph or a list of codes is read from: an edge is
//! three numbers on a line, a list of codes starts with a line that gives
//! the width of the codes, and a code is a line of binary digits.

use regex::Regex;
use vstd::prelude::*;
use vstd::string::*;

verus! {

/// The value of `c` as a digit below `radix`.
pub open spec fn digit_of(c: char, radix: nat) -> Option<nat> {
    if 48 <= c as u32 <= 57 && (c as u32 - 48) < radix {
        Some((c as u32 - 48) as nat)
    } else {
        None
    }
}

/// The number that the digits of `s` spell in base `radix`; zero for no
/// digits at all, and `None` where a character is no digit.
pub open spec fn number(s: Seq<char>, radix: nat) -> Option<nat>
    decreases s.len(),
{
    if s.len() == 0 {
        Some(0)
    } else {
        match (number(s.drop_last(), radix), digit_of(s.last(), radix)) {
            (Some(v), Some(d)) => Some(v * radix + d),
            _ => None,
        }
    }
}

/// The number that `s` spells with one digit or more, if it is `max` at
/// most.
pub open spec fn digits(s: Seq<char>, radix: nat, max: nat) -> Option<nat> {
    if s.len() == 0 {
        None
    } else {
        match number(s, radix) {
            Some(v) => if v <= max {
                Some(v)
            } else {
                None
            },
            None => None,
        }
    }
}

/// The `u32` that `s` spells in base `radix`: digits, after a plus sign or
/// without one.
pub open spec fn unsigned(s: Seq<char>, radix: nat) -> Option<u32> {
    let body = if s.len() > 0 && s[0] == '+' {
        s.skip(1)
    } else {
        s
    };
    match digits(body, radix, u32::MAX as nat) {
        Some(v) => Some(v as u32),
        None => None,
    }
}

/// The `usize` that `s` spells in base ten: digits, after a plus sign or
/// without one.
pub open spec fn count_of(s: Seq<char>) -> Option<usize> {
    let body = if s.len() > 0 && s[0] == '+' {
        s.skip(1)
    } else {
        s
    };
    match digits(body, 10, usize::MAX as nat) {
        Some(v) => Some(v as usize),
        None => None,
    }
}

/// The `i32` that `s` spells in base ten: digits, after a plus or a minus
/// sign or without a sign.
pub open spec fn signed(s: Seq<char>) -> Option<i32> {
    if s.len() > 0 && s[0] == '-' {
        match digits(s.skip(1), 10, 0x8000_0000) {
            Some(v) => Some((-v) as i32),
            None => None,
        }
    } else {
        let body = if s.len() > 0 && s[0] == '+' {
            s.skip(1)
        } else {
            s
        };
        match digits(body, 10, 0x7fff_ffff) {
            Some(v) => Some(v as i32),
            None => None,
        }
    }
}

/// Whether `c` is white space: a character with the Unicode property
/// `White_Space`.
pub open spec fn is_space(c: char) -> bool {
    let u = c as u32;
    (0x09 <= u <= 0x0d) || u == 0x20 || u == 0x85 || u == 0xa0 || u == 0x1680 || (0x2000 <= u
        <= 0x200a) || u == 0x2028 || u == 0x2029 || u == 0x202f || u == 0x205f || u == 0x3000
}

/// The characters of `s` that are not white space, in order.
pub open spec fn without_spaces(s: Seq<char>) -> Seq<char>
    decreases s.len(),
{
    if s.len() == 0 {
        Seq::empty()
    } else if is_space(s.last()) {
        without_spaces(s.drop_last())
    } else {
        without_spaces(s.drop_last()).push(s.last())
    }
}

/// The code that a line spells: its characters other than white space are
/// binary digits, after a plus sign or without one, of a number that fits
/// 32 bits.
pub open spec fn code_of(line: Seq<char>) -> Option<u32> {
    unsigned(without_spaces(line), 2)
}

/// Where the digits of `s` spell a number, the first `k` of them spell a
/// number that is no larger.
proof fn lemma_number_prefix(s: Seq<char>, radix: nat, k: int)
    requires
        0 <= k <= s.len(),
        radix >= 1,
        number(s, radix) is Some,
    ensures
        number(s.take(k), radix) is Some,
        number(s.take(k), radix)->Some_0 <= number(s, radix)->Some_0,
    decreases s.len(),
{
    if k == s.len() {
        assert(s.take(k) =~= s);
    } else {
        let front = s.drop_last();
        assert(front.take(k) =~= s.take(k));
        lemma_number_prefix(front, radix, k);
        let v = number(front, radix)->Some_0;
        assert(v <= v * radix) by (nonlinear_arith)
            requires
                radix >= 1,
                v >= 0,
        ;
    }
}

/// The characters of a string.
pub fn chars_of(text: &str) -> (chars: Vec<char>)
    ensures
        chars@ == text@,
{
    let count: usize = text.unicode_len();
    let mut chars: Vec<char> = Vec::new();
    let mut i: usize = 0;
    while i < count
        invariant
            count == text@.len(),
            i <= count,
            chars@ == text@.take(i as int),
        decreases count - i,
    {
        chars.push(text.get_char(i));
        proof {
            assert(text@.take(i + 1) =~= text@.take(i as int).push(text@[i as int]));
        }
        i += 1;
    }
    proof {
        assert(text@.take(count as int) =~= text@);
    }
    chars
}

/// The number that the characters from place `from` on spell in base
/// `radix` with one digit or more, if it is `max` at most.
fn parse_digits(chars: &Vec<char>, from: usize, radix: u32, max: u64) -> (value: Option<u64>)
    requires
        from <= chars@.len(),
        1 <= radix <= 10,
    ensures
        value is Some <==> digits(chars@.skip(from as int), radix as nat, max as nat) is Some,
        value is Some ==> value->Some_0 == digits(
            chars@.skip(from as int),
            radix as nat,
            max as nat,
        )->Some_0,
{
    let ghost body = chars@.skip(from as int);
    let count: usize = chars.len();
    if from == count {
        return None;
    }
    let mut acc: u64 = 0;
    let mut i: usize = from;
    while i < count
        invariant
            from <= i <= count,
            count == chars@.len(),
            body == chars@.skip(from as int),
            1 <= radix <= 10,
            acc <= max,
            number(body.take(i - from), radix as nat) == Some(acc as nat),
        decreases count - i,
    {
        let code: u32 = chars[i] as u32;
        proof {
            assert(body.take(i - from + 1).drop_last() =~= body.take(i - from));
            assert(body.take(i - from + 1).last() == chars@[i as int]);
        }
        if code < 48 || code > 57 || code - 48 >= radix {
            proof {
                assert(number(body.take(i - from + 1), radix as nat) is None);
                if number(body, radix as nat) is Some {
                    lemma_number_prefix(body, radix as nat, i - from + 1);
                }
            }
            return None;
        }
        assert(acc * radix <= 0xffff_ffff_ffff_ffff * 10) by (nonlinear_arith)
            requires
                acc <= 0xffff_ffff_ffff_ffff,
                radix <= 10,
        ;
        let next: u128 = (acc as u128) * (radix as u128) + ((code - 48) as u128);
        if next > max as u128 {
            proof {
                if number(body, radix as nat) is Some {
                    lemma_number_prefix(body, radix as nat, i - from + 1);
                }
            }
            return None;
        }
        acc = next as u64;
        i += 1;
    }
    proof {
        assert(body.take(count - from) =~= body);
    }
    Some(acc)
}

/// The `u32` that `chars` spell in base `radix`.
fn parse_unsigned(chars: &Vec<char>, radix: u32) -> (value: Option<u32>)
    requires
        1 <= radix <= 10,
    ensures
        value == unsigned(chars@, radix as nat),
{
    let from: usize = if chars.len() > 0 && chars[0] == '+' {
        1
    } else {
        0
    };
    proof {
        assert(chars@.skip(0) =~= chars@);
    }
    match parse_digits(chars, from, radix, 0xffff_ffff) {
        Some(v) => Some(v as u32),
        None => None,
    }
}

/// The `u32` that `text` spells in base ten: digits, after a plus sign or
/// without one. `None` for any other text and for a number past
/// `u32::MAX`.
pub fn parse_u32(text: &str) -> (value: Option<u32>)
    ensures
        value == unsigned(text@, 10),
{
    let chars = chars_of(text);
    parse_unsigned(&chars, 10)
}

/// The `usize` that `text` spells in base ten: digits, after a plus sign
/// or without one. `None` for any other text and for a number past
/// `usize::MAX`.
pub fn parse_usize(text: &str) -> (value: Option<usize>)
    ensures
        value == count_of(text@),
{
    let chars = chars_of(text);
    let from: usize = if chars.len() > 0 && chars[0] == '+' {
        1
    } else {
        0
    };
    proof {
        assert(chars@.skip(0) =~= chars@);
    }
    match parse_digits(&chars, from, 10, usize::MAX as u64) {
        Some(v) => Some(v as usize),
        None => None,
    }
}

/// The `i32` that `text` spells in base ten: digits, after a plus or a
/// minus sign or without a sign. `None` for any other text and for a
/// number outside `i32`.
pub fn parse_i32(text: &str) -> (value: Option<i32>)
    ensures
        value == signed(text@),
{
    let chars = chars_of(text);
    proof {
        assert(chars@.skip(0) =~= chars@);
    }
    if chars.len() > 0 && chars[0] == '-' {
        match parse_digits(&chars, 1, 10, 0x8000_0000) {
            Some(v) => {
                let magnitude: i64 = v as i64;
                Some((0 - magnitude) as i32)
            },
            None => None,
        }
    } else {
        let from: usize = if chars.len() > 0 && chars[0] == '+' {
            1
        } else {
            0
        };
        match parse_digits(&chars, from, 10, 0x7fff_ffff) {
            Some(v) => Some(v as i32),
            None => None,
        }
    }
}

/// Whether `c` is white space.
pub fn is_whitespace(c: char) -> (space: bool)
    ensures
        space == is_space(c),
{
    let u: u32 = c as u32;
    (0x09 <= u && u <= 0x0d) || u == 0x20 || u == 0x85 || u == 0xa0 || u == 0x1680 || (0x2000 <= u
        && u <= 0x200a) || u == 0x2028 || u == 0x2029 || u == 0x202f || u == 0x205f || u == 0x3000
}

/// The code that a line of binary digits spells, white space anywhere in
/// the line aside. `None` for a line that holds anything else or spells a
/// number of more than 32 bits.
pub fn code_record(line: &str) -> (code: Option<u32>)
    ensures
        code == code_of(line@),
{
    let chars = chars_of(line);
    let mut kept: Vec<char> = Vec::new();
    let mut i: usize = 0;
    while i < chars.len()
        invariant
            i <= chars@.len(),
            kept@ == without_spaces(chars@.take(i as int)),
        decreases chars@.len() - i,
    {
        proof {
            assert(chars@.take(i + 1).drop_last() =~= chars@.take(i as int));
        }
        if !is_whitespace(chars[i]) {
            kept.push(chars[i]);
        }
        i += 1;
    }
    proof {
        assert(chars@.take(chars@.len() as int) =~= chars@);
    }
    parse_unsigned(&kept, 2)
}

/// The regular expression of an edge: a start vertex, an end vertex and a
/// weight, with white space between them.
pub open spec fn edge_pattern() -> Seq<char> {
    r"\s*(?P<src>\d+)\s+(?P<dest>\d+)\s+(?P<weight>-*\d+).*$"@
}

/// The regular expression of the first line of a list of codes: the number
/// of vertices and the width of the codes in bits.
pub open spec fn header_pattern() -> Seq<char> {
    r"\s*(?P<num_vertex>\d+)\s+(?P<num_bits>\d+)\s+.*$"@
}

/// What the leftmost match of the regular expression `pattern` in `text`
/// captures: the text of the whole match first, then that of each group in
/// the order in which the groups open, `None` for a group that took no part
/// in the match. `None` altogether where `pattern` is no regular expression
/// or matches nowhere in `text`.
pub uninterp spec fn regex_captures(pattern: Seq<char>, text: Seq<char>) -> Option<
    Seq<Option<Seq<char>>>,
>;

/// Captured groups as sequences of characters.
pub open spec fn groups_view(groups: Option<Vec<Option<String>>>) -> Option<
    Seq<Option<Seq<char>>>,
> {
    match groups {
        Some(list) => Some(
            Seq::new(
                list@.len(),
                |i: int|
                    match list@[i] {
                        Some(text) => Some(text@),
                        None => None,
                    },
            ),
        ),
        None => None,
    }
}

/// `Regex::new` and `Regex::captures` of the crate `regex`: compiles
/// `pattern` and searches `text` for its leftmost match. Verus is told,
/// without proof, only that the outcome depends on the pattern and the text
/// alone: it is what `regex_captures` names.
#[verifier::external_body]
fn captures(pattern: &str, text: &str) -> (groups: Option<Vec<Option<String>>>)
    ensures
        groups_view(groups) == regex_captures(pattern@, text@),
{
    let re = Regex::new(pattern).ok()?;
    let caps = re.captures(text)?;
    Some(caps.iter().map(|group| group.map(|m| m.as_str().to_string())).collect())
}

/// The edge that captured groups spell: the start vertex in the first
/// group, the end vertex in the second, the weight in the third, where the
/// weight is taken with one minus sign at most.
pub open spec fn edge_of(groups: Seq<Option<Seq<char>>>) -> Option<(u32, u32, i32)> {
    if groups.len() == 4 && groups[1] is Some && groups[2] is Some && groups[3] is Some {
        match (
            unsigned(groups[1]->Some_0, 10),
            unsigned(groups[2]->Some_0, 10),
            signed(groups[3]->Some_0),
        ) {
            (Some(start), Some(end), Some(weight)) => Some((start, end, weight)),
            _ => None,
        }
    } else {
        None
    }
}

/// The width that captured groups spell: the number in the second group.
pub open spec fn width_of(groups: Seq<Option<Seq<char>>>) -> Option<u32> {
    if groups.len() == 3 && groups[2] is Some {
        unsigned(groups[2]->Some_0, 10)
    } else {
        None
    }
}

/// The start vertex, the end vertex and the weight that the groups
/// captured from an edge record spell. `None` unless there are the whole
/// match and three groups, each of them a number that fits its type.
pub fn edge_from_groups(groups: &Vec<Option<String>>) -> (edge: Option<(u32, u32, i32)>)
    ensures
        edge == edge_of(groups_view(Some(*groups))->Some_0),
{
    if groups.len() != 4 {
        return None;
    }
    match (&groups[1], &groups[2], &groups[3]) {
        (Some(src), Some(dest), Some(weight)) => {
            match (parse_u32(src.as_str()), parse_u32(dest.as_str()), parse_i32(weight.as_str())) {
                (Some(start), Some(end), Some(w)) => Some((start, end, w)),
                _ => None,
            }
        },
        _ => None,
    }
}

/// The width of the codes that the groups captured from a header record
/// spell. `None` unless there are the whole match and two groups, the
/// second of them a number that fits `u32`.
pub fn width_from_groups(groups: &Vec<Option<String>>) -> (width: Option<u32>)
    ensures
        width == width_of(groups_view(Some(*groups))->Some_0),
{
    if groups.len() != 3 {
        return None;
    }
    match &groups[2] {
        Some(num_bits) => parse_u32(num_bits.as_str()),
        None => None,
    }
}

/// The edge that a line records: the first three numbers that stand on the
/// line with white space between them are the start vertex, the end vertex
/// and the weight. `None` for a line that records no edge.
pub fn edge_record(line: &str) -> (edge: Option<(u32, u32, i32)>)
    ensures
        edge == (match regex_captures(edge_pattern(), line@) {
            Some(groups) => edge_of(groups),
            None => None,
        }),
{
    match captures(r"\s*(?P<src>\d+)\s+(?P<dest>\d+)\s+(?P<weight>-*\d+).*$", line) {
        Some(groups) => edge_from_groups(&groups),
        None => None,
    }
}

/// The width of the codes that the first line of a list of codes records:
/// the second of the two numbers that the line starts with. `None` for a
/// line that records no width.
pub fn header_record(line: &str) -> (width: Option<u32>)
    ensures
        width == (match regex_captures(header_pattern(), line@) {
            Some(groups) => width_of(groups),
            None => None,
        }),
{
    match captures(r"\s*(?P<num_vertex>\d+)\s+(?P<num_bits>\d+)\s+.*$", line) {
        Some(groups) => width_from_groups(&groups),
        None => None,
    }
}

} // verus!
