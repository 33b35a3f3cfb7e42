//! Stepped ranges: inclusive ranges of unsigned 32-bit numbers walked at a
//! fixed step, and the literals they are written as.

use crate::text::{chars_of, matches_at};
use vstd::prelude::*;
use vstd::string::StringExecFns;

verus! {

/// `s` with every leading repetition of `prefix` removed.
pub open spec fn strip_repeated(s: Seq<char>, prefix: Seq<char>) -> Seq<char>
    decreases s.len(),
{
    if prefix.len() > 0 && prefix.is_prefix_of(s) {
        strip_repeated(s.skip(prefix.len() as int), prefix)
    } else {
        s
    }
}

/// The digits and the radix that a number literal stands for: `0x` and `0X`
/// announce base 16, `0b` and `0B` base 2, a leading `0` on anything but the
/// literal `0` itself base 8, and everything else is base 10. The announcing
/// prefix is removed as often as it leads the literal.
pub open spec fn base_of(s: Seq<char>) -> (Seq<char>, u32) {
    if seq!['0', 'x'].is_prefix_of(s) {
        (strip_repeated(s, seq!['0', 'x']), 16)
    } else if seq!['0', 'X'].is_prefix_of(s) {
        (strip_repeated(s, seq!['0', 'X']), 16)
    } else if seq!['0', 'b'].is_prefix_of(s) {
        (strip_repeated(s, seq!['0', 'b']), 2)
    } else if seq!['0', 'B'].is_prefix_of(s) {
        (strip_repeated(s, seq!['0', 'B']), 2)
    } else if seq!['0'].is_prefix_of(s) && s != seq!['0'] {
        (strip_repeated(s, seq!['0']), 8)
    } else {
        (s, 10)
    }
}

/// The number of leading characters of `chars` that repetitions of `prefix`
/// take up.
fn repeated_prefix_len(chars: &Vec<char>, prefix: &[char]) -> (n: usize)
    requires
        prefix@.len() > 0,
    ensures
        n <= chars.len(),
        chars@.skip(n as int) == strip_repeated(chars@, prefix@),
{
    let mut n: usize = 0;
    assert(chars@.skip(0) =~= chars@);
    while matches_at(chars, n, prefix)
        invariant
            n <= chars.len(),
            prefix@.len() > 0,
            strip_repeated(chars@.skip(n as int), prefix@) == strip_repeated(chars@, prefix@),
        decreases chars.len() - n,
    {
        assert(chars@.skip(n as int).skip(prefix@.len() as int) =~= chars@.skip(
            n + prefix@.len(),
        ));
        n += prefix.len();
    }
    n
}

/// Splits a number literal into its digits and its radix.
pub fn get_base(value: &str) -> (r: (&str, u32))
    ensures
        r.0@ == base_of(value@).0,
        r.1 == base_of(value@).1,
{
    let chars = chars_of(value);
    let len: usize = chars.len();
    assert(chars@.skip(0) =~= chars@);
    assert(forall|n: int|
        0 <= n <= len ==> chars@.skip(n) =~= #[trigger] value@.subrange(n, len as int));
    if matches_at(&chars, 0, &['0', 'x']) {
        let n: usize = repeated_prefix_len(&chars, &['0', 'x']);
        (value.substring_char(n, len), 16)
    } else if matches_at(&chars, 0, &['0', 'X']) {
        let n: usize = repeated_prefix_len(&chars, &['0', 'X']);
        (value.substring_char(n, len), 16)
    } else if matches_at(&chars, 0, &['0', 'b']) {
        let n: usize = repeated_prefix_len(&chars, &['0', 'b']);
        (value.substring_char(n, len), 2)
    } else if matches_at(&chars, 0, &['0', 'B']) {
        let n: usize = repeated_prefix_len(&chars, &['0', 'B']);
        (value.substring_char(n, len), 2)
    } else if matches_at(&chars, 0, &['0']) && len != 1 {
        let n: usize = repeated_prefix_len(&chars, &['0']);
        (value.substring_char(n, len), 8)
    } else {
        (value, 10)
    }
}

/// The value of one digit, in the widest radix: `0` to `9`, then the letters
/// of either case from 10 on.
pub open spec fn digit_of(c: char) -> Option<nat> {
    if '0' <= c <= '9' {
        Some((c as nat - '0' as nat) as nat)
    } else if 'a' <= c <= 'z' {
        Some((c as nat - 'a' as nat + 10) as nat)
    } else if 'A' <= c <= 'Z' {
        Some((c as nat - 'A' as nat + 10) as nat)
    } else {
        None
    }
}

/// The number that a run of digits denotes in `radix`, most significant digit
/// first; `None` where a character is no digit of that radix.
pub open spec fn digits_value(digits: Seq<char>, radix: nat) -> Option<nat>
    decreases digits.len(),
{
    if digits.len() == 0 {
        Some(0)
    } else {
        match (digits_value(digits.drop_last(), radix), digit_of(digits.last())) {
            (Some(high), Some(d)) => if d < radix {
                Some(high * radix + d)
            } else {
                None
            },
            _ => None,
        }
    }
}

/// The unsigned 32-bit number that `text` denotes in `radix`: an optional
/// `+`, then at least one digit, the whole no larger than `u32::MAX`.
pub open spec fn radix_value(text: Seq<char>, radix: nat) -> Option<u32> {
    let digits = if text.len() > 0 && text[0] == '+' {
        text.skip(1)
    } else {
        text
    };
    if digits.len() == 0 {
        None
    } else {
        match digits_value(digits, radix) {
            Some(v) => if v <= u32::MAX {
                Some(v as u32)
            } else {
                None
            },
            None => None,
        }
    }
}

/// The number that a literal denotes, prefix and all.
pub open spec fn number_of(literal: Seq<char>) -> Option<u32> {
    radix_value(base_of(literal).0, base_of(literal).1 as nat)
}

#[verifier::external_type_specification]
#[verifier::external_body]
pub struct ExParseIntError(std::num::ParseIntError);

/// `u32::from_str_radix` of the standard library. It is taken to accept
/// exactly an optional `+` followed by one or more digits of the radix whose
/// value fits 32 bits, and to return that value.
#[verifier::external_body]
fn u32_from_str_radix(text: &str, radix: u32) -> (r: Result<u32, std::num::ParseIntError>)
    requires
        2 <= radix <= 36,
    ensures
        r matches Ok(v) ==> radix_value(text@, radix as nat) == Some(v),
        r is Err ==> radix_value(text@, radix as nat) is None,
{
    u32::from_str_radix(text, radix)
}

/// Why a literal is no stepped range.
#[derive(Debug, PartialEq, Eq)]
pub enum SteppedRangeError {
    /// The literal has no part at all.
    NoInputProvided,
    /// A part is no number; the digits that were tried, and what the number
    /// parser said of them.
    NumberParseError(String, std::num::ParseIntError),
    /// The literal has more than three parts.
    UnparseableRange(String),
    /// The range ends below its start; the start, then the end.
    EndLessThanStart(u32, u32),
    /// The step is zero.
    StepIsZero,
}

/// What a `SteppedRangeError` says, without the number parser's own report.
pub enum Fault {
    NoInput,
    Number(Seq<char>),
    Unparseable(Seq<char>),
    EndLessThanStart(u32, u32),
    StepIsZero,
}

impl View for SteppedRangeError {
    type V = Fault;

    open spec fn view(&self) -> Fault {
        match self {
            SteppedRangeError::NoInputProvided => Fault::NoInput,
            SteppedRangeError::NumberParseError(digits, _) => Fault::Number(digits@),
            SteppedRangeError::UnparseableRange(literal) => Fault::Unparseable(literal@),
            SteppedRangeError::EndLessThanStart(start, end) => Fault::EndLessThanStart(
                *start,
                *end,
            ),
            SteppedRangeError::StepIsZero => Fault::StepIsZero,
        }
    }
}

/// The character of a decimal digit.
pub open spec fn digit_char(d: nat) -> char
    recommends
        d < 10,
{
    if d == 0 {
        '0'
    } else if d == 1 {
        '1'
    } else if d == 2 {
        '2'
    } else if d == 3 {
        '3'
    } else if d == 4 {
        '4'
    } else if d == 5 {
        '5'
    } else if d == 6 {
        '6'
    } else if d == 7 {
        '7'
    } else if d == 8 {
        '8'
    } else {
        '9'
    }
}

/// `n` in decimal digits, without leading zeros.
pub open spec fn decimal(n: nat) -> Seq<char>
    decreases n,
{
    if n < 10 {
        seq![digit_char(n)]
    } else {
        decimal(n / 10).push(digit_char(n % 10))
    }
}

/// One decimal digit as text.
fn digit_text(d: u32) -> (s: &'static str)
    requires
        d < 10,
    ensures
        s@ == seq![digit_char(d as nat)],
{
    proof {
        reveal_strlit("0");
        reveal_strlit("1");
        reveal_strlit("2");
        reveal_strlit("3");
        reveal_strlit("4");
        reveal_strlit("5");
        reveal_strlit("6");
        reveal_strlit("7");
        reveal_strlit("8");
        reveal_strlit("9");
    }
    let s = if d == 0 {
        "0"
    } else if d == 1 {
        "1"
    } else if d == 2 {
        "2"
    } else if d == 3 {
        "3"
    } else if d == 4 {
        "4"
    } else if d == 5 {
        "5"
    } else if d == 6 {
        "6"
    } else if d == 7 {
        "7"
    } else if d == 8 {
        "8"
    } else {
        "9"
    };
    assert(s@ =~= seq![digit_char(d as nat)]);
    s
}

/// `n` written in decimal.
fn decimal_text(n: u32) -> (s: String)
    ensures
        s@ == decimal(n as nat),
    decreases n,
{
    if n < 10 {
        String::from_str(digit_text(n))
    } else {
        let mut s = decimal_text(n / 10);
        s.append(digit_text(n % 10));
        assert(s@ =~= decimal(n as nat));
        s
    }
}

/// The `Debug` text of the standard library's `ParseIntError`. Nothing is
/// claimed of it.
#[verifier::external_body]
fn parse_error_text(e: &std::num::ParseIntError) -> (s: String) {
    format!("{:?}", e)
}

impl SteppedRangeError {
    /// The message of a fault. For a number that could not be read it is the
    /// beginning of the message only: the number parser's own report
    /// follows it.
    pub open spec fn message(fault: Fault) -> Seq<char> {
        match fault {
            Fault::NoInput => "no input provided"@,
            Fault::Number(digits) => "unable to parse "@ + digits + ": "@,
            Fault::Unparseable(literal) => "unable to parse range "@ + literal,
            Fault::EndLessThanStart(start, end) => "range end "@ + decimal(end as nat)
                + " is less than the start "@ + decimal(start as nat),
            Fault::StepIsZero => "step value is zero"@,
        }
    }

    /// Says in words why the literal is no stepped range.
    pub fn describe(&self) -> (text: String)
        ensures
            self@ is Number ==> Self::message(self@).is_prefix_of(text@),
            !(self@ is Number) ==> text@ == Self::message(self@),
    {
        match self {
            SteppedRangeError::NoInputProvided => String::from_str("no input provided"),
            SteppedRangeError::NumberParseError(digits, e) => {
                let mut text = String::from_str("unable to parse ");
                text.append(digits.as_str());
                text.append(": ");
                let ghost head = text@;
                text.append(parse_error_text(e).as_str());
                assert(head =~= text@.subrange(0, head.len() as int));
                text
            },
            SteppedRangeError::UnparseableRange(literal) => {
                let mut text = String::from_str("unable to parse range ");
                text.append(literal.as_str());
                text
            },
            SteppedRangeError::EndLessThanStart(start, end) => {
                let mut text = String::from_str("range end ");
                text.append(decimal_text(*end).as_str());
                text.append(" is less than the start ");
                text.append(decimal_text(*start).as_str());
                text
            },
            SteppedRangeError::StepIsZero => String::from_str("step value is zero"),
        }
    }
}

/// What reading one number literal gives: its value, or the fault that names
/// the digits that are no number.
pub open spec fn read_number(literal: Seq<char>) -> Result<u32, Fault> {
    match number_of(literal) {
        Some(n) => Ok(n),
        None => Err(Fault::Number(base_of(literal).0)),
    }
}

/// Reads one number literal.
pub fn parse_u32(value: &str) -> (r: Result<u32, SteppedRangeError>)
    ensures
        match r {
            Ok(n) => read_number(value@) == Ok::<u32, Fault>(n),
            Err(e) => read_number(value@) == Err::<u32, Fault>(e@),
        },
{
    let (value, base) = get_base(value);
    match u32_from_str_radix(value, base) {
        Ok(o) => Ok(o),
        Err(e) => Err(SteppedRangeError::NumberParseError(value.to_owned(), e)),
    }
}

/// The parts of `s` from `from` on that `..` separates, where no separator
/// begins between `from` and `at`. Separators are taken leftmost first and do
/// not overlap.
pub open spec fn split_from(s: Seq<char>, from: int, at: int) -> Seq<Seq<char>>
    decreases s.len() - at,
{
    if !(0 <= from <= at) || at + 1 >= s.len() {
        seq![s.subrange(from, s.len() as int)]
    } else if s[at] == '.' && s[at + 1] == '.' {
        seq![s.subrange(from, at)] + split_from(s, at + 2, at + 2)
    } else {
        split_from(s, from, at + 1)
    }
}

/// The parts of `s` that `..` separates; at least one, possibly empty.
pub open spec fn split_dots(s: Seq<char>) -> Seq<Seq<char>> {
    split_from(s, 0, 0)
}

/// Splitting always leaves at least one part.
pub proof fn lemma_split_from_nonempty(s: Seq<char>, from: int, at: int)
    ensures
        split_from(s, from, at).len() >= 1,
    decreases s.len() - at,
{
    if !(0 <= from <= at) || at + 1 >= s.len() {
    } else if s[at] == '.' && s[at + 1] == '.' {
        lemma_split_from_nonempty(s, at + 2, at + 2);
    } else {
        lemma_split_from_nonempty(s, from, at + 1);
    }
}

/// The views of string slices.
pub open spec fn views_of(pieces: Seq<&str>) -> Seq<Seq<char>> {
    Seq::new(pieces.len(), |i: int| pieces[i]@)
}

/// Cuts `input` at every `..`.
fn split_at_dots<'a>(input: &'a str) -> (pieces: Vec<&'a str>)
    ensures
        views_of(pieces@) == split_dots(input@),
{
    let chars = chars_of(input);
    let len: usize = chars.len();
    let mut pieces: Vec<&'a str> = Vec::new();
    let mut from: usize = 0;
    let mut at: usize = 0;
    assert(views_of(pieces@) + split_from(input@, 0, 0) =~= split_dots(input@));
    while at < len && at + 1 < len
        invariant
            chars@ == input@,
            len == chars.len(),
            from <= at <= len,
            views_of(pieces@) + split_from(input@, from as int, at as int) == split_dots(
                input@,
            ),
        decreases len - at,
    {
        if chars[at] == '.' && chars[at + 1] == '.' {
            let piece = input.substring_char(from, at);
            let ghost before = pieces@;
            pieces.push(piece);
            assert(views_of(pieces@) =~= views_of(before) + seq![piece@]);
            at += 2;
            from = at;
        } else {
            at += 1;
        }
    }
    let piece = input.substring_char(from, len);
    let ghost before = pieces@;
    pieces.push(piece);
    assert(views_of(pieces@) =~= views_of(before) + seq![piece@]);
    pieces
}

/// An inclusive range of unsigned 32-bit numbers, walked from `start` in
/// steps of `step` for as long as `end` is not passed.
#[derive(Clone, Copy, Debug, PartialEq, Eq)]
pub struct SteppedRange {
    pub start: u32,
    pub end: u32,
    pub step: u32,
    /// The number that the walk hands out next; past `end` once the walk is
    /// over.
    pub offset: u64,
}

/// The start, the end and the step that a literal stands for, or why it
/// stands for none. A literal is one number `n` (the range of `n` alone), two
/// numbers `start..end` (with step 1), or three `start..step..end`. Its
/// numbers are read from left to right, and the first that fails is the fault;
/// then the end is held against the start, and last the step against zero.
pub open spec fn read_range(input: Seq<char>) -> Result<(u32, u32, u32), Fault> {
    let pieces = split_dots(input);
    if pieces.len() == 1 {
        match read_number(pieces[0]) {
            Ok(n) => Ok((n, n, 1u32)),
            Err(fault) => Err(fault),
        }
    } else if pieces.len() == 2 {
        match (read_number(pieces[0]), read_number(pieces[1])) {
            (Err(fault), _) => Err(fault),
            (Ok(_), Err(fault)) => Err(fault),
            (Ok(start), Ok(end)) => if end < start {
                Err(Fault::EndLessThanStart(start, end))
            } else {
                Ok((start, end, 1u32))
            },
        }
    } else if pieces.len() == 3 {
        match (read_number(pieces[0]), read_number(pieces[1]), read_number(pieces[2])) {
            (Err(fault), _, _) => Err(fault),
            (Ok(_), Err(fault), _) => Err(fault),
            (Ok(_), Ok(_), Err(fault)) => Err(fault),
            (Ok(start), Ok(step), Ok(end)) => if end < start {
                Err(Fault::EndLessThanStart(start, end))
            } else if step == 0 {
                Err(Fault::StepIsZero)
            } else {
                Ok((start, end, step))
            },
        }
    } else {
        Err(Fault::Unparseable(input))
    }
}

impl SteppedRange {
    /// The range's invariant: it does not end below its start, and it moves.
    pub open spec fn valid(self) -> bool {
        self.start <= self.end && self.step > 0
    }

    /// Whether the walk stands at its beginning.
    pub open spec fn at_start(self) -> bool {
        self.offset == self.start
    }

    /// How many numbers a whole walk hands out.
    pub open spec fn count(self) -> nat
        recommends
            self.valid(),
    {
        ((self.end - self.start) / (self.step as int) + 1) as nat
    }

    /// The numbers of a whole walk: `start`, `start + step`, and so on, as far
    /// as they do not pass `end`.
    pub open spec fn sequence(self) -> Seq<u32>
        recommends
            self.valid(),
    {
        Seq::new(self.count(), |k: int| (self.start + k * self.step) as u32)
    }

    /// One step of the walk: the number handed out, if any, and the range as
    /// it is left. A walk that has passed `end` reports so once and goes back
    /// to the start.
    pub open spec fn advance(self) -> (Option<u32>, SteppedRange) {
        if self.offset > self.end {
            (None, SteppedRange { offset: self.start as u64, ..self })
        } else {
            (
                Some(self.offset as u32),
                SteppedRange { offset: (self.offset + self.step) as u64, ..self },
            )
        }
    }

    /// The range as `k` steps of the walk leave it.
    pub open spec fn after(self, k: nat) -> SteppedRange
        decreases k,
    {
        if k == 0 {
            self
        } else {
            self.after((k - 1) as nat).advance().1
        }
    }

    /// The range itself, with the walk at its beginning.
    pub open spec fn rewound(self) -> SteppedRange {
        SteppedRange { offset: self.start as u64, ..self }
    }

    /// Hands out the next number of the walk, or `None` once when the walk is
    /// over, after which it begins again.
    pub fn next(&mut self) -> (r: Option<u32>)
        ensures
            (r, *final(self)) == old(self).advance(),
    {
        if self.offset > self.end as u64 {
            self.offset = self.start as u64;
            None
        } else {
            let ret_val: u32 = self.offset as u32;
            self.offset += self.step as u64;
            Some(ret_val)
        }
    }

    /// The numbers of a whole walk from the start, wherever the range's own
    /// walk stands.
    pub fn values(&self) -> (v: Vec<u32>)
        requires
            self.valid(),
        ensures
            v@ == self.sequence(),
    {
        let mut walk = SteppedRange {
            start: self.start,
            end: self.end,
            step: self.step,
            offset: self.start as u64,
        };
        let mut v: Vec<u32> = Vec::new();
        loop
            invariant
                self.valid(),
                walk == self.rewound().after(v.len() as nat),
                v.len() <= self.count(),
                v@ == self.sequence().take(v.len() as int),
            decreases self.count() - v.len(),
        {
            proof {
                lemma_walk(self.rewound(), v.len() as nat);
            }
            match walk.next() {
                Some(n) => {
                    v.push(n);
                    assert(v@ =~= self.sequence().take(v.len() as int));
                },
                None => {
                    assert(v@ =~= self.sequence());
                    return v;
                },
            }
        }
    }

    /// Reads a range literal: `n`, `start..end` or `start..step..end`, each
    /// number in base 10, or in base 16, 2 or 8 behind `0x`, `0b` or `0`.
    pub fn parse(input: &str) -> (r: Result<SteppedRange, SteppedRangeError>)
        ensures
            match r {
                Ok(range) => {
                    &&& read_range(input@) == Ok::<(u32, u32, u32), Fault>(
                        (range.start, range.end, range.step),
                    )
                    &&& range.valid()
                    &&& range.at_start()
                },
                Err(e) => read_range(input@) == Err::<(u32, u32, u32), Fault>(e@),
            },
    {
        let pieces: Vec<&str> = split_at_dots(input);
        proof {
            assert(views_of(pieces@).len() == pieces.len());
            assert(forall|i: int|
                0 <= i < pieces.len() ==> #[trigger] views_of(pieces@)[i] == pieces[i]@);
            lemma_split_from_nonempty(input@, 0, 0);
        }
        if pieces.len() == 0 {
            Err(SteppedRangeError::NoInputProvided)
        } else if pieces.len() == 1 {
            let n: u32 = match parse_u32(pieces[0]) {
                Ok(n) => n,
                Err(e) => { return Err(e); },
            };
            Ok(SteppedRange { start: n, end: n, step: 1, offset: n as u64 })
        } else if pieces.len() == 2 {
            let start: u32 = match parse_u32(pieces[0]) {
                Ok(n) => n,
                Err(e) => { return Err(e); },
            };
            let end: u32 = match parse_u32(pieces[1]) {
                Ok(n) => n,
                Err(e) => { return Err(e); },
            };
            if end < start {
                return Err(SteppedRangeError::EndLessThanStart(start, end));
            }
            Ok(SteppedRange { start, end, step: 1, offset: start as u64 })
        } else if pieces.len() == 3 {
            let start: u32 = match parse_u32(pieces[0]) {
                Ok(n) => n,
                Err(e) => { return Err(e); },
            };
            let step: u32 = match parse_u32(pieces[1]) {
                Ok(n) => n,
                Err(e) => { return Err(e); },
            };
            let end: u32 = match parse_u32(pieces[2]) {
                Ok(n) => n,
                Err(e) => { return Err(e); },
            };
            if end < start {
                return Err(SteppedRangeError::EndLessThanStart(start, end));
            }
            if step == 0 {
                return Err(SteppedRangeError::StepIsZero);
            }
            Ok(SteppedRange { start, step, end, offset: start as u64 })
        } else {
            Err(SteppedRangeError::UnparseableRange(input.to_owned()))
        }
    }
}

/// `k` steps fit into a distance exactly when `k` is at most the distance
/// divided by the step.
proof fn lemma_steps_fit(distance: int, step: int, k: int)
    requires
        distance >= 0,
        step > 0,
        k >= 0,
    ensures
        k * step <= distance <==> k <= distance / step,
{
    vstd::arithmetic::div_mod::lemma_fundamental_div_mod(distance, step);
    vstd::arithmetic::div_mod::lemma_mod_bound(distance, step);
    let q = distance / step;
    assert(step * q == q * step) by (nonlinear_arith);
    assert(distance == q * step + distance % step && 0 <= distance % step < step);
    if k <= q {
        assert(k * step <= q * step) by (nonlinear_arith)
            requires
                k <= q,
                step > 0,
        ;
    } else {
        assert(k * step >= (q + 1) * step) by (nonlinear_arith)
            requires
                k >= q + 1,
                step > 0,
        ;
        assert((q + 1) * step == q * step + step) by (nonlinear_arith);
    }
}

/// The sequence of a valid range begins at `start`, holds `start + k * step`
/// at place `k`, never passes `end`, ends only where one more step would
/// pass it, rises strictly, and so holds no number twice.
pub proof fn lemma_sequence(range: SteppedRange)
    requires
        range.valid(),
    ensures
        range.sequence().len() == range.count(),
        range.count() >= 1,
        range.sequence()[0] == range.start,
        forall|k: int|
            0 <= k < range.count() ==> #[trigger] range.sequence()[k] == range.start + k
                * range.step && range.sequence()[k] <= range.end,
        range.start + range.count() * range.step > range.end,
        forall|j: int, k: int|
            0 <= j < k < range.count() ==> #[trigger] range.sequence()[j]
                < #[trigger] range.sequence()[k],
        range.sequence().no_duplicates(),
{
    let distance = range.end - range.start;
    let step = range.step as int;
    lemma_steps_fit(distance, step, 0);
    lemma_steps_fit(distance, step, range.count() as int);
    assert forall|k: int| 0 <= k < range.count() implies #[trigger] range.sequence()[k]
        == range.start + k * range.step && range.sequence()[k] <= range.end by {
        lemma_steps_fit(distance, step, k);
    }
    assert forall|j: int, k: int| 0 <= j < k < range.count() implies #[trigger] range.sequence()[j]
        < #[trigger] range.sequence()[k] by {
        assert(j * step < k * step) by (nonlinear_arith)
            requires
                j < k,
                step > 0,
        ;
    }
}

/// A walk from the start hands out the range's sequence in order, one number
/// a step; after the last it reports the end once, and then stands at the
/// start again, ready to hand out the same sequence.
pub proof fn lemma_walk(range: SteppedRange, k: nat)
    requires
        range.valid(),
        range.at_start(),
        k <= range.count(),
    ensures
        range.after(k).offset == range.start + k * range.step,
        range.after(k).rewound() == range,
        k < range.count() ==> range.after(k).advance().0 == Some(range.sequence()[k as int]),
        k == range.count() ==> range.after(k).advance() == (None::<u32>, range),
    decreases k,
{
    let distance = range.end - range.start;
    let step = range.step as int;
    if k > 0 {
        let before = range.after((k - 1) as nat);
        lemma_walk(range, (k - 1) as nat);
        lemma_steps_fit(distance, step, k - 1);
        assert((k - 1) * step + step == k * step) by (nonlinear_arith);
        assert(before.offset <= range.end);
        assert(range.after(k) == before.advance().1);
        assert(range.after(k).offset == range.start + k * step);
    }
    lemma_steps_fit(distance, step, k as int);
    let here = range.after(k);
    assert(here.start == range.start && here.end == range.end && here.step == range.step);
    if k < range.count() {
        assert(k * step <= distance);
        assert(here.offset <= here.end);
        assert(range.sequence()[k as int] == (range.start + k * step) as u32);
    } else {
        assert(k * step > distance);
        assert(here.offset > here.end);
    }
}

} // verus!
