//! The formula evaluator: a restricted arithmetic language over the fixed
//! channel vocabulary, evaluated entry by entry against one of the session's
//! two logs.
//!
//! Grammar: numeric literals and channel identifiers combined by `+`, `-`,
//! `*`, `/`, unary `-` and parentheses, with the usual precedence and left
//! associativity. A formula's source log is chosen by the channels it names:
//! the temperature log when it names a temperature channel, the primary log
//! otherwise. Because the two logs carry independent timestamps, one formula
//! may not mix channels of both. An entry contributes one sample when every
//! referenced channel is present on it; arithmetic runs in 64-bit integers,
//! and a zero divisor or an overflow fails that one formula.
use vstd::prelude::*;
use vstd::string::*;

use crate::channel::{DataChannel, Sample, TempChannel, Wheel, data_value, temp_value};
use crate::data::{DataEntry, TempEntry};

verus! {

/// Any channel a formula may reference.
#[derive(Clone, Copy, PartialEq, Eq, Structural, Debug)]
pub enum Channel {
    Data(DataChannel),
    Temp(TempChannel),
}

/// One lexical token of the formula language.
#[derive(Clone, Copy, PartialEq, Eq, Structural, Debug)]
pub enum Token {
    Num(i64),
    Chan(Channel),
    Plus,
    Minus,
    Star,
    Slash,
    LParen,
    RParen,
}

/// A parsed formula.
#[derive(Debug)]
pub enum Expr {
    Lit(i64),
    Chan(Channel),
    Neg(Box<Expr>),
    Add(Box<Expr>, Box<Expr>),
    Sub(Box<Expr>, Box<Expr>),
    Mul(Box<Expr>, Box<Expr>),
    Div(Box<Expr>, Box<Expr>),
}

/// Why one formula failed, at the specification level.
pub enum EvalFault {
    /// The text is not a well-formed formula.
    Parse,
    /// The formula names an identifier outside the channel vocabulary.
    UnknownChannel(Seq<char>),
    /// The formula mixes primary-log and temperature-log channels.
    MixedSources,
    /// Some entry made a divisor zero.
    DivisionByZero,
    /// Some entry overflowed the evaluator's 64-bit arithmetic.
    Overflow,
}

/// Why one formula failed; scoped to that formula, never to the session.
#[derive(Clone, PartialEq, Eq, Debug)]
pub enum EvalError {
    /// The text is not a well-formed formula.
    Parse,
    /// The formula names an identifier outside the channel vocabulary.
    UnknownChannel(String),
    /// The formula mixes primary-log and temperature-log channels, whose
    /// timestamps are independent.
    MixedSources,
    /// Some entry made a divisor zero.
    DivisionByZero,
    /// Some entry overflowed the evaluator's 64-bit arithmetic.
    Overflow,
}

impl View for EvalError {
    type V = EvalFault;

    open spec fn view(&self) -> EvalFault {
        match self {
            EvalError::Parse => EvalFault::Parse,
            EvalError::UnknownChannel(s) => EvalFault::UnknownChannel(s@),
            EvalError::MixedSources => EvalFault::MixedSources,
            EvalError::DivisionByZero => EvalFault::DivisionByZero,
            EvalError::Overflow => EvalFault::Overflow,
        }
    }
}

/// Blank characters the lexer skips.
pub open spec fn is_space_char(c: char) -> bool {
    c == ' ' || c == '\t'
}

/// Decimal digits.
pub open spec fn is_digit_char(c: char) -> bool {
    '0' as u32 <= c as u32 && c as u32 <= '9' as u32
}

/// Characters that may open an identifier.
pub open spec fn is_ident_start_char(c: char) -> bool {
    ('a' as u32 <= c as u32 && c as u32 <= 'z' as u32) || c == '_'
}

/// Characters that may continue an identifier.
pub open spec fn is_ident_char(c: char) -> bool {
    is_ident_start_char(c) || is_digit_char(c)
}

/// First position at or after `i` that does not hold a digit.
pub open spec fn digits_end(s: Seq<char>, i: int) -> int
    decreases s.len() - i,
{
    if 0 <= i < s.len() && is_digit_char(s[i]) {
        digits_end(s, i + 1)
    } else {
        i
    }
}

/// First position at or after `i` that does not hold an identifier character.
pub open spec fn ident_end(s: Seq<char>, i: int) -> int
    decreases s.len() - i,
{
    if 0 <= i < s.len() && is_ident_char(s[i]) {
        ident_end(s, i + 1)
    } else {
        i
    }
}

/// A scan end never lies before its start nor past the text.
proof fn lemma_scan_end_bounds(s: Seq<char>, i: int)
    ensures
        i <= digits_end(s, i),
        i <= ident_end(s, i),
        i <= s.len() ==> digits_end(s, i) <= s.len() && ident_end(s, i) <= s.len(),
    decreases s.len() - i,
{
    if 0 <= i < s.len() {
        lemma_scan_end_bounds(s, i + 1);
    }
}

/// Everything before a digit-scan end is a digit.
proof fn lemma_digits_end_range(s: Seq<char>, i: int)
    ensures
        forall|x: int| i <= x < digits_end(s, i) ==> is_digit_char(#[trigger] s[x]),
    decreases s.len() - i,
{
    if 0 <= i < s.len() && is_digit_char(s[i]) {
        lemma_digits_end_range(s, i + 1);
        lemma_scan_end_bounds(s, i + 1);
    }
}

/// The number written by the digit run `s[i..e)`.
pub open spec fn digits_val(s: Seq<char>, i: int, e: int) -> int
    decreases e - i,
{
    if i < e {
        digits_val(s, i, e - 1) * 10 + (s[e - 1] as u32 - '0' as u32)
    } else {
        0
    }
}

/// A digit run denotes a non-negative number.
pub(crate) proof fn lemma_digits_val_nonneg(s: Seq<char>, i: int, e: int)
    requires
        forall|x: int| i <= x < e ==> is_digit_char(#[trigger] s[x]),
    ensures
        0 <= digits_val(s, i, e),
    decreases e - i,
{
    if i < e {
        lemma_digits_val_nonneg(s, i, e - 1);
    }
}

/// Extending a digit run never shrinks its value.
pub(crate) proof fn lemma_digits_val_monotone(s: Seq<char>, i: int, k: int, e: int)
    requires
        i <= k <= e,
        forall|x: int| i <= x < e ==> is_digit_char(#[trigger] s[x]),
    ensures
        digits_val(s, i, k) <= digits_val(s, i, e),
    decreases e - k,
{
    if k < e {
        lemma_digits_val_monotone(s, i, k, e - 1);
        lemma_digits_val_nonneg(s, i, e - 1);
    }
}

/// The channel an identifier denotes, when it belongs to the fixed
/// vocabulary: per-wheel power, velocity, commanded and realized torque on
/// the primary log; per-wheel motor, room and heatsink temperature, the
/// maximum battery-management temperature and the two coolant temperatures
/// on the temperature log.
pub open spec fn spec_chan_of(name: Seq<char>) -> Option<Channel> {
    if name == seq!['p', 'o', 'w', 'e', 'r', '_', 'f', 'l'] {
        Some(Channel::Data(DataChannel::Power(Wheel::Fl)))
    } else if name == seq!['p', 'o', 'w', 'e', 'r', '_', 'f', 'r'] {
        Some(Channel::Data(DataChannel::Power(Wheel::Fr)))
    } else if name == seq!['p', 'o', 'w', 'e', 'r', '_', 'r', 'l'] {
        Some(Channel::Data(DataChannel::Power(Wheel::Rl)))
    } else if name == seq!['p', 'o', 'w', 'e', 'r', '_', 'r', 'r'] {
        Some(Channel::Data(DataChannel::Power(Wheel::Rr)))
    } else if name == seq!['v', 'e', 'l', 'o', 'c', 'i', 't', 'y', '_', 'f', 'l'] {
        Some(Channel::Data(DataChannel::Velocity(Wheel::Fl)))
    } else if name == seq!['v', 'e', 'l', 'o', 'c', 'i', 't', 'y', '_', 'f', 'r'] {
        Some(Channel::Data(DataChannel::Velocity(Wheel::Fr)))
    } else if name == seq!['v', 'e', 'l', 'o', 'c', 'i', 't', 'y', '_', 'r', 'l'] {
        Some(Channel::Data(DataChannel::Velocity(Wheel::Rl)))
    } else if name == seq!['v', 'e', 'l', 'o', 'c', 'i', 't', 'y', '_', 'r', 'r'] {
        Some(Channel::Data(DataChannel::Velocity(Wheel::Rr)))
    } else if name == seq!['t', 'o', 'r', 'q', 'u', 'e', '_', 's', 'e', 't', '_', 'f', 'l'] {
        Some(Channel::Data(DataChannel::TorqueSet(Wheel::Fl)))
    } else if name == seq!['t', 'o', 'r', 'q', 'u', 'e', '_', 's', 'e', 't', '_', 'f', 'r'] {
        Some(Channel::Data(DataChannel::TorqueSet(Wheel::Fr)))
    } else if name == seq!['t', 'o', 'r', 'q', 'u', 'e', '_', 's', 'e', 't', '_', 'r', 'l'] {
        Some(Channel::Data(DataChannel::TorqueSet(Wheel::Rl)))
    } else if name == seq!['t', 'o', 'r', 'q', 'u', 'e', '_', 's', 'e', 't', '_', 'r', 'r'] {
        Some(Channel::Data(DataChannel::TorqueSet(Wheel::Rr)))
    } else if name == seq!['t', 'o', 'r', 'q', 'u', 'e', '_', 'r', 'e', 'a', 'l', '_', 'f', 'l'] {
        Some(Channel::Data(DataChannel::TorqueReal(Wheel::Fl)))
    } else if name == seq!['t', 'o', 'r', 'q', 'u', 'e', '_', 'r', 'e', 'a', 'l', '_', 'f', 'r'] {
        Some(Channel::Data(DataChannel::TorqueReal(Wheel::Fr)))
    } else if name == seq!['t', 'o', 'r', 'q', 'u', 'e', '_', 'r', 'e', 'a', 'l', '_', 'r', 'l'] {
        Some(Channel::Data(DataChannel::TorqueReal(Wheel::Rl)))
    } else if name == seq!['t', 'o', 'r', 'q', 'u', 'e', '_', 'r', 'e', 'a', 'l', '_', 'r', 'r'] {
        Some(Channel::Data(DataChannel::TorqueReal(Wheel::Rr)))
    } else if name == seq!['t', 'e', 'm', 'p', '_', 'f', 'l'] {
        Some(Channel::Temp(TempChannel::Temp(Wheel::Fl)))
    } else if name == seq!['t', 'e', 'm', 'p', '_', 'f', 'r'] {
        Some(Channel::Temp(TempChannel::Temp(Wheel::Fr)))
    } else if name == seq!['t', 'e', 'm', 'p', '_', 'r', 'l'] {
        Some(Channel::Temp(TempChannel::Temp(Wheel::Rl)))
    } else if name == seq!['t', 'e', 'm', 'p', '_', 'r', 'r'] {
        Some(Channel::Temp(TempChannel::Temp(Wheel::Rr)))
    } else if name == seq!['r', 'o', 'o', 'm', '_', 't', 'e', 'm', 'p', '_', 'f', 'l'] {
        Some(Channel::Temp(TempChannel::RoomTemp(Wheel::Fl)))
    } else if name == seq!['r', 'o', 'o', 'm', '_', 't', 'e', 'm', 'p', '_', 'f', 'r'] {
        Some(Channel::Temp(TempChannel::RoomTemp(Wheel::Fr)))
    } else if name == seq!['r', 'o', 'o', 'm', '_', 't', 'e', 'm', 'p', '_', 'r', 'l'] {
        Some(Channel::Temp(TempChannel::RoomTemp(Wheel::Rl)))
    } else if name == seq!['r', 'o', 'o', 'm', '_', 't', 'e', 'm', 'p', '_', 'r', 'r'] {
        Some(Channel::Temp(TempChannel::RoomTemp(Wheel::Rr)))
    } else if name == seq!['h', 'e', 'a', 't', 's', 'i', 'n', 'k', '_', 't', 'e', 'm', 'p', '_', 'f', 'l'] {
        Some(Channel::Temp(TempChannel::HeatsinkTemp(Wheel::Fl)))
    } else if name == seq!['h', 'e', 'a', 't', 's', 'i', 'n', 'k', '_', 't', 'e', 'm', 'p', '_', 'f', 'r'] {
        Some(Channel::Temp(TempChannel::HeatsinkTemp(Wheel::Fr)))
    } else if name == seq!['h', 'e', 'a', 't', 's', 'i', 'n', 'k', '_', 't', 'e', 'm', 'p', '_', 'r', 'l'] {
        Some(Channel::Temp(TempChannel::HeatsinkTemp(Wheel::Rl)))
    } else if name == seq!['h', 'e', 'a', 't', 's', 'i', 'n', 'k', '_', 't', 'e', 'm', 'p', '_', 'r', 'r'] {
        Some(Channel::Temp(TempChannel::HeatsinkTemp(Wheel::Rr)))
    } else if name == seq!['a', 'm', 's', '_', 't', 'e', 'm', 'p', '_', 'm', 'a', 'x'] {
        Some(Channel::Temp(TempChannel::AmsTempMax))
    } else if name == seq!['w', 'a', 't', 'e', 'r', '_', 't', 'e', 'm', 'p', '_', 'c', 'o', 'n', 'v', 'e', 'r', 't', 'e', 'r'] {
        Some(Channel::Temp(TempChannel::WaterTempConverter))
    } else if name == seq!['w', 'a', 't', 'e', 'r', '_', 't', 'e', 'm', 'p', '_', 'm', 'o', 't', 'o', 'r'] {
        Some(Channel::Temp(TempChannel::WaterTempMotor))
    } else {
        None
    }
}

/// Result of lexing: the token run, or the fault that stopped it.
pub enum Lexed {
    Toks(Seq<Token>),
    Fail(EvalFault),
}

/// Prepends one token to a lex result.
pub open spec fn lex_cons(t: Token, rest: Lexed) -> Lexed {
    match rest {
        Lexed::Toks(ts) => Lexed::Toks(seq![t] + ts),
        Lexed::Fail(f) => Lexed::Fail(f),
    }
}

/// Prepends an already-lexed run to a lex result.
pub open spec fn lex_append(pre: Seq<Token>, rest: Lexed) -> Lexed {
    match rest {
        Lexed::Toks(ts) => Lexed::Toks(pre + ts),
        Lexed::Fail(f) => Lexed::Fail(f),
    }
}

/// Lexing from position `i` on: blanks are skipped, a maximal digit run is
/// one numeric literal (a fault when it exceeds `i64`), a maximal identifier
/// run must name a channel of the vocabulary, single characters are the
/// operators, and anything else is a fault.
pub open spec fn spec_lex_at(s: Seq<char>, i: int) -> Lexed
    decreases s.len() - i,
    via spec_lex_at_dec
{
    if !(0 <= i < s.len()) {
        Lexed::Toks(Seq::empty())
    } else {
        let c = s[i];
        if is_space_char(c) {
            spec_lex_at(s, i + 1)
        } else if c == '+' {
            lex_cons(Token::Plus, spec_lex_at(s, i + 1))
        } else if c == '-' {
            lex_cons(Token::Minus, spec_lex_at(s, i + 1))
        } else if c == '*' {
            lex_cons(Token::Star, spec_lex_at(s, i + 1))
        } else if c == '/' {
            lex_cons(Token::Slash, spec_lex_at(s, i + 1))
        } else if c == '(' {
            lex_cons(Token::LParen, spec_lex_at(s, i + 1))
        } else if c == ')' {
            lex_cons(Token::RParen, spec_lex_at(s, i + 1))
        } else if is_digit_char(c) {
            let e = digits_end(s, i);
            if digits_val(s, i, e) > i64::MAX {
                Lexed::Fail(EvalFault::Parse)
            } else {
                lex_cons(Token::Num(digits_val(s, i, e) as i64), spec_lex_at(s, e))
            }
        } else if is_ident_start_char(c) {
            let e = ident_end(s, i);
            match spec_chan_of(s.subrange(i, e)) {
                Some(ch) => lex_cons(Token::Chan(ch), spec_lex_at(s, e)),
                None => Lexed::Fail(EvalFault::UnknownChannel(s.subrange(i, e))),
            }
        } else {
            Lexed::Fail(EvalFault::Parse)
        }
    }
}

#[via_fn]
proof fn spec_lex_at_dec(s: Seq<char>, i: int) {
    if 0 <= i < s.len() {
        lemma_scan_end_bounds(s, i + 1);
    }
}

/// Exec face of [`is_space_char`].
fn space_char(c: char) -> (r: bool)
    ensures
        r == is_space_char(c),
{
    c == ' ' || c == '\t'
}

/// Exec face of [`is_digit_char`].
pub(crate) fn digit_char(c: char) -> (r: bool)
    ensures
        r == is_digit_char(c),
{
    let n = c as u32;
    '0' as u32 <= n && n <= '9' as u32
}

/// Exec face of [`is_ident_start_char`].
fn ident_start_char(c: char) -> (r: bool)
    ensures
        r == is_ident_start_char(c),
{
    let n = c as u32;
    ('a' as u32 <= n && n <= 'z' as u32) || c == '_'
}

/// Exec face of [`is_ident_char`].
fn ident_char(c: char) -> (r: bool)
    ensures
        r == is_ident_char(c),
{
    ident_start_char(c) || digit_char(c)
}

/// Looks the identifier `text[i..j)` up in the channel vocabulary.
#[verifier::rlimit(100)]
fn chan_of_range(text: &str, i: usize, j: usize) -> (r: Option<Channel>)
    requires
        i <= j <= text@.len(),
    ensures
        r == spec_chan_of(text@.subrange(i as int, j as int)),
{
    proof {
        let name = text@.subrange(i as int, j as int);
        assert(name.len() == j - i);
        assert(forall|k: int| 0 <= k < name.len() ==> name[k] == text@[i + k]);
    }
    let name_len = j - i;
    if name_len == 8
        && text.get_char(i) == 'p'
        && text.get_char(i + 1) == 'o'
        && text.get_char(i + 2) == 'w'
        && text.get_char(i + 3) == 'e'
        && text.get_char(i + 4) == 'r'
        && text.get_char(i + 5) == '_'
        && text.get_char(i + 6) == 'f'
        && text.get_char(i + 7) == 'l' {
        proof {
            assert(text@.subrange(i as int, j as int) =~= seq!['p', 'o', 'w', 'e', 'r', '_', 'f', 'l']);
        }
        Some(Channel::Data(DataChannel::Power(Wheel::Fl)))
    } else if name_len == 8
        && text.get_char(i) == 'p'
        && text.get_char(i + 1) == 'o'
        && text.get_char(i + 2) == 'w'
        && text.get_char(i + 3) == 'e'
        && text.get_char(i + 4) == 'r'
        && text.get_char(i + 5) == '_'
        && text.get_char(i + 6) == 'f'
        && text.get_char(i + 7) == 'r' {
        proof {
            assert(text@.subrange(i as int, j as int) =~= seq!['p', 'o', 'w', 'e', 'r', '_', 'f', 'r']);
        }
        Some(Channel::Data(DataChannel::Power(Wheel::Fr)))
    } else if name_len == 8
        && text.get_char(i) == 'p'
        && text.get_char(i + 1) == 'o'
        && text.get_char(i + 2) == 'w'
        && text.get_char(i + 3) == 'e'
        && text.get_char(i + 4) == 'r'
        && text.get_char(i + 5) == '_'
        && text.get_char(i + 6) == 'r'
        && text.get_char(i + 7) == 'l' {
        proof {
            assert(text@.subrange(i as int, j as int) =~= seq!['p', 'o', 'w', 'e', 'r', '_', 'r', 'l']);
        }
        Some(Channel::Data(DataChannel::Power(Wheel::Rl)))
    } else if name_len == 8
        && text.get_char(i) == 'p'
        && text.get_char(i + 1) == 'o'
        && text.get_char(i + 2) == 'w'
        && text.get_char(i + 3) == 'e'
        && text.get_char(i + 4) == 'r'
        && text.get_char(i + 5) == '_'
        && text.get_char(i + 6) == 'r'
        && text.get_char(i + 7) == 'r' {
        proof {
            assert(text@.subrange(i as int, j as int) =~= seq!['p', 'o', 'w', 'e', 'r', '_', 'r', 'r']);
        }
        Some(Channel::Data(DataChannel::Power(Wheel::Rr)))
    } else if name_len == 11
        && text.get_char(i) == 'v'
        && text.get_char(i + 1) == 'e'
        && text.get_char(i + 2) == 'l'
        && text.get_char(i + 3) == 'o'
        && text.get_char(i + 4) == 'c'
        && text.get_char(i + 5) == 'i'
        && text.get_char(i + 6) == 't'
        && text.get_char(i + 7) == 'y'
        && text.get_char(i + 8) == '_'
        && text.get_char(i + 9) == 'f'
        && text.get_char(i + 10) == 'l' {
        proof {
            assert(text@.subrange(i as int, j as int) =~= seq!['v', 'e', 'l', 'o', 'c', 'i', 't', 'y', '_', 'f', 'l']);
        }
        Some(Channel::Data(DataChannel::Velocity(Wheel::Fl)))
    } else if name_len == 11
        && text.get_char(i) == 'v'
        && text.get_char(i + 1) == 'e'
        && text.get_char(i + 2) == 'l'
        && text.get_char(i + 3) == 'o'
        && text.get_char(i + 4) == 'c'
        && text.get_char(i + 5) == 'i'
        && text.get_char(i + 6) == 't'
        && text.get_char(i + 7) == 'y'
        && text.get_char(i + 8) == '_'
        && text.get_char(i + 9) == 'f'
        && text.get_char(i + 10) == 'r' {
        proof {
            assert(text@.subrange(i as int, j as int) =~= seq!['v', 'e', 'l', 'o', 'c', 'i', 't', 'y', '_', 'f', 'r']);
        }
        Some(Channel::Data(DataChannel::Velocity(Wheel::Fr)))
    } else if name_len == 11
        && text.get_char(i) == 'v'
        && text.get_char(i + 1) == 'e'
        && text.get_char(i + 2) == 'l'
        && text.get_char(i + 3) == 'o'
        && text.get_char(i + 4) == 'c'
        && text.get_char(i + 5) == 'i'
        && text.get_char(i + 6) == 't'
        && text.get_char(i + 7) == 'y'
        && text.get_char(i + 8) == '_'
        && text.get_char(i + 9) == 'r'
        && text.get_char(i + 10) == 'l' {
        proof {
            assert(text@.subrange(i as int, j as int) =~= seq!['v', 'e', 'l', 'o', 'c', 'i', 't', 'y', '_', 'r', 'l']);
        }
        Some(Channel::Data(DataChannel::Velocity(Wheel::Rl)))
    } else if name_len == 11
        && text.get_char(i) == 'v'
        && text.get_char(i + 1) == 'e'
        && text.get_char(i + 2) == 'l'
        && text.get_char(i + 3) == 'o'
        && text.get_char(i + 4) == 'c'
        && text.get_char(i + 5) == 'i'
        && text.get_char(i + 6) == 't'
        && text.get_char(i + 7) == 'y'
        && text.get_char(i + 8) == '_'
        && text.get_char(i + 9) == 'r'
        && text.get_char(i + 10) == 'r' {
        proof {
            assert(text@.subrange(i as int, j as int) =~= seq!['v', 'e', 'l', 'o', 'c', 'i', 't', 'y', '_', 'r', 'r']);
        }
        Some(Channel::Data(DataChannel::Velocity(Wheel::Rr)))
    } else if name_len == 13
        && text.get_char(i) == 't'
        && text.get_char(i + 1) == 'o'
        && text.get_char(i + 2) == 'r'
        && text.get_char(i + 3) == 'q'
        && text.get_char(i + 4) == 'u'
        && text.get_char(i + 5) == 'e'
        && text.get_char(i + 6) == '_'
        && text.get_char(i + 7) == 's'
        && text.get_char(i + 8) == 'e'
        && text.get_char(i + 9) == 't'
        && text.get_char(i + 10) == '_'
        && text.get_char(i + 11) == 'f'
        && text.get_char(i + 12) == 'l' {
        proof {
            assert(text@.subrange(i as int, j as int) =~= seq!['t', 'o', 'r', 'q', 'u', 'e', '_', 's', 'e', 't', '_', 'f', 'l']);
        }
        Some(Channel::Data(DataChannel::TorqueSet(Wheel::Fl)))
    } else if name_len == 13
        && text.get_char(i) == 't'
        && text.get_char(i + 1) == 'o'
        && text.get_char(i + 2) == 'r'
        && text.get_char(i + 3) == 'q'
        && text.get_char(i + 4) == 'u'
        && text.get_char(i + 5) == 'e'
        && text.get_char(i + 6) == '_'
        && text.get_char(i + 7) == 's'
        && text.get_char(i + 8) == 'e'
        && text.get_char(i + 9) == 't'
        && text.get_char(i + 10) == '_'
        && text.get_char(i + 11) == 'f'
        && text.get_char(i + 12) == 'r' {
        proof {
            assert(text@.subrange(i as int, j as int) =~= seq!['t', 'o', 'r', 'q', 'u', 'e', '_', 's', 'e', 't', '_', 'f', 'r']);
        }
        Some(Channel::Data(DataChannel::TorqueSet(Wheel::Fr)))
    } else if name_len == 13
        && text.get_char(i) == 't'
        && text.get_char(i + 1) == 'o'
        && text.get_char(i + 2) == 'r'
        && text.get_char(i + 3) == 'q'
        && text.get_char(i + 4) == 'u'
        && text.get_char(i + 5) == 'e'
        && text.get_char(i + 6) == '_'
        && text.get_char(i + 7) == 's'
        && text.get_char(i + 8) == 'e'
        && text.get_char(i + 9) == 't'
        && text.get_char(i + 10) == '_'
        && text.get_char(i + 11) == 'r'
        && text.get_char(i + 12) == 'l' {
        proof {
            assert(text@.subrange(i as int, j as int) =~= seq!['t', 'o', 'r', 'q', 'u', 'e', '_', 's', 'e', 't', '_', 'r', 'l']);
        }
        Some(Channel::Data(DataChannel::TorqueSet(Wheel::Rl)))
    } else if name_len == 13
        && text.get_char(i) == 't'
        && text.get_char(i + 1) == 'o'
        && text.get_char(i + 2) == 'r'
        && text.get_char(i + 3) == 'q'
        && text.get_char(i + 4) == 'u'
        && text.get_char(i + 5) == 'e'
        && text.get_char(i + 6) == '_'
        && text.get_char(i + 7) == 's'
        && text.get_char(i + 8) == 'e'
        && text.get_char(i + 9) == 't'
        && text.get_char(i + 10) == '_'
        && text.get_char(i + 11) == 'r'
        && text.get_char(i + 12) == 'r' {
        proof {
            assert(text@.subrange(i as int, j as int) =~= seq!['t', 'o', 'r', 'q', 'u', 'e', '_', 's', 'e', 't', '_', 'r', 'r']);
        }
        Some(Channel::Data(DataChannel::TorqueSet(Wheel::Rr)))
    } else if name_len == 14
        && text.get_char(i) == 't'
        && text.get_char(i + 1) == 'o'
        && text.get_char(i + 2) == 'r'
        && text.get_char(i + 3) == 'q'
        && text.get_char(i + 4) == 'u'
        && text.get_char(i + 5) == 'e'
        && text.get_char(i + 6) == '_'
        && text.get_char(i + 7) == 'r'
        && text.get_char(i + 8) == 'e'
        && text.get_char(i + 9) == 'a'
        && text.get_char(i + 10) == 'l'
        && text.get_char(i + 11) == '_'
        && text.get_char(i + 12) == 'f'
        && text.get_char(i + 13) == 'l' {
        proof {
            assert(text@.subrange(i as int, j as int) =~= seq!['t', 'o', 'r', 'q', 'u', 'e', '_', 'r', 'e', 'a', 'l', '_', 'f', 'l']);
        }
        Some(Channel::Data(DataChannel::TorqueReal(Wheel::Fl)))
    } else if name_len == 14
        && text.get_char(i) == 't'
        && text.get_char(i + 1) == 'o'
        && text.get_char(i + 2) == 'r'
        && text.get_char(i + 3) == 'q'
        && text.get_char(i + 4) == 'u'
        && text.get_char(i + 5) == 'e'
        && text.get_char(i + 6) == '_'
        && text.get_char(i + 7) == 'r'
        && text.get_char(i + 8) == 'e'
        && text.get_char(i + 9) == 'a'
        && text.get_char(i + 10) == 'l'
        && text.get_char(i + 11) == '_'
        && text.get_char(i + 12) == 'f'
        && text.get_char(i + 13) == 'r' {
        proof {
            assert(text@.subrange(i as int, j as int) =~= seq!['t', 'o', 'r', 'q', 'u', 'e', '_', 'r', 'e', 'a', 'l', '_', 'f', 'r']);
        }
        Some(Channel::Data(DataChannel::TorqueReal(Wheel::Fr)))
    } else if name_len == 14
        && text.get_char(i) == 't'
        && text.get_char(i + 1) == 'o'
        && text.get_char(i + 2) == 'r'
        && text.get_char(i + 3) == 'q'
        && text.get_char(i + 4) == 'u'
        && text.get_char(i + 5) == 'e'
        && text.get_char(i + 6) == '_'
        && text.get_char(i + 7) == 'r'
        && text.get_char(i + 8) == 'e'
        && text.get_char(i + 9) == 'a'
        && text.get_char(i + 10) == 'l'
        && text.get_char(i + 11) == '_'
        && text.get_char(i + 12) == 'r'
        && text.get_char(i + 13) == 'l' {
        proof {
            assert(text@.subrange(i as int, j as int) =~= seq!['t', 'o', 'r', 'q', 'u', 'e', '_', 'r', 'e', 'a', 'l', '_', 'r', 'l']);
        }
        Some(Channel::Data(DataChannel::TorqueReal(Wheel::Rl)))
    } else if name_len == 14
        && text.get_char(i) == 't'
        && text.get_char(i + 1) == 'o'
        && text.get_char(i + 2) == 'r'
        && text.get_char(i + 3) == 'q'
        && text.get_char(i + 4) == 'u'
        && text.get_char(i + 5) == 'e'
        && text.get_char(i + 6) == '_'
        && text.get_char(i + 7) == 'r'
        && text.get_char(i + 8) == 'e'
        && text.get_char(i + 9) == 'a'
        && text.get_char(i + 10) == 'l'
        && text.get_char(i + 11) == '_'
        && text.get_char(i + 12) == 'r'
        && text.get_char(i + 13) == 'r' {
        proof {
            assert(text@.subrange(i as int, j as int) =~= seq!['t', 'o', 'r', 'q', 'u', 'e', '_', 'r', 'e', 'a', 'l', '_', 'r', 'r']);
        }
        Some(Channel::Data(DataChannel::TorqueReal(Wheel::Rr)))
    } else if name_len == 7
        && text.get_char(i) == 't'
        && text.get_char(i + 1) == 'e'
        && text.get_char(i + 2) == 'm'
        && text.get_char(i + 3) == 'p'
        && text.get_char(i + 4) == '_'
        && text.get_char(i + 5) == 'f'
        && text.get_char(i + 6) == 'l' {
        proof {
            assert(text@.subrange(i as int, j as int) =~= seq!['t', 'e', 'm', 'p', '_', 'f', 'l']);
        }
        Some(Channel::Temp(TempChannel::Temp(Wheel::Fl)))
    } else if name_len == 7
        && text.get_char(i) == 't'
        && text.get_char(i + 1) == 'e'
        && text.get_char(i + 2) == 'm'
        && text.get_char(i + 3) == 'p'
        && text.get_char(i + 4) == '_'
        && text.get_char(i + 5) == 'f'
        && text.get_char(i + 6) == 'r' {
        proof {
            assert(text@.subrange(i as int, j as int) =~= seq!['t', 'e', 'm', 'p', '_', 'f', 'r']);
        }
        Some(Channel::Temp(TempChannel::Temp(Wheel::Fr)))
    } else if name_len == 7
        && text.get_char(i) == 't'
        && text.get_char(i + 1) == 'e'
        && text.get_char(i + 2) == 'm'
        && text.get_char(i + 3) == 'p'
        && text.get_char(i + 4) == '_'
        && text.get_char(i + 5) == 'r'
        && text.get_char(i + 6) == 'l' {
        proof {
            assert(text@.subrange(i as int, j as int) =~= seq!['t', 'e', 'm', 'p', '_', 'r', 'l']);
        }
        Some(Channel::Temp(TempChannel::Temp(Wheel::Rl)))
    } else if name_len == 7
        && text.get_char(i) == 't'
        && text.get_char(i + 1) == 'e'
        && text.get_char(i + 2) == 'm'
        && text.get_char(i + 3) == 'p'
        && text.get_char(i + 4) == '_'
        && text.get_char(i + 5) == 'r'
        && text.get_char(i + 6) == 'r' {
        proof {
            assert(text@.subrange(i as int, j as int) =~= seq!['t', 'e', 'm', 'p', '_', 'r', 'r']);
        }
        Some(Channel::Temp(TempChannel::Temp(Wheel::Rr)))
    } else if name_len == 12
        && text.get_char(i) == 'r'
        && text.get_char(i + 1) == 'o'
        && text.get_char(i + 2) == 'o'
        && text.get_char(i + 3) == 'm'
        && text.get_char(i + 4) == '_'
        && text.get_char(i + 5) == 't'
        && text.get_char(i + 6) == 'e'
        && text.get_char(i + 7) == 'm'
        && text.get_char(i + 8) == 'p'
        && text.get_char(i + 9) == '_'
        && text.get_char(i + 10) == 'f'
        && text.get_char(i + 11) == 'l' {
        proof {
            assert(text@.subrange(i as int, j as int) =~= seq!['r', 'o', 'o', 'm', '_', 't', 'e', 'm', 'p', '_', 'f', 'l']);
        }
        Some(Channel::Temp(TempChannel::RoomTemp(Wheel::Fl)))
    } else if name_len == 12
        && text.get_char(i) == 'r'
        && text.get_char(i + 1) == 'o'
        && text.get_char(i + 2) == 'o'
        && text.get_char(i + 3) == 'm'
        && text.get_char(i + 4) == '_'
        && text.get_char(i + 5) == 't'
        && text.get_char(i + 6) == 'e'
        && text.get_char(i + 7) == 'm'
        && text.get_char(i + 8) == 'p'
        && text.get_char(i + 9) == '_'
        && text.get_char(i + 10) == 'f'
        && text.get_char(i + 11) == 'r' {
        proof {
            assert(text@.subrange(i as int, j as int) =~= seq!['r', 'o', 'o', 'm', '_', 't', 'e', 'm', 'p', '_', 'f', 'r']);
        }
        Some(Channel::Temp(TempChannel::RoomTemp(Wheel::Fr)))
    } else if name_len == 12
        && text.get_char(i) == 'r'
        && text.get_char(i + 1) == 'o'
        && text.get_char(i + 2) == 'o'
        && text.get_char(i + 3) == 'm'
        && text.get_char(i + 4) == '_'
        && text.get_char(i + 5) == 't'
        && text.get_char(i + 6) == 'e'
        && text.get_char(i + 7) == 'm'
        && text.get_char(i + 8) == 'p'
        && text.get_char(i + 9) == '_'
        && text.get_char(i + 10) == 'r'
        && text.get_char(i + 11) == 'l' {
        proof {
            assert(text@.subrange(i as int, j as int) =~= seq!['r', 'o', 'o', 'm', '_', 't', 'e', 'm', 'p', '_', 'r', 'l']);
        }
        Some(Channel::Temp(TempChannel::RoomTemp(Wheel::Rl)))
    } else if name_len == 12
        && text.get_char(i) == 'r'
        && text.get_char(i + 1) == 'o'
        && text.get_char(i + 2) == 'o'
        && text.get_char(i + 3) == 'm'
        && text.get_char(i + 4) == '_'
        && text.get_char(i + 5) == 't'
        && text.get_char(i + 6) == 'e'
        && text.get_char(i + 7) == 'm'
        && text.get_char(i + 8) == 'p'
        && text.get_char(i + 9) == '_'
        && text.get_char(i + 10) == 'r'
        && text.get_char(i + 11) == 'r' {
        proof {
            assert(text@.subrange(i as int, j as int) =~= seq!['r', 'o', 'o', 'm', '_', 't', 'e', 'm', 'p', '_', 'r', 'r']);
        }
        Some(Channel::Temp(TempChannel::RoomTemp(Wheel::Rr)))
    } else if name_len == 16
        && text.get_char(i) == 'h'
        && text.get_char(i + 1) == 'e'
        && text.get_char(i + 2) == 'a'
        && text.get_char(i + 3) == 't'
        && text.get_char(i + 4) == 's'
        && text.get_char(i + 5) == 'i'
        && text.get_char(i + 6) == 'n'
        && text.get_char(i + 7) == 'k'
        && text.get_char(i + 8) == '_'
        && text.get_char(i + 9) == 't'
        && text.get_char(i + 10) == 'e'
        && text.get_char(i + 11) == 'm'
        && text.get_char(i + 12) == 'p'
        && text.get_char(i + 13) == '_'
        && text.get_char(i + 14) == 'f'
        && text.get_char(i + 15) == 'l' {
        proof {
            assert(text@.subrange(i as int, j as int) =~= seq!['h', 'e', 'a', 't', 's', 'i', 'n', 'k', '_', 't', 'e', 'm', 'p', '_', 'f', 'l']);
        }
        Some(Channel::Temp(TempChannel::HeatsinkTemp(Wheel::Fl)))
    } else if name_len == 16
        && text.get_char(i) == 'h'
        && text.get_char(i + 1) == 'e'
        && text.get_char(i + 2) == 'a'
        && text.get_char(i + 3) == 't'
        && text.get_char(i + 4) == 's'
        && text.get_char(i + 5) == 'i'
        && text.get_char(i + 6) == 'n'
        && text.get_char(i + 7) == 'k'
        && text.get_char(i + 8) == '_'
        && text.get_char(i + 9) == 't'
        && text.get_char(i + 10) == 'e'
        && text.get_char(i + 11) == 'm'
        && text.get_char(i + 12) == 'p'
        && text.get_char(i + 13) == '_'
        && text.get_char(i + 14) == 'f'
        && text.get_char(i + 15) == 'r' {
        proof {
            assert(text@.subrange(i as int, j as int) =~= seq!['h', 'e', 'a', 't', 's', 'i', 'n', 'k', '_', 't', 'e', 'm', 'p', '_', 'f', 'r']);
        }
        Some(Channel::Temp(TempChannel::HeatsinkTemp(Wheel::Fr)))
    } else if name_len == 16
        && text.get_char(i) == 'h'
        && text.get_char(i + 1) == 'e'
        && text.get_char(i + 2) == 'a'
        && text.get_char(i + 3) == 't'
        && text.get_char(i + 4) == 's'
        && text.get_char(i + 5) == 'i'
        && text.get_char(i + 6) == 'n'
        && text.get_char(i + 7) == 'k'
        && text.get_char(i + 8) == '_'
        && text.get_char(i + 9) == 't'
        && text.get_char(i + 10) == 'e'
        && text.get_char(i + 11) == 'm'
        && text.get_char(i + 12) == 'p'
        && text.get_char(i + 13) == '_'
        && text.get_char(i + 14) == 'r'
        && text.get_char(i + 15) == 'l' {
        proof {
            assert(text@.subrange(i as int, j as int) =~= seq!['h', 'e', 'a', 't', 's', 'i', 'n', 'k', '_', 't', 'e', 'm', 'p', '_', 'r', 'l']);
        }
        Some(Channel::Temp(TempChannel::HeatsinkTemp(Wheel::Rl)))
    } else if name_len == 16
        && text.get_char(i) == 'h'
        && text.get_char(i + 1) == 'e'
        && text.get_char(i + 2) == 'a'
        && text.get_char(i + 3) == 't'
        && text.get_char(i + 4) == 's'
        && text.get_char(i + 5) == 'i'
        && text.get_char(i + 6) == 'n'
        && text.get_char(i + 7) == 'k'
        && text.get_char(i + 8) == '_'
        && text.get_char(i + 9) == 't'
        && text.get_char(i + 10) == 'e'
        && text.get_char(i + 11) == 'm'
        && text.get_char(i + 12) == 'p'
        && text.get_char(i + 13) == '_'
        && text.get_char(i + 14) == 'r'
        && text.get_char(i + 15) == 'r' {
        proof {
            assert(text@.subrange(i as int, j as int) =~= seq!['h', 'e', 'a', 't', 's', 'i', 'n', 'k', '_', 't', 'e', 'm', 'p', '_', 'r', 'r']);
        }
        Some(Channel::Temp(TempChannel::HeatsinkTemp(Wheel::Rr)))
    } else if name_len == 12
        && text.get_char(i) == 'a'
        && text.get_char(i + 1) == 'm'
        && text.get_char(i + 2) == 's'
        && text.get_char(i + 3) == '_'
        && text.get_char(i + 4) == 't'
        && text.get_char(i + 5) == 'e'
        && text.get_char(i + 6) == 'm'
        && text.get_char(i + 7) == 'p'
        && text.get_char(i + 8) == '_'
        && text.get_char(i + 9) == 'm'
        && text.get_char(i + 10) == 'a'
        && text.get_char(i + 11) == 'x' {
        proof {
            assert(text@.subrange(i as int, j as int) =~= seq!['a', 'm', 's', '_', 't', 'e', 'm', 'p', '_', 'm', 'a', 'x']);
        }
        Some(Channel::Temp(TempChannel::AmsTempMax))
    } else if name_len == 20
        && text.get_char(i) == 'w'
        && text.get_char(i + 1) == 'a'
        && text.get_char(i + 2) == 't'
        && text.get_char(i + 3) == 'e'
        && text.get_char(i + 4) == 'r'
        && text.get_char(i + 5) == '_'
        && text.get_char(i + 6) == 't'
        && text.get_char(i + 7) == 'e'
        && text.get_char(i + 8) == 'm'
        && text.get_char(i + 9) == 'p'
        && text.get_char(i + 10) == '_'
        && text.get_char(i + 11) == 'c'
        && text.get_char(i + 12) == 'o'
        && text.get_char(i + 13) == 'n'
        && text.get_char(i + 14) == 'v'
        && text.get_char(i + 15) == 'e'
        && text.get_char(i + 16) == 'r'
        && text.get_char(i + 17) == 't'
        && text.get_char(i + 18) == 'e'
        && text.get_char(i + 19) == 'r' {
        proof {
            assert(text@.subrange(i as int, j as int) =~= seq!['w', 'a', 't', 'e', 'r', '_', 't', 'e', 'm', 'p', '_', 'c', 'o', 'n', 'v', 'e', 'r', 't', 'e', 'r']);
        }
        Some(Channel::Temp(TempChannel::WaterTempConverter))
    } else if name_len == 16
        && text.get_char(i) == 'w'
        && text.get_char(i + 1) == 'a'
        && text.get_char(i + 2) == 't'
        && text.get_char(i + 3) == 'e'
        && text.get_char(i + 4) == 'r'
        && text.get_char(i + 5) == '_'
        && text.get_char(i + 6) == 't'
        && text.get_char(i + 7) == 'e'
        && text.get_char(i + 8) == 'm'
        && text.get_char(i + 9) == 'p'
        && text.get_char(i + 10) == '_'
        && text.get_char(i + 11) == 'm'
        && text.get_char(i + 12) == 'o'
        && text.get_char(i + 13) == 't'
        && text.get_char(i + 14) == 'o'
        && text.get_char(i + 15) == 'r' {
        proof {
            assert(text@.subrange(i as int, j as int) =~= seq!['w', 'a', 't', 'e', 'r', '_', 't', 'e', 'm', 'p', '_', 'm', 'o', 't', 'o', 'r']);
        }
        Some(Channel::Temp(TempChannel::WaterTempMotor))
    } else {
        None
    }
}

/// Turns formula text into its token run, or reports the fault.
fn lex(text: &str) -> (r: Result<Vec<Token>, EvalError>)
    ensures
        match spec_lex_at(text@, 0) {
            Lexed::Toks(ts) => r matches Ok(v) && v@ == ts,
            Lexed::Fail(f) => r matches Err(e) && e@ == f,
        },
{
    let n = text.unicode_len();
    let mut out: Vec<Token> = Vec::new();
    let mut i: usize = 0;
    proof {
        match spec_lex_at(text@, 0) {
            Lexed::Toks(ts) => {
                assert(Seq::<Token>::empty() + ts =~= ts);
            },
            Lexed::Fail(_) => {},
        }
    }
    while i < n
        invariant
            n == text@.len(),
            i <= n,
            spec_lex_at(text@, 0) == lex_append(out@, spec_lex_at(text@, i as int)),
        decreases n - i,
    {
        let c = text.get_char(i);
        if space_char(c) {
            i = i + 1;
        } else if c == '+' || c == '-' || c == '*' || c == '/' || c == '(' || c == ')' {
            let tok = if c == '+' {
                Token::Plus
            } else if c == '-' {
                Token::Minus
            } else if c == '*' {
                Token::Star
            } else if c == '/' {
                Token::Slash
            } else if c == '(' {
                Token::LParen
            } else {
                Token::RParen
            };
            let ghost old_out = out@;
            out.push(tok);
            proof {
                match spec_lex_at(text@, i + 1) {
                    Lexed::Toks(ts) => {
                        assert(old_out + (seq![tok] + ts) =~= out@ + ts);
                    },
                    Lexed::Fail(_) => {},
                }
            }
            i = i + 1;
        } else if digit_char(c) {
            let mut j: usize = i;
            while j < n && digit_char(text.get_char(j))
                invariant
                    n == text@.len(),
                    i <= j <= n,
                    digits_end(text@, i as int) == digits_end(text@, j as int),
                decreases n - j,
            {
                j = j + 1;
            }
            proof {
                assert(digits_end(text@, j as int) == j);
                lemma_digits_end_range(text@, i as int);
            }
            let mut acc: i64 = 0;
            let mut overflow = false;
            let mut k: usize = i;
            while k < j
                invariant
                    n == text@.len(),
                    i <= k <= j <= n,
                    digits_end(text@, i as int) == j,
                    forall|x: int| i <= x < j ==> is_digit_char(#[trigger] text@[x]),
                    !overflow ==> acc == digits_val(text@, i as int, k as int),
                    overflow ==> digits_val(text@, i as int, j as int) > i64::MAX,
                decreases j - k,
            {
                let c2 = text.get_char(k);
                let d = c2 as u32 - '0' as u32;
                if !overflow {
                    proof {
                        lemma_digits_val_nonneg(text@, i as int, k as int);
                    }
                    let step = match acc.checked_mul(10) {
                        Some(m) => m.checked_add(d as i64),
                        None => None,
                    };
                    match step {
                        Some(v) => {
                            acc = v;
                        },
                        None => {
                            proof {
                                lemma_digits_val_monotone(text@, i as int, k + 1, j as int);
                            }
                            overflow = true;
                        },
                    }
                }
                k = k + 1;
            }
            if overflow {
                return Err(EvalError::Parse);
            }
            let tok = Token::Num(acc);
            let ghost old_out = out@;
            out.push(tok);
            proof {
                match spec_lex_at(text@, j as int) {
                    Lexed::Toks(ts) => {
                        assert(old_out + (seq![tok] + ts) =~= out@ + ts);
                    },
                    Lexed::Fail(_) => {},
                }
            }
            i = j;
        } else if ident_start_char(c) {
            let mut j: usize = i;
            while j < n && ident_char(text.get_char(j))
                invariant
                    n == text@.len(),
                    i <= j <= n,
                    ident_end(text@, i as int) == ident_end(text@, j as int),
                decreases n - j,
            {
                j = j + 1;
            }
            proof {
                assert(ident_end(text@, j as int) == j);
            }
            match chan_of_range(text, i, j) {
                Some(ch) => {
                    let tok = Token::Chan(ch);
                    let ghost old_out = out@;
                    out.push(tok);
                    proof {
                        match spec_lex_at(text@, j as int) {
                            Lexed::Toks(ts) => {
                                assert(old_out + (seq![tok] + ts) =~= out@ + ts);
                            },
                            Lexed::Fail(_) => {},
                        }
                    }
                    i = j;
                },
                None => {
                    return Err(EvalError::UnknownChannel(text.substring_char(i, j).to_owned()));
                },
            }
        } else {
            return Err(EvalError::Parse);
        }
    }
    proof {
        match spec_lex_at(text@, n as int) {
            Lexed::Toks(ts) => {
                assert(out@ + ts =~= out@);
            },
            Lexed::Fail(_) => {},
        }
    }
    Ok(out)
}

/// Whether a token is a binary operator.
pub open spec fn is_binop(t: Token) -> bool {
    t == Token::Plus || t == Token::Minus || t == Token::Star || t == Token::Slash
}

/// Binding strength of a binary operator: multiplicative over additive.
pub open spec fn prec_of(t: Token) -> int {
    match t {
        Token::Star => 2,
        Token::Slash => 2,
        _ => 1,
    }
}

/// The expression a binary operator builds.
pub open spec fn mk_binop(t: Token, l: Expr, r: Expr) -> Expr {
    match t {
        Token::Plus => Expr::Add(Box::new(l), Box::new(r)),
        Token::Minus => Expr::Sub(Box::new(l), Box::new(r)),
        Token::Star => Expr::Mul(Box::new(l), Box::new(r)),
        _ => Expr::Div(Box::new(l), Box::new(r)),
    }
}

/// Precedence-climbing parse of one operand from `pos`: a literal, a channel,
/// a unary minus, or a parenthesized expression, followed by every infix
/// operator binding at least as tightly as `min_prec`. Returns the parsed
/// expression and the position after it. `fuel` bounds the recursion; every
/// call of the parser hands it one more than the tokens left, which the
/// grammar can never exhaust.
pub open spec fn spec_parse_at(toks: Seq<Token>, pos: int, min_prec: int, fuel: nat) -> Option<
    (Expr, int),
>
    decreases fuel, 1int,
{
    if !(0 <= pos < toks.len()) {
        None
    } else if fuel == 0 {
        None
    } else {
        match toks[pos] {
            Token::Num(n) => spec_parse_infix(toks, Expr::Lit(n), pos + 1, min_prec, fuel),
            Token::Chan(c) => spec_parse_infix(toks, Expr::Chan(c), pos + 1, min_prec, fuel),
            Token::Minus => match spec_parse_at(toks, pos + 1, 3, (fuel - 1) as nat) {
                Some(xp) => spec_parse_infix(
                    toks,
                    Expr::Neg(Box::new(xp.0)),
                    xp.1,
                    min_prec,
                    fuel,
                ),
                None => None,
            },
            Token::LParen => match spec_parse_at(toks, pos + 1, 1, (fuel - 1) as nat) {
                Some(xp) => if 0 <= xp.1 < toks.len() && toks[xp.1] == Token::RParen {
                    spec_parse_infix(toks, xp.0, xp.1 + 1, min_prec, fuel)
                } else {
                    None
                },
                None => None,
            },
            _ => None,
        }
    }
}

/// The infix loop of [`spec_parse_at`]: as long as the next token is a binary
/// operator binding at least as tightly as `min_prec`, parse its right
/// operand one level tighter (operators are left-associative) and fold it
/// into `lhs`.
pub open spec fn spec_parse_infix(
    toks: Seq<Token>,
    lhs: Expr,
    pos: int,
    min_prec: int,
    fuel: nat,
) -> Option<(Expr, int)>
    decreases fuel, 0int,
{
    if 0 <= pos < toks.len() && is_binop(toks[pos]) && prec_of(toks[pos]) >= min_prec {
        if fuel == 0 {
            None
        } else {
            match spec_parse_at(toks, pos + 1, prec_of(toks[pos]) + 1, (fuel - 1) as nat) {
                Some(rp) => spec_parse_infix(
                    toks,
                    mk_binop(toks[pos], lhs, rp.0),
                    rp.1,
                    min_prec,
                    (fuel - 1) as nat,
                ),
                None => None,
            }
        }
    } else {
        Some((lhs, pos))
    }
}

/// A whole token run parsed as one formula: one expression covering every
/// token.
pub open spec fn spec_parse(toks: Seq<Token>) -> Option<Expr> {
    match spec_parse_at(toks, 0, 1, (toks.len() + 1) as nat) {
        Some(ep) => if ep.1 == toks.len() {
            Some(ep.0)
        } else {
            None
        },
        None => None,
    }
}

/// Exec face of [`spec_parse_at`].
fn parse_at(toks: &Vec<Token>, pos: usize, min_prec: u32, Ghost(fuel): Ghost<nat>) -> (r: Option<
    (Expr, usize),
>)
    requires
        pos <= toks@.len(),
        fuel >= toks@.len() - pos + 1,
    ensures
        match spec_parse_at(toks@, pos as int, min_prec as int, fuel) {
            Some(ep) => r matches Some(rp) && rp.0 == ep.0 && rp.1 as int == ep.1,
            None => r is None,
        },
        r matches Some(rp) ==> pos < rp.1 <= toks@.len(),
    decreases fuel, 1int,
{
    if pos >= toks.len() {
        return None;
    }
    match toks[pos] {
        Token::Num(n) => parse_infix(toks, Expr::Lit(n), pos + 1, min_prec, Ghost(fuel)),
        Token::Chan(c) => parse_infix(toks, Expr::Chan(c), pos + 1, min_prec, Ghost(fuel)),
        Token::Minus => match parse_at(toks, pos + 1, 3, Ghost((fuel - 1) as nat)) {
            Some(xp) => parse_infix(toks, Expr::Neg(Box::new(xp.0)), xp.1, min_prec, Ghost(fuel)),
            None => None,
        },
        Token::LParen => match parse_at(toks, pos + 1, 1, Ghost((fuel - 1) as nat)) {
            Some(xp) => {
                let p = xp.1;
                if p < toks.len() && toks[p] == Token::RParen {
                    parse_infix(toks, xp.0, p + 1, min_prec, Ghost(fuel))
                } else {
                    None
                }
            },
            None => None,
        },
        _ => None,
    }
}

/// Exec face of [`spec_parse_infix`].
fn parse_infix(toks: &Vec<Token>, lhs: Expr, pos: usize, min_prec: u32, Ghost(fuel): Ghost<nat>) -> (r:
    Option<(Expr, usize)>)
    requires
        pos <= toks@.len(),
        fuel >= toks@.len() - pos + 1,
    ensures
        match spec_parse_infix(toks@, lhs, pos as int, min_prec as int, fuel) {
            Some(ep) => r matches Some(rp) && rp.0 == ep.0 && rp.1 as int == ep.1,
            None => r is None,
        },
        r matches Some(rp) ==> pos <= rp.1 <= toks@.len(),
    decreases fuel, 0int,
{
    if pos < toks.len() {
        let t = toks[pos];
        let is_op = t == Token::Plus || t == Token::Minus || t == Token::Star || t == Token::Slash;
        if is_op {
            let p: u32 = if t == Token::Star || t == Token::Slash {
                2
            } else {
                1
            };
            if p >= min_prec {
                match parse_at(toks, pos + 1, p + 1, Ghost((fuel - 1) as nat)) {
                    Some(rp) => {
                        let folded = match t {
                            Token::Plus => Expr::Add(Box::new(lhs), Box::new(rp.0)),
                            Token::Minus => Expr::Sub(Box::new(lhs), Box::new(rp.0)),
                            Token::Star => Expr::Mul(Box::new(lhs), Box::new(rp.0)),
                            _ => Expr::Div(Box::new(lhs), Box::new(rp.0)),
                        };
                        return parse_infix(toks, folded, rp.1, min_prec, Ghost((fuel - 1) as nat));
                    },
                    None => {
                        return None;
                    },
                }
            }
        }
    }
    Some((lhs, pos))
}

/// Parses a whole token run, demanding that every token is consumed.
fn parse(toks: &Vec<Token>) -> (r: Result<Expr, EvalError>)
    ensures
        match spec_parse(toks@) {
            Some(e) => r matches Ok(g) && g == e,
            None => r matches Err(e) && e@ == EvalFault::Parse,
        },
{
    let n = toks.len();
    match parse_at(toks, 0, 1, Ghost((n + 1) as nat)) {
        Some(ep) => {
            if ep.1 == n {
                Ok(ep.0)
            } else {
                Err(EvalError::Parse)
            }
        },
        None => Err(EvalError::Parse),
    }
}

/// Whether a formula references any primary-log channel.
pub open spec fn uses_data(e: Expr) -> bool
    decreases e,
{
    match e {
        Expr::Lit(_) => false,
        Expr::Chan(c) => c matches Channel::Data(_),
        Expr::Neg(x) => uses_data(*x),
        Expr::Add(l, r) => uses_data(*l) || uses_data(*r),
        Expr::Sub(l, r) => uses_data(*l) || uses_data(*r),
        Expr::Mul(l, r) => uses_data(*l) || uses_data(*r),
        Expr::Div(l, r) => uses_data(*l) || uses_data(*r),
    }
}

/// Whether a formula references any temperature-log channel.
pub open spec fn uses_temp(e: Expr) -> bool
    decreases e,
{
    match e {
        Expr::Lit(_) => false,
        Expr::Chan(c) => c matches Channel::Temp(_),
        Expr::Neg(x) => uses_temp(*x),
        Expr::Add(l, r) => uses_temp(*l) || uses_temp(*r),
        Expr::Sub(l, r) => uses_temp(*l) || uses_temp(*r),
        Expr::Mul(l, r) => uses_temp(*l) || uses_temp(*r),
        Expr::Div(l, r) => uses_temp(*l) || uses_temp(*r),
    }
}

/// Exec face of [`uses_data`].
fn expr_uses_data(e: &Expr) -> (r: bool)
    ensures
        r == uses_data(*e),
    decreases *e,
{
    match e {
        Expr::Lit(_) => false,
        Expr::Chan(c) => matches!(c, Channel::Data(_)),
        Expr::Neg(x) => expr_uses_data(x),
        Expr::Add(l, r) => expr_uses_data(l) || expr_uses_data(r),
        Expr::Sub(l, r) => expr_uses_data(l) || expr_uses_data(r),
        Expr::Mul(l, r) => expr_uses_data(l) || expr_uses_data(r),
        Expr::Div(l, r) => expr_uses_data(l) || expr_uses_data(r),
    }
}

/// Exec face of [`uses_temp`].
fn expr_uses_temp(e: &Expr) -> (r: bool)
    ensures
        r == uses_temp(*e),
    decreases *e,
{
    match e {
        Expr::Lit(_) => false,
        Expr::Chan(c) => matches!(c, Channel::Temp(_)),
        Expr::Neg(x) => expr_uses_temp(x),
        Expr::Add(l, r) => expr_uses_temp(l) || expr_uses_temp(r),
        Expr::Sub(l, r) => expr_uses_temp(l) || expr_uses_temp(r),
        Expr::Mul(l, r) => expr_uses_temp(l) || expr_uses_temp(r),
        Expr::Div(l, r) => expr_uses_temp(l) || expr_uses_temp(r),
    }
}

/// Whether every channel the formula references is present on this telemetry
/// entry; only such entries contribute a sample.
pub open spec fn data_present(e: Expr, d: DataEntry) -> bool
    decreases e,
{
    match e {
        Expr::Lit(_) => true,
        Expr::Chan(c) => match c {
            Channel::Data(dc) => data_value(d, dc) is Some,
            Channel::Temp(_) => true,
        },
        Expr::Neg(x) => data_present(*x, d),
        Expr::Add(l, r) => data_present(*l, d) && data_present(*r, d),
        Expr::Sub(l, r) => data_present(*l, d) && data_present(*r, d),
        Expr::Mul(l, r) => data_present(*l, d) && data_present(*r, d),
        Expr::Div(l, r) => data_present(*l, d) && data_present(*r, d),
    }
}

/// Whether every channel the formula references is present on this
/// temperature entry.
pub open spec fn temp_present(e: Expr, t: TempEntry) -> bool
    decreases e,
{
    match e {
        Expr::Lit(_) => true,
        Expr::Chan(c) => match c {
            Channel::Data(_) => true,
            Channel::Temp(tc) => temp_value(t, tc) is Some,
        },
        Expr::Neg(x) => temp_present(*x, t),
        Expr::Add(l, r) => temp_present(*l, t) && temp_present(*r, t),
        Expr::Sub(l, r) => temp_present(*l, t) && temp_present(*r, t),
        Expr::Mul(l, r) => temp_present(*l, t) && temp_present(*r, t),
        Expr::Div(l, r) => temp_present(*l, t) && temp_present(*r, t),
    }
}

/// The formula's value on one telemetry entry, in checked 64-bit arithmetic:
/// a zero divisor and any overflow are faults. Referenced channels are
/// assumed present (see [`data_present`]); an absent one reads as zero.
pub open spec fn eval_num_data(e: Expr, d: DataEntry) -> Result<i64, EvalFault>
    decreases e,
{
    match e {
        Expr::Lit(n) => Ok(n),
        Expr::Chan(c) => match c {
            Channel::Data(dc) => match data_value(d, dc) {
                Some(v) => Ok(v as i64),
                None => Ok(0),
            },
            Channel::Temp(_) => Ok(0),
        },
        Expr::Neg(x) => match eval_num_data(*x, d) {
            Ok(v) => match (0i64).checked_sub(v) {
                Some(w) => Ok(w),
                None => Err(EvalFault::Overflow),
            },
            Err(f) => Err(f),
        },
        Expr::Add(l, r) => match (eval_num_data(*l, d), eval_num_data(*r, d)) {
            (Err(f), _) => Err(f),
            (Ok(_), Err(f)) => Err(f),
            (Ok(lv), Ok(rv)) => match lv.checked_add(rv) {
                Some(w) => Ok(w),
                None => Err(EvalFault::Overflow),
            },
        },
        Expr::Sub(l, r) => match (eval_num_data(*l, d), eval_num_data(*r, d)) {
            (Err(f), _) => Err(f),
            (Ok(_), Err(f)) => Err(f),
            (Ok(lv), Ok(rv)) => match lv.checked_sub(rv) {
                Some(w) => Ok(w),
                None => Err(EvalFault::Overflow),
            },
        },
        Expr::Mul(l, r) => match (eval_num_data(*l, d), eval_num_data(*r, d)) {
            (Err(f), _) => Err(f),
            (Ok(_), Err(f)) => Err(f),
            (Ok(lv), Ok(rv)) => match lv.checked_mul(rv) {
                Some(w) => Ok(w),
                None => Err(EvalFault::Overflow),
            },
        },
        Expr::Div(l, r) => match (eval_num_data(*l, d), eval_num_data(*r, d)) {
            (Err(f), _) => Err(f),
            (Ok(_), Err(f)) => Err(f),
            (Ok(lv), Ok(rv)) => if rv == 0 {
                Err(EvalFault::DivisionByZero)
            } else {
                match lv.checked_div(rv) {
                    Some(w) => Ok(w),
                    None => Err(EvalFault::Overflow),
                }
            },
        },
    }
}

/// The formula's value on one temperature entry, exactly as
/// [`eval_num_data`].
pub open spec fn eval_num_temp(e: Expr, t: TempEntry) -> Result<i64, EvalFault>
    decreases e,
{
    match e {
        Expr::Lit(n) => Ok(n),
        Expr::Chan(c) => match c {
            Channel::Data(_) => Ok(0),
            Channel::Temp(tc) => match temp_value(t, tc) {
                Some(v) => Ok(v as i64),
                None => Ok(0),
            },
        },
        Expr::Neg(x) => match eval_num_temp(*x, t) {
            Ok(v) => match (0i64).checked_sub(v) {
                Some(w) => Ok(w),
                None => Err(EvalFault::Overflow),
            },
            Err(f) => Err(f),
        },
        Expr::Add(l, r) => match (eval_num_temp(*l, t), eval_num_temp(*r, t)) {
            (Err(f), _) => Err(f),
            (Ok(_), Err(f)) => Err(f),
            (Ok(lv), Ok(rv)) => match lv.checked_add(rv) {
                Some(w) => Ok(w),
                None => Err(EvalFault::Overflow),
            },
        },
        Expr::Sub(l, r) => match (eval_num_temp(*l, t), eval_num_temp(*r, t)) {
            (Err(f), _) => Err(f),
            (Ok(_), Err(f)) => Err(f),
            (Ok(lv), Ok(rv)) => match lv.checked_sub(rv) {
                Some(w) => Ok(w),
                None => Err(EvalFault::Overflow),
            },
        },
        Expr::Mul(l, r) => match (eval_num_temp(*l, t), eval_num_temp(*r, t)) {
            (Err(f), _) => Err(f),
            (Ok(_), Err(f)) => Err(f),
            (Ok(lv), Ok(rv)) => match lv.checked_mul(rv) {
                Some(w) => Ok(w),
                None => Err(EvalFault::Overflow),
            },
        },
        Expr::Div(l, r) => match (eval_num_temp(*l, t), eval_num_temp(*r, t)) {
            (Err(f), _) => Err(f),
            (Ok(_), Err(f)) => Err(f),
            (Ok(lv), Ok(rv)) => if rv == 0 {
                Err(EvalFault::DivisionByZero)
            } else {
                match lv.checked_div(rv) {
                    Some(w) => Ok(w),
                    None => Err(EvalFault::Overflow),
                }
            },
        },
    }
}

/// The series a formula traces over a telemetry log: one sample per entry on
/// which every referenced channel is present, in log order and at the entry's
/// timestamp; the first faulting entry fails the whole formula.
pub open spec fn spec_eval_data_series(e: Expr, log: Seq<DataEntry>) -> Result<
    Seq<Sample>,
    EvalFault,
>
    decreases log.len(),
{
    if log.len() == 0 {
        Ok(Seq::empty())
    } else {
        let entry = log[0];
        if data_present(e, entry) {
            match eval_num_data(e, entry) {
                Ok(v) => match spec_eval_data_series(e, log.skip(1)) {
                    Ok(rest) => Ok(seq![Sample { time: entry.time, value: v }] + rest),
                    Err(f) => Err(f),
                },
                Err(f) => Err(f),
            }
        } else {
            spec_eval_data_series(e, log.skip(1))
        }
    }
}

/// The series a formula traces over a temperature log, exactly as
/// [`spec_eval_data_series`].
pub open spec fn spec_eval_temp_series(e: Expr, log: Seq<TempEntry>) -> Result<
    Seq<Sample>,
    EvalFault,
>
    decreases log.len(),
{
    if log.len() == 0 {
        Ok(Seq::empty())
    } else {
        let entry = log[0];
        if temp_present(e, entry) {
            match eval_num_temp(e, entry) {
                Ok(v) => match spec_eval_temp_series(e, log.skip(1)) {
                    Ok(rest) => Ok(seq![Sample { time: entry.time, value: v }] + rest),
                    Err(f) => Err(f),
                },
                Err(f) => Err(f),
            }
        } else {
            spec_eval_temp_series(e, log.skip(1))
        }
    }
}

/// Exec face of [`data_present`].
fn check_data_present(e: &Expr, d: &DataEntry) -> (r: bool)
    ensures
        r == data_present(*e, *d),
    decreases *e,
{
    match e {
        Expr::Lit(_) => true,
        Expr::Chan(c) => match c {
            Channel::Data(dc) => crate::channel::data_channel_value(d, *dc).is_some(),
            Channel::Temp(_) => true,
        },
        Expr::Neg(x) => check_data_present(x, d),
        Expr::Add(l, r) => check_data_present(l, d) && check_data_present(r, d),
        Expr::Sub(l, r) => check_data_present(l, d) && check_data_present(r, d),
        Expr::Mul(l, r) => check_data_present(l, d) && check_data_present(r, d),
        Expr::Div(l, r) => check_data_present(l, d) && check_data_present(r, d),
    }
}

/// Exec face of [`temp_present`].
fn check_temp_present(e: &Expr, t: &TempEntry) -> (r: bool)
    ensures
        r == temp_present(*e, *t),
    decreases *e,
{
    match e {
        Expr::Lit(_) => true,
        Expr::Chan(c) => match c {
            Channel::Data(_) => true,
            Channel::Temp(tc) => crate::channel::temp_channel_value(t, *tc).is_some(),
        },
        Expr::Neg(x) => check_temp_present(x, t),
        Expr::Add(l, r) => check_temp_present(l, t) && check_temp_present(r, t),
        Expr::Sub(l, r) => check_temp_present(l, t) && check_temp_present(r, t),
        Expr::Mul(l, r) => check_temp_present(l, t) && check_temp_present(r, t),
        Expr::Div(l, r) => check_temp_present(l, t) && check_temp_present(r, t),
    }
}

/// Exec face of [`eval_num_data`].
fn run_num_data(e: &Expr, d: &DataEntry) -> (r: Result<i64, EvalError>)
    ensures
        match eval_num_data(*e, *d) {
            Ok(v) => r matches Ok(w) && w == v,
            Err(f) => r matches Err(g) && g@ == f,
        },
    decreases *e,
{
    match e {
        Expr::Lit(n) => Ok(*n),
        Expr::Chan(c) => match c {
            Channel::Data(dc) => match crate::channel::data_channel_value(d, *dc) {
                Some(v) => Ok(v as i64),
                None => Ok(0),
            },
            Channel::Temp(_) => Ok(0),
        },
        Expr::Neg(x) => match run_num_data(x, d) {
            Ok(v) => match (0i64).checked_sub(v) {
                Some(w) => Ok(w),
                None => Err(EvalError::Overflow),
            },
            Err(f) => Err(f),
        },
        Expr::Add(l, r) => match (run_num_data(l, d), run_num_data(r, d)) {
            (Err(f), _) => Err(f),
            (Ok(_), Err(f)) => Err(f),
            (Ok(lv), Ok(rv)) => match lv.checked_add(rv) {
                Some(w) => Ok(w),
                None => Err(EvalError::Overflow),
            },
        },
        Expr::Sub(l, r) => match (run_num_data(l, d), run_num_data(r, d)) {
            (Err(f), _) => Err(f),
            (Ok(_), Err(f)) => Err(f),
            (Ok(lv), Ok(rv)) => match lv.checked_sub(rv) {
                Some(w) => Ok(w),
                None => Err(EvalError::Overflow),
            },
        },
        Expr::Mul(l, r) => match (run_num_data(l, d), run_num_data(r, d)) {
            (Err(f), _) => Err(f),
            (Ok(_), Err(f)) => Err(f),
            (Ok(lv), Ok(rv)) => match lv.checked_mul(rv) {
                Some(w) => Ok(w),
                None => Err(EvalError::Overflow),
            },
        },
        Expr::Div(l, r) => match (run_num_data(l, d), run_num_data(r, d)) {
            (Err(f), _) => Err(f),
            (Ok(_), Err(f)) => Err(f),
            (Ok(lv), Ok(rv)) => {
                if rv == 0 {
                    Err(EvalError::DivisionByZero)
                } else {
                    match lv.checked_div(rv) {
                        Some(w) => Ok(w),
                        None => Err(EvalError::Overflow),
                    }
                }
            },
        },
    }
}

/// Exec face of [`eval_num_temp`].
fn run_num_temp(e: &Expr, t: &TempEntry) -> (r: Result<i64, EvalError>)
    ensures
        match eval_num_temp(*e, *t) {
            Ok(v) => r matches Ok(w) && w == v,
            Err(f) => r matches Err(g) && g@ == f,
        },
    decreases *e,
{
    match e {
        Expr::Lit(n) => Ok(*n),
        Expr::Chan(c) => match c {
            Channel::Data(_) => Ok(0),
            Channel::Temp(tc) => match crate::channel::temp_channel_value(t, *tc) {
                Some(v) => Ok(v as i64),
                None => Ok(0),
            },
        },
        Expr::Neg(x) => match run_num_temp(x, t) {
            Ok(v) => match (0i64).checked_sub(v) {
                Some(w) => Ok(w),
                None => Err(EvalError::Overflow),
            },
            Err(f) => Err(f),
        },
        Expr::Add(l, r) => match (run_num_temp(l, t), run_num_temp(r, t)) {
            (Err(f), _) => Err(f),
            (Ok(_), Err(f)) => Err(f),
            (Ok(lv), Ok(rv)) => match lv.checked_add(rv) {
                Some(w) => Ok(w),
                None => Err(EvalError::Overflow),
            },
        },
        Expr::Sub(l, r) => match (run_num_temp(l, t), run_num_temp(r, t)) {
            (Err(f), _) => Err(f),
            (Ok(_), Err(f)) => Err(f),
            (Ok(lv), Ok(rv)) => match lv.checked_sub(rv) {
                Some(w) => Ok(w),
                None => Err(EvalError::Overflow),
            },
        },
        Expr::Mul(l, r) => match (run_num_temp(l, t), run_num_temp(r, t)) {
            (Err(f), _) => Err(f),
            (Ok(_), Err(f)) => Err(f),
            (Ok(lv), Ok(rv)) => match lv.checked_mul(rv) {
                Some(w) => Ok(w),
                None => Err(EvalError::Overflow),
            },
        },
        Expr::Div(l, r) => match (run_num_temp(l, t), run_num_temp(r, t)) {
            (Err(f), _) => Err(f),
            (Ok(_), Err(f)) => Err(f),
            (Ok(lv), Ok(rv)) => {
                if rv == 0 {
                    Err(EvalError::DivisionByZero)
                } else {
                    match lv.checked_div(rv) {
                        Some(w) => Ok(w),
                        None => Err(EvalError::Overflow),
                    }
                }
            },
        },
    }
}

/// Joins a computed prefix onto the rest of a series evaluation.
pub open spec fn series_append(pre: Seq<Sample>, rest: Result<Seq<Sample>, EvalFault>) -> Result<
    Seq<Sample>,
    EvalFault,
> {
    match rest {
        Ok(ts) => Ok(pre + ts),
        Err(f) => Err(f),
    }
}

/// Walks the telemetry log and traces the formula's series over it.
fn run_data_series(e: &Expr, log: &Vec<DataEntry>) -> (r: Result<Vec<Sample>, EvalError>)
    ensures
        match spec_eval_data_series(*e, log@) {
            Ok(s) => r matches Ok(v) && v@ == s,
            Err(f) => r matches Err(g) && g@ == f,
        },
{
    let n = log.len();
    let mut out: Vec<Sample> = Vec::new();
    let mut i: usize = 0;
    proof {
        assert(log@.skip(0) =~= log@);
        match spec_eval_data_series(*e, log@) {
            Ok(s) => {
                assert(Seq::<Sample>::empty() + s =~= s);
            },
            Err(_) => {},
        }
    }
    while i < n
        invariant
            n == log@.len(),
            i <= n,
            spec_eval_data_series(*e, log@) == series_append(
                out@,
                spec_eval_data_series(*e, log@.skip(i as int)),
            ),
        decreases n - i,
    {
        proof {
            assert(log@.skip(i as int)[0] == log@[i as int]);
            assert(log@.skip(i as int).skip(1) =~= log@.skip(i + 1));
        }
        let entry = &log[i];
        if check_data_present(e, entry) {
            match run_num_data(e, entry) {
                Ok(v) => {
                    let smp = Sample { time: entry.time, value: v };
                    let ghost old_out = out@;
                    out.push(smp);
                    proof {
                        match spec_eval_data_series(*e, log@.skip(i + 1)) {
                            Ok(rest) => {
                                assert(old_out + (seq![smp] + rest) =~= out@ + rest);
                            },
                            Err(_) => {},
                        }
                    }
                },
                Err(f) => {
                    return Err(f);
                },
            }
        }
        i = i + 1;
    }
    proof {
        assert(log@.skip(n as int) =~= Seq::<DataEntry>::empty());
        assert(out@ + Seq::<Sample>::empty() =~= out@);
    }
    Ok(out)
}

/// Walks the temperature log and traces the formula's series over it.
fn run_temp_series(e: &Expr, log: &Vec<TempEntry>) -> (r: Result<Vec<Sample>, EvalError>)
    ensures
        match spec_eval_temp_series(*e, log@) {
            Ok(s) => r matches Ok(v) && v@ == s,
            Err(f) => r matches Err(g) && g@ == f,
        },
{
    let n = log.len();
    let mut out: Vec<Sample> = Vec::new();
    let mut i: usize = 0;
    proof {
        assert(log@.skip(0) =~= log@);
        match spec_eval_temp_series(*e, log@) {
            Ok(s) => {
                assert(Seq::<Sample>::empty() + s =~= s);
            },
            Err(_) => {},
        }
    }
    while i < n
        invariant
            n == log@.len(),
            i <= n,
            spec_eval_temp_series(*e, log@) == series_append(
                out@,
                spec_eval_temp_series(*e, log@.skip(i as int)),
            ),
        decreases n - i,
    {
        proof {
            assert(log@.skip(i as int)[0] == log@[i as int]);
            assert(log@.skip(i as int).skip(1) =~= log@.skip(i + 1));
        }
        let entry = &log[i];
        if check_temp_present(e, entry) {
            match run_num_temp(e, entry) {
                Ok(v) => {
                    let smp = Sample { time: entry.time, value: v };
                    let ghost old_out = out@;
                    out.push(smp);
                    proof {
                        match spec_eval_temp_series(*e, log@.skip(i + 1)) {
                            Ok(rest) => {
                                assert(old_out + (seq![smp] + rest) =~= out@ + rest);
                            },
                            Err(_) => {},
                        }
                    }
                },
                Err(f) => {
                    return Err(f);
                },
            }
        }
        i = i + 1;
    }
    proof {
        assert(log@.skip(n as int) =~= Seq::<TempEntry>::empty());
        assert(out@ + Seq::<Sample>::empty() =~= out@);
    }
    Ok(out)
}

/// What evaluating formula text against the two logs yields: lexing and
/// parsing faults and an unknown identifier fail the formula; a well-formed
/// formula is evaluated over the temperature log when it names a temperature
/// channel and over the primary log otherwise, and may not mix the two
/// sources, whose timestamps are independent.
pub open spec fn spec_eval(
    text: Seq<char>,
    dlog: Seq<DataEntry>,
    tlog: Seq<TempEntry>,
) -> Result<Seq<Sample>, EvalFault> {
    match spec_lex_at(text, 0) {
        Lexed::Fail(f) => Err(f),
        Lexed::Toks(toks) => match spec_parse(toks) {
            None => Err(EvalFault::Parse),
            Some(e) => if uses_data(e) && uses_temp(e) {
                Err(EvalFault::MixedSources)
            } else if uses_temp(e) {
                spec_eval_temp_series(e, tlog)
            } else {
                spec_eval_data_series(e, dlog)
            },
        },
    }
}

/// Parses one custom-channel formula and evaluates it against the session's
/// logs, yielding the derived series or the fault of that one formula.
pub fn eval(expr: &str, d: &crate::data::Data, t: &crate::data::Temp) -> (r: Result<
    Vec<Sample>,
    EvalError,
>)
    ensures
        match spec_eval(expr@, d.entries@, t.entries@) {
            Ok(s) => r matches Ok(v) && v@ == s,
            Err(f) => r matches Err(g) && g@ == f,
        },
{
    let toks = match lex(expr) {
        Ok(ts) => ts,
        Err(e) => {
            return Err(e);
        },
    };
    let ast = match parse(&toks) {
        Ok(a) => a,
        Err(e) => {
            return Err(e);
        },
    };
    if expr_uses_data(&ast) && expr_uses_temp(&ast) {
        Err(EvalError::MixedSources)
    } else if expr_uses_temp(&ast) {
        run_temp_series(&ast, &t.entries)
    } else {
        run_data_series(&ast, &d.entries)
    }
}

/// The sum of two channels that are present on every entry of a log
/// evaluates to one sample per entry: at the entry's timestamp, the
/// element-wise sum of what the two accessors project there — the series has
/// the log's length, and each of its samples is the sum of the two channels'
/// projections at the matching position and timestamp.
pub proof fn lemma_sum_formula_series(a: DataChannel, b: DataChannel, log: Seq<DataEntry>)
    requires
        forall|i: int|
            0 <= i < log.len() ==> (#[trigger] data_value(log[i], a)) is Some && data_value(
                log[i],
                b,
            ) is Some,
    ensures
        ({
            let e = Expr::Add(
                Box::new(Expr::Chan(Channel::Data(a))),
                Box::new(Expr::Chan(Channel::Data(b))),
            );
            &&& spec_eval_data_series(e, log) matches Ok(s)
            &&& spec_eval_data_series(e, log)->Ok_0.len() == log.len()
            &&& forall|k: int|
                0 <= k < log.len() ==> #[trigger] spec_eval_data_series(e, log)->Ok_0[k] == (Sample {
                    time: log[k].time,
                    value: (data_value(log[k], a)->0 as i64 + data_value(log[k], b)->0 as i64) as i64,
                })
            &&& forall|k: int|
                0 <= k < log.len() ==> #[trigger] spec_eval_data_series(e, log)->Ok_0[k] == (Sample {
                    time: crate::channel::projected_data(log, a)[k].time,
                    value: (crate::channel::projected_data(log, a)[k].value
                        + crate::channel::projected_data(log, b)[k].value) as i64,
                })
        }),
    decreases log.len(),
{
    assert forall|i: int| 0 <= i < log.len() implies (#[trigger] data_value(log[i], b))
        is Some by {
        assert(data_value(log[i], a) is Some);
    }
    crate::channel::lemma_projected_all_present(log, a);
    crate::channel::lemma_projected_all_present(log, b);
    let e = Expr::Add(
        Box::new(Expr::Chan(Channel::Data(a))),
        Box::new(Expr::Chan(Channel::Data(b))),
    );
    if log.len() > 0 {
        assert(forall|i: int|
            0 <= i < log.skip(1).len() ==> (#[trigger] data_value(log.skip(1)[i], a)) is Some
                && data_value(log.skip(1)[i], b) is Some);
        lemma_sum_formula_series(a, b, log.skip(1));
        let ca = Expr::Chan(Channel::Data(a));
        let cb = Expr::Chan(Channel::Data(b));
        let va = data_value(log[0], a)->0 as i64;
        let vb = data_value(log[0], b)->0 as i64;
        assert(data_present(ca, log[0]));
        assert(data_present(cb, log[0]));
        assert(data_present(e, log[0]));
        assert(eval_num_data(ca, log[0]) == Ok::<i64, EvalFault>(va));
        assert(eval_num_data(cb, log[0]) == Ok::<i64, EvalFault>(vb));
        assert(eval_num_data(e, log[0]) == Ok::<i64, EvalFault>((va + vb) as i64));
        let rest = spec_eval_data_series(e, log.skip(1))->Ok_0;
        let s = spec_eval_data_series(e, log)->Ok_0;
        assert(s == seq![Sample { time: log[0].time, value: (va + vb) as i64 }] + rest);
        assert forall|k: int| 0 <= k < log.len() implies #[trigger] s[k] == (Sample {
            time: log[k].time,
            value: (data_value(log[k], a)->0 as i64 + data_value(log[k], b)->0 as i64) as i64,
        }) by {
            if k > 0 {
                assert(s[k] == rest[k - 1]);
                assert(log.skip(1)[k - 1] == log[k]);
            }
        }
    }
}

/// One user-authored custom channel: a display name and the formula text.
pub struct CustomPlot {
    pub name: String,
    pub expr: String,
}

/// The outcome kept for one custom channel: its derived series, or the fault
/// of that one formula — never a session-wide failure.
pub enum CustomValues {
    Values(Vec<Sample>),
    Error(EvalError),
}

/// Whether a kept custom-channel outcome is exactly what evaluation yields.
pub open spec fn custom_ok(c: CustomValues, r: Result<Seq<Sample>, EvalFault>) -> bool {
    match r {
        Ok(s) => c matches CustomValues::Values(v) && v@ == s,
        Err(f) => c matches CustomValues::Error(e) && e@ == f,
    }
}

impl CustomValues {
    /// Keeps one formula's evaluation outcome.
    pub fn from_result(r: Result<Vec<Sample>, EvalError>) -> (c: CustomValues)
        ensures
            match r {
                Ok(v) => c matches CustomValues::Values(w) && w == v,
                Err(e) => c matches CustomValues::Error(g) && g == e,
            },
    {
        match r {
            Ok(v) => CustomValues::Values(v),
            Err(e) => CustomValues::Error(e),
        }
    }
}

} // verus!
