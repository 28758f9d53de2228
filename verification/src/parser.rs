//! Recursive-descent parser for the pattern language.
//!
//! The surface syntax is: alternation (`|`, lowest precedence),
//! concatenation, quantification (`?`, `*`, `+`, `{n}`, `{n~Dist(args)}`),
//! atoms (literals, escaped literals, `.`, `\d`, `\s`, bracket classes
//! with optional `~Dist(args)` suffix and POSIX names inside), groups in
//! parentheses, and the anchors `^` and `$` at the ends of the pattern.
//!
//! Every parsing function is mirrored by a spec function of the same
//! shape; `parse` is proved to return exactly what [`spec_parse`] denotes.

use vstd::prelude::*;

use crate::ast::{ast_view, AstNode, AstV, Kind, KindV};
use crate::charclass::{build_chars, spec_build_chars};
use crate::distribution::{
    named_view, probs_view, spec_complete_from, spec_lookup, Dist, DistLink, DistLinkV, DistName,
    DistV,
};
use crate::rational::{norm, prob_of, Prob};

verus! {

/// Why a pattern was rejected.
#[derive(Debug, Clone, Copy, PartialEq, Eq, Structural)]
pub enum ParseReason {
    /// A character that cannot start or continue the construct here.
    UnexpectedChar,
    /// The pattern ended inside a construct.
    UnexpectedEnd,
    /// A backslash escape that names neither a class nor a special
    /// character.
    BadEscape,
    /// A bracket class with no members.
    EmptyClass,
    /// A bracket inside a class that is not a recognized POSIX class.
    BadPosixClass,
    /// A number was expected.
    BadNumber,
    /// A count or a decimal too large for 64-bit arithmetic.
    NumberTooLarge,
    /// The same parameter name given twice.
    DuplicateParam,
    /// A distribution name outside the recognized set.
    UnknownDistribution,
    /// A distribution parameter outside its admissible range.
    NumericDomain,
    /// A derived weight that cannot be represented exactly.
    ArithmeticOverflow,
}

/// A rejected pattern: where, and why.
#[derive(Debug, Clone, Copy, PartialEq, Eq, Structural)]
pub struct ParseError {
    pub location: usize,
    pub reason: ParseReason,
}

pub open spec fn err_at(pos: int, reason: ParseReason) -> ParseError {
    ParseError { location: pos as usize, reason }
}

/// Characters with a syntactic role, which a literal must escape.
pub open spec fn spec_is_special(c: char) -> bool {
    ||| c == '^'
    ||| c == '$'
    ||| c == '.'
    ||| c == '?'
    ||| c == '*'
    ||| c == '+'
    ||| c == '{'
    ||| c == '}'
    ||| c == '('
    ||| c == ')'
    ||| c == '['
    ||| c == ']'
    ||| c == '|'
    ||| c == '\\'
}

fn is_special(c: char) -> (r: bool)
    ensures
        r == spec_is_special(c),
{
    c == '^' || c == '$' || c == '.' || c == '?' || c == '*' || c == '+' || c == '{' || c == '}'
        || c == '(' || c == ')' || c == '[' || c == ']' || c == '|' || c == '\\'
}

pub open spec fn spec_is_digit(c: char) -> bool {
    '0' <= c <= '9'
}

fn is_digit(c: char) -> (r: bool)
    ensures
        r == spec_is_digit(c),
{
    '0' <= c && c <= '9'
}

pub open spec fn spec_digit_val(c: char) -> u64 {
    (c as u32 - '0' as u32) as u64
}

fn digit_val(c: char) -> (r: u64)
    requires
        spec_is_digit(c),
    ensures
        r == spec_digit_val(c),
{
    (c as u32 - '0' as u32) as u64
}

pub open spec fn spec_is_letter(c: char) -> bool {
    ('a' <= c <= 'z') || ('A' <= c <= 'Z')
}

fn is_letter(c: char) -> (r: bool)
    ensures
        r == spec_is_letter(c),
{
    ('a' <= c && c <= 'z') || ('A' <= c && c <= 'Z')
}

/// Whether a character can begin an atom (and hence continue a
/// concatenation).
pub open spec fn spec_is_atom_start(c: char) -> bool {
    !(c == '|' || c == ')' || c == '$')
}

fn is_atom_start(c: char) -> (r: bool)
    ensures
        r == spec_is_atom_start(c),
{
    !(c == '|' || c == ')' || c == '$')
}

/// A maximal run of decimal digits folded into `acc`; rejected when the
/// value leaves 64 bits.
pub open spec fn spec_digits_u64(s: Seq<char>, pos: int, acc: u64) -> Result<
    (u64, int),
    ParseError,
>
    decreases s.len() - pos,
{
    if 0 <= pos < s.len() && spec_is_digit(s[pos]) {
        let d = spec_digit_val(s[pos]);
        if acc > (u64::MAX - d) / 10 {
            Err(err_at(pos, ParseReason::NumberTooLarge))
        } else {
            spec_digits_u64(s, pos + 1, (acc * 10 + d) as u64)
        }
    } else {
        Ok((acc, pos))
    }
}

pub open spec fn u64_res_matches(
    r: Result<(u64, usize), ParseError>,
    s: Result<(u64, int), ParseError>,
) -> bool {
    match (r, s) {
        (Ok((v, p)), Ok((sv, sp))) => v == sv && p as int == sp,
        (Err(e), Err(se)) => e == se,
        _ => false,
    }
}

fn digits_u64(s: &Vec<char>, pos: usize, acc: u64) -> (r: Result<(u64, usize), ParseError>)
    requires
        pos <= s@.len(),
    ensures
        u64_res_matches(r, spec_digits_u64(s@, pos as int, acc)),
        r matches Ok((_, p)) ==> pos <= p <= s@.len(),
    decreases s@.len() - pos,
{
    if pos < s.len() && is_digit(s[pos]) {
        let d = digit_val(s[pos]);
        if acc > (u64::MAX - d) / 10 {
            Err(ParseError { location: pos, reason: ParseReason::NumberTooLarge })
        } else {
            digits_u64(s, pos + 1, acc * 10 + d)
        }
    } else {
        Ok((acc, pos))
    }
}

/// A maximal run of fraction digits, scaling `num / den` by ten per
/// digit; rejected when either component leaves 64 bits.
pub open spec fn spec_digits_frac(s: Seq<char>, pos: int, num: u64, den: u64) -> Result<
    ((u64, u64), int),
    ParseError,
>
    decreases s.len() - pos,
{
    if 0 <= pos < s.len() && spec_is_digit(s[pos]) {
        let d = spec_digit_val(s[pos]);
        if num > (u64::MAX - d) / 10 || den > u64::MAX / 10 {
            Err(err_at(pos, ParseReason::NumberTooLarge))
        } else {
            spec_digits_frac(s, pos + 1, (num * 10 + d) as u64, (den * 10) as u64)
        }
    } else {
        Ok(((num, den), pos))
    }
}

pub open spec fn frac_res_matches(
    r: Result<((u64, u64), usize), ParseError>,
    s: Result<((u64, u64), int), ParseError>,
) -> bool {
    match (r, s) {
        (Ok((v, p)), Ok((sv, sp))) => v == sv && p as int == sp,
        (Err(e), Err(se)) => e == se,
        _ => false,
    }
}

fn digits_frac(s: &Vec<char>, pos: usize, num: u64, den: u64) -> (r: Result<
    ((u64, u64), usize),
    ParseError,
>)
    requires
        pos <= s@.len(),
    ensures
        frac_res_matches(r, spec_digits_frac(s@, pos as int, num, den)),
        r matches Ok(((_, d), p)) ==> pos <= p <= s@.len() && d >= den,
    decreases s@.len() - pos,
{
    if pos < s.len() && is_digit(s[pos]) {
        let d = digit_val(s[pos]);
        if num > (u64::MAX - d) / 10 || den > u64::MAX / 10 {
            Err(ParseError { location: pos, reason: ParseReason::NumberTooLarge })
        } else {
            digits_frac(s, pos + 1, num * 10 + d, den * 10)
        }
    } else {
        Ok(((num, den), pos))
    }
}

/// A nonnegative decimal number `digits[.digits]` as an exact weight.
pub open spec fn spec_number(s: Seq<char>, pos: int) -> Result<(Prob, int), ParseError> {
    match spec_digits_u64(s, pos, 0) {
        Err(e) => Err(e),
        Ok((n1, p1)) => {
            if 0 <= p1 < s.len() && s[p1] == '.' {
                match spec_digits_frac(s, p1 + 1, n1, 1) {
                    Err(e) => Err(e),
                    Ok(((n2, d2), p2)) => {
                        if p1 == pos && p2 == p1 + 1 {
                            Err(err_at(pos, ParseReason::BadNumber))
                        } else {
                            Ok((prob_of(norm(n2 as nat, d2 as nat)), p2))
                        }
                    },
                }
            } else if p1 == pos {
                Err(err_at(pos, ParseReason::BadNumber))
            } else {
                Ok((prob_of(norm(n1 as nat, 1)), p1))
            }
        },
    }
}

pub open spec fn prob_res_matches(
    r: Result<(Prob, usize), ParseError>,
    s: Result<(Prob, int), ParseError>,
) -> bool {
    match (r, s) {
        (Ok((v, p)), Ok((sv, sp))) => v == sv && p as int == sp,
        (Err(e), Err(se)) => e == se,
        _ => false,
    }
}

fn number(s: &Vec<char>, pos: usize) -> (r: Result<(Prob, usize), ParseError>)
    requires
        pos <= s@.len(),
    ensures
        prob_res_matches(r, spec_number(s@, pos as int)),
        r matches Ok((_, p)) ==> pos <= p <= s@.len(),
{
    match digits_u64(s, pos, 0) {
        Err(e) => Err(e),
        Ok((n1, p1)) => {
            if p1 < s.len() && s[p1] == '.' {
                match digits_frac(s, p1 + 1, n1, 1) {
                    Err(e) => Err(e),
                    Ok(((n2, d2), p2)) => {
                        if p1 == pos && p2 == p1 + 1 {
                            Err(ParseError { location: pos, reason: ParseReason::BadNumber })
                        } else {
                            let p = Prob::new(n2, d2);
                            proof {
                                crate::rational::lemma_norm_value(n2 as nat, d2 as nat);
                                crate::rational::lemma_prob_of(p, norm(n2 as nat, d2 as nat));
                            }
                            Ok((p, p2))
                        }
                    },
                }
            } else if p1 == pos {
                Err(ParseError { location: pos, reason: ParseReason::BadNumber })
            } else {
                let p = Prob::new(n1, 1);
                proof {
                    crate::rational::lemma_norm_value(n1 as nat, 1);
                    crate::rational::lemma_prob_of(p, norm(n1 as nat, 1));
                }
                Ok((p, p1))
            }
        },
    }
}

/// Where the letter run starting at `pos` ends.
pub open spec fn spec_name_end(s: Seq<char>, pos: int) -> int
    decreases s.len() - pos,
{
    if 0 <= pos < s.len() && spec_is_letter(s[pos]) {
        spec_name_end(s, pos + 1)
    } else {
        pos
    }
}

fn name_end(s: &Vec<char>, pos: usize) -> (r: usize)
    requires
        pos <= s@.len(),
    ensures
        r as int == spec_name_end(s@, pos as int),
        pos <= r <= s@.len(),
    decreases s@.len() - pos,
{
    if pos < s.len() && is_letter(s[pos]) {
        name_end(s, pos + 1)
    } else {
        pos
    }
}

/// Case-insensitive match of one character against a lower/upper pair.
pub open spec fn spec_ci(c: char, lo: char, up: char) -> bool {
    c == lo || c == up
}

/// Which distribution the letter run `s[pos..end]` names,
/// case-insensitively.
pub open spec fn spec_dist_name_at(s: Seq<char>, pos: int, end: int) -> DistName {
    let n = end - pos;
    if n == 5 && spec_ci(s[pos], 'c', 'C') && spec_ci(s[pos + 1], 'o', 'O') && spec_ci(
        s[pos + 2],
        'n',
        'N',
    ) && spec_ci(s[pos + 3], 's', 'S') && spec_ci(s[pos + 4], 't', 'T') {
        DistName::Const
    } else if n == 3 && spec_ci(s[pos], 'g', 'G') && spec_ci(s[pos + 1], 'e', 'E') && spec_ci(
        s[pos + 2],
        'o',
        'O',
    ) {
        DistName::Geo
    } else if n == 3 && spec_ci(s[pos], 'b', 'B') && spec_ci(s[pos + 1], 'e', 'E') && spec_ci(
        s[pos + 2],
        'r',
        'R',
    ) {
        DistName::Ber
    } else if n == 3 && spec_ci(s[pos], 'b', 'B') && spec_ci(s[pos + 1], 'i', 'I') && spec_ci(
        s[pos + 2],
        'n',
        'N',
    ) {
        DistName::Bin
    } else if n == 3 && spec_ci(s[pos], 'c', 'C') && spec_ci(s[pos + 1], 'a', 'A') && spec_ci(
        s[pos + 2],
        't',
        'T',
    ) {
        DistName::Cat
    } else if n == 4 && spec_ci(s[pos], 'z', 'Z') && spec_ci(s[pos + 1], 'i', 'I') && spec_ci(
        s[pos + 2],
        'p',
        'P',
    ) && spec_ci(s[pos + 3], 'f', 'F') {
        DistName::Zipf
    } else {
        DistName::Unknown
    }
}

fn dist_name_at(s: &Vec<char>, pos: usize, end: usize) -> (r: DistName)
    requires
        pos <= end <= s@.len(),
    ensures
        r == spec_dist_name_at(s@, pos as int, end as int),
{
    let n = end - pos;
    if n == 5 && (s[pos] == 'c' || s[pos] == 'C') && (s[pos + 1] == 'o' || s[pos + 1] == 'O') && (
    s[pos + 2] == 'n' || s[pos + 2] == 'N') && (s[pos + 3] == 's' || s[pos + 3] == 'S') && (s[pos
        + 4] == 't' || s[pos + 4] == 'T') {
        DistName::Const
    } else if n == 3 && (s[pos] == 'g' || s[pos] == 'G') && (s[pos + 1] == 'e' || s[pos + 1] == 'E')
        && (s[pos + 2] == 'o' || s[pos + 2] == 'O') {
        DistName::Geo
    } else if n == 3 && (s[pos] == 'b' || s[pos] == 'B') && (s[pos + 1] == 'e' || s[pos + 1] == 'E')
        && (s[pos + 2] == 'r' || s[pos + 2] == 'R') {
        DistName::Ber
    } else if n == 3 && (s[pos] == 'b' || s[pos] == 'B') && (s[pos + 1] == 'i' || s[pos + 1] == 'I')
        && (s[pos + 2] == 'n' || s[pos + 2] == 'N') {
        DistName::Bin
    } else if n == 3 && (s[pos] == 'c' || s[pos] == 'C') && (s[pos + 1] == 'a' || s[pos + 1] == 'A')
        && (s[pos + 2] == 't' || s[pos + 2] == 'T') {
        DistName::Cat
    } else if n == 4 && (s[pos] == 'z' || s[pos] == 'Z') && (s[pos + 1] == 'i' || s[pos + 1] == 'I')
        && (s[pos + 2] == 'p' || s[pos + 2] == 'P') && (s[pos + 3] == 'f' || s[pos + 3] == 'F') {
        DistName::Zipf
    } else {
        DistName::Unknown
    }
}

/// One parameter list entry and those after it: `value` or `key=value`,
/// separated by commas, closed by a parenthesis. Repeated keys are
/// rejected.
pub open spec fn spec_params_more(
    s: Seq<char>,
    pos: int,
    acc_pos: Seq<Prob>,
    acc_named: Seq<(char, Prob)>,
) -> Result<((Seq<Prob>, Seq<(char, Prob)>), int), ParseError>
    decreases s.len() - pos,
{
    let named = 0 <= pos && pos < s.len() && pos + 1 < s.len() && s[pos + 1] == '=';
    let parsed: Result<((Seq<Prob>, Seq<(char, Prob)>), int), ParseError> = if named {
        let k = s[pos];
        match spec_number(s, pos + 2) {
            Err(e) => Err(e),
            Ok((v, p2)) => {
                if spec_lookup(named_view(acc_named), k) is Some {
                    Err(err_at(pos, ParseReason::DuplicateParam))
                } else {
                    Ok(((acc_pos, acc_named.push((k, v))), p2))
                }
            },
        }
    } else {
        match spec_number(s, pos) {
            Err(e) => Err(e),
            Ok((v, p2)) => Ok(((acc_pos.push(v), acc_named), p2)),
        }
    };
    match parsed {
        Err(e) => Err(e),
        Ok(((ap, an), p2)) => {
            if p2 <= pos || s.len() < p2 {
                // grammar progress check; also drives termination
                Err(err_at(p2, ParseReason::UnexpectedChar))
            } else if p2 < s.len() && s[p2] == ',' {
                spec_params_more(s, p2 + 1, ap, an)
            } else if p2 < s.len() && s[p2] == ')' {
                Ok(((ap, an), p2 + 1))
            } else if p2 < s.len() {
                Err(err_at(p2, ParseReason::UnexpectedChar))
            } else {
                Err(err_at(p2, ParseReason::UnexpectedEnd))
            }
        },
    }
}

/// The optional parenthesised parameter list of a distribution clause.
pub open spec fn spec_params(s: Seq<char>, pos: int) -> Result<
    ((Seq<Prob>, Seq<(char, Prob)>), int),
    ParseError,
> {
    if 0 <= pos < s.len() && s[pos] == '(' {
        if pos + 1 < s.len() && s[pos + 1] == ')' {
            Ok(((Seq::empty(), Seq::empty()), pos + 2))
        } else {
            spec_params_more(s, pos + 1, Seq::empty(), Seq::empty())
        }
    } else {
        Ok(((Seq::empty(), Seq::empty()), pos))
    }
}

pub open spec fn params_res_matches(
    r: Result<((Vec<Prob>, Vec<(char, Prob)>), usize), ParseError>,
    s: Result<((Seq<Prob>, Seq<(char, Prob)>), int), ParseError>,
) -> bool {
    match (r, s) {
        (Ok(((rp, rn), p)), Ok(((sp, sn), ps))) => rp@ == sp && rn@ == sn && p as int == ps,
        (Err(e), Err(es)) => e == es,
        _ => false,
    }
}

fn params_more(s: &Vec<char>, pos: usize, acc_pos: Vec<Prob>, acc_named: Vec<(char, Prob)>) -> (r:
    Result<((Vec<Prob>, Vec<(char, Prob)>), usize), ParseError>)
    requires
        pos <= s@.len(),
    ensures
        params_res_matches(r, spec_params_more(s@, pos as int, acc_pos@, acc_named@)),
        r matches Ok((_, p)) ==> pos <= p <= s@.len(),
    decreases s@.len() - pos,
{
    let mut acc_pos = acc_pos;
    let mut acc_named = acc_named;
    let named = pos < s.len() && pos + 1 < s.len() && s[pos + 1] == '=';
    let p2: usize;
    if named {
        let k = s[pos];
        match number(s, pos + 2) {
            Err(e) => {
                return Err(e);
            },
            Ok((v, p)) => {
                if lookup_is_some(&acc_named, k) {
                    return Err(ParseError { location: pos, reason: ParseReason::DuplicateParam });
                }
                acc_named.push((k, v));
                p2 = p;
            },
        }
    } else {
        match number(s, pos) {
            Err(e) => {
                return Err(e);
            },
            Ok((v, p)) => {
                acc_pos.push(v);
                p2 = p;
            },
        }
    }
    if p2 <= pos {
        // grammar progress check; also drives termination
        Err(ParseError { location: p2, reason: ParseReason::UnexpectedChar })
    } else if p2 < s.len() && s[p2] == ',' {
        params_more(s, p2 + 1, acc_pos, acc_named)
    } else if p2 < s.len() && s[p2] == ')' {
        Ok(((acc_pos, acc_named), p2 + 1))
    } else if p2 < s.len() {
        Err(ParseError { location: p2, reason: ParseReason::UnexpectedChar })
    } else {
        Err(ParseError { location: p2, reason: ParseReason::UnexpectedEnd })
    }
}

fn params(s: &Vec<char>, pos: usize) -> (r: Result<
    ((Vec<Prob>, Vec<(char, Prob)>), usize),
    ParseError,
>)
    requires
        pos <= s@.len(),
    ensures
        params_res_matches(r, spec_params(s@, pos as int)),
        r matches Ok((_, p)) ==> pos <= p <= s@.len(),
{
    if pos < s.len() && s[pos] == '(' {
        if pos + 1 < s.len() && s[pos + 1] == ')' {
            Ok(((Vec::new(), Vec::new()), pos + 2))
        } else {
            params_more(s, pos + 1, Vec::new(), Vec::new())
        }
    } else {
        Ok(((Vec::new(), Vec::new()), pos))
    }
}

/// Whether a key already occurs in the named parameter list.
fn lookup_is_some(named: &Vec<(char, Prob)>, k: char) -> (r: bool)
    ensures
        r == (spec_lookup(named_view(named@), k) is Some),
{
    match crate::distribution::lookup_named(named, k) {
        Some(_) => true,
        None => false,
    }
}

/// A distribution clause after `~`: a name, then optional parameters.
pub open spec fn spec_dist_clause(s: Seq<char>, pos: int) -> Result<
    ((DistName, Seq<Prob>, Seq<(char, Prob)>), int),
    ParseError,
> {
    let end = spec_name_end(s, pos);
    if end == pos {
        Err(err_at(pos, ParseReason::UnknownDistribution))
    } else {
        let dn = spec_dist_name_at(s, pos, end);
        match spec_params(s, end) {
            Err(e) => Err(e),
            Ok(((ap, an), p2)) => Ok(((dn, ap, an), p2)),
        }
    }
}

pub open spec fn clause_res_matches(
    r: Result<((DistName, Vec<Prob>, Vec<(char, Prob)>), usize), ParseError>,
    s: Result<((DistName, Seq<Prob>, Seq<(char, Prob)>), int), ParseError>,
) -> bool {
    match (r, s) {
        (Ok(((rd, rp, rn), p)), Ok(((sd, sp, sn), ps))) => rd == sd && rp@ == sp && rn@ == sn && p
            as int == ps,
        (Err(e), Err(es)) => e == es,
        _ => false,
    }
}

fn dist_clause(s: &Vec<char>, pos: usize) -> (r: Result<
    ((DistName, Vec<Prob>, Vec<(char, Prob)>), usize),
    ParseError,
>)
    requires
        pos <= s@.len(),
    ensures
        clause_res_matches(r, spec_dist_clause(s@, pos as int)),
        r matches Ok((_, p)) ==> pos <= p <= s@.len(),
{
    let end = name_end(s, pos);
    if end == pos {
        Err(ParseError { location: pos, reason: ParseReason::UnknownDistribution })
    } else {
        let dn = dist_name_at(s, pos, end);
        match params(s, end) {
            Err(e) => Err(e),
            Ok(((ap, an), p2)) => Ok(((dn, ap, an), p2)),
        }
    }
}

/// Whether `s[pos..]` begins with the POSIX class `[:digit:]`.
pub open spec fn spec_posix_digit_at(s: Seq<char>, pos: int) -> bool {
    &&& 0 <= pos
    &&& pos + 9 <= s.len()
    &&& s[pos] == '['
    &&& s[pos + 1] == ':'
    &&& s[pos + 2] == 'd'
    &&& s[pos + 3] == 'i'
    &&& s[pos + 4] == 'g'
    &&& s[pos + 5] == 'i'
    &&& s[pos + 6] == 't'
    &&& s[pos + 7] == ':'
    &&& s[pos + 8] == ']'
}

fn posix_digit_at(s: &Vec<char>, pos: usize) -> (r: bool)
    requires
        pos <= s@.len(),
    ensures
        r == spec_posix_digit_at(s@, pos as int),
{
    s.len() >= 9 && pos <= s.len() - 9 && s[pos] == '[' && s[pos + 1] == ':' && s[pos + 2] == 'd'
        && s[pos + 3] == 'i' && s[pos + 4] == 'g' && s[pos + 5] == 'i' && s[pos + 6] == 't' && s[pos
        + 7] == ':' && s[pos + 8] == ']'
}

/// Whether `s[pos..]` begins with the POSIX class `[:space:]`.
pub open spec fn spec_posix_space_at(s: Seq<char>, pos: int) -> bool {
    &&& 0 <= pos
    &&& pos + 9 <= s.len()
    &&& s[pos] == '['
    &&& s[pos + 1] == ':'
    &&& s[pos + 2] == 's'
    &&& s[pos + 3] == 'p'
    &&& s[pos + 4] == 'a'
    &&& s[pos + 5] == 'c'
    &&& s[pos + 6] == 'e'
    &&& s[pos + 7] == ':'
    &&& s[pos + 8] == ']'
}

fn posix_space_at(s: &Vec<char>, pos: usize) -> (r: bool)
    requires
        pos <= s@.len(),
    ensures
        r == spec_posix_space_at(s@, pos as int),
{
    s.len() >= 9 && pos <= s.len() - 9 && s[pos] == '[' && s[pos + 1] == ':' && s[pos + 2] == 's'
        && s[pos + 3] == 'p' && s[pos + 4] == 'a' && s[pos + 5] == 'c' && s[pos + 6] == 'e' && s[pos
        + 7] == ':' && s[pos + 8] == ']'
}

/// The members of a bracket class, up to the closing bracket or the
/// distribution separator: plain characters, `\d`/`\s` expansions,
/// escaped members, and POSIX classes.
pub open spec fn spec_class_items(s: Seq<char>, pos: int, acc: Seq<char>) -> Result<
    (Seq<char>, int),
    ParseError,
>
    decreases s.len() - pos,
{
    if !(0 <= pos < s.len()) {
        Err(err_at(pos, ParseReason::UnexpectedEnd))
    } else {
        let c = s[pos];
        if c == ']' || c == '~' {
            Ok((acc, pos))
        } else if c == '\\' {
            if pos + 1 >= s.len() {
                Err(err_at(pos, ParseReason::UnexpectedEnd))
            } else {
                let c2 = s[pos + 1];
                let add = if c2 == 'd' || c2 == 's' {
                    spec_build_chars(c2)
                } else {
                    seq![c2]
                };
                spec_class_items(s, pos + 2, acc + add)
            }
        } else if c == '[' {
            if spec_posix_digit_at(s, pos) {
                spec_class_items(s, pos + 9, acc + spec_build_chars('d'))
            } else if spec_posix_space_at(s, pos) {
                spec_class_items(s, pos + 9, acc + spec_build_chars('s'))
            } else {
                Err(err_at(pos, ParseReason::BadPosixClass))
            }
        } else {
            spec_class_items(s, pos + 1, acc + seq![c])
        }
    }
}

pub open spec fn chars_res_matches(
    r: Result<(Vec<char>, usize), ParseError>,
    s: Result<(Seq<char>, int), ParseError>,
) -> bool {
    match (r, s) {
        (Ok((rv, p)), Ok((sv, ps))) => rv@ == sv && p as int == ps,
        (Err(e), Err(es)) => e == es,
        _ => false,
    }
}

fn class_items(s: &Vec<char>, pos: usize, acc: Vec<char>) -> (r: Result<
    (Vec<char>, usize),
    ParseError,
>)
    requires
        pos <= s@.len(),
    ensures
        chars_res_matches(r, spec_class_items(s@, pos as int, acc@)),
        r matches Ok((_, p)) ==> pos <= p <= s@.len(),
    decreases s@.len() - pos,
{
    let mut acc = acc;
    let ghost acc0 = acc@;
    if pos >= s.len() {
        Err(ParseError { location: pos, reason: ParseReason::UnexpectedEnd })
    } else {
        let c = s[pos];
        if c == ']' || c == '~' {
            Ok((acc, pos))
        } else if c == '\\' {
            if pos + 1 >= s.len() {
                Err(ParseError { location: pos, reason: ParseReason::UnexpectedEnd })
            } else {
                let c2 = s[pos + 1];
                if c2 == 'd' || c2 == 's' {
                    let mut add = build_chars(c2);
                    acc.append(&mut add);
                } else {
                    acc.push(c2);
                    proof {
                        assert(acc@ =~= acc0 + seq![c2]);
                    }
                }
                class_items(s, pos + 2, acc)
            }
        } else if c == '[' {
            if posix_digit_at(s, pos) {
                let mut add = build_chars('d');
                acc.append(&mut add);
                class_items(s, pos + 9, acc)
            } else if posix_space_at(s, pos) {
                let mut add = build_chars('s');
                acc.append(&mut add);
                class_items(s, pos + 9, acc)
            } else {
                Err(ParseError { location: pos, reason: ParseReason::BadPosixClass })
            }
        } else {
            acc.push(c);
            proof {
                assert(acc@ =~= acc0 + seq![c]);
            }
            class_items(s, pos + 1, acc)
        }
    }
}

pub open spec fn node_res_matches(
    r: Result<(AstNode, usize), ParseError>,
    s: Result<(AstV, int), ParseError>,
) -> bool {
    match (r, s) {
        (Ok((n, p)), Ok((nv, ps))) => ast_view(n) == nv && p as int == ps,
        (Err(e), Err(es)) => e == es,
        _ => false,
    }
}

/// The distribution suffix and closing bracket of a class, after its
/// members: `~Dist(args)]` starting at the `~`, yielding the classified
/// node.
pub open spec fn spec_class_suffix(s: Seq<char>, pos: int, class_node: AstV) -> Result<
    (AstV, int),
    ParseError,
> {
    match spec_dist_clause(s, pos + 1) {
        Err(e) => Err(e),
        Ok(((dn, ap, an), p3)) => {
            match spec_complete_from(class_node.kind, dn, probs_view(ap), named_view(an)) {
                Err(reason) => Err(err_at(pos + 1, reason)),
                Ok(d) => {
                    if 0 <= p3 < s.len() && s[p3] == ']' {
                        Ok(
                            (
                                AstV {
                                    length: 1,
                                    kind: KindV::Classified(
                                        Box::new(class_node),
                                        Some(DistLinkV::Indexed(d)),
                                    ),
                                },
                                p3 + 1,
                            ),
                        )
                    } else if p3 < s.len() {
                        Err(err_at(p3, ParseReason::UnexpectedChar))
                    } else {
                        Err(err_at(p3, ParseReason::UnexpectedEnd))
                    }
                },
            }
        },
    }
}

/// A bracket class at `pos` (which holds `[`): optional leading `^`
/// negation, at least one member, an optional `~Dist(args)` suffix, and
/// the closing bracket.
pub open spec fn spec_class(s: Seq<char>, pos: int) -> Result<(AstV, int), ParseError> {
    let p1 = pos + 1;
    let negated = 0 <= p1 < s.len() && s[p1] == '^';
    let body = if negated {
        p1 + 1
    } else {
        p1
    };
    match spec_class_items(s, body, Seq::empty()) {
        Err(e) => Err(e),
        Ok((chars, p2)) => {
            if chars.len() == 0 {
                Err(err_at(pos, ParseReason::EmptyClass))
            } else {
                let class_node = AstV { length: 1, kind: KindV::Class(negated, chars) };
                if 0 <= p2 < s.len() && s[p2] == '~' {
                    spec_class_suffix(s, p2, class_node)
                } else if 0 <= p2 < s.len() && s[p2] == ']' {
                    Ok((class_node, p2 + 1))
                } else {
                    Err(err_at(p2, ParseReason::UnexpectedEnd))
                }
            }
        },
    }
}

#[verifier::rlimit(100)]
fn parse_class_suffix(s: &Vec<char>, pos: usize, class_node: AstNode) -> (r: Result<
    (AstNode, usize),
    ParseError,
>)
    requires
        pos < s@.len(),
    ensures
        node_res_matches(r, spec_class_suffix(s@, pos as int, ast_view(class_node))),
        r matches Ok((_, p)) ==> pos < p <= s@.len(),
{
    let sl = s.len();
    match dist_clause(s, pos + 1) {
        Err(e) => Err(e),
        Ok(((dn, ap, an), p3)) => {
            match Dist::complete_from(&class_node.kind, dn, &ap, &an) {
                Err(reason) => Err(ParseError { location: pos + 1, reason }),
                Ok(d) => {
                    if p3 < sl && s[p3] == ']' {
                        Ok(
                            (
                                AstNode {
                                    length: 1,
                                    kind: Kind::Classified(
                                        Box::new(class_node),
                                        Some(DistLink::Indexed(d)),
                                    ),
                                },
                                p3 + 1,
                            ),
                        )
                    } else if p3 < sl {
                        Err(ParseError { location: p3, reason: ParseReason::UnexpectedChar })
                    } else {
                        Err(ParseError { location: p3, reason: ParseReason::UnexpectedEnd })
                    }
                },
            }
        },
    }
}

#[verifier::rlimit(100)]
fn parse_class(s: &Vec<char>, pos: usize) -> (r: Result<(AstNode, usize), ParseError>)
    requires
        pos < s@.len(),
    ensures
        node_res_matches(r, spec_class(s@, pos as int)),
        r matches Ok((_, p)) ==> pos < p <= s@.len(),
{
    let sl = s.len();
    let p1 = pos + 1;
    let negated = p1 < sl && s[p1] == '^';
    let body = if negated {
        p1 + 1
    } else {
        p1
    };
    match class_items(s, body, Vec::new()) {
        Err(e) => Err(e),
        Ok((chars, p2)) => {
            if chars.len() == 0 {
                Err(ParseError { location: pos, reason: ParseReason::EmptyClass })
            } else {
                let class_node = AstNode { length: 1, kind: Kind::Class(negated, chars) };
                if p2 < sl && s[p2] == '~' {
                    parse_class_suffix(s, p2, class_node)
                } else if p2 < sl && s[p2] == ']' {
                    Ok((class_node, p2 + 1))
                } else {
                    Err(ParseError { location: p2, reason: ParseReason::UnexpectedEnd })
                }
            }
        },
    }
}

/// An atom: a literal, an escape, `.`, a shorthand class, a bracket
/// class, or a parenthesised group.
pub open spec fn spec_atom(s: Seq<char>, pos: int) -> Result<(AstV, int), ParseError>
    decreases s.len() - pos, 1int,
{
    if !(0 <= pos < s.len()) {
        Err(err_at(pos, ParseReason::UnexpectedEnd))
    } else {
        let c = s[pos];
        if c == '(' {
            match spec_alternation(s, pos + 1) {
                Err(e) => Err(e),
                Ok((node, p1)) => {
                    if 0 <= p1 < s.len() && s[p1] == ')' {
                        Ok((node, p1 + 1))
                    } else if p1 < s.len() {
                        Err(err_at(p1, ParseReason::UnexpectedChar))
                    } else {
                        Err(err_at(p1, ParseReason::UnexpectedEnd))
                    }
                },
            }
        } else if c == '.' {
            Ok((AstV { length: 1, kind: KindV::Dot }, pos + 1))
        } else if c == '\\' {
            if pos + 1 >= s.len() {
                Err(err_at(pos, ParseReason::UnexpectedEnd))
            } else {
                let c2 = s[pos + 1];
                if c2 == 'd' || c2 == 's' {
                    Ok(
                        (
                            AstV { length: 1, kind: KindV::Class(false, spec_build_chars(c2)) },
                            pos + 2,
                        ),
                    )
                } else if spec_is_special(c2) {
                    Ok((AstV { length: 1, kind: KindV::Literal(c2) }, pos + 2))
                } else {
                    Err(err_at(pos, ParseReason::BadEscape))
                }
            }
        } else if c == '[' {
            spec_class(s, pos)
        } else if spec_is_special(c) {
            Err(err_at(pos, ParseReason::UnexpectedChar))
        } else {
            Ok((AstV { length: 1, kind: KindV::Literal(c) }, pos + 1))
        }
    }
}

#[verifier::rlimit(100)]
fn parse_atom(s: &Vec<char>, pos: usize) -> (r: Result<(AstNode, usize), ParseError>)
    requires
        pos <= s@.len(),
    ensures
        node_res_matches(r, spec_atom(s@, pos as int)),
        r matches Ok((_, p)) ==> pos < p <= s@.len(),
    decreases s@.len() - pos, 1int,
{
    let sl = s.len();
    if pos >= sl {
        Err(ParseError { location: pos, reason: ParseReason::UnexpectedEnd })
    } else {
        let c = s[pos];
        if c == '(' {
            match parse_alternation(s, pos + 1) {
                Err(e) => Err(e),
                Ok((node, p1)) => {
                    if p1 < sl && s[p1] == ')' {
                        Ok((node, p1 + 1))
                    } else if p1 < sl {
                        Err(ParseError { location: p1, reason: ParseReason::UnexpectedChar })
                    } else {
                        Err(ParseError { location: p1, reason: ParseReason::UnexpectedEnd })
                    }
                },
            }
        } else if c == '.' {
            let n = AstNode { length: 1, kind: Kind::Dot };
            proof {
                crate::ast::lemma_kind_view(n.kind);
            }
            Ok((n, pos + 1))
        } else if c == '\\' {
            parse_escape(s, pos)
        } else if c == '[' {
            parse_class(s, pos)
        } else if is_special(c) {
            Err(ParseError { location: pos, reason: ParseReason::UnexpectedChar })
        } else {
            let n = AstNode { length: 1, kind: Kind::Literal(c) };
            proof {
                crate::ast::lemma_kind_view(n.kind);
            }
            Ok((n, pos + 1))
        }
    }
}

/// The `{n...}` suffix of a quantified atom, after the opening brace:
/// a count, an optional distribution clause, and the closing brace.
pub open spec fn spec_brace_suffix(s: Seq<char>, pos: int, a: AstV) -> Result<
    (AstV, int),
    ParseError,
> {
    match spec_digits_u64(s, pos + 1, 0) {
        Err(e) => Err(e),
        Ok((nv, p1)) => {
            if p1 == pos + 1 {
                Err(err_at(p1, ParseReason::BadNumber))
            } else {
                let q = AstV { length: 1, kind: KindV::ExactQuantifier(nv) };
                if 0 <= p1 < s.len() && s[p1] == '~' {
                    match spec_dist_clause(s, p1 + 1) {
                        Err(e) => Err(e),
                        Ok(((dn, ap, an), p2)) => {
                            match spec_complete_from(q.kind, dn, probs_view(ap), named_view(an)) {
                                Err(reason) => Err(err_at(p1 + 1, reason)),
                                Ok(d) => {
                                    if 0 <= p2 < s.len() && s[p2] == '}' {
                                        Ok(
                                            (
                                                AstV {
                                                    length: (a.length + 1) as usize,
                                                    kind: KindV::Quantified(
                                                        Box::new(q),
                                                        Box::new(a),
                                                        Some(DistLinkV::Counted(d)),
                                                    ),
                                                },
                                                p2 + 1,
                                            ),
                                        )
                                    } else if p2 < s.len() {
                                        Err(err_at(p2, ParseReason::UnexpectedChar))
                                    } else {
                                        Err(err_at(p2, ParseReason::UnexpectedEnd))
                                    }
                                },
                            }
                        },
                    }
                } else if 0 <= p1 < s.len() && s[p1] == '}' {
                    Ok(
                        (
                            AstV {
                                length: (a.length + 1) as usize,
                                kind: KindV::Quantified(
                                    Box::new(q),
                                    Box::new(a),
                                    Some(DistLinkV::Counted(DistV::ExactlyTimes(nv))),
                                ),
                            },
                            p1 + 1,
                        ),
                    )
                } else if p1 < s.len() {
                    Err(err_at(p1, ParseReason::UnexpectedChar))
                } else {
                    Err(err_at(p1, ParseReason::UnexpectedEnd))
                }
            }
        },
    }
}

#[verifier::rlimit(100)]
fn parse_brace_suffix(s: &Vec<char>, pos: usize, a: AstNode) -> (r: Result<
    (AstNode, usize),
    ParseError,
>)
    requires
        pos < s@.len(),
        a.length < usize::MAX,
    ensures
        node_res_matches(r, spec_brace_suffix(s@, pos as int, ast_view(a))),
        r matches Ok((_, p)) ==> pos < p <= s@.len(),
{
    let sl = s.len();
    match digits_u64(s, pos + 1, 0) {
        Err(e) => Err(e),
        Ok((nv, p1)) => {
            if p1 == pos + 1 {
                Err(ParseError { location: p1, reason: ParseReason::BadNumber })
            } else {
                let qkind = Kind::ExactQuantifier(nv);
                if p1 < s.len() && s[p1] == '~' {
                    match dist_clause(s, p1 + 1) {
                        Err(e) => Err(e),
                        Ok(((dn, ap, an), p2)) => {
                            match Dist::complete_from(&qkind, dn, &ap, &an) {
                                Err(reason) => Err(ParseError { location: p1 + 1, reason }),
                                Ok(d) => {
                                    if p2 < s.len() && s[p2] == '}' {
                                        let q = AstNode { length: 1, kind: qkind };
                                        proof {
                                            assert(ast_view(q) == (AstV {
                                                length: 1,
                                                kind: KindV::ExactQuantifier(nv),
                                            }));
                                        }
                                        Ok(
                                            (
                                                AstNode {
                                                    length: a.length + 1,
                                                    kind: Kind::Quantified(
                                                        Box::new(q),
                                                        Box::new(a),
                                                        Some(DistLink::Counted(d)),
                                                    ),
                                                },
                                                p2 + 1,
                                            ),
                                        )
                                    } else if p2 < s.len() {
                                        Err(
                                            ParseError {
                                                location: p2,
                                                reason: ParseReason::UnexpectedChar,
                                            },
                                        )
                                    } else {
                                        Err(
                                            ParseError {
                                                location: p2,
                                                reason: ParseReason::UnexpectedEnd,
                                            },
                                        )
                                    }
                                },
                            }
                        },
                    }
                } else if p1 < s.len() && s[p1] == '}' {
                    let q = AstNode { length: 1, kind: qkind };
                    proof {
                        assert(ast_view(q) == (AstV {
                            length: 1,
                            kind: KindV::ExactQuantifier(nv),
                        }));
                    }
                    Ok(
                        (
                            AstNode {
                                length: a.length + 1,
                                kind: Kind::Quantified(
                                    Box::new(q),
                                    Box::new(a),
                                    Some(DistLink::Counted(Dist::ExactlyTimes(nv))),
                                ),
                            },
                            p1 + 1,
                        ),
                    )
                } else if p1 < s.len() {
                    Err(ParseError { location: p1, reason: ParseReason::UnexpectedChar })
                } else {
                    Err(ParseError { location: p1, reason: ParseReason::UnexpectedEnd })
                }
            }
        },
    }
}


/// A backslash escape at `pos`: a shorthand class or an escaped special.
fn parse_escape(s: &Vec<char>, pos: usize) -> (r: Result<(AstNode, usize), ParseError>)
    requires
        pos < s@.len(),
        s@[pos as int] == '\\',
    ensures
        node_res_matches(r, spec_atom(s@, pos as int)),
        r matches Ok((_, p)) ==> pos < p <= s@.len(),
{
    let sl = s.len();
    if pos + 1 >= sl {
        Err(ParseError { location: pos, reason: ParseReason::UnexpectedEnd })
    } else {
        let c2 = s[pos + 1];
        if c2 == 'd' || c2 == 's' {
            let n = AstNode { length: 1, kind: Kind::Class(false, build_chars(c2)) };
            proof {
                crate::ast::lemma_kind_view(n.kind);
            }
            Ok((n, pos + 2))
        } else if is_special(c2) {
            let n = AstNode { length: 1, kind: Kind::Literal(c2) };
            proof {
                crate::ast::lemma_kind_view(n.kind);
            }
            Ok((n, pos + 2))
        } else {
            Err(ParseError { location: pos, reason: ParseReason::BadEscape })
        }
    }
}

/// An atom with an optional quantifier: `?`, `*`, `+`, or a brace count.
/// A bare `{n}` carries the exactly-`n` distribution; the short
/// quantifiers carry none.
pub open spec fn spec_quantified(s: Seq<char>, pos: int) -> Result<(AstV, int), ParseError>
    decreases s.len() - pos, 2int,
{
    match spec_atom(s, pos) {
        Err(e) => Err(e),
        Ok((a, pa)) => {
            if pa <= pos {
                // grammar progress check; also drives termination
                Err(err_at(pa, ParseReason::UnexpectedChar))
            } else if 0 <= pa < s.len() && (s[pa] == '?' || s[pa] == '*' || s[pa] == '+') {
                let q = AstV { length: 1, kind: KindV::Quantifier(s[pa]) };
                Ok(
                    (
                        AstV {
                            length: (a.length + 1) as usize,
                            kind: KindV::Quantified(Box::new(q), Box::new(a), None),
                        },
                        pa + 1,
                    ),
                )
            } else if 0 <= pa < s.len() && s[pa] == '{' {
                spec_brace_suffix(s, pa, a)
            } else {
                Ok((a, pa))
            }
        },
    }
}

#[verifier::rlimit(100)]
fn parse_quantified(s: &Vec<char>, pos: usize) -> (r: Result<(AstNode, usize), ParseError>)
    requires
        pos <= s@.len(),
    ensures
        node_res_matches(r, spec_quantified(s@, pos as int)),
        r matches Ok((_, p)) ==> pos < p <= s@.len(),
    decreases s@.len() - pos, 2int,
{
    let sl = s.len();
    match parse_atom(s, pos) {
        Err(e) => Err(e),
        Ok((a, pa)) => {
            proof {
                lemma_atom_ok(s@, pos as int);
            }
            if pa <= pos {
                // grammar progress check; also drives termination
                Err(ParseError { location: pa, reason: ParseReason::UnexpectedChar })
            } else if pa < s.len() && (s[pa] == '?' || s[pa] == '*' || s[pa] == '+') {
                let q = AstNode { length: 1, kind: Kind::Quantifier(s[pa]) };
                proof {
                    assert(ast_view(q) == (AstV { length: 1, kind: KindV::Quantifier(s@[pa as int]) }));
                }
                Ok(
                    (
                        AstNode {
                            length: a.length + 1,
                            kind: Kind::Quantified(Box::new(q), Box::new(a), None),
                        },
                        pa + 1,
                    ),
                )
            } else if pa < s.len() && s[pa] == '{' {
                parse_brace_suffix(s, pa, a)
            } else {
                Ok((a, pa))
            }
        },
    }
}

/// The concatenations following an already-parsed left operand.
pub open spec fn spec_concat_rest(s: Seq<char>, pos: int, left: AstV) -> Result<
    (AstV, int),
    ParseError,
>
    decreases s.len() - pos, 3int,
{
    if 0 <= pos < s.len() && spec_is_atom_start(s[pos]) {
        match spec_quantified(s, pos) {
            Err(e) => Err(e),
            Ok((n2, p2)) => {
                if p2 <= pos || s.len() < p2 {
                    // grammar progress check; also drives termination
                    Err(err_at(p2, ParseReason::UnexpectedChar))
                } else {
                    let node = AstV {
                        length: (left.length + n2.length) as usize,
                        kind: KindV::Concatenation(Box::new(left), Box::new(n2)),
                    };
                    spec_concat_rest(s, p2, node)
                }
            },
        }
    } else {
        Ok((left, pos))
    }
}

#[verifier::rlimit(100)]
fn parse_concat_rest(s: &Vec<char>, pos: usize, left: AstNode) -> (r: Result<
    (AstNode, usize),
    ParseError,
>)
    requires
        pos <= s@.len(),
        left.length <= pos,
    ensures
        node_res_matches(r, spec_concat_rest(s@, pos as int, ast_view(left))),
        r matches Ok((_, p)) ==> pos <= p <= s@.len(),
    decreases s@.len() - pos, 3int,
{
    let sl = s.len();
    if pos < sl && is_atom_start(s[pos]) {
        match parse_quantified(s, pos) {
            Err(e) => Err(e),
            Ok((n2, p2)) => {
                proof {
                    lemma_quantified_ok(s@, pos as int);
                }
                if p2 <= pos || s.len() < p2 {
                    // grammar progress check; also drives termination
                    Err(ParseError { location: p2, reason: ParseReason::UnexpectedChar })
                } else {
                    let node = AstNode {
                        length: left.length + n2.length,
                        kind: Kind::Concatenation(Box::new(left), Box::new(n2)),
                    };
                    parse_concat_rest(s, p2, node)
                }
            },
        }
    } else {
        Ok((left, pos))
    }
}

/// A concatenation: one or more quantified atoms, folded to the left.
pub open spec fn spec_concats(s: Seq<char>, pos: int) -> Result<(AstV, int), ParseError>
    decreases s.len() - pos, 4int,
{
    match spec_quantified(s, pos) {
        Err(e) => Err(e),
        Ok((n, p1)) => {
            if p1 <= pos || s.len() < p1 {
                // grammar progress check; also drives termination
                Err(err_at(p1, ParseReason::UnexpectedChar))
            } else {
                spec_concat_rest(s, p1, n)
            }
        },
    }
}

#[verifier::rlimit(100)]
fn parse_concats(s: &Vec<char>, pos: usize) -> (r: Result<(AstNode, usize), ParseError>)
    requires
        pos <= s@.len(),
    ensures
        node_res_matches(r, spec_concats(s@, pos as int)),
        r matches Ok((_, p)) ==> pos < p <= s@.len(),
    decreases s@.len() - pos, 4int,
{
    let sl = s.len();
    match parse_quantified(s, pos) {
        Err(e) => Err(e),
        Ok((n, p1)) => {
            proof {
                lemma_quantified_ok(s@, pos as int);
            }
            if p1 <= pos || s.len() < p1 {
                // grammar progress check; also drives termination
                Err(ParseError { location: p1, reason: ParseReason::UnexpectedChar })
            } else {
                parse_concat_rest(s, p1, n)
            }
        },
    }
}

/// An alternation: concatenations separated by `|`, grouped to the right.
pub open spec fn spec_alternation(s: Seq<char>, pos: int) -> Result<(AstV, int), ParseError>
    decreases s.len() - pos, 5int,
{
    match spec_concats(s, pos) {
        Err(e) => Err(e),
        Ok((l, p1)) => {
            if 0 <= p1 < s.len() && s[p1] == '|' {
                if p1 <= pos {
                    // grammar progress check; also drives termination
                    Err(err_at(p1, ParseReason::UnexpectedChar))
                } else {
                    match spec_alternation(s, p1 + 1) {
                        Err(e) => Err(e),
                        Ok((rn, p2)) => Ok(
                            (
                                AstV {
                                    length: (l.length + rn.length + 1) as usize,
                                    kind: KindV::Alternation(Box::new(l), Box::new(rn)),
                                },
                                p2,
                            ),
                        ),
                    }
                }
            } else {
                Ok((l, p1))
            }
        },
    }
}

#[verifier::rlimit(100)]
fn parse_alternation(s: &Vec<char>, pos: usize) -> (r: Result<(AstNode, usize), ParseError>)
    requires
        pos <= s@.len(),
    ensures
        node_res_matches(r, spec_alternation(s@, pos as int)),
        r matches Ok((_, p)) ==> pos < p <= s@.len(),
    decreases s@.len() - pos, 5int,
{
    let sl = s.len();
    match parse_concats(s, pos) {
        Err(e) => Err(e),
        Ok((l, p1)) => {
            proof {
                lemma_concats_ok(s@, pos as int);
            }
            if p1 < s.len() && s[p1] == '|' {
                if p1 <= pos {
                    // grammar progress check; also drives termination
                    Err(ParseError { location: p1, reason: ParseReason::UnexpectedChar })
                } else {
                    match parse_alternation(s, p1 + 1) {
                        Err(e) => Err(e),
                        Ok((rn, p2)) => {
                            proof {
                                lemma_alternation_ok(s@, p1 as int + 1);
                            }
                            Ok(
                                (
                                    AstNode {
                                        length: l.length + rn.length + 1,
                                        kind: Kind::Alternation(Box::new(l), Box::new(rn)),
                                    },
                                    p2,
                                ),
                            )
                        },
                    }
                }
            } else {
                Ok((l, p1))
            }
        },
    }
}

/// What `parse` returns: the top-level node list of the pattern.
pub open spec fn spec_parse(s: Seq<char>) -> Result<Seq<AstV>, ParseError> {
    let anchored = s.len() > 0 && s[0] == '^';
    let pos0: int = if anchored {
        1
    } else {
        0
    };
    let head: Seq<AstV> = if anchored {
        seq![AstV { length: 0, kind: KindV::AnchorStart }]
    } else {
        Seq::empty()
    };
    let body: Result<(Seq<AstV>, int), ParseError> = if pos0 < s.len() && s[pos0] != '$' {
        match spec_alternation(s, pos0) {
            Err(e) => Err(e),
            Ok((n, p)) => Ok((head.push(n), p)),
        }
    } else {
        Ok((head, pos0))
    };
    match body {
        Err(e) => Err(e),
        Ok((nodes, p1)) => {
            let (nodes2, p2): (Seq<AstV>, int) = if 0 <= p1 < s.len() && s[p1] == '$' {
                (nodes.push(AstV { length: 1, kind: KindV::AnchorEnd }), p1 + 1)
            } else {
                (nodes, p1)
            };
            if p2 < s.len() {
                Err(err_at(p2, ParseReason::UnexpectedChar))
            } else {
                Ok(nodes2.push(AstV { length: 0, kind: KindV::Terminal }))
            }
        },
    }
}

/// Parse a pattern into its top-level node list, ending in the terminal
/// node. Returns exactly what [`spec_parse`] denotes on the pattern's
/// characters, and the result is well-formed (see
/// [`crate::ast::wf_asts`]).
#[verifier::rlimit(100)]
pub fn parse(source: &str) -> (r: Result<Vec<AstNode>, ParseError>)
    ensures
        match r {
            Ok(v) => spec_parse(source@) == Ok::<_, ParseError>(crate::ast::asts_view(v@))
                && crate::ast::wf_asts(crate::ast::asts_view(v@)),
            Err(e) => spec_parse(source@) == Err::<Seq<AstV>, _>(e),
        },
{
    let s = chars_of(source);
    let mut nodes: Vec<AstNode> = Vec::new();
    let mut pos: usize = 0;
    let ghost anchored = s@.len() > 0 && s@[0] == '^';
    if s.len() > 0 && s[0] == '^' {
        nodes.push(AstNode { length: 0, kind: Kind::AnchorStart });
        pos = 1;
    }
    let ghost has_body = (pos as int) < s@.len() && s@[pos as int] != '$';
    if pos < s.len() && s[pos] != '$' {
        match parse_alternation(&s, pos) {
            Err(e) => {
                return Err(e);
            },
            Ok((n, p)) => {
                proof {
                    lemma_alternation_ok(s@, pos as int);
                }
                nodes.push(n);
                pos = p;
            },
        }
    }
    let ghost has_end = (pos as int) < s@.len() && s@[pos as int] == '$';
    if pos < s.len() && s[pos] == '$' {
        nodes.push(AstNode { length: 1, kind: Kind::AnchorEnd });
        pos = pos + 1;
    }
    if pos < s.len() {
        return Err(ParseError { location: pos, reason: ParseReason::UnexpectedChar });
    }
    nodes.push(AstNode { length: 0, kind: Kind::Terminal });
    proof {
        assert(crate::ast::asts_view(nodes@) =~= spec_parse(source@)->Ok_0);
        assert(crate::ast::wf_asts_shape(
            crate::ast::asts_view(nodes@),
            anchored,
            has_body,
            has_end,
        ));
    }
    Ok(nodes)
}

/// The characters of a string, in order.
fn chars_of(source: &str) -> (r: Vec<char>)
    ensures
        r@ == source@,
{
    let n = source.unicode_len();
    let mut v: Vec<char> = Vec::new();
    let mut i: usize = 0;
    while i < n
        invariant
            0 <= i <= n,
            n == source@.len(),
            v@ =~= source@.take(i as int),
        decreases n - i,
    {
        v.push(source.get_char(i));
        proof {
            assert(v@ =~= source@.take(i as int + 1));
        }
        i = i + 1;
    }
    proof {
        assert(source@.take(n as int) =~= source@);
    }
    v
}

pub proof fn lemma_digits_u64_ok(s: Seq<char>, pos: int, acc: u64)
    requires
        0 <= pos <= s.len(),
    ensures
        spec_digits_u64(s, pos, acc) matches Ok((_, p)) ==> pos <= p <= s.len(),
    decreases s.len() - pos,
{
    if pos < s.len() && spec_is_digit(s[pos]) {
        let d = spec_digit_val(s[pos]);
        if acc <= (u64::MAX - d) / 10 {
            lemma_digits_u64_ok(s, pos + 1, (acc * 10 + d) as u64);
        }
    }
}

pub proof fn lemma_digits_frac_ok(s: Seq<char>, pos: int, num: u64, den: u64)
    requires
        0 <= pos <= s.len(),
    ensures
        spec_digits_frac(s, pos, num, den) matches Ok((_, p)) ==> pos <= p <= s.len(),
    decreases s.len() - pos,
{
    if pos < s.len() && spec_is_digit(s[pos]) {
        let d = spec_digit_val(s[pos]);
        if !(num > (u64::MAX - d) / 10 || den > u64::MAX / 10) {
            lemma_digits_frac_ok(s, pos + 1, (num * 10 + d) as u64, (den * 10) as u64);
        }
    }
}

pub proof fn lemma_number_ok(s: Seq<char>, pos: int)
    requires
        0 <= pos <= s.len(),
    ensures
        spec_number(s, pos) matches Ok((_, p)) ==> pos < p <= s.len(),
{
    lemma_digits_u64_ok(s, pos, 0);
    match spec_digits_u64(s, pos, 0) {
        Ok((n1, p1)) => {
            if 0 <= p1 < s.len() && s[p1] == '.' {
                lemma_digits_frac_ok(s, p1 + 1, n1, 1);
            }
        },
        _ => {},
    }
}

pub proof fn lemma_name_end_ok(s: Seq<char>, pos: int)
    requires
        0 <= pos <= s.len(),
    ensures
        pos <= spec_name_end(s, pos) <= s.len(),
    decreases s.len() - pos,
{
    if pos < s.len() && spec_is_letter(s[pos]) {
        lemma_name_end_ok(s, pos + 1);
    }
}

pub proof fn lemma_params_more_ok(s: Seq<char>, pos: int, ap: Seq<Prob>, an: Seq<(char, Prob)>)
    requires
        0 <= pos <= s.len(),
    ensures
        spec_params_more(s, pos, ap, an) matches Ok((_, p)) ==> pos < p <= s.len(),
    decreases s.len() - pos,
{
    let named = 0 <= pos && pos < s.len() && pos + 1 < s.len() && s[pos + 1] == '=';
    if named {
        lemma_number_ok(s, pos + 2);
    } else {
        lemma_number_ok(s, pos);
    }
    let parsed: Result<((Seq<Prob>, Seq<(char, Prob)>), int), ParseError> = if named {
        let k = s[pos];
        match spec_number(s, pos + 2) {
            Err(e) => Err(e),
            Ok((v, p2)) => {
                if spec_lookup(named_view(an), k) is Some {
                    Err(err_at(pos, ParseReason::DuplicateParam))
                } else {
                    Ok(((ap, an.push((k, v))), p2))
                }
            },
        }
    } else {
        match spec_number(s, pos) {
            Err(e) => Err(e),
            Ok((v, p2)) => Ok(((ap.push(v), an), p2)),
        }
    };
    match parsed {
        Ok(((ap2, an2), p2)) => {
            if !(p2 <= pos || s.len() < p2) {
                if p2 < s.len() && s[p2] == ',' {
                    lemma_params_more_ok(s, p2 + 1, ap2, an2);
                }
            }
        },
        _ => {},
    }
}

pub proof fn lemma_params_ok(s: Seq<char>, pos: int)
    requires
        0 <= pos <= s.len(),
    ensures
        spec_params(s, pos) matches Ok((_, p)) ==> pos <= p <= s.len(),
{
    if 0 <= pos < s.len() && s[pos] == '(' {
        if !(pos + 1 < s.len() && s[pos + 1] == ')') {
            lemma_params_more_ok(s, pos + 1, Seq::empty(), Seq::empty());
        }
    }
}

pub proof fn lemma_dist_clause_ok(s: Seq<char>, pos: int)
    requires
        0 <= pos <= s.len(),
    ensures
        spec_dist_clause(s, pos) matches Ok((_, p)) ==> pos < p <= s.len(),
{
    lemma_name_end_ok(s, pos);
    let end = spec_name_end(s, pos);
    if end != pos {
        lemma_params_ok(s, end);
    }
}

#[verifier::rlimit(100)]
pub proof fn lemma_class_suffix_ok(s: Seq<char>, pos: int, class_node: AstV)
    requires
        0 <= pos < s.len(),
        s.len() <= usize::MAX,
        crate::ast::wf_body(class_node),
        class_node.kind is Class,
        class_node.length == 1,
    ensures
        spec_class_suffix(s, pos, class_node) matches Ok((n, p)) ==> pos < p <= s.len()
            && crate::ast::wf_body(n) && n.length == 1,
{
    lemma_dist_clause_ok(s, pos + 1);
}

#[verifier::rlimit(100)]
pub proof fn lemma_brace_suffix_ok(s: Seq<char>, pos: int, a: AstV)
    requires
        0 <= pos < s.len(),
        s.len() <= usize::MAX,
        crate::ast::wf_body(a),
        a.length < usize::MAX,
    ensures
        spec_brace_suffix(s, pos, a) matches Ok((n, p)) ==> pos < p <= s.len()
            && crate::ast::wf_body(n) && n.length == a.length + 1,
{
    lemma_digits_u64_ok(s, pos + 1, 0);
    match spec_digits_u64(s, pos + 1, 0) {
        Ok((nv, p1)) => {
            let q = AstV { length: 1, kind: KindV::ExactQuantifier(nv) };
            assert(crate::ast::wf_body(q));
            if p1 != pos + 1 && 0 <= p1 < s.len() && s[p1] == '~' {
                lemma_dist_clause_ok(s, p1 + 1);
                match spec_dist_clause(s, p1 + 1) {
                    Ok(((dn, ap, an), p2)) => {
                        match spec_complete_from(q.kind, dn, probs_view(ap), named_view(an)) {
                            Ok(d) => {
                                if 0 <= p2 < s.len() && s[p2] == '}' {
                                    let n = AstV {
                                        length: (a.length + 1) as usize,
                                        kind: KindV::Quantified(
                                            Box::new(q),
                                            Box::new(a),
                                            Some(DistLinkV::Counted(d)),
                                        ),
                                    };
                                    assert(n.length == a.length + 1);
                                    assert(crate::ast::span_of(n.kind) == q.length + a.length);
                                    assert(crate::ast::wf_body(n));
                                    assert(spec_brace_suffix(s, pos, a) == Ok::<_, ParseError>(
                                        (n, p2 + 1),
                                    ));
                                }
                            },
                            _ => {},
                        }
                    },
                    _ => {},
                }
            }
        },
        _ => {},
    }
}

/// Every successful sub-parse advances the position, stays within the
/// input, produces a well-formed body node, and the node's slot count is
/// bounded by the characters consumed.
#[verifier::rlimit(100)]
pub proof fn lemma_atom_ok(s: Seq<char>, pos: int)
    requires
        s.len() <= usize::MAX,
    ensures
        spec_atom(s, pos) matches Ok((n, p)) ==> pos < p <= s.len() && crate::ast::wf_body(n)
            && n.length <= p - pos,
    decreases s.len() - pos, 1int,
{
    if 0 <= pos < s.len() {
        let c = s[pos];
        if c == '(' {
            lemma_alternation_ok(s, pos + 1);
        } else if c == '[' {
            lemma_class_ok(s, pos);
        }
    }
}

#[verifier::rlimit(100)]
pub proof fn lemma_class_ok(s: Seq<char>, pos: int)
    requires
        s.len() <= usize::MAX,
    ensures
        spec_class(s, pos) matches Ok((n, p)) ==> pos < p <= s.len() && crate::ast::wf_body(n)
            && n.length <= p - pos,
{
    let p1 = pos + 1;
    let negated = 0 <= p1 < s.len() && s[p1] == '^';
    let body = if negated {
        p1 + 1
    } else {
        p1
    };
    lemma_class_items_ok(s, body, Seq::empty());
    match spec_class_items(s, body, Seq::empty()) {
        Ok((chars, p2)) => {
            if chars.len() > 0 {
                let class_node = AstV { length: 1, kind: KindV::Class(negated, chars) };
                if 0 <= p2 < s.len() && s[p2] == '~' {
                    lemma_class_suffix_ok(s, p2, class_node);
                }
            }
        },
        _ => {},
    }
}

pub proof fn lemma_class_items_ok(s: Seq<char>, pos: int, acc: Seq<char>)
    ensures
        spec_class_items(s, pos, acc) matches Ok((_, p)) ==> pos <= p <= s.len() && 0 <= p,
    decreases s.len() - pos,
{
    if 0 <= pos < s.len() {
        let c = s[pos];
        if c == ']' || c == '~' {
        } else if c == '\\' {
            if pos + 1 < s.len() {
                let c2 = s[pos + 1];
                let add = if c2 == 'd' || c2 == 's' {
                    spec_build_chars(c2)
                } else {
                    seq![c2]
                };
                lemma_class_items_ok(s, pos + 2, acc + add);
            }
        } else if c == '[' {
            if spec_posix_digit_at(s, pos) {
                lemma_class_items_ok(s, pos + 9, acc + spec_build_chars('d'));
            } else if spec_posix_space_at(s, pos) {
                lemma_class_items_ok(s, pos + 9, acc + spec_build_chars('s'));
            }
        } else {
            lemma_class_items_ok(s, pos + 1, acc + seq![c]);
        }
    }
}

#[verifier::rlimit(100)]
pub proof fn lemma_quantified_ok(s: Seq<char>, pos: int)
    requires
        s.len() <= usize::MAX,
    ensures
        spec_quantified(s, pos) matches Ok((n, p)) ==> pos < p <= s.len() && crate::ast::wf_body(n)
            && n.length <= p - pos,
    decreases s.len() - pos, 2int,
{
    lemma_atom_ok(s, pos);
    match spec_atom(s, pos) {
        Ok((a, pa)) => {
            if pa > pos {
                if 0 <= pa < s.len() && (s[pa] == '?' || s[pa] == '*' || s[pa] == '+') {
                    let q = AstV { length: 1, kind: KindV::Quantifier(s[pa]) };
                    let n = AstV {
                        length: (a.length + 1) as usize,
                        kind: KindV::Quantified(Box::new(q), Box::new(a), None),
                    };
                    assert(crate::ast::wf_body(q));
                    assert(n.length == a.length + 1);
                    assert(crate::ast::wf_body(n));
                    assert(spec_quantified(s, pos) == Ok::<_, ParseError>((n, pa + 1)));
                } else if 0 <= pa < s.len() && s[pa] == '{' {
                    lemma_brace_suffix_ok(s, pa, a);
                    assert(spec_quantified(s, pos) == spec_brace_suffix(s, pa, a));
                }
            }
        },
        _ => {},
    }
}

#[verifier::rlimit(100)]
pub proof fn lemma_concat_rest_ok(s: Seq<char>, pos: int, left: AstV, pos0: int)
    requires
        s.len() <= usize::MAX,
        0 <= pos0,
        pos <= s.len(),
    ensures
        (crate::ast::wf_body(left) && pos0 <= pos && left.length <= pos - pos0) ==> (
        spec_concat_rest(s, pos, left) matches Ok((n, p)) ==> pos <= p <= s.len()
            && crate::ast::wf_body(n) && n.length <= p - pos0),
    decreases s.len() - pos, 3int,
{
    if 0 <= pos < s.len() && spec_is_atom_start(s[pos]) {
        lemma_quantified_ok(s, pos);
        match spec_quantified(s, pos) {
            Ok((n2, p2)) => {
                if p2 > pos && p2 <= s.len() {
                    let node = AstV {
                        length: (left.length + n2.length) as usize,
                        kind: KindV::Concatenation(Box::new(left), Box::new(n2)),
                    };
                    if crate::ast::wf_body(left) && pos0 <= pos && left.length <= pos - pos0 {
                        assert(node.length == left.length + n2.length);
                        assert(crate::ast::wf_body(node));
                        assert(node.length <= p2 - pos0);
                    }
                    lemma_concat_rest_ok(s, p2, node, pos0);
                    assert(spec_concat_rest(s, pos, left) == spec_concat_rest(s, p2, node));
                }
            },
            _ => {},
        }
    }
}

#[verifier::rlimit(100)]
pub proof fn lemma_concats_ok(s: Seq<char>, pos: int)
    requires
        s.len() <= usize::MAX,
        0 <= pos,
    ensures
        spec_concats(s, pos) matches Ok((n, p)) ==> pos < p <= s.len() && crate::ast::wf_body(n)
            && n.length <= p - pos,
    decreases s.len() - pos, 4int,
{
    lemma_quantified_ok(s, pos);
    match spec_quantified(s, pos) {
        Ok((n, p1)) => {
            if p1 > pos {
                lemma_concat_rest_ok(s, p1, n, pos);
            }
        },
        _ => {},
    }
}

#[verifier::rlimit(100)]
pub proof fn lemma_alternation_ok(s: Seq<char>, pos: int)
    requires
        s.len() <= usize::MAX,
        0 <= pos,
    ensures
        spec_alternation(s, pos) matches Ok((n, p)) ==> pos < p <= s.len() && crate::ast::wf_body(
            n,
        ) && n.length <= p - pos,
    decreases s.len() - pos, 5int,
{
    lemma_concats_ok(s, pos);
    match spec_concats(s, pos) {
        Ok((l, p1)) => {
            if 0 <= p1 < s.len() && s[p1] == '|' && p1 > pos {
                lemma_alternation_ok(s, p1 + 1);
            }
        },
        _ => {},
    }
}

} // verus!
