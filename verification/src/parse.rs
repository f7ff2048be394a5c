//! Reading configuration fields from whitespace-split tokens: clock
//! times, yes/no flags, lead seconds and the command word with its
//! parameters.

use crate::error::NormalError;
use crate::item::Command;
use crate::time::Time;
use vstd::prelude::*;
use vstd::string::{StrSliceExecFns, StringExecFns};

verus! {

/// The character is a decimal digit.
pub open spec fn is_digit(c: char) -> bool {
    48 <= c as u32 <= 57
}

/// The numeric value of one decimal digit.
pub open spec fn digit_val(c: char) -> int {
    c as u32 - 48
}

/// Every character of `s` is a decimal digit.
pub open spec fn all_digits(s: Seq<char>) -> bool {
    forall|i: int| 0 <= i < s.len() ==> is_digit(#[trigger] s[i])
}

/// The number that the digit string `s` denotes in base ten.
pub open spec fn digits_val(s: Seq<char>) -> int
    decreases s.len(),
{
    if s.len() == 0 {
        0
    } else {
        10 * digits_val(s.drop_last()) + digit_val(s.last())
    }
}

/// A digit string denotes a nonnegative number.
proof fn lemma_digits_val_nonneg(s: Seq<char>)
    requires
        all_digits(s),
    ensures
        digits_val(s) >= 0,
    decreases s.len(),
{
    if s.len() > 0 {
        assert(all_digits(s.drop_last())) by {
            assert(forall|i: int| 0 <= i < s.len() - 1 ==> s.drop_last()[i] == s[i]);
        }
        lemma_digits_val_nonneg(s.drop_last());
    }
}

/// Reading one more digit multiplies the value so far by ten and adds
/// the digit.
proof fn lemma_digits_val_step(s: Seq<char>, i: int)
    requires
        0 <= i < s.len(),
    ensures
        digits_val(s.take(i + 1)) == 10 * digits_val(s.take(i)) + digit_val(s[i]),
{
    assert(s.take(i + 1).drop_last() =~= s.take(i));
    assert(s.take(i + 1).last() == s[i]);
}

/// A digit string denotes at least as much as any of its prefixes.
proof fn lemma_digits_val_prefix_le(s: Seq<char>, k: int)
    requires
        all_digits(s),
        0 <= k <= s.len(),
    ensures
        digits_val(s.take(k)) <= digits_val(s),
    decreases s.len() - k,
{
    if k < s.len() {
        lemma_digits_val_step(s, k);
        assert(all_digits(s.take(k))) by {
            assert(forall|i: int| 0 <= i < k ==> s.take(k)[i] == s[i]);
        }
        lemma_digits_val_nonneg(s.take(k));
        lemma_digits_val_prefix_le(s, k + 1);
    } else {
        assert(s.take(k) =~= s);
    }
}

/// Reads the digits of `s` from position `start` to its end: the denoted
/// value when every remaining character is a digit, there is at least
/// one, and the value stays within `limit`; nothing otherwise.
fn parse_digits(s: &str, start: usize, limit: u128) -> (r: Option<u128>)
    requires
        limit <= 0x1_0000_0000_0000_0000u128,
    ensures
        match r {
            Some(v) => start < s@.len() && all_digits(s@.skip(start as int)) && digits_val(
                s@.skip(start as int),
            ) == v && v <= limit,
            None => !(start < s@.len() && all_digits(s@.skip(start as int)) && digits_val(
                s@.skip(start as int),
            ) <= limit),
        },
{
    let n = s.unicode_len();
    if start >= n {
        return None;
    }
    let ghost rest = s@.skip(start as int);
    let mut i = start;
    let mut acc: u128 = 0;
    while i < n
        invariant
            start <= i <= n,
            n == s@.len(),
            rest == s@.skip(start as int),
            limit <= 0x1_0000_0000_0000_0000u128,
            acc <= limit,
            all_digits(rest.take(i - start)),
            acc == digits_val(rest.take(i - start)),
        decreases n - i,
    {
        let c = s.get_char(i);
        let d = c as u32;
        proof {
            assert(rest[i - start] == s@[i as int]);
        }
        if d < 48 || d > 57 {
            return None;
        }
        let dv = (d - 48) as u128;
        let acc2 = acc * 10 + dv;
        proof {
            lemma_digits_val_step(rest, i - start);
            assert(all_digits(rest.take(i + 1 - start))) by {
                assert(forall|k: int|
                    0 <= k < i + 1 - start ==> rest.take(i + 1 - start)[k] == rest[k]);
            }
        }
        if acc2 > limit {
            proof {
                if all_digits(rest) && digits_val(rest) <= limit {
                    lemma_digits_val_prefix_le(rest, i + 1 - start);
                }
            }
            return None;
        }
        acc = acc2;
        i = i + 1;
    }
    proof {
        assert(rest.take(n - start) =~= rest);
    }
    Some(acc)
}

/// What `u8` parsing accepts: an optional leading plus sign, then at
/// least one digit, denoting a value of at most 255.
pub open spec fn parse_u8_model(s: Seq<char>) -> Option<u8> {
    let body = if s.len() > 0 && s[0] == '+' {
        s.drop_first()
    } else {
        s
    };
    if body.len() > 0 && all_digits(body) && digits_val(body) <= 255 {
        Some(digits_val(body) as u8)
    } else {
        None
    }
}

/// Reads an unsigned byte as its text form denotes it.
pub fn parse_u8(s: &str) -> (r: Option<u8>)
    ensures
        r == parse_u8_model(s@),
{
    let n = s.unicode_len();
    let start: usize = if n > 0 && s.get_char(0) == '+' {
        1
    } else {
        0
    };
    proof {
        if start == 1 {
            assert(s@.drop_first() =~= s@.skip(1));
        } else {
            assert(s@ =~= s@.skip(0));
        }
    }
    match parse_digits(s, start, 255) {
        Some(v) => Some(v as u8),
        None => None,
    }
}

/// What `isize` parsing accepts: an optional sign, then at least one
/// digit, denoting a value within the machine's signed range.
pub open spec fn parse_isize_model(s: Seq<char>) -> Option<isize> {
    if s.len() == 0 {
        None
    } else {
        let neg = s[0] == '-';
        let body = if neg || s[0] == '+' {
            s.drop_first()
        } else {
            s
        };
        if body.len() > 0 && all_digits(body) {
            let v = digits_val(body);
            if neg && v <= isize::MAX + 1 {
                Some((-v) as isize)
            } else if !neg && v <= isize::MAX {
                Some(v as isize)
            } else {
                None
            }
        } else {
            None
        }
    }
}

/// Reads a signed machine integer as its text form denotes it.
pub fn parse_isize(s: &str) -> (r: Option<isize>)
    ensures
        r == parse_isize_model(s@),
{
    let n = s.unicode_len();
    if n == 0 {
        return None;
    }
    let c0 = s.get_char(0);
    let neg = c0 == '-';
    let signed = neg || c0 == '+';
    let start: usize = if signed {
        1
    } else {
        0
    };
    let limit: u128 = if neg {
        isize::MAX as u128 + 1
    } else {
        isize::MAX as u128
    };
    proof {
        if start == 1 {
            assert(s@.drop_first() =~= s@.skip(1));
        } else {
            assert(s@ =~= s@.skip(0));
        }
    }
    match parse_digits(s, start, limit) {
        Some(v) => {
            if neg {
                if v == isize::MAX as u128 + 1 {
                    Some(isize::MIN)
                } else {
                    Some(-(v as isize))
                }
            } else {
                Some(v as isize)
            }
        },
        None => None,
    }
}

/// What each time field reads as, and which error a bad line earns: a
/// missing token is an input error, while a token that fails to parse or
/// lies outside its clock range is a number-format error.
pub open spec fn parse_time_model(ts: Seq<String>) -> Result<Time, NormalError> {
    if ts.len() == 0 {
        Err(NormalError::Input)
    } else {
        match parse_u8_model(ts[0]@) {
            None => Err(NormalError::NumberFormat),
            Some(hour) => if hour >= 24 {
                Err(NormalError::NumberFormat)
            } else if ts.len() == 1 {
                Err(NormalError::Input)
            } else {
                match parse_u8_model(ts[1]@) {
                    None => Err(NormalError::NumberFormat),
                    Some(minute) => if minute >= 60 {
                        Err(NormalError::NumberFormat)
                    } else if ts.len() == 2 {
                        Err(NormalError::Input)
                    } else {
                        match parse_u8_model(ts[2]@) {
                            None => Err(NormalError::NumberFormat),
                            Some(second) => if second >= 60 {
                                Err(NormalError::NumberFormat)
                            } else {
                                Ok(Time { hour, minute, second })
                            },
                        }
                    },
                }
            },
        }
    }
}

/// Reads a clock time from the first three tokens: hour, minute and
/// second, each within its clock range. The returned time is valid.
pub fn parse_time(tokens: &Vec<String>) -> (r: Result<Time, NormalError>)
    ensures
        r == parse_time_model(tokens@),
        r matches Ok(t) ==> t.valid(),
{
    if tokens.len() == 0 {
        return Err(NormalError::Input);
    }
    let hour = match parse_u8(tokens[0].as_str()) {
        Some(h) => h,
        None => {
            return Err(NormalError::NumberFormat);
        },
    };
    if hour >= 24 {
        return Err(NormalError::NumberFormat);
    }
    if tokens.len() == 1 {
        return Err(NormalError::Input);
    }
    let minute = match parse_u8(tokens[1].as_str()) {
        Some(m) => m,
        None => {
            return Err(NormalError::NumberFormat);
        },
    };
    if minute >= 60 {
        return Err(NormalError::NumberFormat);
    }
    if tokens.len() == 2 {
        return Err(NormalError::Input);
    }
    let second = match parse_u8(tokens[2].as_str()) {
        Some(s) => s,
        None => {
            return Err(NormalError::NumberFormat);
        },
    };
    if second >= 60 {
        return Err(NormalError::NumberFormat);
    }
    Ok(Time { hour, minute, second })
}

/// The token affirms the built-in player: any casing of `y`, `yes`,
/// `true`, or the digit one.
pub open spec fn truthy(s: Seq<char>) -> bool {
    ||| (s.len() == 1 && (s[0] == 'y' || s[0] == 'Y' || s[0] == '1'))
    ||| (s.len() == 3 && (s[0] == 'y' || s[0] == 'Y') && (s[1] == 'e' || s[1] == 'E') && (s[2]
        == 's' || s[2] == 'S'))
    ||| (s.len() == 4 && (s[0] == 't' || s[0] == 'T') && (s[1] == 'r' || s[1] == 'R') && (s[2]
        == 'u' || s[2] == 'U') && (s[3] == 'e' || s[3] == 'E'))
}

/// Decides whether a token affirms the built-in player.
pub fn is_truthy(s: &str) -> (r: bool)
    ensures
        r == truthy(s@),
{
    let n = s.unicode_len();
    if n == 1 {
        let c = s.get_char(0);
        c == 'y' || c == 'Y' || c == '1'
    } else if n == 3 {
        let c0 = s.get_char(0);
        let c1 = s.get_char(1);
        let c2 = s.get_char(2);
        (c0 == 'y' || c0 == 'Y') && (c1 == 'e' || c1 == 'E') && (c2 == 's' || c2 == 'S')
    } else if n == 4 {
        let c0 = s.get_char(0);
        let c1 = s.get_char(1);
        let c2 = s.get_char(2);
        let c3 = s.get_char(3);
        (c0 == 't' || c0 == 'T') && (c1 == 'r' || c1 == 'R') && (c2 == 'u' || c2 == 'U') && (c3
            == 'e' || c3 == 'E')
    } else {
        false
    }
}

/// The answer declines: a lone `n` in either casing.
pub open spec fn no_answer(s: Seq<char>) -> bool {
    s.len() == 1 && (s[0] == 'n' || s[0] == 'N')
}

/// Decides whether an interactive answer declines.
pub fn answer_is_no(s: &str) -> (r: bool)
    ensures
        r == no_answer(s@),
{
    if s.unicode_len() == 1 {
        let c = s.get_char(0);
        c == 'n' || c == 'N'
    } else {
        false
    }
}

/// The lead seconds a notify token denotes: its signed value, or no
/// notice at all when it is not a number.
pub open spec fn notify_of(s: Seq<char>) -> isize {
    match parse_isize_model(s) {
        Some(n) => n,
        None => -1 as isize,
    }
}

/// What an affirmative answer plus a lead token yield: the lead's value
/// when it parses, a number-format error when it does not, and no notice
/// at all when the answer was anything else.
pub open spec fn notify_answer_model(answer: Seq<char>, lead: Seq<char>) -> Result<
    isize,
    NormalError,
> {
    if answer == seq!['y'] {
        match parse_isize_model(lead) {
            Some(n) => Ok(n),
            None => Err(NormalError::NumberFormat),
        }
    } else {
        Ok(-1 as isize)
    }
}

/// Reads the advance-notice choice from an interactive answer and the
/// lead-seconds line that followed it.
pub fn parse_notify(answer: &str, lead: &str) -> (r: Result<isize, NormalError>)
    ensures
        r == notify_answer_model(answer@, lead@),
{
    let affirmative = answer.unicode_len() == 1 && answer.get_char(0) == 'y';
    proof {
        if affirmative {
            assert(answer@ =~= seq!['y']);
        } else {
            assert(answer@ != seq!['y']) by {
                if answer@ == seq!['y'] {
                    assert(answer@.len() == 1 && answer@[0] == 'y');
                }
            }
        }
    }
    if affirmative {
        match parse_isize(lead) {
            Some(n) => Ok(n),
            None => Err(NormalError::NumberFormat),
        }
    } else {
        Ok(-1)
    }
}

/// The tokens joined by single spaces, in order.
pub open spec fn join_spaced(ts: Seq<String>) -> Seq<char>
    decreases ts.len(),
{
    if ts.len() == 0 {
        Seq::empty()
    } else if ts.len() == 1 {
        ts[0]@
    } else {
        join_spaced(ts.drop_last()) + seq![' '] + ts.last()@
    }
}

/// Whether an all-parameters line is usable: the time fields must read
/// as a valid clock time, and the flag, notify, and command tokens must
/// all be present.
pub open spec fn parse_item_outcome(ts: Seq<String>) -> Result<(), NormalError> {
    match parse_time_model(ts) {
        Err(e) => Err(e),
        Ok(_) => if ts.len() <= 5 {
            Err(NormalError::Input)
        } else {
            Ok(())
        },
    }
}

/// Reads one all-parameters configuration line from its tokens: a clock
/// time, the built-in-player flag, the lead seconds, the command word,
/// and the remaining tokens joined as its parameters.
pub fn parse_item_with_all_parameters(tokens: &Vec<String>) -> (r: Result<
    (Time, Command),
    NormalError,
>)
    ensures
        r is Ok <==> parse_item_outcome(tokens@) is Ok,
        r matches Err(e) ==> parse_item_outcome(tokens@) == Err::<(), NormalError>(e),
        r matches Ok(p) ==> {
            &&& parse_time_model(tokens@) == Ok::<Time, NormalError>(p.0)
            &&& p.0.valid()
            &&& p.1.command == tokens@[5]
            &&& p.1.parameters@ == join_spaced(tokens@.skip(6))
            &&& p.1.audio == truthy(tokens@[3]@)
            &&& p.1.notify == notify_of(tokens@[4]@)
        },
{
    let time = match parse_time(tokens) {
        Ok(t) => t,
        Err(e) => {
            return Err(e);
        },
    };
    if tokens.len() <= 3 {
        return Err(NormalError::Input);
    }
    let audio = is_truthy(tokens[3].as_str());
    if tokens.len() <= 4 {
        return Err(NormalError::Input);
    }
    let notify = match parse_isize(tokens[4].as_str()) {
        Some(n) => n,
        None => -1,
    };
    if tokens.len() <= 5 {
        return Err(NormalError::Input);
    }
    let command = tokens[5].clone();
    let mut parameters = String::new();
    let mut k: usize = 6;
    proof {
        assert(tokens@.subrange(6, 6) =~= Seq::<String>::empty());
    }
    while k < tokens.len()
        invariant
            tokens@.len() >= 6,
            6 <= k <= tokens@.len(),
            parameters@ == join_spaced(tokens@.subrange(6, k as int)),
        decreases tokens@.len() - k,
    {
        let ghost prev = parameters@;
        if k > 6 {
            parameters.append(" ");
        }
        parameters.append(tokens[k].as_str());
        proof {
            let sub1 = tokens@.subrange(6, k + 1);
            assert(sub1.last() == tokens@[k as int]);
            if k == 6 {
                assert(sub1.len() == 1);
                assert(parameters@ =~= sub1[0]@);
            } else {
                assert(sub1.drop_last() =~= tokens@.subrange(6, k as int));
                reveal_strlit(" ");
                assert(prev + " "@ + tokens@[k as int]@ =~= join_spaced(sub1)) by {
                    assert(" "@ =~= seq![' ']);
                }
                assert(parameters@ =~= prev + " "@ + tokens@[k as int]@);
            }
        }
        k = k + 1;
    }
    proof {
        assert(tokens@.subrange(6, tokens@.len() as int) =~= tokens@.skip(6));
    }
    Ok((time, Command { command, parameters, audio, notify }))
}

} // verus!
