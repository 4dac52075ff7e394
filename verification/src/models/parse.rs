//! Parsing of input records and formatting of amounts.
//!
//! An input record is one comma-separated line of `type, client, tx, amount`
//! with optional whitespace around each field. Amounts are decimals with up
//! to four fractional digits, held exactly as a [`CreditAmount`] in units of
//! one ten-thousandth. A record that does not follow this schema fails with
//! [`ParseError`] and is skipped by the record source.

use vstd::prelude::*;

use crate::models::account::{AccountId, CreditAmount};
use crate::models::transaction::{Transaction, TransactionId, TransactionType, TransactionView};

verus! {

/// The byte values the record grammar speaks of.
pub const B_TAB: u8 = 9;

pub const B_CR: u8 = 13;

pub const B_SPACE: u8 = 32;

pub const B_COMMA: u8 = 44;

pub const B_DOT: u8 = 46;

pub const B_ZERO: u8 = 48;

pub const B_NINE: u8 = 57;

/// A record that does not follow the schema. It is logged and skipped; a bad
/// record never aborts ingestion.
#[derive(Clone, Copy, Debug, PartialEq, Eq, Structural)]
pub struct ParseError;

/// Whitespace that may pad a field.
pub open spec fn is_space(b: u8) -> bool {
    b == B_SPACE || b == B_TAB || b == B_CR
}

/// A decimal digit.
pub open spec fn is_digit(b: u8) -> bool {
    B_ZERO <= b <= B_NINE
}

/// Index of the first `stop` byte at or after `i`, or the length.
pub open spec fn scan(s: Seq<u8>, i: int, stop: u8) -> int
    decreases s.len() - i,
{
    if i >= s.len() {
        s.len() as int
    } else if s[i] == stop {
        i
    } else {
        scan(s, i + 1, stop)
    }
}

pub proof fn lemma_scan(s: Seq<u8>, i: int, stop: u8)
    requires
        0 <= i <= s.len(),
    ensures
        i <= scan(s, i, stop) <= s.len(),
        scan(s, i, stop) < s.len() ==> s[scan(s, i, stop)] == stop,
        forall|k: int| i <= k < scan(s, i, stop) ==> s[k] != stop,
    decreases s.len() - i,
{
    if i < s.len() && s[i] != stop {
        lemma_scan(s, i + 1, stop);
    }
}

/// Index of the first non-space byte at or after `i`, or the length.
pub open spec fn lead(s: Seq<u8>, i: int) -> int
    decreases s.len() - i,
{
    if i >= s.len() {
        s.len() as int
    } else if is_space(s[i]) {
        lead(s, i + 1)
    } else {
        i
    }
}

pub proof fn lemma_lead(s: Seq<u8>, i: int)
    requires
        0 <= i <= s.len(),
    ensures
        i <= lead(s, i) <= s.len(),
        lead(s, i) < s.len() ==> !is_space(s[lead(s, i)]),
        forall|k: int| i <= k < lead(s, i) ==> is_space(s[k]),
    decreases s.len() - i,
{
    if i < s.len() && is_space(s[i]) {
        lemma_lead(s, i + 1);
    }
}

/// End of the last non-space byte strictly before `j`, or zero.
pub open spec fn trail(s: Seq<u8>, j: int) -> int
    decreases j,
{
    if j <= 0 {
        0
    } else if is_space(s[j - 1]) {
        trail(s, j - 1)
    } else {
        j
    }
}

pub proof fn lemma_trail(s: Seq<u8>, j: int)
    requires
        0 <= j <= s.len(),
    ensures
        0 <= trail(s, j) <= j,
        trail(s, j) > 0 ==> !is_space(s[trail(s, j) - 1]),
        forall|k: int| trail(s, j) <= k < j ==> is_space(s[k]),
    decreases j,
{
    if j > 0 && is_space(s[j - 1]) {
        lemma_trail(s, j - 1);
    }
}

/// The field with its surrounding whitespace removed.
pub open spec fn spec_trim(s: Seq<u8>) -> Seq<u8> {
    let a = lead(s, 0);
    let b = trail(s, s.len() as int);
    if a <= b {
        s.subrange(a, b)
    } else {
        Seq::empty()
    }
}

/// Every byte is a decimal digit.
pub open spec fn all_digits(s: Seq<u8>) -> bool {
    forall|k: int| 0 <= k < s.len() ==> is_digit(#[trigger] s[k])
}

/// The number a digit string denotes, most significant digit first.
pub open spec fn digits_val(s: Seq<u8>) -> int
    decreases s.len(),
{
    if s.len() == 0 {
        0
    } else {
        digits_val(s.drop_last()) * 10 + (s.last() - B_ZERO)
    }
}

/// Ten to the `n`th.
pub open spec fn pow10(n: nat) -> int
    decreases n,
{
    if n == 0 {
        1
    } else {
        10 * pow10((n - 1) as nat)
    }
}

/// A digit string's value is bounded by ten to its length.
pub proof fn lemma_digits_val_upper(s: Seq<u8>)
    requires
        all_digits(s),
    ensures
        0 <= digits_val(s) < pow10(s.len()),
    decreases s.len(),
{
    if s.len() > 0 {
        assert(all_digits(s.drop_last()));
        lemma_digits_val_upper(s.drop_last());
        assert(is_digit(s.last()));
    }
}

/// A prefix of a digit string never denotes more than the whole.
pub proof fn lemma_digits_val_take_le(s: Seq<u8>, i: int)
    requires
        all_digits(s),
        0 <= i <= s.len(),
    ensures
        0 <= digits_val(s.take(i)) <= digits_val(s),
    decreases s.len(),
{
    if i == s.len() {
        assert(s.take(i) =~= s);
        lemma_digits_val_upper(s);
    } else {
        assert(all_digits(s.drop_last()));
        assert(s.take(i) =~= s.drop_last().take(i));
        lemma_digits_val_take_le(s.drop_last(), i);
        assert(is_digit(s.last()));
    }
}

/// A parsed unsigned decimal: at least one digit, nothing else, and a value
/// of at most `max`.
pub open spec fn spec_parse_uint(s: Seq<u8>, max: int) -> Option<int> {
    if s.len() > 0 && all_digits(s) && digits_val(s) <= max {
        Some(digits_val(s))
    } else {
        None
    }
}

fn scan_for(s: &[u8], from: usize, stop: u8) -> (r: usize)
    requires
        from <= s@.len(),
    ensures
        r == scan(s@, from as int, stop),
{
    let n = s.len();
    let mut i = from;
    while i < n
        invariant
            from <= i <= n,
            n == s@.len(),
            scan(s@, from as int, stop) == scan(s@, i as int, stop),
        decreases n - i,
    {
        if s[i] == stop {
            return i;
        }
        i = i + 1;
    }
    i
}

fn copy_range(s: &[u8], a: usize, b: usize) -> (r: Vec<u8>)
    requires
        a <= b <= s@.len(),
    ensures
        r@ == s@.subrange(a as int, b as int),
{
    let mut r: Vec<u8> = Vec::new();
    let mut i = a;
    while i < b
        invariant
            a <= i <= b <= s@.len(),
            r@ =~= s@.subrange(a as int, i as int),
        decreases b - i,
    {
        r.push(s[i]);
        proof {
            assert(r@ =~= s@.subrange(a as int, i as int + 1));
        }
        i = i + 1;
    }
    r
}

/// Removes the whitespace around a field.
pub fn trim_bytes(s: &[u8]) -> (r: Vec<u8>)
    ensures
        r@ == spec_trim(s@),
{
    let n = s.len();
    let mut a: usize = 0;
    while a < n && (s[a] == B_SPACE || s[a] == B_TAB || s[a] == B_CR)
        invariant
            a <= n,
            n == s@.len(),
            lead(s@, 0) == lead(s@, a as int),
        decreases n - a,
    {
        a = a + 1;
    }
    let mut b: usize = n;
    while b > a && (s[b - 1] == B_SPACE || s[b - 1] == B_TAB || s[b - 1] == B_CR)
        invariant
            a <= b <= n,
            n == s@.len(),
            trail(s@, n as int) == trail(s@, b as int),
        decreases b,
    {
        b = b - 1;
    }
    proof {
        lemma_lead(s@, 0);
        lemma_trail(s@, n as int);
        assert(lead(s@, 0) == a);
        if b == a {
            assert forall|k: int| 0 <= k < a implies is_space(s@[k]) by {}
            lemma_trail_all_spaces(s@, a as int);
            assert(trail(s@, n as int) <= a);
            if trail(s@, n as int) < a {
                assert(spec_trim(s@) =~= Seq::<u8>::empty());
            } else {
                assert(spec_trim(s@) =~= s@.subrange(a as int, b as int));
            }
        } else {
            assert(!is_space(s@[b - 1]));
            assert(trail(s@, b as int) == b);
        }
    }
    if b == a {
        let r: Vec<u8> = Vec::new();
        proof {
            assert(r@ =~= spec_trim(s@));
        }
        r
    } else {
        copy_range(s, a, b)
    }
}

/// Below an all-space boundary the trailing trim reaches zero.
proof fn lemma_trail_all_spaces(s: Seq<u8>, j: int)
    requires
        0 <= j <= s.len(),
        forall|k: int| 0 <= k < j ==> is_space(s[k]),
    ensures
        trail(s, j) == 0,
    decreases j,
{
    if j > 0 {
        lemma_trail_all_spaces(s, j - 1);
    }
}

/// Parses an unsigned decimal of value at most `max`.
pub fn parse_uint(s: &[u8], max: u64) -> (r: Option<u64>)
    ensures
        r is Some ==> spec_parse_uint(s@, max as int) == Some(r->0 as int),
        r is None ==> spec_parse_uint(s@, max as int) is None,
{
    let n = s.len();
    if n == 0 {
        return None;
    }
    let mut val: u64 = 0;
    let mut i: usize = 0;
    while i < n
        invariant
            i <= n,
            n == s@.len(),
            all_digits(s@.take(i as int)),
            val <= max,
            val == digits_val(s@.take(i as int)),
        decreases n - i,
    {
        let c = s[i];
        if c < B_ZERO || c > B_NINE {
            proof {
                assert(!is_digit(s@[i as int]));
            }
            return None;
        }
        let d = (c - B_ZERO) as u64;
        proof {
            assert(s@.take(i as int + 1).drop_last() =~= s@.take(i as int));
            assert(s@.take(i as int + 1).last() == s@[i as int]);
        }
        if d > max || val > (max - d) / 10 {
            proof {
                assert(digits_val(s@.take(i as int + 1)) > max);
                if s@.len() > 0 && all_digits(s@) && digits_val(s@) <= max {
                    lemma_digits_val_take_le(s@, i as int + 1);
                }
            }
            return None;
        }
        proof {
            assert(val * 10 <= ((max - d) / 10) * 10 <= max - d) by (nonlinear_arith)
                requires
                    val <= (max - d) / 10,
                    0 <= d <= max,
            ;
        }
        val = val * 10 + d;
        i = i + 1;
    }
    proof {
        assert(s@.take(n as int) =~= s@);
    }
    Some(val)
}


/// The bytes of the token `deposit`.
pub open spec fn token_deposit() -> Seq<u8> {
    seq![100u8, 101u8, 112u8, 111u8, 115u8, 105u8, 116u8]
}

/// The bytes of the token `withdrawal`.
pub open spec fn token_withdrawal() -> Seq<u8> {
    seq![119u8, 105u8, 116u8, 104u8, 100u8, 114u8, 97u8, 119u8, 97u8, 108u8]
}

/// The bytes of the token `dispute`.
pub open spec fn token_dispute() -> Seq<u8> {
    seq![100u8, 105u8, 115u8, 112u8, 117u8, 116u8, 101u8]
}

/// The bytes of the token `resolve`.
pub open spec fn token_resolve() -> Seq<u8> {
    seq![114u8, 101u8, 115u8, 111u8, 108u8, 118u8, 101u8]
}

/// The bytes of the token `chargeback`.
pub open spec fn token_chargeback() -> Seq<u8> {
    seq![99u8, 104u8, 97u8, 114u8, 103u8, 101u8, 98u8, 97u8, 99u8, 107u8]
}

/// The transaction type a field names: one of the five lowercase tokens.
pub open spec fn spec_parse_type(s: Seq<u8>) -> Option<TransactionType> {
    if s == token_deposit() {
        Some(TransactionType::Deposit)
    } else if s == token_withdrawal() {
        Some(TransactionType::Withdrawal)
    } else if s == token_dispute() {
        Some(TransactionType::Dispute)
    } else if s == token_resolve() {
        Some(TransactionType::Resolve)
    } else if s == token_chargeback() {
        Some(TransactionType::Chargeback)
    } else {
        None
    }
}

/// Reads one of the five type tokens.
pub fn parse_type(s: &[u8]) -> (r: Option<TransactionType>)
    ensures
        r == spec_parse_type(s@),
{
    if s.len() == 7 {
        if s[0] == 100 && s[1] == 101 && s[2] == 112 && s[3] == 111 && s[4] == 115 && s[5] == 105
            && s[6] == 116 {
            proof {
                assert(s@ =~= token_deposit());
            }
            return Some(TransactionType::Deposit);
        }
        if s[0] == 100 && s[1] == 105 && s[2] == 115 && s[3] == 112 && s[4] == 117 && s[5] == 116
            && s[6] == 101 {
            proof {
                assert(s@ =~= token_dispute());
            }
            return Some(TransactionType::Dispute);
        }
        if s[0] == 114 && s[1] == 101 && s[2] == 115 && s[3] == 111 && s[4] == 108 && s[5] == 118
            && s[6] == 101 {
            proof {
                assert(s@ =~= token_resolve());
            }
            return Some(TransactionType::Resolve);
        }
        return None;
    }
    if s.len() == 10 {
        if s[0] == 119 && s[1] == 105 && s[2] == 116 && s[3] == 104 && s[4] == 100 && s[5] == 114
            && s[6] == 97 && s[7] == 119 && s[8] == 97 && s[9] == 108 {
            proof {
                assert(s@ =~= token_withdrawal());
            }
            return Some(TransactionType::Withdrawal);
        }
        if s[0] == 99 && s[1] == 104 && s[2] == 97 && s[3] == 114 && s[4] == 103 && s[5] == 101
            && s[6] == 98 && s[7] == 97 && s[8] == 99 && s[9] == 107 {
            proof {
                assert(s@ =~= token_chargeback());
            }
            return Some(TransactionType::Chargeback);
        }
        return None;
    }
    None
}

/// The scaled value of an amount field: integer units, optionally a dot and
/// one to four fractional digits, held in units of one ten-thousandth. An
/// amount a `CreditAmount` cannot hold does not parse.
pub open spec fn spec_parse_amount(s: Seq<u8>) -> Option<int> {
    let d = scan(s, 0, B_DOT);
    let ip = s.subrange(0, d);
    let fp = if d < s.len() {
        s.subrange(d + 1, s.len() as int)
    } else {
        Seq::empty()
    };
    if ip.len() > 0 && all_digits(ip) && (d == s.len() || (1 <= fp.len() <= 4 && all_digits(fp))) {
        let v = digits_val(ip) * 10000 + digits_val(fp) * pow10((4 - fp.len()) as nat);
        if v <= i64::MAX {
            Some(v)
        } else {
            None
        }
    } else {
        None
    }
}

/// Parses an amount field into a `CreditAmount`.
pub fn parse_amount(s: &[u8]) -> (r: Option<CreditAmount>)
    ensures
        r is Some ==> spec_parse_amount(s@) == Some(r->0 as int) && r->0 >= 0,
        r is None ==> spec_parse_amount(s@) is None,
{
    proof {
        assert(pow10(0) == 1);
        assert(pow10(1) == 10);
        assert(pow10(2) == 100);
        assert(pow10(3) == 1000);
        assert(pow10(4) == 10000);
    }
    let n = s.len();
    let d = scan_for(s, 0, B_DOT);
    proof {
        lemma_scan(s@, 0, B_DOT);
    }
    let ghost ips = s@.subrange(0, d as int);
    let ghost fps = if (d as int) < s@.len() {
        s@.subrange(d as int + 1, s@.len() as int)
    } else {
        Seq::<u8>::empty()
    };
    proof {
        if all_digits(fps) {
            lemma_digits_val_upper(fps);
        }
        if fps.len() <= 4 {
            assert(pow10((4 - fps.len()) as nat) >= 1 && pow10((4 - fps.len()) as nat) <= 10000);
        }
    }
    let ip = copy_range(s, 0, d);
    let ipv = match parse_uint(ip.as_slice(), 922337203685477u64) {
        Some(v) => v,
        None => {
            proof {
                if ips.len() > 0 && all_digits(ips) {
                    assert(digits_val(ips) > 922337203685477);
                    assert(digits_val(ips) * 10000 >= 9223372036854780000) by (nonlinear_arith)
                        requires
                            digits_val(ips) >= 922337203685478,
                    ;
                    if all_digits(fps) && fps.len() <= 4 {
                        assert(digits_val(fps) * pow10((4 - fps.len()) as nat) >= 0) by (
                        nonlinear_arith)
                            requires
                                digits_val(fps) >= 0,
                                pow10((4 - fps.len()) as nat) >= 1,
                        ;
                    }
                }
            }
            return None;
        },
    };
    let frac: u64;
    let mult: u64;
    let ghost fpl = fps.len();
    if d < n {
        let fl = n - d - 1;
        if fl < 1 || fl > 4 {
            return None;
        }
        let fp = copy_range(s, d + 1, n);
        frac = match parse_uint(fp.as_slice(), 9999u64) {
            Some(v) => v,
            None => {
                proof {
                    if all_digits(fps) {
                        assert(digits_val(fps) <= 9999);
                    }
                }
                return None;
            },
        };
        proof {
            lemma_digits_val_upper(fps);
        }
        if fl == 1 {
            mult = 1000;
            proof {
                assert(digits_val(fps) < 10);
            }
        } else if fl == 2 {
            mult = 100;
            proof {
                assert(digits_val(fps) < 100);
            }
        } else if fl == 3 {
            mult = 10;
            proof {
                assert(digits_val(fps) < 1000);
            }
        } else {
            mult = 1;
            proof {
                assert(digits_val(fps) < 10000);
            }
        }
        proof {
            assert(frac * mult <= 9999);
            assert(frac as int * (mult as int) == digits_val(fps) * pow10((4 - fpl) as nat));
        }
    } else {
        frac = 0;
        mult = 10000;
        proof {
            assert(digits_val(fps) == 0);
            assert(frac * mult <= 9999);
            assert(frac as int * (mult as int) == digits_val(fps) * pow10((4 - fpl) as nat));
        }
    }
    let v = ipv * 10000 + frac * mult;
    if v > 9223372036854775807u64 {
        return None;
    }
    Some(v as i64)
}


/// A parsed record, or nothing for one that breaks the schema: three or four
/// comma-separated fields; a type token, a 16-bit client id and a 32-bit
/// transaction id; an amount field that parses, present exactly for deposits
/// and withdrawals.
pub open spec fn spec_parse_record(s: Seq<u8>) -> Option<TransactionView> {
    let e0 = scan(s, 0, B_COMMA);
    let e1 = scan(s, e0 + 1, B_COMMA);
    let e2 = scan(s, e1 + 1, B_COMMA);
    if e0 == s.len() || e1 == s.len() {
        None
    } else if e2 < s.len() && scan(s, e2 + 1, B_COMMA) < s.len() {
        None
    } else {
        let f0 = spec_trim(s.subrange(0, e0));
        let f1 = spec_trim(s.subrange(e0 + 1, e1));
        let f2 = spec_trim(s.subrange(e1 + 1, e2));
        let f3 = if e2 < s.len() {
            Some(spec_trim(s.subrange(e2 + 1, s.len() as int)))
        } else {
            None
        };
        match spec_parse_type(f0) {
            None => None,
            Some(ty) => match spec_parse_uint(f1, u16::MAX as int) {
                None => None,
                Some(client) => match spec_parse_uint(f2, u32::MAX as int) {
                    None => None,
                    Some(tx) => match ty {
                        TransactionType::Deposit | TransactionType::Withdrawal => match f3 {
                            None => None,
                            Some(af) => match spec_parse_amount(af) {
                                None => None,
                                Some(v) => Some(
                                    TransactionView {
                                        transaction_type: ty,
                                        client: client as AccountId,
                                        tx: tx as TransactionId,
                                        amount: Some(v),
                                    },
                                ),
                            },
                        },
                        _ => {
                            let bare = TransactionView {
                                transaction_type: ty,
                                client: client as AccountId,
                                tx: tx as TransactionId,
                                amount: None,
                            };
                            match f3 {
                                None => Some(bare),
                                Some(af) => if af.len() == 0 {
                                    Some(bare)
                                } else {
                                    None
                                },
                            }
                        },
                    },
                },
            },
        }
    }
}

/// Parses one input record. A record that fails is reported and skipped by
/// the record source; it never aborts ingestion.
pub fn parse_record(line: &[u8]) -> (r: Result<Transaction, ParseError>)
    ensures
        r matches Ok(t) ==> spec_parse_record(line@) == Some(t@) && t@.wf(),
        r is Err ==> spec_parse_record(line@) is None,
{
    let n = line.len();
    let e0 = scan_for(line, 0, B_COMMA);
    proof {
        lemma_scan(line@, 0, B_COMMA);
    }
    if e0 == n {
        return Err(ParseError);
    }
    let e1 = scan_for(line, e0 + 1, B_COMMA);
    proof {
        lemma_scan(line@, e0 as int + 1, B_COMMA);
    }
    if e1 == n {
        return Err(ParseError);
    }
    let e2 = scan_for(line, e1 + 1, B_COMMA);
    proof {
        lemma_scan(line@, e1 as int + 1, B_COMMA);
    }
    if e2 < n {
        let e3 = scan_for(line, e2 + 1, B_COMMA);
        if e3 < n {
            return Err(ParseError);
        }
    }
    let f0v = copy_range(line, 0, e0);
    let f0 = trim_bytes(f0v.as_slice());
    let ty = match parse_type(f0.as_slice()) {
        None => {
            return Err(ParseError);
        },
        Some(t) => t,
    };
    let f1v = copy_range(line, e0 + 1, e1);
    let f1 = trim_bytes(f1v.as_slice());
    let client = match parse_uint(f1.as_slice(), 65535u64) {
        None => {
            return Err(ParseError);
        },
        Some(v) => v as u16,
    };
    let f2v = copy_range(line, e1 + 1, e2);
    let f2 = trim_bytes(f2v.as_slice());
    let tx = match parse_uint(f2.as_slice(), 4294967295u64) {
        None => {
            return Err(ParseError);
        },
        Some(v) => v as u32,
    };
    match ty {
        TransactionType::Deposit | TransactionType::Withdrawal => {
            if e2 == n {
                return Err(ParseError);
            }
            let f3v = copy_range(line, e2 + 1, n);
            let f3 = trim_bytes(f3v.as_slice());
            let amount = match parse_amount(f3.as_slice()) {
                None => {
                    return Err(ParseError);
                },
                Some(v) => v,
            };
            Ok(Transaction::new(ty, client, tx, Some(amount)))
        },
        _ => {
            if e2 < n {
                let f3v = copy_range(line, e2 + 1, n);
                let f3 = trim_bytes(f3v.as_slice());
                if f3.len() != 0 {
                    return Err(ParseError);
                }
            }
            Ok(Transaction::new(ty, client, tx, None))
        },
    }
}

pub const B_MINUS: u8 = 45;

/// The decimal digits of `n`, most significant first; empty for zero.
pub open spec fn spec_digits(n: int) -> Seq<u8>
    decreases n,
{
    if n <= 0 {
        Seq::empty()
    } else {
        spec_digits(n / 10).push((n % 10 + B_ZERO) as u8)
    }
}

/// The units part of a formatted amount: the digits of `n`, or one zero.
pub open spec fn spec_units(n: int) -> Seq<u8> {
    if n == 0 {
        seq![B_ZERO]
    } else {
        spec_digits(n)
    }
}

/// Exactly four fractional digits, zero padded.
pub open spec fn spec_frac4(f: int) -> Seq<u8> {
    seq![
        (f / 1000 % 10 + B_ZERO) as u8,
        (f / 100 % 10 + B_ZERO) as u8,
        (f / 10 % 10 + B_ZERO) as u8,
        (f % 10 + B_ZERO) as u8,
    ]
}

/// A formatted amount: an optional minus, the integer units, a dot, and
/// exactly four fractional digits.
pub open spec fn spec_format_amount(a: int) -> Seq<u8> {
    let m = if a < 0 {
        -a
    } else {
        a
    };
    let sign: Seq<u8> = if a < 0 {
        seq![B_MINUS]
    } else {
        Seq::empty()
    };
    sign + spec_units(m / 10000) + seq![B_DOT] + spec_frac4(m % 10000)
}

/// Formats an amount the way the output records show it: four fractional
/// digits, always.
pub fn serialize_amount(a: CreditAmount) -> (r: Vec<u8>)
    ensures
        r@ == spec_format_amount(a as int),
{
    let m: u64 = if a < 0 {
        (-(a as i128)) as u64
    } else {
        a as u64
    };
    let units: u64 = m / 10000;
    let frac: u64 = m % 10000;
    let mut rev: Vec<u8> = Vec::new();
    let mut u: u64 = units;
    proof {
        assert(spec_digits(units as int) =~= spec_digits(u as int) + rev@.reverse());
    }
    while u > 0
        invariant
            spec_digits(units as int) =~= spec_digits(u as int) + rev@.reverse(),
        decreases u,
    {
        let ghost u0 = u as int;
        let ghost rev0 = rev@;
        let dig: u8 = (u % 10) as u8 + B_ZERO;
        rev.push(dig);
        u = u / 10;
        proof {
            assert(spec_digits(u0) == spec_digits(u0 / 10).push(dig));
            assert(rev@.reverse() =~= seq![dig] + rev0.reverse());
            assert(spec_digits(u0 / 10) + rev@.reverse() =~= spec_digits(u0) + rev0.reverse());
        }
    }
    let mut out: Vec<u8> = Vec::new();
    if a < 0 {
        out.push(B_MINUS);
    }
    let ghost sign = out@;
    if rev.len() == 0 {
        out.push(B_ZERO);
    } else {
        let n = rev.len();
        let mut i: usize = 0;
        while i < n
            invariant
                i <= n,
                n == rev@.len(),
                out@ =~= sign + rev@.reverse().subrange(0, i as int),
            decreases n - i,
        {
            out.push(rev[n - 1 - i]);
            proof {
                assert(out@ =~= sign + rev@.reverse().subrange(0, i as int + 1));
            }
            i = i + 1;
        }
        proof {
            assert(rev@.reverse().subrange(0, n as int) =~= rev@.reverse());
        }
    }
    proof {
        assert(out@ =~= sign + spec_units(units as int));
    }
    out.push(B_DOT);
    out.push(((frac / 1000) % 10) as u8 + B_ZERO);
    out.push(((frac / 100) % 10) as u8 + B_ZERO);
    out.push(((frac / 10) % 10) as u8 + B_ZERO);
    out.push((frac % 10) as u8 + B_ZERO);
    proof {
        assert(out@ =~= spec_format_amount(a as int));
    }
    out
}

/// The digits of a non-negative number denote the number itself.
pub proof fn lemma_digits_roundtrip(n: int)
    requires
        n >= 0,
    ensures
        all_digits(spec_digits(n)),
        digits_val(spec_digits(n)) == n,
        n > 0 ==> spec_digits(n).len() > 0,
    decreases n,
{
    if n > 0 {
        lemma_digits_roundtrip(n / 10);
        let whole = spec_digits(n);
        assert(whole.drop_last() =~= spec_digits(n / 10));
        assert forall|k: int| 0 <= k < whole.len() implies is_digit(#[trigger] whole[k]) by {
            if k < whole.len() - 1 {
                assert(whole[k] == spec_digits(n / 10)[k]);
            }
        }
    }
}

/// Appending one digit multiplies the value by ten and adds the digit.
pub proof fn lemma_digits_val_push(s: Seq<u8>, b: u8)
    ensures
        digits_val(s.push(b)) == digits_val(s) * 10 + (b - B_ZERO),
{
    assert(s.push(b).drop_last() =~= s);
    assert(s.push(b).last() == b);
}

/// The units part denotes the unit count itself.
pub proof fn lemma_units_val(u: int)
    requires
        u >= 0,
    ensures
        all_digits(spec_units(u)),
        digits_val(spec_units(u)) == u,
        spec_units(u).len() > 0,
{
    if u > 0 {
        lemma_digits_roundtrip(u);
    } else {
        let us = spec_units(u);
        assert(us =~= Seq::<u8>::empty().push(B_ZERO));
        lemma_digits_val_push(Seq::<u8>::empty(), B_ZERO);
        assert(digits_val(Seq::<u8>::empty()) == 0);
        assert forall|k: int| 0 <= k < us.len() implies is_digit(#[trigger] us[k]) by {
            assert(us[k] == B_ZERO);
        }
    }
}

/// The four zero-padded fraction digits denote the fraction itself.
pub proof fn lemma_frac4_val(f: int)
    requires
        0 <= f < 10000,
    ensures
        spec_frac4(f).len() == 4,
        all_digits(spec_frac4(f)),
        digits_val(spec_frac4(f)) == f,
{
    let d0 = f / 1000 % 10;
    let d1 = f / 100 % 10;
    let d2 = f / 10 % 10;
    let d3 = f % 10;
    let e0: u8 = (d0 + B_ZERO) as u8;
    let e1: u8 = (d1 + B_ZERO) as u8;
    let e2: u8 = (d2 + B_ZERO) as u8;
    let e3: u8 = (d3 + B_ZERO) as u8;
    let s0 = Seq::<u8>::empty().push(e0);
    let s1 = s0.push(e1);
    let s2 = s1.push(e2);
    let s3 = s2.push(e3);
    lemma_digits_val_push(Seq::<u8>::empty(), e0);
    lemma_digits_val_push(s0, e1);
    lemma_digits_val_push(s1, e2);
    lemma_digits_val_push(s2, e3);
    assert(digits_val(Seq::<u8>::empty()) == 0);
    assert(digits_val(s3) == ((d0 * 10 + d1) * 10 + d2) * 10 + d3);
    assert(spec_frac4(f) =~= s3);
    assert(d0 * 1000 + d1 * 100 + d2 * 10 + d3 == f) by (nonlinear_arith)
        requires
            0 <= f < 10000,
            d0 == f / 1000 % 10,
            d1 == f / 100 % 10,
            d2 == f / 10 % 10,
            d3 == f % 10,
    ;
    assert forall|k: int| 0 <= k < spec_frac4(f).len() implies is_digit(
        #[trigger] spec_frac4(f)[k],
    ) by {
        if k == 0 {
        } else if k == 1 {
        } else if k == 2 {
        } else {
            assert(k == 3);
        }
    }
}

/// Law: an amount formatted for the report parses back to the same value.
pub proof fn lemma_format_parse_roundtrip(a: int)
    requires
        0 <= a <= i64::MAX,
    ensures
        spec_parse_amount(spec_format_amount(a)) == Some(a),
{
    let u = a / 10000;
    let f = a % 10000;
    let us = spec_units(u);
    let fs = spec_frac4(f);
    let s = spec_format_amount(a);
    assert(s =~= us + seq![B_DOT] + fs);
    lemma_units_val(u);
    lemma_frac4_val(f);
    let p = us.len() as int;
    assert forall|k: int| 0 <= k < p implies s[k] != B_DOT by {
        assert(s[k] == us[k]);
        assert(is_digit(us[k]));
    }
    assert(s[p] == B_DOT);
    lemma_scan(s, 0, B_DOT);
    let d = scan(s, 0, B_DOT);
    assert(d == p) by {
        if d < p {
            assert(s[d] != B_DOT);
        }
        if d > p {
            assert(s[p] != B_DOT);
        }
    }
    assert(s.subrange(0, p) =~= us);
    assert(s.subrange(p + 1, s.len() as int) =~= fs);
    assert(pow10(0) == 1);
    assert(digits_val(us) * 10000 + digits_val(fs) * pow10(0) == a);
}

} // verus!
