//! Decision tags: the text `<token>,<code>` attached to each action of a
//! prompt and handed back when an approver taps it.

use vstd::arithmetic::div_mod::lemma_fundamental_div_mod;
use vstd::prelude::*;

verus! {

/// The byte that separates the token from the decision code.
pub const COMMA: u8 = 44;

/// The byte of the digit zero.
pub const ZERO: u8 = 48;

/// What an approver answered.
#[derive(Debug, Clone, Copy, PartialEq, Eq, Structural)]
pub enum Decision {
    Allow,
    Deny,
}

/// The byte that codes a decision in a tag: `0` to pass, `1` to deny.
pub open spec fn code_of(d: Decision) -> u8 {
    match d {
        Decision::Allow => ZERO,
        Decision::Deny => (ZERO + 1) as u8,
    }
}

/// The decision that a code byte stands for, if any.
pub open spec fn decision_of(c: u8) -> Option<Decision> {
    if c == ZERO {
        Some(Decision::Allow)
    } else if c == ZERO + 1 {
        Some(Decision::Deny)
    } else {
        None
    }
}

pub open spec fn is_digit(b: u8) -> bool {
    ZERO <= b <= ZERO + 9
}

/// The number that a run of decimal digits spells.
pub open spec fn digits_value(s: Seq<u8>) -> int
    decreases s.len(),
{
    if s.len() == 0 {
        0
    } else {
        10 * digits_value(s.drop_last()) + (s.last() - ZERO)
    }
}

/// The decimal digits of `n`, with no leading zero.
pub open spec fn decimal(n: nat) -> Seq<u8>
    decreases n,
{
    if n < 10 {
        seq![(ZERO + n) as u8]
    } else {
        decimal(n / 10).push((ZERO + n % 10) as u8)
    }
}

/// The tag for a token and a decision.
pub open spec fn tag_spec(token: u64, d: Decision) -> Seq<u8> {
    decimal(token as nat) + seq![COMMA, code_of(d)]
}

/// What a tag reads as: a token of one or more decimal digits that fits in
/// 64 bits, a comma, and one decision code.
pub open spec fn parse_tag_spec(s: Seq<u8>) -> Option<(u64, Decision)> {
    let n = s.len() as int;
    let digits = s.subrange(0, n - 2);
    if n >= 3 && s[n - 2] == COMMA && decision_of(s[n - 1]) is Some && (forall|i: int|
        0 <= i < digits.len() ==> is_digit(#[trigger] digits[i])) && digits_value(digits)
        <= u64::MAX {
        Some((digits_value(digits) as u64, decision_of(s[n - 1])->Some_0))
    } else {
        None
    }
}

impl Decision {
    /// The line sent back to the local client.
    pub fn response_line(&self) -> (r: &'static str)
        ensures
            r@ == (match self {
                Decision::Allow => "ALLOW\n"@,
                Decision::Deny => "DENY\n"@,
            }),
    {
        match self {
            Decision::Allow => "ALLOW\n",
            Decision::Deny => "DENY\n",
        }
    }
}

fn push_decimal(n: u64, out: &mut Vec<u8>)
    ensures
        final(out)@ == old(out)@ + decimal(n as nat),
    decreases n,
{
    if n >= 10 {
        push_decimal(n / 10, out);
    }
    out.push(ZERO + (n % 10) as u8);
    proof {
        if n >= 10 {
            assert(old(out)@ + decimal(n as nat) =~= old(out)@ + decimal((n / 10) as nat) + seq![
                (ZERO + n % 10) as u8,
            ]);
        } else {
            assert(old(out)@ + decimal(n as nat) =~= old(out)@.push((ZERO + n % 10) as u8));
        }
    }
}

/// The tag attached to the action that answers `decision` for `token`.
pub fn callback_tag(token: u64, decision: Decision) -> (r: Vec<u8>)
    ensures
        r@ == tag_spec(token, decision),
{
    let mut r: Vec<u8> = Vec::new();
    push_decimal(token, &mut r);
    r.push(COMMA);
    match decision {
        Decision::Allow => r.push(ZERO),
        Decision::Deny => r.push(ZERO + 1),
    }
    assert(r@ =~= tag_spec(token, decision));
    r
}

/// A run of digits spells at least what any prefix of it spells.
proof fn lemma_value_of_prefix(s: Seq<u8>, i: int)
    requires
        0 <= i <= s.len(),
        forall|k: int| 0 <= k < s.len() ==> is_digit(#[trigger] s[k]),
    ensures
        digits_value(s.subrange(0, i)) <= digits_value(s),
        0 <= digits_value(s),
    decreases s.len(),
{
    if s.len() > 0 {
        lemma_value_of_prefix(s.drop_last(), if i == s.len() { 0 } else { i });
        if i < s.len() {
            assert(s.drop_last().subrange(0, i) =~= s.subrange(0, i));
        } else {
            assert(s.subrange(0, i) =~= s);
        }
    } else {
        assert(s.subrange(0, i) =~= s);
    }
}

/// Reads a tag.
pub fn parse_tag(s: &[u8]) -> (r: Option<(u64, Decision)>)
    ensures
        r == parse_tag_spec(s@),
{
    let n = s.len();
    if n < 3 || s[n - 2] != COMMA {
        return None;
    }
    let decision = if s[n - 1] == ZERO {
        Decision::Allow
    } else if s[n - 1] == ZERO + 1 {
        Decision::Deny
    } else {
        return None;
    };
    let ghost digits = s@.subrange(0, n - 2);
    let mut value: u64 = 0;
    let mut i: usize = 0;
    while i < n - 2
        invariant
            n == s@.len(),
            n >= 3,
            digits == s@.subrange(0, n - 2),
            0 <= i <= n - 2,
            forall|k: int| 0 <= k < i ==> is_digit(#[trigger] digits[k]),
            value == digits_value(digits.subrange(0, i as int)),
        decreases n - 2 - i,
    {
        let b = s[i];
        if b < ZERO || b > ZERO + 9 {
            assert(!is_digit(digits[i as int]));
            return None;
        }
        let d = (b - ZERO) as u64;
        assert(digits.subrange(0, i + 1).drop_last() =~= digits.subrange(0, i as int));
        if value > (u64::MAX - d) / 10 {
            assert(digits_value(digits.subrange(0, i + 1)) > u64::MAX) by (nonlinear_arith)
                requires
                    value > (u64::MAX - d) / 10,
                    digits_value(digits.subrange(0, i + 1)) == 10 * value + d,
            ;
            proof {
                if forall|k: int| 0 <= k < digits.len() ==> is_digit(#[trigger] digits[k]) {
                    lemma_value_of_prefix(digits, i + 1);
                }
            }
            return None;
        }
        assert(10 * value + d <= u64::MAX) by (nonlinear_arith)
            requires
                value <= (u64::MAX - d) / 10,
                d <= 9,
        ;
        value = 10 * value + d;
        i = i + 1;
    }
    assert(digits.subrange(0, i as int) =~= digits);
    Some((value, decision))
}

/// A tag is read back as the token and the decision that it was made for.
pub proof fn lemma_tag_round_trip(token: u64, d: Decision)
    ensures
        parse_tag_spec(tag_spec(token, d)) == Some((token, d)),
{
    lemma_decimal(token as nat);
    let s = tag_spec(token, d);
    let digits = decimal(token as nat);
    assert(s.subrange(0, s.len() - 2) =~= digits);
}

/// The decimal digits of `n` are digits, and spell `n`.
proof fn lemma_decimal(n: nat)
    ensures
        forall|k: int| 0 <= k < decimal(n).len() ==> is_digit(#[trigger] decimal(n)[k]),
        digits_value(decimal(n)) == n,
        decimal(n).len() >= 1,
    decreases n,
{
    if n >= 10 {
        lemma_decimal(n / 10);
        lemma_fundamental_div_mod(n as int, 10);
        assert(decimal(n).drop_last() =~= decimal(n / 10));
        assert(decimal(n).last() - ZERO == n % 10);
        assert(digits_value(decimal(n)) == 10 * (n / 10) + n % 10);
    } else {
        assert(decimal(n).drop_last() =~= Seq::<u8>::empty());
        assert(decimal(n).last() - ZERO == n);
        assert(digits_value(Seq::<u8>::empty()) == 0);
    }
}

} // verus!
