//! Content-based PII scanner.
//!
//! A cell's bytes are classified against anchored patterns, evaluated in a
//! fixed order: an email address first, then a credit-card number. Both
//! patterns cover only ASCII, so bytes that are not valid UTF-8 text can
//! never match and fall through to "no category", as the policy asks.
//!
//! The email pattern is the case-insensitive `[a-z0-9._%+-]+@[a-z0-9.-]+\.`
//! `[a-z]{2,}` over the whole input. The credit-card pattern is four groups
//! of four decimal digits, the groups separated by at most one `-` or ASCII
//! whitespace byte each.

use vstd::prelude::*;

verus! {

/// PII categories the scanner can assign.
#[derive(Clone, Copy, Debug, PartialEq, Eq, Structural)]
pub enum PiiType {
    Email,
    CreditCard,
}

/// The stateless scanner. Safe to share across connections.
pub struct PiiScanner {}

pub open spec fn is_digit_byte(b: u8) -> bool {
    48 <= b <= 57
}

pub open spec fn is_alpha_byte(b: u8) -> bool {
    (65 <= b <= 90) || (97 <= b <= 122)
}

/// Bytes allowed before the `@`: letters, digits, `.`, `_`, `%`, `+`, `-`.
pub open spec fn is_local_byte(b: u8) -> bool {
    is_alpha_byte(b) || is_digit_byte(b) || b == 46 || b == 95 || b == 37 || b == 43 || b == 45
}

/// Bytes allowed between the `@` and the final dot: letters, digits, `.`,
/// `-`.
pub open spec fn is_domain_byte(b: u8) -> bool {
    is_alpha_byte(b) || is_digit_byte(b) || b == 46 || b == 45
}

/// A credit-card group separator: `-` or one ASCII whitespace byte.
pub open spec fn is_separator_byte(b: u8) -> bool {
    b == 45 || b == 32 || (9 <= b <= 13)
}

/// The whole input is an email with the `@` at `i` and the last dot at `j`:
/// a nonempty local part, a nonempty domain, and at least two letters after
/// the dot.
pub open spec fn email_split_at(s: Seq<u8>, i: int, j: int) -> bool {
    &&& 1 <= i
    &&& i + 2 <= j
    &&& j + 3 <= s.len()
    &&& s[i] == 64
    &&& s[j] == 46
    &&& forall|k: int| 0 <= k < i ==> is_local_byte(#[trigger] s[k])
    &&& forall|k: int| i < k < j ==> is_domain_byte(#[trigger] s[k])
    &&& forall|k: int| j < k < s.len() ==> is_alpha_byte(#[trigger] s[k])
}

/// The anchored email pattern.
pub open spec fn is_email(s: Seq<u8>) -> bool {
    exists|i: int, j: int| email_split_at(s, i, j)
}

/// Four decimal digits at positions `p` to `p + 4`.
pub open spec fn four_digits_at(s: Seq<u8>, p: int) -> bool {
    &&& 0 <= p
    &&& p + 4 <= s.len()
    &&& forall|k: int| p <= k < p + 4 ==> is_digit_byte(#[trigger] s[k])
}

/// A group of four digits starting at `q`, where `q` is either right after
/// the previous group ending at `p` or one separator byte later.
pub open spec fn group_follows(s: Seq<u8>, p: int, q: int) -> bool {
    &&& (q == p || (q == p + 1 && is_separator_byte(s[p])))
    &&& four_digits_at(s, q)
}

/// The whole input is four groups of four digits, the later groups starting
/// at `q1`, `q2` and `q3`.
pub open spec fn card_split_at(s: Seq<u8>, q1: int, q2: int, q3: int) -> bool {
    &&& four_digits_at(s, 0)
    &&& group_follows(s, 4, q1)
    &&& group_follows(s, q1 + 4, q2)
    &&& group_follows(s, q2 + 4, q3)
    &&& s.len() == q3 + 4
}

/// The anchored credit-card pattern: four groups of four digits spanning
/// the whole input.
pub open spec fn is_credit_card(s: Seq<u8>) -> bool {
    exists|q1: int, q2: int, q3: int| card_split_at(s, q1, q2, q3)
}

/// The scanner's answer: the first matching category, in the fixed order
/// email then credit card.
pub open spec fn spec_scan(s: Seq<u8>) -> Option<PiiType> {
    if is_email(s) {
        Some(PiiType::Email)
    } else if is_credit_card(s) {
        Some(PiiType::CreditCard)
    } else {
        None
    }
}

fn is_local_byte_exec(b: u8) -> (r: bool)
    ensures
        r == is_local_byte(b),
{
    (65 <= b && b <= 90) || (97 <= b && b <= 122) || (48 <= b && b <= 57) || b == 46 || b == 95
        || b == 37 || b == 43 || b == 45
}

fn is_domain_byte_exec(b: u8) -> (r: bool)
    ensures
        r == is_domain_byte(b),
{
    (65 <= b && b <= 90) || (97 <= b && b <= 122) || (48 <= b && b <= 57) || b == 46 || b == 45
}

fn is_alpha_byte_exec(b: u8) -> (r: bool)
    ensures
        r == is_alpha_byte(b),
{
    (65 <= b && b <= 90) || (97 <= b && b <= 122)
}

/// The first `@` in the input, if any.
fn find_first_at(text: &[u8]) -> (r: Option<usize>)
    ensures
        match r {
            Some(i) => i < text@.len() && text@[i as int] == 64 && forall|k: int|
                0 <= k < i ==> text@[k] != 64,
            None => forall|k: int| 0 <= k < text@.len() ==> text@[k] != 64,
        },
{
    let mut i: usize = 0;
    while i < text.len()
        invariant
            i <= text@.len(),
            forall|k: int| 0 <= k < i ==> text@[k] != 64,
        decreases text@.len() - i,
    {
        if text[i] == 64 {
            return Some(i);
        }
        i += 1;
    }
    None
}

/// The last `.` strictly after `i`, if any.
fn find_last_dot(text: &[u8], i: usize) -> (r: Option<usize>)
    requires
        i < text@.len(),
    ensures
        match r {
            Some(j) => i < j < text@.len() && text@[j as int] == 46 && forall|k: int|
                j < k < text@.len() ==> text@[k] != 46,
            None => forall|k: int| i < k < text@.len() ==> text@[k] != 46,
        },
{
    let mut m = text.len();
    while m > i + 1
        invariant
            i + 1 <= m <= text@.len(),
            forall|k: int| m <= k < text@.len() ==> text@[k] != 46,
        decreases m,
    {
        if text[m - 1] == 46 {
            return Some(m - 1);
        }
        m -= 1;
    }
    None
}

/// Any email split is pinned down by the input: its `@` is the first `@`
/// and its dot is the last dot, so a candidate split built from those two
/// positions is valid whenever any split is.
proof fn lemma_email_unique_split(s: Seq<u8>, i: int, j: int)
    requires
        is_email(s),
        0 <= i < s.len(),
        s[i] == 64,
        forall|k: int| 0 <= k < i ==> s[k] != 64,
        i < j < s.len(),
        s[j] == 46,
        forall|k: int| j < k < s.len() ==> s[k] != 46,
    ensures
        email_split_at(s, i, j),
{
    let (i0, j0): (int, int) = choose|i0: int, j0: int| email_split_at(s, i0, j0);
    assert(!is_local_byte(64));
    assert(!is_alpha_byte(46));
    if i0 < i {
        assert(s[i0] != 64);
        assert(false);
    }
    if i0 > i {
        assert(is_local_byte(s[i]));
        assert(false);
    }
    if j0 > j {
        assert(s[j0] != 46);
        assert(false);
    }
    if j0 < j {
        assert(is_alpha_byte(s[j]));
        assert(false);
    }
}

fn scan_email(text: &[u8]) -> (r: bool)
    ensures
        r == is_email(text@),
{
    let ghost s = text@;
    let i = match find_first_at(text) {
        None => {
            proof {
                if is_email(s) {
                    let (i0, j0): (int, int) = choose|i0: int, j0: int| email_split_at(s, i0, j0);
                    assert(s[i0] != 64);
                }
            }
            return false;
        },
        Some(i) => i,
    };
    if i == 0 {
        proof {
            if is_email(s) {
                let (i0, j0): (int, int) = choose|i0: int, j0: int| email_split_at(s, i0, j0);
                if i0 > 0 {
                    assert(is_local_byte(s[0]));
                    assert(!is_local_byte(64));
                }
            }
        }
        return false;
    }
    let j = match find_last_dot(text, i) {
        None => {
            proof {
                lemma_no_dot_no_email(s, i);
            }
            return false;
        },
        Some(j) => j,
    };
    // From here on, any valid split must use exactly (i, j).
    if j - i < 2 || text.len() - j < 3 {
        proof {
            if is_email(s) {
                lemma_email_unique_split(s, i as int, j as int);
            }
        }
        return false;
    }
    let mut k: usize = 0;
    while k < i
        invariant
            1 <= i,
            i + 2 <= j,
            j + 3 <= s.len(),
            s[i as int] == 64,
            s[j as int] == 46,
            forall|m: int| 0 <= m < i ==> s[m] != 64,
            forall|m: int| j < m < s.len() ==> s[m] != 46,
            k <= i,
            forall|m: int| 0 <= m < k ==> is_local_byte(#[trigger] s[m]),
            s == text@,
        decreases i - k,
    {
        if !is_local_byte_exec(text[k]) {
            proof {
                if is_email(s) {
                    lemma_email_unique_split(s, i as int, j as int);
                }
            }
            return false;
        }
        k += 1;
    }
    let mut k2: usize = i + 1;
    while k2 < j
        invariant
            1 <= i,
            i + 2 <= j,
            j + 3 <= s.len(),
            s[i as int] == 64,
            s[j as int] == 46,
            forall|m: int| 0 <= m < i ==> s[m] != 64,
            forall|m: int| j < m < s.len() ==> s[m] != 46,
            forall|m: int| 0 <= m < i ==> is_local_byte(#[trigger] s[m]),
            i + 1 <= k2 <= j,
            forall|m: int| i < m < k2 ==> is_domain_byte(#[trigger] s[m]),
            s == text@,
        decreases j - k2,
    {
        if !is_domain_byte_exec(text[k2]) {
            proof {
                if is_email(s) {
                    lemma_email_unique_split(s, i as int, j as int);
                }
            }
            return false;
        }
        k2 += 1;
    }
    let mut k3: usize = j + 1;
    while k3 < text.len()
        invariant
            1 <= i,
            i + 2 <= j,
            j + 3 <= s.len(),
            s[i as int] == 64,
            s[j as int] == 46,
            forall|m: int| 0 <= m < i ==> s[m] != 64,
            forall|m: int| j < m < s.len() ==> s[m] != 46,
            forall|m: int| 0 <= m < i ==> is_local_byte(#[trigger] s[m]),
            forall|m: int| i < m < j ==> is_domain_byte(#[trigger] s[m]),
            j + 1 <= k3 <= s.len(),
            forall|m: int| j < m < k3 ==> is_alpha_byte(#[trigger] s[m]),
            s == text@,
        decreases s.len() - k3,
    {
        if !is_alpha_byte_exec(text[k3]) {
            proof {
                if is_email(s) {
                    lemma_email_unique_split(s, i as int, j as int);
                }
            }
            return false;
        }
        k3 += 1;
    }
    proof {
        assert(email_split_at(s, i as int, j as int));
    }
    true
}

/// Without a dot after the `@`, no split exists.
proof fn lemma_no_dot_no_email(s: Seq<u8>, i: usize)
    requires
        i < s.len(),
        s[i as int] == 64,
        forall|k: int| 0 <= k < i ==> s[k] != 64,
        forall|k: int| i < k < s.len() ==> s[k] != 46,
    ensures
        !is_email(s),
{
    if is_email(s) {
        let (i0, j0): (int, int) = choose|i0: int, j0: int| email_split_at(s, i0, j0);
        assert(!is_local_byte(64));
        if i0 < i {
            assert(s[i0] != 64);
        }
        if i0 > i {
            assert(is_local_byte(s[i as int]));
        }
        assert(s[j0] != 46);
        assert(false);
    }
}

/// Four decimal digits at `p`.
fn four_digits(text: &[u8], p: usize) -> (r: bool)
    ensures
        r == four_digits_at(text@, p as int),
{
    if text.len() < 4 || p > text.len() - 4 {
        return false;
    }
    let r = (48 <= text[p] && text[p] <= 57) && (48 <= text[p + 1] && text[p + 1] <= 57) && (48
        <= text[p + 2] && text[p + 2] <= 57) && (48 <= text[p + 3] && text[p + 3] <= 57);
    proof {
        if r {
            assert forall|k: int| p <= k < p + 4 implies is_digit_byte(#[trigger] text@[k]) by {
                assert(k == p || k == p + 1 || k == p + 2 || k == p + 3);
            }
        }
    }
    r
}

fn is_separator_byte_exec(b: u8) -> (r: bool)
    ensures
        r == is_separator_byte(b),
{
    b == 45 || b == 32 || (9 <= b && b <= 13)
}

/// The start of the next four-digit group after a group ending at `p`,
/// skipping at most one separator byte. At most one start can satisfy the
/// pattern, since a separator is never a digit.
fn next_group(text: &[u8], p: usize) -> (r: Option<usize>)
    requires
        p <= text@.len(),
    ensures
        match r {
            Some(q) => group_follows(text@, p as int, q as int) && q + 4 <= text@.len() && forall|
                q2: int,
            |
                group_follows(text@, p as int, q2) ==> q2 == q as int,
            None => forall|q2: int| !group_follows(text@, p as int, q2),
        },
{
    let ghost s = text@;
    proof {
        assert(forall|b: u8| !(is_separator_byte(b) && is_digit_byte(b)));
    }
    if p < text.len() && is_separator_byte_exec(text[p]) {
        if four_digits(text, p + 1) {
            Some(p + 1)
        } else {
            proof {
                assert forall|q2: int| !group_follows(s, p as int, q2) by {
                    if group_follows(s, p as int, q2) {
                        if q2 == p as int {
                            assert(is_digit_byte(s[p as int]));
                        }
                    }
                }
            }
            None
        }
    } else {
        if four_digits(text, p) {
            Some(p)
        } else {
            proof {
                assert forall|q2: int| !group_follows(s, p as int, q2) by {
                    if group_follows(s, p as int, q2) {
                        if q2 == p as int + 1 {
                            assert(is_separator_byte(s[p as int]));
                            assert(four_digits_at(s, p as int + 1));
                            assert(p < s.len());
                        }
                    }
                }
            }
            None
        }
    }
}

fn scan_credit_card(text: &[u8]) -> (r: bool)
    ensures
        r == is_credit_card(text@),
{
    let ghost s = text@;
    if !four_digits(text, 0) {
        return false;
    }
    let q1 = match next_group(text, 4) {
        None => {
            return false;
        },
        Some(q) => q,
    };
    let q2 = match next_group(text, q1 + 4) {
        None => {
            proof {
                if is_credit_card(s) {
                    let (p1, p2, p3): (int, int, int) = choose|p1: int, p2: int, p3: int|
                        card_split_at(s, p1, p2, p3);
                    assert(p1 == q1 as int);
                }
            }
            return false;
        },
        Some(q) => q,
    };
    let q3 = match next_group(text, q2 + 4) {
        None => {
            proof {
                if is_credit_card(s) {
                    let (p1, p2, p3): (int, int, int) = choose|p1: int, p2: int, p3: int|
                        card_split_at(s, p1, p2, p3);
                    assert(p1 == q1 as int);
                    assert(p2 == q2 as int);
                }
            }
            return false;
        },
        Some(q) => q,
    };
    if text.len() == q3 + 4 {
        proof {
            assert(card_split_at(s, q1 as int, q2 as int, q3 as int));
        }
        true
    } else {
        proof {
            if is_credit_card(s) {
                let (p1, p2, p3): (int, int, int) = choose|p1: int, p2: int, p3: int|
                    card_split_at(s, p1, p2, p3);
                assert(p1 == q1 as int);
                assert(p2 == q2 as int);
                assert(p3 == q3 as int);
            }
        }
        false
    }
}

impl PiiScanner {
    /// A scanner with the two built-in classifiers.
    pub fn new() -> (s: Self)
        ensures
            true,
    {
        PiiScanner {  }
    }

    /// Classifies a cell's bytes: the first matching category in the fixed
    /// order email, then credit card; `None` when neither matches.
    pub fn scan(&self, text: &[u8]) -> (r: Option<PiiType>)
        ensures
            r == spec_scan(text@),
    {
        if scan_email(text) {
            return Some(PiiType::Email);
        }
        if scan_credit_card(text) {
            return Some(PiiType::CreditCard);
        }
        None
    }
}

impl Default for PiiScanner {
    fn default() -> (s: Self)
        ensures
            true,
    {
        PiiScanner::new()
    }
}

} // verus!
