//! The domain risk scorer: a pure, deterministic classification of a DNS
//! name into Low, Medium or High suspicion, checked in a fixed priority
//! order so that stronger signals are not masked by weaker ones.
//!
//! One signal — whether the Shannon entropy of the name exceeds its
//! threshold — is a floating-point comparison and is computed by the
//! caller; the scorer takes it as a boolean alongside the name.

use vstd::prelude::*;
use vstd::string::*;

use crate::text::{
    chars_contain, chars_contain_ci, chars_match_at, chars_of, contains_seq, contains_seq_ci,
    count_char, is_digit,
};

verus! {

/// The scorer's three-valued output.
#[derive(Clone, Copy, PartialEq, Eq, Structural, Debug)]
pub enum RiskLevel {
    Low,
    Medium,
    High,
}

/// The display tag of a risk level.
pub open spec fn risk_label(r: RiskLevel) -> Seq<char> {
    match r {
        RiskLevel::Low => "Low"@,
        RiskLevel::Medium => "Medium"@,
        RiskLevel::High => "High"@,
    }
}

impl RiskLevel {
    /// The display tag, as a string.
    pub fn label(&self) -> (s: String)
        ensures
            s@ == risk_label(*self),
    {
        match self {
            RiskLevel::Low => String::from_str("Low"),
            RiskLevel::Medium => String::from_str("Medium"),
            RiskLevel::High => String::from_str("High"),
        }
    }
}

/// How many decimal digits a text holds.
pub open spec fn digit_count(s: Seq<char>) -> nat
    decreases s.len(),
{
    if s.len() == 0 {
        0
    } else {
        digit_count(s.drop_last()) + if is_digit(s.last()) {
            1nat
        } else {
            0nat
        }
    }
}

/// `s` ends in `suffix`.
pub open spec fn ends_with(s: Seq<char>, suffix: Seq<char>) -> bool {
    s.len() >= suffix.len() && s.skip(s.len() - suffix.len()) == suffix
}

/// The name ends in one of the allow-listed top-level domains.
pub open spec fn has_allowed_tld(s: Seq<char>) -> bool {
    ||| ends_with(s, ".com"@)
    ||| ends_with(s, ".org"@)
    ||| ends_with(s, ".net"@)
    ||| ends_with(s, ".edu"@)
    ||| ends_with(s, ".gov"@)
}

/// A window of `w` characters at `i` immediately followed by an identical
/// window.
pub open spec fn window_repeats(s: Seq<char>, i: int, w: int) -> bool {
    s.subrange(i, i + w) == s.subrange(i + w, i + 2 * w)
}

/// The name contains a repeating substring: some window of 3 to 6
/// characters immediately followed by an identical window.
pub open spec fn has_repeated_window(s: Seq<char>) -> bool {
    exists|i: int, w: int|
        3 <= w <= 6 && 0 <= i && i + 2 * w <= s.len() && #[trigger] window_repeats(s, i, w)
}

/// The keyboard-adjacency substrings the scorer looks for.
pub open spec fn keyboard_patterns() -> Seq<Seq<char>> {
    seq!["qwer"@, "asdf"@, "zxcv"@, "1234"@, "4321"@, "qaz"@, "wsx"@, "edc"@, "rfv"@]
}

/// The name contains a keyboard-adjacency substring, ASCII case ignored.
pub open spec fn has_keyboard_pattern(s: Seq<char>) -> bool {
    exists|k: int|
        0 <= k < keyboard_patterns().len() && contains_seq_ci(s, #[trigger] keyboard_patterns()[k])
}

/// The level the scorer assigns: the rules in their priority order, first match
/// winning. `high_entropy` stands for the floating-point entropy signal.
pub open spec fn spec_risk(s: Seq<char>, high_entropy: bool) -> RiskLevel {
    if s.len() > 50 {
        RiskLevel::High
    } else if digit_count(s) > 10 {
        RiskLevel::High
    } else if high_entropy {
        RiskLevel::High
    } else if contains_seq(s, "--"@) {
        RiskLevel::Medium
    } else if count_char(s, '.') > 3 {
        RiskLevel::Medium
    } else if !has_allowed_tld(s) {
        RiskLevel::Medium
    } else if has_repeated_window(s) {
        RiskLevel::Medium
    } else if has_keyboard_pattern(s) {
        RiskLevel::Medium
    } else {
        RiskLevel::Low
    }
}

fn count_digit_chars(v: &Vec<char>) -> (c: usize)
    ensures
        c == digit_count(v@),
{
    let n = v.len();
    let mut c: usize = 0;
    let mut i: usize = 0;
    while i < n
        invariant
            n == v@.len(),
            i <= n,
            c <= i,
            c == digit_count(v@.take(i as int)),
        decreases n - i,
    {
        proof {
            assert(v@.take(i + 1).drop_last() =~= v@.take(i as int));
        }
        if '0' <= v[i] && v[i] <= '9' {
            c = c + 1;
        }
        i = i + 1;
    }
    proof {
        assert(v@.take(n as int) =~= v@);
    }
    c
}

fn count_char_occurrences(v: &Vec<char>, c: char) -> (r: usize)
    ensures
        r == count_char(v@, c),
{
    let n = v.len();
    let mut r: usize = 0;
    let mut i: usize = 0;
    while i < n
        invariant
            n == v@.len(),
            i <= n,
            r <= i,
            r == count_char(v@.take(i as int), c),
        decreases n - i,
    {
        proof {
            assert(v@.take(i + 1).drop_last() =~= v@.take(i as int));
        }
        if v[i] == c {
            r = r + 1;
        }
        i = i + 1;
    }
    proof {
        assert(v@.take(n as int) =~= v@);
    }
    r
}

fn ends_with_chars(v: &Vec<char>, suffix: &Vec<char>) -> (b: bool)
    ensures
        b == ends_with(v@, suffix@),
{
    if suffix.len() > v.len() {
        return false;
    }
    let start = v.len() - suffix.len();
    let b = chars_match_at(v, suffix, start);
    proof {
        assert(v@.skip(start as int) =~= v@.subrange(start as int, start + suffix@.len()));
    }
    b
}

/// Whether the name contains a repeating substring: a window of 3 to 6
/// characters immediately followed by an identical copy of itself.
pub fn has_repeating_patterns(s: &str) -> (b: bool)
    ensures
        b == has_repeated_window(s@),
{
    let v = chars_of(s);
    let n = v.len();
    let mut w: usize = 3;
    while w <= 6
        invariant
            n == v@.len(),
            v@ == s@,
            3 <= w <= 7,
            forall|i2: int, w2: int|
                3 <= w2 < w && 0 <= i2 && i2 + 2 * w2 <= n ==> !(#[trigger] window_repeats(
                    v@,
                    i2,
                    w2,
                )),
        decreases 7 - w,
    {
        let mut i: usize = 0;
        while 2 * w <= n && i <= n - 2 * w
            invariant
                n == v@.len(),
                v@ == s@,
                3 <= w <= 6,
                forall|i2: int, w2: int|
                    3 <= w2 < w && 0 <= i2 && i2 + 2 * w2 <= n ==> !(#[trigger] window_repeats(
                        v@,
                        i2,
                        w2,
                    )),
                forall|i2: int|
                    0 <= i2 < i && i2 + 2 * w <= n ==> !(#[trigger] window_repeats(v@, i2, w as int)),
            decreases n - i,
        {
            let mut j: usize = 0;
            let mut same = true;
            while j < w
                invariant
                    n == v@.len(),
                    3 <= w <= 6,
                    i + 2 * w <= n,
                    j <= w,
                    same ==> forall|k: int| 0 <= k < j ==> #[trigger] v@[i + k] == v@[i + w + k],
                    !same ==> !window_repeats(v@, i as int, w as int),
                decreases w - j,
            {
                if v[i + j] != v[i + w + j] {
                    proof {
                        assert(v@.subrange(i as int, i + w)[j as int] == v@[i + j]);
                        assert(v@.subrange(i + w, i + 2 * w)[j as int] == v@[i + w + j]);
                    }
                    same = false;
                    j = w;
                } else {
                    j = j + 1;
                }
            }
            if same {
                proof {
                    assert forall|k: int| 0 <= k < w implies #[trigger] v@.subrange(
                        i as int,
                        i + w,
                    )[k] == v@.subrange(i + w, i + 2 * w)[k] by {
                        assert(v@.subrange(i as int, i + w)[k] == v@[i + k]);
                        assert(v@.subrange(i + w, i + 2 * w)[k] == v@[i + w + k]);
                    }
                    assert(v@.subrange(i as int, i + w) =~= v@.subrange(i + w, i + 2 * w));
                    assert(window_repeats(v@, i as int, w as int));
                }
                return true;
            }
            i = i + 1;
        }
        w = w + 1;
    }
    proof {
        assert forall|i2: int, w2: int|
            3 <= w2 <= 6 && 0 <= i2 && i2 + 2 * w2 <= s@.len() implies !(#[trigger] window_repeats(
            s@,
            i2,
            w2,
        )) by {}
    }
    false
}

/// Whether the name contains one of the keyboard-adjacency substrings,
/// ASCII case ignored.
pub fn has_keyboard_patterns(s: &str) -> (b: bool)
    ensures
        b == has_keyboard_pattern(s@),
{
    let v = chars_of(s);
    let p0 = chars_of("qwer");
    let p1 = chars_of("asdf");
    let p2 = chars_of("zxcv");
    let p3 = chars_of("1234");
    let p4 = chars_of("4321");
    let p5 = chars_of("qaz");
    let p6 = chars_of("wsx");
    let p7 = chars_of("edc");
    let p8 = chars_of("rfv");
    let hit = chars_contain_ci(&v, &p0) || chars_contain_ci(&v, &p1) || chars_contain_ci(&v, &p2)
        || chars_contain_ci(&v, &p3) || chars_contain_ci(&v, &p4) || chars_contain_ci(&v, &p5)
        || chars_contain_ci(&v, &p6) || chars_contain_ci(&v, &p7) || chars_contain_ci(&v, &p8);
    proof {
        let pats = keyboard_patterns();
        if hit {
            assert(has_keyboard_pattern(s@)) by {
                if contains_seq_ci(s@, p0@) {
                    assert(contains_seq_ci(s@, pats[0]));
                } else if contains_seq_ci(s@, p1@) {
                    assert(contains_seq_ci(s@, pats[1]));
                } else if contains_seq_ci(s@, p2@) {
                    assert(contains_seq_ci(s@, pats[2]));
                } else if contains_seq_ci(s@, p3@) {
                    assert(contains_seq_ci(s@, pats[3]));
                } else if contains_seq_ci(s@, p4@) {
                    assert(contains_seq_ci(s@, pats[4]));
                } else if contains_seq_ci(s@, p5@) {
                    assert(contains_seq_ci(s@, pats[5]));
                } else if contains_seq_ci(s@, p6@) {
                    assert(contains_seq_ci(s@, pats[6]));
                } else if contains_seq_ci(s@, p7@) {
                    assert(contains_seq_ci(s@, pats[7]));
                } else {
                    assert(contains_seq_ci(s@, pats[8]));
                }
            }
        } else {
            assert forall|k: int| 0 <= k < pats.len() implies !contains_seq_ci(
                s@,
                #[trigger] pats[k],
            ) by {
                if k == 0 {
                    assert(pats[0] == p0@);
                } else if k == 1 {
                    assert(pats[1] == p1@);
                } else if k == 2 {
                    assert(pats[2] == p2@);
                } else if k == 3 {
                    assert(pats[3] == p3@);
                } else if k == 4 {
                    assert(pats[4] == p4@);
                } else if k == 5 {
                    assert(pats[5] == p5@);
                } else if k == 6 {
                    assert(pats[6] == p6@);
                } else if k == 7 {
                    assert(pats[7] == p7@);
                } else {
                    assert(pats[8] == p8@);
                }
            }
        }
    }
    hit
}

/// Scores a DNS name. `high_entropy` is the caller-computed signal that
/// the name's Shannon entropy exceeds the scorer's threshold.
pub fn assess_dns_risk(domain: &str, high_entropy: bool) -> (r: RiskLevel)
    ensures
        r == spec_risk(domain@, high_entropy),
{
    let v = chars_of(domain);
    if v.len() > 50 {
        return RiskLevel::High;
    }
    if count_digit_chars(&v) > 10 {
        return RiskLevel::High;
    }
    if high_entropy {
        return RiskLevel::High;
    }
    let double_hyphen = chars_of("--");
    if chars_contain(&v, &double_hyphen) {
        return RiskLevel::Medium;
    }
    if count_char_occurrences(&v, '.') > 3 {
        return RiskLevel::Medium;
    }
    let com = chars_of(".com");
    let org = chars_of(".org");
    let net = chars_of(".net");
    let edu = chars_of(".edu");
    let gov = chars_of(".gov");
    let allowed = ends_with_chars(&v, &com) || ends_with_chars(&v, &org) || ends_with_chars(
        &v,
        &net,
    ) || ends_with_chars(&v, &edu) || ends_with_chars(&v, &gov);
    if !allowed {
        return RiskLevel::Medium;
    }
    if has_repeating_patterns(domain) {
        return RiskLevel::Medium;
    }
    if has_keyboard_patterns(domain) {
        return RiskLevel::Medium;
    }
    RiskLevel::Low
}

/// Which ranges count as commonly used ports: the well-known and
/// registered ranges, and two bands of common application ports.
pub fn is_common_port_range(port: i32) -> (b: bool)
    ensures
        b == ((1 <= port && port <= 49151) || (50000 <= port && port <= 51000) || (60000 <= port
            && port <= 61000)),
{
    (1 <= port && port <= 49151) || (50000 <= port && port <= 51000) || (60000 <= port && port
        <= 61000)
}

/// The severity tag of traffic seen on a port.
pub open spec fn spec_port_severity(port: int, connection_count: int) -> Seq<char> {
    if port < 1024 && connection_count > 20 {
        "High"@
    } else if port < 1024 {
        "Medium"@
    } else if connection_count > 50 {
        "High"@
    } else if connection_count > 20 {
        "Medium"@
    } else {
        "Low"@
    }
}

/// Grades how alarming traffic on a port is, from the port's range and the
/// number of connections seen.
pub fn determine_port_severity(port: i32, connection_count: i32) -> (s: String)
    ensures
        s@ == spec_port_severity(port as int, connection_count as int),
{
    if port < 1024 && connection_count > 20 {
        String::from_str("High")
    } else if port < 1024 {
        String::from_str("Medium")
    } else if connection_count > 50 {
        String::from_str("High")
    } else if connection_count > 20 {
        String::from_str("Medium")
    } else {
        String::from_str("Low")
    }
}

} // verus!
