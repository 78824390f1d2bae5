//! Character-sequence utilities shared by the decoder and the detection
//! engine: decimal and hexadecimal rendering, substring search, and the
//! splitting of `"ip:port"` endpoint strings.

use vstd::prelude::*;
use vstd::string::*;

verus! {

/// The decimal digit character for a value in 0..10.
pub open spec fn dec_digit(d: int) -> char {
    if d == 0 {
        '0'
    } else if d == 1 {
        '1'
    } else if d == 2 {
        '2'
    } else if d == 3 {
        '3'
    } else if d == 4 {
        '4'
    } else if d == 5 {
        '5'
    } else if d == 6 {
        '6'
    } else if d == 7 {
        '7'
    } else if d == 8 {
        '8'
    } else {
        '9'
    }
}

/// The usual base-10 rendering of a natural number, without leading zeros.
pub open spec fn dec_str(n: nat) -> Seq<char>
    decreases n,
{
    if n < 10 {
        seq![dec_digit(n as int)]
    } else {
        dec_str(n / 10).push(dec_digit((n % 10) as int))
    }
}

fn dec_digit_str(d: u64) -> (s: &'static str)
    requires
        d < 10,
    ensures
        s@ =~= seq![dec_digit(d as int)],
{
    let s = if d == 0 {
        "0"
    } else if d == 1 {
        "1"
    } else if d == 2 {
        "2"
    } else if d == 3 {
        "3"
    } else if d == 4 {
        "4"
    } else if d == 5 {
        "5"
    } else if d == 6 {
        "6"
    } else if d == 7 {
        "7"
    } else if d == 8 {
        "8"
    } else {
        "9"
    };
    proof {
        reveal_strlit("0");
        reveal_strlit("1");
        reveal_strlit("2");
        reveal_strlit("3");
        reveal_strlit("4");
        reveal_strlit("5");
        reveal_strlit("6");
        reveal_strlit("7");
        reveal_strlit("8");
        reveal_strlit("9");
    }
    s
}

/// Renders a number in base 10.
pub fn u64_to_string(n: u64) -> (s: String)
    ensures
        s@ == dec_str(n as nat),
    decreases n,
{
    if n < 10 {
        let s = String::from_str(dec_digit_str(n));
        proof {
            assert(s@ =~= dec_str(n as nat));
        }
        s
    } else {
        let mut s = u64_to_string(n / 10);
        s.append(dec_digit_str(n % 10));
        proof {
            assert(s@ =~= dec_str(n as nat));
        }
        s
    }
}

/// Renders a number in base 10.
pub fn u128_to_string(n: u128) -> (s: String)
    ensures
        s@ == dec_str(n as nat),
    decreases n,
{
    if n < 10 {
        let s = String::from_str(dec_digit_str(n as u64));
        proof {
            assert(s@ =~= dec_str(n as nat));
        }
        s
    } else {
        let mut s = u128_to_string(n / 10);
        s.append(dec_digit_str((n % 10) as u64));
        proof {
            assert(s@ =~= dec_str(n as nat));
        }
        s
    }
}

/// The characters of a string, as a vector.
pub fn chars_of(s: &str) -> (v: Vec<char>)
    ensures
        v@ == s@,
{
    let n = s.unicode_len();
    let mut v: Vec<char> = Vec::new();
    let mut i: usize = 0;
    while i < n
        invariant
            n == s@.len(),
            i <= n,
            v@ == s@.take(i as int),
        decreases n - i,
    {
        let c = s.get_char(i);
        v.push(c);
        proof {
            assert(s@.take(i + 1 as int) =~= s@.take(i as int).push(s@[i as int]));
        }
        i = i + 1;
    }
    proof {
        assert(s@.take(n as int) =~= s@);
    }
    v
}

/// `pat` occurs in `s` starting at position `i`.
pub open spec fn occurs_at(s: Seq<char>, pat: Seq<char>, i: int) -> bool {
    0 <= i && i + pat.len() <= s.len() && s.subrange(i, i + pat.len()) == pat
}

/// `pat` occurs somewhere in `s`.
pub open spec fn contains_seq(s: Seq<char>, pat: Seq<char>) -> bool {
    exists|i: int| occurs_at(s, pat, i)
}

/// Whether `pat` stands at position `i` of `hay`.
pub fn chars_match_at(hay: &Vec<char>, pat: &Vec<char>, i: usize) -> (b: bool)
    requires
        i + pat@.len() <= hay@.len(),
    ensures
        b == (hay@.subrange(i as int, i + pat@.len()) == pat@),
{
    let n = hay.len();
    let m = pat.len();
    let mut j: usize = 0;
    while j < m
        invariant
            n == hay@.len(),
            m == pat@.len(),
            i + m <= n,
            j <= m,
            forall|k: int| 0 <= k < j ==> hay@[i + k] == pat@[k],
        decreases m - j,
    {
        if hay[i + j] != pat[j] {
            proof {
                assert(hay@.subrange(i as int, i + pat@.len())[j as int] == hay@[i + j]);
            }
            return false;
        }
        j = j + 1;
    }
    proof {
        assert(hay@.subrange(i as int, i + pat@.len()) =~= pat@);
    }
    true
}

/// Substring search: whether `pat` occurs anywhere in `hay`.
pub fn chars_contain(hay: &Vec<char>, pat: &Vec<char>) -> (b: bool)
    ensures
        b == contains_seq(hay@, pat@),
{
    if pat.len() == 0 {
        proof {
            assert(hay@.subrange(0, 0) =~= pat@);
            assert(occurs_at(hay@, pat@, 0));
        }
        return true;
    }
    if pat.len() > hay.len() {
        return false;
    }
    let last = hay.len() - pat.len();
    let mut i: usize = 0;
    while i <= last
        invariant
            1 <= pat@.len() <= hay@.len(),
            last == hay@.len() - pat@.len(),
            last < usize::MAX,
            i <= last + 1,
            forall|k: int| 0 <= k < i ==> !occurs_at(hay@, pat@, k),
        decreases last + 1 - i,
    {
        if chars_match_at(hay, pat, i) {
            assert(occurs_at(hay@, pat@, i as int));
            return true;
        }
        i = i + 1;
    }
    false
}

/// ASCII-case-insensitive agreement of a character with a pattern character
/// that is itself lower case: either the characters are equal, or `a` is the
/// upper-case ASCII letter whose lower-case form is `p`.
pub open spec fn char_matches_lower(a: char, p: char) -> bool {
    a == p || ('A' <= a && a <= 'Z' && a as u32 + 32 == p as u32)
}

/// `pat` (given in lower case) occurs at position `i` of `s`, comparing
/// ASCII letters without regard to case.
pub open spec fn occurs_at_ci(s: Seq<char>, pat: Seq<char>, i: int) -> bool {
    0 <= i && i + pat.len() <= s.len() && forall|k: int|
        0 <= k < pat.len() ==> char_matches_lower(s[i + k], pat[k])
}

/// `pat` (given in lower case) occurs somewhere in `s`, ignoring ASCII case.
pub open spec fn contains_seq_ci(s: Seq<char>, pat: Seq<char>) -> bool {
    exists|i: int| occurs_at_ci(s, pat, i)
}

fn char_eq_lower(a: char, p: char) -> (b: bool)
    ensures
        b == char_matches_lower(a, p),
{
    if a == p {
        true
    } else if 'A' <= a && a <= 'Z' {
        a as u32 + 32 == p as u32
    } else {
        false
    }
}

/// Case-insensitive substring search for a lower-case pattern.
pub fn chars_contain_ci(hay: &Vec<char>, pat: &Vec<char>) -> (b: bool)
    ensures
        b == contains_seq_ci(hay@, pat@),
{
    if pat.len() == 0 {
        proof {
            assert(occurs_at_ci(hay@, pat@, 0));
        }
        return true;
    }
    if pat.len() > hay.len() {
        return false;
    }
    let n = hay.len();
    let last = hay.len() - pat.len();
    let mut i: usize = 0;
    while i <= last
        invariant
            n == hay@.len(),
            1 <= pat@.len() <= hay@.len(),
            last == hay@.len() - pat@.len(),
            last < usize::MAX,
            i <= last + 1,
            forall|k: int| 0 <= k < i ==> !occurs_at_ci(hay@, pat@, k),
        decreases last + 1 - i,
    {
        let m = pat.len();
        let mut j: usize = 0;
        let mut hit = true;
        while j < m
            invariant
                n == hay@.len(),
                m == pat@.len(),
                i + m <= n,
                j <= m,
                hit ==> forall|k: int| 0 <= k < j ==> char_matches_lower(hay@[i + k], pat@[k]),
                !hit ==> !occurs_at_ci(hay@, pat@, i as int),
            decreases m - j,
        {
            if !char_eq_lower(hay[i + j], pat[j]) {
                hit = false;
                j = m;
            } else {
                j = j + 1;
            }
        }
        if hit {
            assert(occurs_at_ci(hay@, pat@, i as int));
            return true;
        }
        i = i + 1;
    }
    false
}

/// How many times `c` occurs in `s`.
pub open spec fn count_char(s: Seq<char>, c: char) -> nat
    decreases s.len(),
{
    if s.len() == 0 {
        0
    } else {
        count_char(s.drop_last(), c) + if s.last() == c {
            1nat
        } else {
            0nat
        }
    }
}

/// The index of the first occurrence of `c` in `s`, or -1 when absent.
pub open spec fn find_char(s: Seq<char>, c: char) -> int
    decreases s.len(),
{
    if s.len() == 0 {
        -1
    } else if s[0] == c {
        0
    } else {
        let r = find_char(s.skip(1), c);
        if r < 0 {
            -1
        } else {
            r + 1
        }
    }
}

/// `find_char` is pinned down by its first-occurrence characterisation.
proof fn lemma_find_char_at(s: Seq<char>, c: char, i: int)
    requires
        0 <= i < s.len(),
        s[i] == c,
        forall|k: int| 0 <= k < i ==> s[k] != c,
    ensures
        find_char(s, c) == i,
    decreases s.len(),
{
    if s[0] != c {
        let t = s.skip(1);
        assert forall|k: int| 0 <= k < i - 1 implies t[k] != c by {
            assert(t[k] == s[k + 1]);
        }
        lemma_find_char_at(t, c, i - 1);
    }
}

/// A decimal digit.
pub open spec fn is_digit(c: char) -> bool {
    '0' <= c && c <= '9'
}

/// The numeric value of a decimal digit character.
pub open spec fn digit_val(c: char) -> int {
    c as u32 - 48
}

/// A non-empty, all-digit character sequence.
pub open spec fn all_digits(s: Seq<char>) -> bool {
    s.len() > 0 && forall|i: int| 0 <= i < s.len() ==> is_digit(#[trigger] s[i])
}

/// The value of a digit sequence read in base 10.
pub open spec fn dec_val(s: Seq<char>) -> int
    decreases s.len(),
{
    if s.len() == 0 {
        0
    } else {
        dec_val(s.drop_last()) * 10 + digit_val(s.last())
    }
}

/// What parsing a decimal number yields: defined exactly when the text is
/// non-empty, all digits, and its value fits in a `u64`.
pub open spec fn parse_u64(s: Seq<char>) -> Option<int> {
    if all_digits(s) && dec_val(s) <= u64::MAX {
        Some(dec_val(s))
    } else {
        None
    }
}

proof fn lemma_dec_val_nonneg(s: Seq<char>)
    requires
        forall|i: int| 0 <= i < s.len() ==> is_digit(#[trigger] s[i]),
    ensures
        dec_val(s) >= 0,
    decreases s.len(),
{
    if s.len() > 0 {
        lemma_dec_val_nonneg(s.drop_last());
    }
}

/// Reading further digits never shrinks the value.
proof fn lemma_dec_val_prefix(s: Seq<char>, i: int)
    requires
        0 <= i <= s.len(),
        forall|k: int| 0 <= k < s.len() ==> is_digit(#[trigger] s[k]),
    ensures
        dec_val(s.take(i)) <= dec_val(s),
    decreases s.len() - i,
{
    if i < s.len() {
        assert(s.take(i + 1).drop_last() =~= s.take(i));
        assert(forall|k: int| 0 <= k < i ==> is_digit(#[trigger] s.take(i)[k]));
        lemma_dec_val_nonneg(s.take(i));
        assert(dec_val(s.take(i + 1)) == dec_val(s.take(i)) * 10 + digit_val(s.take(i + 1).last()));
        assert(dec_val(s.take(i)) <= dec_val(s.take(i + 1)));
        lemma_dec_val_prefix(s, i + 1);
    } else {
        assert(s.take(i) =~= s);
    }
}

/// Parses the digits of `v` between `from` and `to` as a base-10 `u64`.
pub fn parse_u64_chars(v: &Vec<char>, from: usize, to: usize) -> (r: Option<u64>)
    requires
        from <= to <= v@.len(),
    ensures
        match r {
            Some(x) => parse_u64(v@.subrange(from as int, to as int)) == Some(x as int),
            None => parse_u64(v@.subrange(from as int, to as int)) is None,
        },
{
    let ghost s = v@.subrange(from as int, to as int);
    if from == to {
        return None;
    }
    let mut acc: u64 = 0;
    let mut i: usize = from;
    while i < to
        invariant
            from <= i <= to <= v@.len(),
            from < to,
            s == v@.subrange(from as int, to as int),
            forall|k: int| 0 <= k < i - from ==> is_digit(#[trigger] s[k]),
            acc as int == dec_val(s.take(i - from)),
        decreases to - i,
    {
        let c = v[i];
        proof {
            assert(s[i - from] == v@[i as int]);
        }
        if !('0' <= c && c <= '9') {
            proof {
                assert(!is_digit(s[i - from]));
                assert(!all_digits(s));
            }
            return None;
        }
        let d: u64 = (c as u32 as u64) - 48;
        proof {
            assert(s.take(i + 1 - from).drop_last() =~= s.take(i - from));
            assert(s.take(i + 1 - from).last() == s[i - from]);
        }
        if acc > (u64::MAX - d) / 10 {
            proof {
                // 10 * acc + d exceeds u64::MAX, so the full value does too.
                assert(acc as int * 10 + d as int > u64::MAX) by {
                    let q = ((u64::MAX - d) / 10) as int;
                    assert(u64::MAX - d == q * 10 + ((u64::MAX - d) % 10) as int);
                }
                assert(dec_val(s.take(i + 1 - from)) > u64::MAX);
                if all_digits(s) {
                    lemma_dec_val_prefix(s, i + 1 - from);
                }
            }
            return None;
        }
        acc = acc * 10 + d;
        i = i + 1;
    }
    proof {
        assert(s.take(to - from) =~= s);
        assert(all_digits(s));
    }
    Some(acc)
}

/// How an `"<address>:<port>"` endpoint splits: defined exactly when the
/// text holds a single `':'` and what follows it parses as a `u64`. An
/// endpoint that does not split this way (an ARP endpoint, a bracketless
/// IPv6 address with its many colons) yields `None`.
pub open spec fn split_endpoint(s: Seq<char>) -> Option<(Seq<char>, int)> {
    if count_char(s, ':') == 1 {
        let i = find_char(s, ':');
        match parse_u64(s.skip(i + 1)) {
            Some(p) => Some((s.take(i), p)),
            None => None,
        }
    } else {
        None
    }
}

/// Splits an `"<address>:<port>"` endpoint into its address and port.
pub fn split_ip_port(s: &String) -> (r: Option<(String, u64)>)
    ensures
        match r {
            Some(p) => split_endpoint(s@) == Some((p.0@, p.1 as int)),
            None => split_endpoint(s@) is None,
        },
{
    let v = chars_of(s.as_str());
    let n = v.len();
    let mut colons: usize = 0;
    let mut first: usize = 0;
    let mut i: usize = 0;
    while i < n
        invariant
            n == v@.len(),
            i <= n,
            colons == count_char(v@.take(i as int), ':'),
            colons <= i,
            colons == 0 ==> forall|k: int| 0 <= k < i ==> v@[k] != ':',
            colons > 0 ==> first < i && v@[first as int] == ':' && forall|k: int|
                0 <= k < first ==> v@[k] != ':',
        decreases n - i,
    {
        proof {
            assert(v@.take(i + 1).drop_last() =~= v@.take(i as int));
        }
        if v[i] == ':' {
            if colons == 0 {
                first = i;
            }
            colons = colons + 1;
        }
        i = i + 1;
    }
    proof {
        assert(v@.take(n as int) =~= v@);
    }
    if colons != 1 {
        return None;
    }
    proof {
        lemma_find_char_at(v@, ':', first as int);
    }
    let port = parse_u64_chars(&v, first + 1, n);
    proof {
        assert(v@.subrange(first + 1, n as int) =~= v@.skip(first + 1));
    }
    match port {
        Some(p) => {
            let ip = String::from_str(s.as_str().substring_char(0, first));
            proof {
                assert(ip@ =~= v@.take(first as int));
            }
            Some((ip, p))
        },
        None => None,
    }
}

/// How an ARP endpoint of the form `"<MAC> (<IP>)"` splits into the claimed
/// MAC and IP: the MAC is what stands before the first space, the IP what
/// the parentheses enclose. Defined only when the text has that shape.
pub open spec fn split_arp_endpoint(s: Seq<char>) -> Option<(Seq<char>, Seq<char>)> {
    let i = find_char(s, ' ');
    if 0 <= i && i + 2 < s.len() && s[i + 1] == '(' && s.last() == ')' {
        Some((s.take(i), s.subrange(i + 2, s.len() - 1)))
    } else {
        None
    }
}

/// Splits an ARP endpoint `"<MAC> (<IP>)"` into MAC and IP.
pub fn split_arp_source(s: &String) -> (r: Option<(String, String)>)
    ensures
        match r {
            Some(p) => split_arp_endpoint(s@) == Some((p.0@, p.1@)),
            None => split_arp_endpoint(s@) is None,
        },
{
    let v = chars_of(s.as_str());
    let n = v.len();
    let mut i: usize = 0;
    while i < n
        invariant
            n == v@.len(),
            v@ == s@,
            i <= n,
            forall|k: int| 0 <= k < i ==> v@[k] != ' ',
        decreases n - i,
    {
        if v[i] == ' ' {
            proof {
                lemma_find_char_at(v@, ' ', i as int);
            }
            if n > 2 && i < n - 2 && v[i + 1] == '(' && v[n - 1] == ')' {
                let mac = String::from_str(s.as_str().substring_char(0, i));
                let ip = String::from_str(s.as_str().substring_char(i + 2, n - 1));
                proof {
                    assert(mac@ =~= v@.take(i as int));
                    assert(ip@ =~= v@.subrange(i + 2, n - 1));
                }
                return Some((mac, ip));
            } else {
                return None;
            }
        }
        i = i + 1;
    }
    proof {
        // no space at all: find_char comes back negative
        if find_char(v@, ' ') >= 0 {
            let j = find_char_index_witness(v@, ' ');
            assert(v@[j] == ' ');
        }
    }
    None
}

/// The index `find_char` speaks of, when it found one.
proof fn find_char_index_witness(s: Seq<char>, c: char) -> (i: int)
    requires
        find_char(s, c) >= 0,
    ensures
        0 <= i < s.len(),
        s[i] == c,
        i == find_char(s, c),
    decreases s.len(),
{
    if s.len() == 0 {
        0
    } else if s[0] == c {
        0
    } else {
        let r = find_char_index_witness(s.skip(1), c);
        assert(s.skip(1)[r] == s[r + 1]);
        r + 1
    }
}

/// The comma-and-space joining of a list of texts.
pub open spec fn join_comma(parts: Seq<Seq<char>>) -> Seq<char>
    decreases parts.len(),
{
    if parts.len() == 0 {
        Seq::empty()
    } else if parts.len() == 1 {
        parts[0]
    } else {
        join_comma(parts.drop_last()) + ", "@ + parts.last()
    }
}

/// Joins strings with `", "` between them.
pub fn join_strings(parts: &Vec<String>) -> (s: String)
    ensures
        s@ == join_comma(parts@.map_values(|p: String| p@)),
{
    let mut s = String::new();
    let n = parts.len();
    let mut i: usize = 0;
    while i < n
        invariant
            n == parts@.len(),
            i <= n,
            s@ == join_comma(parts@.map_values(|p: String| p@).take(i as int)),
        decreases n - i,
    {
        if i > 0 {
            s.append(", ");
        }
        s.append(parts[i].as_str());
        proof {
            let m = parts@.map_values(|p: String| p@);
            assert(m.take(i + 1).drop_last() =~= m.take(i as int));
            assert(m.take(i + 1).last() == parts@[i as int]@);
        }
        i = i + 1;
    }
    proof {
        let m = parts@.map_values(|p: String| p@);
        assert(m.take(n as int) =~= m);
    }
    s
}

/// The upper-case hexadecimal digit for a value in 0..16.
pub open spec fn hex_digit_uc(d: int) -> char {
    if d == 0 {
        '0'
    } else if d == 1 {
        '1'
    } else if d == 2 {
        '2'
    } else if d == 3 {
        '3'
    } else if d == 4 {
        '4'
    } else if d == 5 {
        '5'
    } else if d == 6 {
        '6'
    } else if d == 7 {
        '7'
    } else if d == 8 {
        '8'
    } else if d == 9 {
        '9'
    } else if d == 10 {
        'A'
    } else if d == 11 {
        'B'
    } else if d == 12 {
        'C'
    } else if d == 13 {
        'D'
    } else if d == 14 {
        'E'
    } else {
        'F'
    }
}

/// A byte as two upper-case hexadecimal digits.
pub open spec fn byte_hex_uc(b: u8) -> Seq<char> {
    seq![hex_digit_uc(b as int / 16), hex_digit_uc(b as int % 16)]
}

fn hex_digit_uc_str(d: u8) -> (s: &'static str)
    requires
        d < 16,
    ensures
        s@ =~= seq![hex_digit_uc(d as int)],
{
    let s = if d == 0 {
        "0"
    } else if d == 1 {
        "1"
    } else if d == 2 {
        "2"
    } else if d == 3 {
        "3"
    } else if d == 4 {
        "4"
    } else if d == 5 {
        "5"
    } else if d == 6 {
        "6"
    } else if d == 7 {
        "7"
    } else if d == 8 {
        "8"
    } else if d == 9 {
        "9"
    } else if d == 10 {
        "A"
    } else if d == 11 {
        "B"
    } else if d == 12 {
        "C"
    } else if d == 13 {
        "D"
    } else if d == 14 {
        "E"
    } else {
        "F"
    };
    proof {
        reveal_strlit("0");
        reveal_strlit("1");
        reveal_strlit("2");
        reveal_strlit("3");
        reveal_strlit("4");
        reveal_strlit("5");
        reveal_strlit("6");
        reveal_strlit("7");
        reveal_strlit("8");
        reveal_strlit("9");
        reveal_strlit("A");
        reveal_strlit("B");
        reveal_strlit("C");
        reveal_strlit("D");
        reveal_strlit("E");
        reveal_strlit("F");
    }
    s
}

/// Appends the two upper-case hex digits of a byte.
pub fn append_byte_hex(s: &mut String, b: u8)
    ensures
        final(s)@ == old(s)@ + byte_hex_uc(b),
{
    s.append(hex_digit_uc_str(b / 16));
    s.append(hex_digit_uc_str(b % 16));
    proof {
        assert(old(s)@ + seq![hex_digit_uc(b as int / 16)] + seq![hex_digit_uc(b as int % 16)]
            =~= old(s)@ + byte_hex_uc(b));
    }
}

/// The lower-case hexadecimal digit for a value in 0..16.
pub open spec fn hex_digit_lc(d: int) -> char {
    if d == 10 {
        'a'
    } else if d == 11 {
        'b'
    } else if d == 12 {
        'c'
    } else if d == 13 {
        'd'
    } else if d == 14 {
        'e'
    } else if d == 15 {
        'f'
    } else {
        hex_digit_uc(d)
    }
}

/// The usual base-16 rendering of a natural number, lower case and without
/// leading zeros.
pub open spec fn hex_str_lc(n: nat) -> Seq<char>
    decreases n,
{
    if n < 16 {
        seq![hex_digit_lc(n as int)]
    } else {
        hex_str_lc(n / 16).push(hex_digit_lc((n % 16) as int))
    }
}

fn hex_digit_lc_str(d: u16) -> (s: &'static str)
    requires
        d < 16,
    ensures
        s@ =~= seq![hex_digit_lc(d as int)],
{
    let s = if d == 10 {
        "a"
    } else if d == 11 {
        "b"
    } else if d == 12 {
        "c"
    } else if d == 13 {
        "d"
    } else if d == 14 {
        "e"
    } else if d == 15 {
        "f"
    } else {
        return hex_digit_uc_str(d as u8);
    };
    proof {
        reveal_strlit("a");
        reveal_strlit("b");
        reveal_strlit("c");
        reveal_strlit("d");
        reveal_strlit("e");
        reveal_strlit("f");
    }
    s
}

/// Renders a number in lower-case base 16 without leading zeros.
pub fn u16_to_hex_string(n: u16) -> (s: String)
    ensures
        s@ == hex_str_lc(n as nat),
    decreases n,
{
    if n < 16 {
        let s = String::from_str(hex_digit_lc_str(n));
        proof {
            assert(s@ =~= hex_str_lc(n as nat));
        }
        s
    } else {
        let mut s = u16_to_hex_string(n / 16);
        s.append(hex_digit_lc_str(n % 16));
        proof {
            assert(s@ =~= hex_str_lc(n as nat));
        }
        s
    }
}

} // verus!
