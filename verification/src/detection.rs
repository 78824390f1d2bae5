//! The threat-detection engine: a fixed battery of detectors over a rolling
//! history of decoded events, each a pure function from the history and the
//! scan time to the alerts it raises.
//!
//! Each detector's contract characterises its output exactly: every alert
//! it may emit, for which grouping keys one is owed, and that no key is
//! reported twice. Thresholds and windows are the named policy constants
//! below; windows are in microseconds, like event timestamps.

use vstd::prelude::*;
use vstd::string::*;

use crate::model::{ActivityType, DnsAnswer, DnsMapping, NetworkEvent, Protocol, SuspiciousActivity};
use crate::risk::{assess_dns_risk, is_common_port_range, risk_label, spec_risk, RiskLevel};
use crate::text::{dec_str, join_comma, join_strings, split_arp_endpoint, split_arp_source, split_endpoint, split_ip_port, u128_to_string, u64_to_string};

verus! {

/// Distinct destination ports per (source, destination) pair above which a
/// port scan is reported.
pub const PORT_SCAN_THRESHOLD: u64 = 15;

/// The port-scan detector's trailing window, in microseconds.
pub const PORT_SCAN_WINDOW: u64 = 300_000_000;

/// Bytes per source above which a large transfer is reported.
pub const LARGE_TRANSFER_THRESHOLD: u64 = 10_000_000;

/// The large-transfer detector's trailing window, in microseconds.
pub const LARGE_TRANSFER_WINDOW: u64 = 300_000_000;

/// DNS queries per source above which a flood is reported.
pub const DNS_FLOOD_THRESHOLD: u64 = 300;

/// The DNS-flood detector's trailing window, in microseconds.
pub const DNS_FLOOD_WINDOW: u64 = 60_000_000;

/// Connections to an uncommon port above which its activity is reported.
pub const RARE_PORT_THRESHOLD: u64 = 5;

/// The rare-port detector's trailing window, in microseconds.
pub const RARE_PORT_WINDOW: u64 = 300_000_000;

/// Distinct MAC addresses claiming one IP above which spoofing is reported.
pub const ARP_SPOOF_THRESHOLD: u64 = 3;

/// UDP packets per source above which a flood is reported.
pub const UDP_FLOOD_THRESHOLD: u64 = 1000;

/// The UDP-flood detector's trailing window, in microseconds.
pub const UDP_FLOOD_WINDOW: u64 = 60_000_000;

/// How far back the suspicious-DNS correlation looks, in microseconds.
pub const SUSPICIOUS_DNS_WINDOW: u64 = 3_600_000_000;

/// HTTP's port, for the DNS-to-connection join.
pub const HTTP_PORT: u64 = 80;

/// A timestamp lies within the trailing window of length `w` ending `now`.
pub open spec fn in_window(t: u64, now: u64, w: u64) -> bool {
    t as int >= now as int - w as int
}

fn within_window(t: u64, now: u64, w: u64) -> (b: bool)
    ensures
        b == in_window(t, now, w),
{
    let lo: u64 = if now >= w {
        now - w
    } else {
        0
    };
    t >= lo
}

/// Keeps, in order, what `f` yields of each element.
pub open spec fn collect<A, B>(s: Seq<A>, f: spec_fn(A) -> Option<B>) -> Seq<B>
    decreases s.len(),
{
    if s.len() == 0 {
        Seq::empty()
    } else {
        let rest = collect(s.drop_last(), f);
        match f(s.last()) {
            Some(b) => rest.push(b),
            None => rest,
        }
    }
}

/// How many times `x` occurs in `s`.
pub open spec fn count_of<T>(s: Seq<T>, x: T) -> nat
    decreases s.len(),
{
    if s.len() == 0 {
        0
    } else {
        count_of(s.drop_last(), x) + if s.last() == x {
            1nat
        } else {
            0nat
        }
    }
}

/// The distinct values of `s`, in order of first occurrence.
pub open spec fn firsts<T>(s: Seq<T>) -> Seq<T>
    decreases s.len(),
{
    if s.len() == 0 {
        Seq::empty()
    } else {
        let rest = firsts(s.drop_last());
        if s.drop_last().contains(s.last()) {
            rest
        } else {
            rest.push(s.last())
        }
    }
}

/// `x` occurs somewhere in `s` exactly when it is among the firsts.
pub proof fn lemma_firsts_contains<T>(s: Seq<T>, x: T)
    ensures
        firsts(s).contains(x) <==> s.contains(x),
    decreases s.len(),
{
    if s.len() > 0 {
        lemma_firsts_contains(s.drop_last(), x);
        assert(s.contains(x) <==> (s.drop_last().contains(x) || s.last() == x)) by {
            if s.contains(x) {
                let i = choose|i: int| 0 <= i < s.len() && s[i] == x;
                if i < s.len() - 1 {
                    assert(s.drop_last()[i] == x);
                }
            }
            if s.drop_last().contains(x) {
                let i = choose|i: int| 0 <= i < s.len() - 1 && s.drop_last()[i] == x;
                assert(s[i] == x);
            }
            if s.last() == x {
                assert(s[s.len() - 1] == x);
            }
        }
        if !s.drop_last().contains(s.last()) {
            let f = firsts(s.drop_last());
            if firsts(s).contains(x) {
                let j = choose|j: int| 0 <= j < firsts(s).len() && firsts(s)[j] == x;
                if j < f.len() {
                    assert(f[j] == x);
                    assert(f.contains(x));
                }
            }
            if f.contains(x) {
                let j = choose|j: int| 0 <= j < f.len() && f[j] == x;
                assert(firsts(s)[j] == x);
                assert(firsts(s).contains(x));
            }
            if s.last() == x {
                assert(firsts(s)[f.len() as int] == x);
                assert(firsts(s).contains(x));
            }
        }
    }
}

/// The firsts of a sequence hold no value twice.
pub proof fn lemma_firsts_no_duplicates<T>(s: Seq<T>)
    ensures
        firsts(s).no_duplicates(),
    decreases s.len(),
{
    if s.len() > 0 {
        lemma_firsts_no_duplicates(s.drop_last());
        if !s.drop_last().contains(s.last()) {
            lemma_firsts_contains(s.drop_last(), s.last());
            let f = firsts(s.drop_last());
            assert forall|i: int, j: int|
                0 <= i < firsts(s).len() && 0 <= j < firsts(s).len() && i != j implies firsts(s)[i]
                != firsts(s)[j] by {
                if i < f.len() && j < f.len() {
                    assert(f[i] == firsts(s)[i] && f[j] == firsts(s)[j]);
                } else if i < f.len() {
                    assert(f.contains(f[i]));
                } else if j < f.len() {
                    assert(f.contains(f[j]));
                }
            }
        }
    }
}

/// A value absent from `s` is counted zero times, and conversely.
pub proof fn lemma_count_of_zero<T>(s: Seq<T>, x: T)
    ensures
        count_of(s, x) == 0 <==> !s.contains(x),
    decreases s.len(),
{
    if s.len() > 0 {
        lemma_count_of_zero(s.drop_last(), x);
        assert(s.contains(x) <==> (s.drop_last().contains(x) || s.last() == x)) by {
            if s.contains(x) {
                let i = choose|i: int| 0 <= i < s.len() && s[i] == x;
                if i < s.len() - 1 {
                    assert(s.drop_last()[i] == x);
                }
            }
            if s.drop_last().contains(x) {
                let i = choose|i: int| 0 <= i < s.len() - 1 && s.drop_last()[i] == x;
                assert(s[i] == x);
            }
            if s.last() == x {
                assert(s[s.len() - 1] == x);
            }
        }
    }
}

/// The views of a vector of strings.
pub open spec fn views_of(s: Seq<String>) -> Seq<Seq<char>> {
    s.map_values(|x: String| x@)
}

/// Groups equal strings: the distinct values in first-occurrence order,
/// each with its number of occurrences.
fn group_count(items: &Vec<String>) -> (r: (Vec<String>, Vec<usize>))
    ensures
        r.0@.len() == r.1@.len(),
        views_of(r.0@) == firsts(views_of(items@)),
        forall|j: int|
            0 <= j < r.0@.len() ==> r.1@[j] as nat == count_of(
                views_of(items@),
                #[trigger] r.0@[j]@,
            ),
{
    let ghost iv = views_of(items@);
    let mut keys: Vec<String> = Vec::new();
    let mut counts: Vec<usize> = Vec::new();
    let n = items.len();
    let mut i: usize = 0;
    while i < n
        invariant
            n == items@.len(),
            i <= n,
            iv == views_of(items@),
            keys@.len() == counts@.len(),
            views_of(keys@) == firsts(iv.take(i as int)),
            forall|j: int|
                0 <= j < keys@.len() ==> counts@[j] as nat == count_of(
                    iv.take(i as int),
                    #[trigger] keys@[j]@,
                ),
            forall|j: int| 0 <= j < keys@.len() ==> counts@[j] <= i,
        decreases n - i,
    {
        let ghost pre = iv.take(i as int);
        proof {
            assert(iv.take(i + 1).drop_last() =~= pre);
            assert(iv.take(i + 1).last() == items@[i as int]@);
            lemma_firsts_no_duplicates(pre);
        }
        let m = keys.len();
        let mut j: usize = 0;
        let mut found = false;
        while j < m && !found
            invariant
                m == keys@.len(),
                j <= m,
                i < n,
                n == items@.len(),
                found ==> j < m && keys@[j as int]@ == items@[i as int]@,
                !found ==> forall|j2: int| 0 <= j2 < j ==> keys@[j2]@ != items@[i as int]@,
            decreases m - j + if found {
                0int
            } else {
                1int
            },
    {
            if keys[j] == items[i] {
                found = true;
            } else {
                j = j + 1;
            }
        }
        if found {
            proof {
                // the value is already grouped: firsts is unchanged
                assert(views_of(keys@)[j as int] == keys@[j as int]@);
                assert(firsts(pre).contains(keys@[j as int]@));
                lemma_firsts_contains(pre, keys@[j as int]@);
                assert(firsts(iv.take(i + 1)) == firsts(pre));
                assert forall|j2: int| 0 <= j2 < keys@.len() && j2 != j implies keys@[j2]@
                    != items@[i as int]@ by {
                    assert(views_of(keys@)[j2] == keys@[j2]@);
                    assert(views_of(keys@)[j as int] == keys@[j as int]@);
                }
            }
            let c = counts[j];
            counts[j] = c + 1;
        } else {
            proof {
                // a new value: it joins the keys and starts at one
                assert(forall|j2: int|
                    0 <= j2 < keys@.len() ==> #[trigger] views_of(keys@)[j2] == keys@[j2]@);
                assert(!firsts(pre).contains(items@[i as int]@));
                lemma_firsts_contains(pre, items@[i as int]@);
                assert(firsts(iv.take(i + 1)) == firsts(pre).push(items@[i as int]@));
                lemma_count_of_zero(pre, items@[i as int]@);
            }
            keys.push(items[i].clone());
            counts.push(1);
            proof {
                assert(views_of(keys@) =~= firsts(iv.take(i + 1)));
            }
        }
        i = i + 1;
    }
    proof {
        assert(iv.take(n as int) =~= iv);
    }
    (keys, counts)
}

/// The source of every DNS event inside the flood window, in event order.
pub open spec fn dns_flood_sources(events: Seq<NetworkEvent>, now: u64) -> Seq<Seq<char>> {
    collect(
        events,
        |e: NetworkEvent|
            if e.protocol == Protocol::Dns && in_window(e.timestamp, now, DNS_FLOOD_WINDOW) {
                Some(e.source@)
            } else {
                None
            },
    )
}

/// The source of every UDP event inside the flood window, in event order.
pub open spec fn udp_flood_sources(events: Seq<NetworkEvent>, now: u64) -> Seq<Seq<char>> {
    collect(
        events,
        |e: NetworkEvent|
            if e.protocol == Protocol::Udp && in_window(e.timestamp, now, UDP_FLOOD_WINDOW) {
                Some(e.source@)
            } else {
                None
            },
    )
}

/// An alert that reports `c` occurrences for key `k`: its details read the
/// count followed by `tail`.
pub open spec fn count_alert_matches(
    a: SuspiciousActivity,
    t: ActivityType,
    k: Seq<char>,
    c: nat,
    tail: Seq<char>,
    detected_at: u64,
) -> bool {
    &&& a.activity_type == t
    &&& a.source@ == k
    &&& a.details@ == dec_str(c) + tail
    &&& a.timestamp == detected_at
}

/// What a count-per-key detector returns, exactly: one alert for each key
/// of `srcs` whose occurrence count exceeds `threshold` — no other alert,
/// each with the exact count in its details, and no key twice.
pub open spec fn count_alerts_characterized(
    rs: Seq<SuspiciousActivity>,
    srcs: Seq<Seq<char>>,
    threshold: u64,
    t: ActivityType,
    tail: Seq<char>,
    detected_at: u64,
) -> bool {
    &&& forall|a: int|
        0 <= a < rs.len() ==> count_of(srcs, #[trigger] rs[a].source@) > threshold
            && count_alert_matches(
            rs[a],
            t,
            rs[a].source@,
            count_of(srcs, rs[a].source@),
            tail,
            detected_at,
        )
    &&& forall|k: Seq<char>|
        #[trigger] count_of(srcs, k) > threshold ==> exists|a: int|
            0 <= a < rs.len() && rs[a].source@ == k
    &&& forall|a1: int, a2: int| 0 <= a1 < a2 < rs.len() ==> rs[a1].source@ != rs[a2].source@
}

/// Groups `srcs`, thresholds the counts, and renders one alert per
/// offending key.
fn count_group_alerts(
    srcs: &Vec<String>,
    threshold: u64,
    t: ActivityType,
    tail: &str,
    detected_at: u64,
) -> (r: Vec<SuspiciousActivity>)
    ensures
        count_alerts_characterized(r@, views_of(srcs@), threshold, t, tail@, detected_at),
{
    let ghost sv = views_of(srcs@);
    let (keys, counts) = group_count(srcs);
    let ghost kv = views_of(keys@);
    proof {
        lemma_firsts_no_duplicates(sv);
        assert(forall|j2: int| 0 <= j2 < keys@.len() ==> #[trigger] kv[j2] == keys@[j2]@);
        assert forall|k: Seq<char>| #[trigger] count_of(sv, k) > threshold implies exists|j2: int|
            0 <= j2 < kv.len() && kv[j2] == k by {
            lemma_count_of_zero(sv, k);
            lemma_firsts_contains(sv, k);
        }
    }
    let m = keys.len();
    let mut r: Vec<SuspiciousActivity> = Vec::new();
    let mut j: usize = 0;
    while j < m
        invariant
            m == keys@.len(),
            m == counts@.len(),
            j <= m,
            sv == views_of(srcs@),
            kv == views_of(keys@),
            kv == firsts(sv),
            kv.no_duplicates(),
            forall|j2: int| 0 <= j2 < m ==> #[trigger] kv[j2] == keys@[j2]@,
            forall|j2: int| 0 <= j2 < m ==> #[trigger] counts@[j2] as nat == count_of(sv, kv[j2]),
            forall|a: int|
                0 <= a < r@.len() ==> count_of(sv, #[trigger] r@[a].source@) > threshold
                    && count_alert_matches(
                    r@[a],
                    t,
                    r@[a].source@,
                    count_of(sv, r@[a].source@),
                    tail@,
                    detected_at,
                ),
            forall|a: int|
                0 <= a < r@.len() ==> exists|j2: int|
                    0 <= j2 < j && #[trigger] r@[a].source@ == kv[j2],
            forall|k: Seq<char>|
                #[trigger] count_of(sv, k) > threshold ==> (exists|a: int|
                    0 <= a < r@.len() && r@[a].source@ == k) || (exists|j2: int|
                    j <= j2 < m && kv[j2] == k),
            forall|a1: int, a2: int| 0 <= a1 < a2 < r@.len() ==> r@[a1].source@ != r@[a2].source@,
        decreases m - j,
    {
        let c = counts[j];
        let ghost r_old = r@;
        if c as u64 > threshold {
            let mut details = u64_to_string(c as u64);
            details.append(tail);
            r.push(
                SuspiciousActivity {
                    activity_type: t,
                    source: keys[j].clone(),
                    details,
                    timestamp: detected_at,
                },
            );
        }
        proof {
            assert forall|k: Seq<char>| #[trigger] count_of(sv, k) > threshold implies (exists|
                a: int,
            |
                0 <= a < r@.len() && r@[a].source@ == k) || (exists|j2: int|
                j + 1 <= j2 < m && kv[j2] == k) by {
                if exists|a: int| 0 <= a < r_old.len() && r_old[a].source@ == k {
                    let a = choose|a: int| 0 <= a < r_old.len() && r_old[a].source@ == k;
                    assert(r@[a].source@ == k);
                } else {
                    let j2 = choose|j2: int| j <= j2 < m && kv[j2] == k;
                    if j2 == j {
                        assert(count_of(sv, kv[j as int]) > threshold);
                        assert(r@[r@.len() - 1].source@ == k);
                    }
                }
            }
            assert forall|a1: int, a2: int|
                0 <= a1 < a2 < r@.len() implies r@[a1].source@ != r@[a2].source@ by {
                if a2 == r@.len() - 1 && r@.len() > r_old.len() {
                    let j2 = choose|j2: int| 0 <= j2 < j && r@[a1].source@ == kv[j2];
                    assert(kv[j2] != kv[j as int]);
                }
            }
            assert forall|a: int| 0 <= a < r@.len() implies exists|j2: int|
                0 <= j2 < j + 1 && #[trigger] r@[a].source@ == kv[j2] by {
                if a < r_old.len() {
                    let j2 = choose|j2: int| 0 <= j2 < j && r_old[a].source@ == kv[j2];
                    assert(r@[a].source@ == kv[j2]);
                } else {
                    assert(r@[a].source@ == kv[j as int]);
                }
            }
        }
        j = j + 1;
    }
    r
}

/// Scans the history for DNS floods: more than the threshold's worth of
/// DNS traffic from one source inside the trailing minute.
pub fn detect_dns_flood(events: &Vec<NetworkEvent>, now: u64, detected_at: u64) -> (r: Vec<
    SuspiciousActivity,
>)
    ensures
        count_alerts_characterized(
            r@,
            dns_flood_sources(events@, now),
            DNS_FLOOD_THRESHOLD,
            ActivityType::DnsFlood,
            " DNS queries in 1 minute"@,
            detected_at,
        ),
{
    let mut srcs: Vec<String> = Vec::new();
    let n = events.len();
    let mut i: usize = 0;
    while i < n
        invariant
            n == events@.len(),
            i <= n,
            views_of(srcs@) == dns_flood_sources(events@.take(i as int), now),
        decreases n - i,
    {
        proof {
            assert(events@.take(i + 1).drop_last() =~= events@.take(i as int));
            assert(events@.take(i + 1).last() == events@[i as int]);
        }
        let e = &events[i];
        if matches!(e.protocol, Protocol::Dns) && within_window(e.timestamp, now, DNS_FLOOD_WINDOW)
        {
            srcs.push(e.source.clone());
            proof {
                assert(views_of(srcs@) =~= dns_flood_sources(events@.take(i + 1), now));
            }
        }
        i = i + 1;
    }
    proof {
        assert(events@.take(n as int) =~= events@);
    }
    count_group_alerts(&srcs, DNS_FLOOD_THRESHOLD, ActivityType::DnsFlood, " DNS queries in 1 minute", detected_at)
}

/// Scans the history for UDP floods: more than the threshold's worth of
/// UDP packets from one source inside the trailing minute.
pub fn detect_udp_floods(events: &Vec<NetworkEvent>, now: u64, detected_at: u64) -> (r: Vec<
    SuspiciousActivity,
>)
    ensures
        count_alerts_characterized(
            r@,
            udp_flood_sources(events@, now),
            UDP_FLOOD_THRESHOLD,
            ActivityType::UdpFlood,
            " UDP packets in 1 minute"@,
            detected_at,
        ),
{
    let mut srcs: Vec<String> = Vec::new();
    let n = events.len();
    let mut i: usize = 0;
    while i < n
        invariant
            n == events@.len(),
            i <= n,
            views_of(srcs@) == udp_flood_sources(events@.take(i as int), now),
        decreases n - i,
    {
        proof {
            assert(events@.take(i + 1).drop_last() =~= events@.take(i as int));
            assert(events@.take(i + 1).last() == events@[i as int]);
        }
        let e = &events[i];
        if matches!(e.protocol, Protocol::Udp) && within_window(e.timestamp, now, UDP_FLOOD_WINDOW)
        {
            srcs.push(e.source.clone());
            proof {
                assert(views_of(srcs@) =~= udp_flood_sources(events@.take(i + 1), now));
            }
        }
        i = i + 1;
    }
    proof {
        assert(events@.take(n as int) =~= events@);
    }
    count_group_alerts(&srcs, UDP_FLOOD_THRESHOLD, ActivityType::UdpFlood, " UDP packets in 1 minute", detected_at)
}

/// A running per-key sum stays well under the 128-bit ceiling: after `p`
/// entries of at most `usize::MAX` each, one more still fits.
proof fn lemma_sum_slack(p: int, s: int, v: int)
    requires
        0 <= p,
        p < usize::MAX as int,
        0 <= s <= p * usize::MAX as int,
        0 <= v <= usize::MAX as int,
    ensures
        s + v <= (p + 1) * usize::MAX as int,
        s + v <= 0xffff_ffff_ffff_fffe_0000_0000_0000_0001,
{
    assert((p + 1) * usize::MAX as int == p * usize::MAX as int + usize::MAX as int)
        by (nonlinear_arith);
    assert((p + 1) * usize::MAX as int <= usize::MAX as int * usize::MAX as int)
        by (nonlinear_arith)
        requires
            0 <= p + 1 <= usize::MAX as int,
    ;
    assert(usize::MAX as int <= 0xffff_ffff_ffff_ffff);
    assert(usize::MAX as int * usize::MAX as int <= 0xffff_ffff_ffff_ffff * 0xffff_ffff_ffff_ffff)
        by (nonlinear_arith)
        requires
            0 <= usize::MAX as int <= 0xffff_ffff_ffff_ffff,
    ;
}

/// Stepping the entry count never shrinks the per-key sum bound.
proof fn lemma_sum_bound_step(p: int)
    requires
        0 <= p,
    ensures
        0 <= p * usize::MAX as int,
        p * usize::MAX as int <= (p + 1) * usize::MAX as int,
        (p + 1) * usize::MAX as int == p * usize::MAX as int + usize::MAX as int,
{
    assert(0 <= p * usize::MAX as int) by (nonlinear_arith)
        requires
            0 <= p,
    ;
    assert((p + 1) * usize::MAX as int == p * usize::MAX as int + usize::MAX as int)
        by (nonlinear_arith);
}

/// The (source, payload size) of every event inside the transfer window,
/// in event order.
pub open spec fn transfer_entries(events: Seq<NetworkEvent>, now: u64) -> Seq<(Seq<char>, int)> {
    collect(
        events,
        |e: NetworkEvent|
            if in_window(e.timestamp, now, LARGE_TRANSFER_WINDOW) {
                Some((e.source@, e.payload_size as int))
            } else {
                None
            },
    )
}

/// The key of each entry, in order.
pub open spec fn entry_keys(entries: Seq<(Seq<char>, int)>) -> Seq<Seq<char>> {
    entries.map_values(|t: (Seq<char>, int)| t.0)
}

/// The sum of the values carried by entries with key `k`.
pub open spec fn sum_for_key(entries: Seq<(Seq<char>, int)>, k: Seq<char>) -> int
    decreases entries.len(),
{
    if entries.len() == 0 {
        0
    } else {
        sum_for_key(entries.drop_last(), k) + if entries.last().0 == k {
            entries.last().1
        } else {
            0
        }
    }
}

/// A key no entry carries sums to zero.
pub proof fn lemma_sum_for_key_absent(entries: Seq<(Seq<char>, int)>, k: Seq<char>)
    requires
        forall|i: int| 0 <= i < entries.len() ==> (#[trigger] entries[i]).0 != k,
    ensures
        sum_for_key(entries, k) == 0,
    decreases entries.len(),
{
    if entries.len() > 0 {
        assert(forall|i: int|
            0 <= i < entries.len() - 1 ==> #[trigger] entries.drop_last()[i] == entries[i]);
        lemma_sum_for_key_absent(entries.drop_last(), k);
    }
}

/// What the large-transfer detector returns, exactly: one alert per source
/// whose payload bytes inside the window sum beyond the threshold.
pub open spec fn transfer_alerts_characterized(
    rs: Seq<SuspiciousActivity>,
    entries: Seq<(Seq<char>, int)>,
    detected_at: u64,
) -> bool {
    &&& forall|a: int|
        0 <= a < rs.len() ==> sum_for_key(entries, #[trigger] rs[a].source@)
            > LARGE_TRANSFER_THRESHOLD && rs[a].activity_type == ActivityType::LargeDataTransfer
            && rs[a].details@ == dec_str(sum_for_key(entries, rs[a].source@) as nat)
            + " bytes transferred in 5 minutes"@ && rs[a].timestamp == detected_at
    &&& forall|k: Seq<char>|
        #[trigger] sum_for_key(entries, k) > LARGE_TRANSFER_THRESHOLD ==> exists|a: int|
            0 <= a < rs.len() && rs[a].source@ == k
    &&& forall|a1: int, a2: int| 0 <= a1 < a2 < rs.len() ==> rs[a1].source@ != rs[a2].source@
}

/// The spec-level reading of a collected (source, payload) vector.
pub open spec fn entries_of(pairs: Seq<(String, usize)>) -> Seq<(Seq<char>, int)> {
    pairs.map_values(|p: (String, usize)| (p.0@, p.1 as int))
}

/// Scans the history for large data transfers: more than the threshold's
/// worth of bytes from one source inside the trailing five minutes.
#[verifier::rlimit(60)]
pub fn detect_large_transfers(events: &Vec<NetworkEvent>, now: u64, detected_at: u64) -> (r: Vec<
    SuspiciousActivity,
>)
    ensures
        transfer_alerts_characterized(r@, transfer_entries(events@, now), detected_at),
{
    let mut pairs: Vec<(String, usize)> = Vec::new();
    let n = events.len();
    let mut i: usize = 0;
    while i < n
        invariant
            n == events@.len(),
            i <= n,
            entries_of(pairs@) == transfer_entries(events@.take(i as int), now),
            pairs@.len() <= i,
        decreases n - i,
    {
        proof {
            assert(events@.take(i + 1).drop_last() =~= events@.take(i as int));
            assert(events@.take(i + 1).last() == events@[i as int]);
        }
        let e = &events[i];
        if within_window(e.timestamp, now, LARGE_TRANSFER_WINDOW) {
            pairs.push((e.source.clone(), e.payload_size));
            proof {
                assert(entries_of(pairs@) =~= transfer_entries(events@.take(i + 1), now));
            }
        }
        i = i + 1;
    }
    proof {
        assert(events@.take(n as int) =~= events@);
    }
    let ghost ev = entries_of(pairs@);

    // group the payload sums by source
    let mut keys: Vec<String> = Vec::new();
    let mut sums: Vec<u128> = Vec::new();
    let m0 = pairs.len();
    let mut p: usize = 0;
    while p < m0
        invariant
            m0 == pairs@.len(),
            p <= m0,
            ev == entries_of(pairs@),
            keys@.len() == sums@.len(),
            views_of(keys@) == firsts(entry_keys(ev.take(p as int))),
            forall|j: int|
                0 <= j < keys@.len() ==> #[trigger] sums@[j] as int == sum_for_key(
                    ev.take(p as int),
                    keys@[j]@,
                ),
            forall|j: int| 0 <= j < keys@.len() ==> #[trigger] sums@[j] as int <= p * usize::MAX,
        decreases m0 - p,
    {
        let ghost pre = ev.take(p as int);
        proof {
            assert(ev.take(p + 1).drop_last() =~= pre);
            assert(ev.take(p + 1).last() == ev[p as int]);
            assert(ev[p as int] == (pairs@[p as int].0@, pairs@[p as int].1 as int));
            assert(entry_keys(ev.take(p + 1)).drop_last() =~= entry_keys(pre));
            assert(entry_keys(ev.take(p + 1)).last() == ev[p as int].0);
            lemma_firsts_no_duplicates(entry_keys(pre));
            lemma_sum_bound_step(p as int);
        }
        let mk = keys.len();
        let mut j: usize = 0;
        let mut found = false;
        while j < mk && !found
            invariant
                mk == keys@.len(),
                j <= mk,
                p < m0,
                m0 == pairs@.len(),
                found ==> j < mk && keys@[j as int]@ == pairs@[p as int].0@,
                !found ==> forall|j2: int| 0 <= j2 < j ==> keys@[j2]@ != pairs@[p as int].0@,
            decreases mk - j + if found {
                0int
            } else {
                1int
            },
        {
            if keys[j] == pairs[p].0 {
                found = true;
            } else {
                j = j + 1;
            }
        }
        let val = pairs[p].1;
        if found {
            proof {
                assert(views_of(keys@)[j as int] == keys@[j as int]@);
                lemma_firsts_contains(entry_keys(pre), keys@[j as int]@);
                assert(firsts(entry_keys(ev.take(p + 1))) == firsts(entry_keys(pre)));
                assert forall|j2: int| 0 <= j2 < keys@.len() && j2 != j implies keys@[j2]@
                    != ev[p as int].0 by {
                    assert(views_of(keys@)[j2] == keys@[j2]@);
                    assert(views_of(keys@)[j as int] == keys@[j as int]@);
                }
                lemma_sum_slack(p as int, sums@[j as int] as int, val as int);
            }
            let s0 = sums[j];
            sums[j] = s0 + (val as u128);
        } else {
            proof {
                assert(forall|j2: int|
                    0 <= j2 < keys@.len() ==> #[trigger] views_of(keys@)[j2] == keys@[j2]@);
                lemma_firsts_contains(entry_keys(pre), ev[p as int].0);
                assert(firsts(entry_keys(ev.take(p + 1))) == firsts(entry_keys(pre)).push(
                    ev[p as int].0,
                ));
                assert forall|i2: int| 0 <= i2 < pre.len() implies (#[trigger] pre[i2]).0
                    != ev[p as int].0 by {
                    assert(entry_keys(pre)[i2] == pre[i2].0);
                    assert(entry_keys(pre).contains(pre[i2].0) == false || pre[i2].0 != ev[
                        p as int].0);
                    if pre[i2].0 == ev[p as int].0 {
                        assert(entry_keys(pre)[i2] == ev[p as int].0);
                        assert(entry_keys(pre).contains(ev[p as int].0));
                    }
                }
                lemma_sum_for_key_absent(pre, ev[p as int].0);
            }
            keys.push(pairs[p].0.clone());
            sums.push(val as u128);
            proof {
                assert(views_of(keys@) =~= firsts(entry_keys(ev.take(p + 1))));
            }
        }
        p = p + 1;
    }
    proof {
        assert(ev.take(m0 as int) =~= ev);
        assert forall|k: Seq<char>|
            #[trigger] sum_for_key(ev, k) > LARGE_TRANSFER_THRESHOLD implies exists|j2: int|
            0 <= j2 < views_of(keys@).len() && views_of(keys@)[j2] == k by {
            if !entry_keys(ev).contains(k) {
                assert forall|i2: int| 0 <= i2 < ev.len() implies (#[trigger] ev[i2]).0 != k by {
                    if ev[i2].0 == k {
                        assert(entry_keys(ev)[i2] == k);
                        assert(entry_keys(ev).contains(k));
                    }
                }
                lemma_sum_for_key_absent(ev, k);
            }
            lemma_firsts_contains(entry_keys(ev), k);
        }
        lemma_firsts_no_duplicates(entry_keys(ev));
    }

    // render one alert per source over the threshold
    let ghost kv = views_of(keys@);
    let m = keys.len();
    let mut r: Vec<SuspiciousActivity> = Vec::new();
    let mut j: usize = 0;
    while j < m
        invariant
            m == keys@.len(),
            m == sums@.len(),
            j <= m,
            kv == views_of(keys@),
            kv == firsts(entry_keys(ev)),
            kv.no_duplicates(),
            forall|j2: int| 0 <= j2 < m ==> #[trigger] kv[j2] == keys@[j2]@,
            forall|j2: int| 0 <= j2 < m ==> #[trigger] sums@[j2] as int == sum_for_key(ev, kv[j2]),
            forall|k: Seq<char>|
                #[trigger] sum_for_key(ev, k) > LARGE_TRANSFER_THRESHOLD ==> exists|j2: int|
                    0 <= j2 < m && kv[j2] == k,
            forall|a: int|
                0 <= a < r@.len() ==> sum_for_key(ev, #[trigger] r@[a].source@)
                    > LARGE_TRANSFER_THRESHOLD,
            forall|a: int|
                0 <= a < r@.len() ==> (#[trigger] r@[a]).activity_type
                    == ActivityType::LargeDataTransfer,
            forall|a: int|
                0 <= a < r@.len() ==> (#[trigger] r@[a]).details@ == dec_str(
                    sum_for_key(ev, r@[a].source@) as nat,
                ) + " bytes transferred in 5 minutes"@,
            forall|a: int| 0 <= a < r@.len() ==> (#[trigger] r@[a]).timestamp == detected_at,
            forall|a: int|
                0 <= a < r@.len() ==> exists|j2: int|
                    0 <= j2 < j && #[trigger] r@[a].source@ == kv[j2],
            forall|k: Seq<char>|
                #[trigger] sum_for_key(ev, k) > LARGE_TRANSFER_THRESHOLD ==> (exists|a: int|
                    0 <= a < r@.len() && r@[a].source@ == k) || (exists|j2: int|
                    j <= j2 < m && kv[j2] == k),
            forall|a1: int, a2: int| 0 <= a1 < a2 < r@.len() ==> r@[a1].source@ != r@[a2].source@,
        decreases m - j,
    {
        let s = sums[j];
        let ghost r_old = r@;
        if s > LARGE_TRANSFER_THRESHOLD as u128 {
            let mut details = u128_to_string(s);
            details.append(" bytes transferred in 5 minutes");
            r.push(
                SuspiciousActivity {
                    activity_type: ActivityType::LargeDataTransfer,
                    source: keys[j].clone(),
                    details,
                    timestamp: detected_at,
                },
            );
            proof {
                let last = r@.len() - 1;
                assert(r@[last].source@ == kv[j as int]);
                assert(sum_for_key(ev, r@[last].source@) == sums@[j as int] as int);
                assert(r@[last].details@ == dec_str(s as nat) + " bytes transferred in 5 minutes"@);
                assert(dec_str(s as nat) == dec_str(sum_for_key(ev, r@[last].source@) as nat));
            }
        }
        proof {
            assert forall|k: Seq<char>|
                #[trigger] sum_for_key(ev, k) > LARGE_TRANSFER_THRESHOLD implies (exists|a: int|
                0 <= a < r@.len() && r@[a].source@ == k) || (exists|j2: int|
                j + 1 <= j2 < m && kv[j2] == k) by {
                if exists|a: int| 0 <= a < r_old.len() && r_old[a].source@ == k {
                    let a = choose|a: int| 0 <= a < r_old.len() && r_old[a].source@ == k;
                    assert(r@[a].source@ == k);
                } else {
                    let j2 = choose|j2: int| j <= j2 < m && kv[j2] == k;
                    if j2 == j {
                        assert(sum_for_key(ev, kv[j as int]) > LARGE_TRANSFER_THRESHOLD);
                        assert(r@[r@.len() - 1].source@ == k);
                    }
                }
            }
            assert forall|a1: int, a2: int|
                0 <= a1 < a2 < r@.len() implies r@[a1].source@ != r@[a2].source@ by {
                if a2 == r@.len() - 1 && r@.len() > r_old.len() {
                    let j2 = choose|j2: int| 0 <= j2 < j && r@[a1].source@ == kv[j2];
                    assert(kv[j2] != kv[j as int]);
                }
            }
            assert forall|a: int| 0 <= a < r@.len() implies exists|j2: int|
                0 <= j2 < j + 1 && #[trigger] r@[a].source@ == kv[j2] by {
                if a < r_old.len() {
                    let j2 = choose|j2: int| 0 <= j2 < j && r_old[a].source@ == kv[j2];
                    assert(r@[a].source@ == kv[j2]);
                } else {
                    assert(r@[a].source@ == kv[j as int]);
                }
            }
            assert forall|a: int|
                0 <= a < r@.len() implies sum_for_key(ev, #[trigger] r@[a].source@)
                > LARGE_TRANSFER_THRESHOLD && r@[a].activity_type
                == ActivityType::LargeDataTransfer && r@[a].details@ == dec_str(
                sum_for_key(ev, r@[a].source@) as nat,
            ) + " bytes transferred in 5 minutes"@ && r@[a].timestamp == detected_at by {
                if a < r_old.len() {
                    assert(r@[a] == r_old[a]);
                    assert(sum_for_key(ev, r_old[a].source@) > LARGE_TRANSFER_THRESHOLD);
                }
            }
        }
        j = j + 1;
    }
    r
}

/// When `f` keeps nothing, nothing is collected.
proof fn lemma_collect_none<A, B>(s: Seq<A>, f: spec_fn(A) -> Option<B>)
    requires
        forall|i: int| 0 <= i < s.len() ==> f(#[trigger] s[i]) is None,
    ensures
        collect(s, f).len() == 0,
    decreases s.len(),
{
    if s.len() > 0 {
        assert(forall|i: int|
            0 <= i < s.len() - 1 ==> #[trigger] s.drop_last()[i] == s[i]);
        lemma_collect_none(s.drop_last(), f);
        assert(f(s[s.len() - 1]) is None);
    }
}

/// The (source, destination address, destination port) of every TCP event
/// inside the scan window whose destination splits as `"ip:port"`, in
/// event order. An endpoint that does not split that way is left out of
/// the grouping.
pub open spec fn scan_entries(events: Seq<NetworkEvent>, now: u64) -> Seq<
    (Seq<char>, Seq<char>, int),
> {
    collect(
        events,
        |e: NetworkEvent|
            if e.protocol == Protocol::Tcp && in_window(e.timestamp, now, PORT_SCAN_WINDOW) {
                match split_endpoint(e.destination@) {
                    Some(p) => Some((e.source@, p.0, p.1)),
                    None => None,
                }
            } else {
                None
            },
    )
}

/// The (source, destination) pair of each entry, in order.
pub open spec fn scan_pairs(entries: Seq<(Seq<char>, Seq<char>, int)>) -> Seq<
    (Seq<char>, Seq<char>),
> {
    entries.map_values(|t: (Seq<char>, Seq<char>, int)| (t.0, t.1))
}

/// The ports tried by `s` against `d`, in order, repeats included.
pub open spec fn pair_ports(
    entries: Seq<(Seq<char>, Seq<char>, int)>,
    s: Seq<char>,
    d: Seq<char>,
) -> Seq<int> {
    collect(
        entries,
        |t: (Seq<char>, Seq<char>, int)|
            if t.0 == s && t.1 == d {
                Some(t.2)
            } else {
                None
            },
    )
}

/// How many distinct ports `s` tried against `d`.
pub open spec fn distinct_port_count(
    entries: Seq<(Seq<char>, Seq<char>, int)>,
    s: Seq<char>,
    d: Seq<char>,
) -> nat {
    firsts(pair_ports(entries, s, d)).len()
}

/// The (source, destination) pairs that scanned more distinct ports than
/// the threshold, in order of each pair's first appearance.
pub open spec fn scan_qualifying(
    entries: Seq<(Seq<char>, Seq<char>, int)>,
    pairs: Seq<(Seq<char>, Seq<char>)>,
) -> Seq<(Seq<char>, Seq<char>)> {
    collect(
        pairs,
        |p: (Seq<char>, Seq<char>)|
            if distinct_port_count(entries, p.0, p.1) > PORT_SCAN_THRESHOLD {
                Some(p)
            } else {
                None
            },
    )
}

/// The alert reported for a scanning pair: who scanned, and how many
/// distinct ports on which destination.
pub open spec fn scan_alert_matches(
    a: SuspiciousActivity,
    entries: Seq<(Seq<char>, Seq<char>, int)>,
    p: (Seq<char>, Seq<char>),
    detected_at: u64,
) -> bool {
    &&& a.activity_type == ActivityType::PortScanning
    &&& a.source@ == p.0
    &&& a.details@ == dec_str(distinct_port_count(entries, p.0, p.1)) + " unique ports scanned on "@
        + p.1
    &&& a.timestamp == detected_at
}

/// The key views of the port-scan grouping state.
pub open spec fn pair_views(ks: Seq<String>, kd: Seq<String>) -> Seq<(Seq<char>, Seq<char>)> {
    Seq::new(ks.len(), |i: int| (ks[i]@, kd[i]@))
}

/// The integer views of a vector of ports.
pub open spec fn port_views(ps: Seq<u64>) -> Seq<int> {
    ps.map_values(|p: u64| p as int)
}

/// Scans the history for port scanning: one alert per (source,
/// destination) pair that touched more distinct destination ports than
/// the threshold inside the window, in order of first appearance.
pub fn detect_port_scanning(events: &Vec<NetworkEvent>, now: u64, detected_at: u64) -> (r: Vec<
    SuspiciousActivity,
>)
    ensures
        ({
            let entries = scan_entries(events@, now);
            let q = scan_qualifying(entries, firsts(scan_pairs(entries)));
            &&& r@.len() == q.len()
            &&& forall|a: int|
                0 <= a < r@.len() ==> scan_alert_matches(#[trigger] r@[a], entries, q[a], detected_at)
        }),
{
    let ghost entries = scan_entries(events@, now);

    // project the qualifying TCP events to (source, dest ip, dest port)
    let mut ents: Vec<(String, String, u64)> = Vec::new();
    let n = events.len();
    let mut i: usize = 0;
    while i < n
        invariant
            n == events@.len(),
            i <= n,
            ents@.map_values(|t: (String, String, u64)| (t.0@, t.1@, t.2 as int))
                == scan_entries(events@.take(i as int), now),
        decreases n - i,
    {
        proof {
            assert(events@.take(i + 1).drop_last() =~= events@.take(i as int));
            assert(events@.take(i + 1).last() == events@[i as int]);
        }
        let e = &events[i];
        if matches!(e.protocol, Protocol::Tcp) && within_window(e.timestamp, now, PORT_SCAN_WINDOW)
        {
            match split_ip_port(&e.destination) {
                Some(p) => {
                    ents.push((e.source.clone(), p.0, p.1));
                    proof {
                        assert(ents@.map_values(|t: (String, String, u64)| (t.0@, t.1@, t.2 as int))
                            =~= scan_entries(events@.take(i + 1), now));
                    }
                },
                None => {},
            }
        }
        i = i + 1;
    }
    proof {
        assert(events@.take(n as int) =~= events@);
    }
    let ghost ev = ents@.map_values(|t: (String, String, u64)| (t.0@, t.1@, t.2 as int));

    // group the distinct ports per (source, destination) pair
    let mut ksrc: Vec<String> = Vec::new();
    let mut kdst: Vec<String> = Vec::new();
    let mut ports: Vec<Vec<u64>> = Vec::new();
    let m0 = ents.len();
    let mut p: usize = 0;
    while p < m0
        invariant
            m0 == ents@.len(),
            p <= m0,
            ev == ents@.map_values(|t: (String, String, u64)| (t.0@, t.1@, t.2 as int)),
            entries == ev,
            ksrc@.len() == kdst@.len(),
            ksrc@.len() == ports@.len(),
            pair_views(ksrc@, kdst@) == firsts(scan_pairs(ev.take(p as int))),
            forall|j: int|
                0 <= j < ports@.len() ==> port_views(#[trigger] ports@[j]@) == firsts(
                    pair_ports(ev.take(p as int), ksrc@[j]@, kdst@[j]@),
                ),
        decreases m0 - p,
    {
        let ghost pre = ev.take(p as int);
        proof {
            assert(ev.take(p + 1).drop_last() =~= pre);
            assert(ev.take(p + 1).last() == ev[p as int]);
            assert(ev[p as int] == (ents@[p as int].0@, ents@[p as int].1@, ents@[p as int].2 as int));
            assert(scan_pairs(ev.take(p + 1)).drop_last() =~= scan_pairs(pre));
            assert(scan_pairs(ev.take(p + 1)).last() == (ev[p as int].0, ev[p as int].1));
            lemma_firsts_no_duplicates(scan_pairs(pre));
        }
        let mk = ksrc.len();
        let mut j: usize = 0;
        let mut found = false;
        while j < mk && !found
            invariant
                mk == ksrc@.len(),
                mk == kdst@.len(),
                j <= mk,
                p < m0,
                m0 == ents@.len(),
                found ==> j < mk && ksrc@[j as int]@ == ents@[p as int].0@ && kdst@[j as int]@
                    == ents@[p as int].1@,
                !found ==> forall|j2: int|
                    0 <= j2 < j ==> !(ksrc@[j2]@ == ents@[p as int].0@ && kdst@[j2]@
                        == ents@[p as int].1@),
            decreases mk - j + if found {
                0int
            } else {
                1int
            },
        {
            if ksrc[j] == ents[p].0 && kdst[j] == ents[p].1 {
                found = true;
            } else {
                j = j + 1;
            }
        }
        let port = ents[p].2;
        if found {
            proof {
                assert(pair_views(ksrc@, kdst@)[j as int] == (ksrc@[j as int]@, kdst@[j as int]@));
                lemma_firsts_contains(scan_pairs(pre), (ksrc@[j as int]@, kdst@[j as int]@));
                assert(firsts(scan_pairs(ev.take(p + 1))) == firsts(scan_pairs(pre)));
                assert(pair_views(ksrc@, kdst@) =~= firsts(scan_pairs(ev.take(p + 1))));
                assert forall|j2: int|
                    0 <= j2 < ports@.len() && j2 != j implies !(ksrc@[j2]@ == ev[p as int].0
                    && kdst@[j2]@ == ev[p as int].1) by {
                    assert(pair_views(ksrc@, kdst@)[j2] == (ksrc@[j2]@, kdst@[j2]@));
                    assert(pair_views(ksrc@, kdst@)[j as int] == (ksrc@[j as int]@,
                    kdst@[j as int]@));
                }
                // pair_ports is unchanged for every other key
                assert forall|j2: int| 0 <= j2 < ports@.len() && j2 != j implies pair_ports(
                    ev.take(p + 1),
                    ksrc@[j2]@,
                    kdst@[j2]@,
                ) == pair_ports(pre, ksrc@[j2]@, kdst@[j2]@) by {}
                assert(pair_ports(ev.take(p + 1), ksrc@[j as int]@, kdst@[j as int]@) == pair_ports(
                    pre,
                    ksrc@[j as int]@,
                    kdst@[j as int]@,
                ).push(ev[p as int].2));
            }
            // record the port if this pair has not tried it yet
            let pv = &ports[j];
            let mut seen = false;
            let mut t: usize = 0;
            let pn = pv.len();
            while t < pn && !seen
                invariant
                    pn == pv@.len(),
                    t <= pn,
                    seen ==> t < pn && pv@[t as int] == port,
                    !seen ==> forall|t2: int| 0 <= t2 < t ==> pv@[t2] != port,
                decreases pn - t + if seen {
                    0int
                } else {
                    1int
                },
            {
                if pv[t] == port {
                    seen = true;
                } else {
                    t = t + 1;
                }
            }
            let ghost old_ports = ports@[j as int]@;
            proof {
                let pp = pair_ports(pre, ksrc@[j as int]@, kdst@[j as int]@);
                if seen {
                    assert(port_views(old_ports)[t as int] == port as int);
                    assert(firsts(pp).contains(port as int));
                    lemma_firsts_contains(pp, port as int);
                    assert(firsts(pp.push(port as int)) == firsts(pp)) by {
                        assert(pp.push(port as int).drop_last() =~= pp);
                        assert(pp.push(port as int).last() == port as int);
                    }
                } else {
                    assert forall|t2: int|
                        0 <= t2 < port_views(old_ports).len() implies #[trigger] port_views(
                        old_ports,
                    )[t2] != port as int by {
                        assert(port_views(old_ports)[t2] == old_ports[t2] as int);
                    }
                    assert(!firsts(pp).contains(port as int));
                    lemma_firsts_contains(pp, port as int);
                    assert(firsts(pp.push(port as int)) == firsts(pp).push(port as int)) by {
                        assert(pp.push(port as int).drop_last() =~= pp);
                        assert(pp.push(port as int).last() == port as int);
                    }
                }
            }
            if !seen {
                let pm = &mut ports[j];
                pm.push(port);
                proof {
                    assert(port_views(ports@[j as int]@) =~= port_views(old_ports).push(
                        port as int,
                    ));
                }
            }
        } else {
            proof {
                assert(forall|j2: int|
                    0 <= j2 < ksrc@.len() ==> #[trigger] pair_views(ksrc@, kdst@)[j2] == (ksrc@[j2]@,
                    kdst@[j2]@));
                lemma_firsts_contains(scan_pairs(pre), (ev[p as int].0, ev[p as int].1));
                assert(firsts(scan_pairs(ev.take(p + 1))) == firsts(scan_pairs(pre)).push(
                    (ev[p as int].0, ev[p as int].1),
                ));
                assert forall|j2: int| 0 <= j2 < ports@.len() implies pair_ports(
                    ev.take(p + 1),
                    ksrc@[j2]@,
                    kdst@[j2]@,
                ) == pair_ports(pre, ksrc@[j2]@, kdst@[j2]@) by {
                    assert(pair_views(ksrc@, kdst@)[j2] == (ksrc@[j2]@, kdst@[j2]@));
                    assert(firsts(scan_pairs(pre)).contains((ksrc@[j2]@, kdst@[j2]@)));
                }
                // a fresh pair starts with no recorded ports
                let f = |t: (Seq<char>, Seq<char>, int)|
                    if t.0 == ev[p as int].0 && t.1 == ev[p as int].1 {
                        Some(t.2)
                    } else {
                        None
                    };
                assert forall|i2: int| 0 <= i2 < pre.len() implies f(#[trigger] pre[i2]) is None by {
                    if pre[i2].0 == ev[p as int].0 && pre[i2].1 == ev[p as int].1 {
                        assert(scan_pairs(pre)[i2] == (pre[i2].0, pre[i2].1));
                        assert(scan_pairs(pre).contains((ev[p as int].0, ev[p as int].1)));
                        lemma_firsts_contains(scan_pairs(pre), (ev[p as int].0, ev[p as int].1));
                    }
                }
                lemma_collect_none(pre, f);
                assert(pair_ports(ev.take(p + 1), ev[p as int].0, ev[p as int].1) =~= Seq::empty().push(
                    ev[p as int].2,
                ));
            }
            ksrc.push(ents[p].0.clone());
            kdst.push(ents[p].1.clone());
            let mut fresh: Vec<u64> = Vec::new();
            fresh.push(port);
            ports.push(fresh);
            proof {
                assert(pair_views(ksrc@, kdst@) =~= firsts(scan_pairs(ev.take(p + 1))));
                let np = pair_ports(ev.take(p + 1), ev[p as int].0, ev[p as int].1);
                assert(np.len() == 1 && np[0] == ev[p as int].2);
                assert(np.drop_last() =~= Seq::<int>::empty());
                assert(!np.drop_last().contains(np.last()));
                assert(firsts(Seq::<int>::empty()) =~= Seq::<int>::empty());
                assert(firsts(np) =~= np);
                assert(ksrc@[ksrc@.len() - 1]@ == ev[p as int].0);
                assert(kdst@[kdst@.len() - 1]@ == ev[p as int].1);
                assert(port_views(ports@[ports@.len() - 1]@) =~= np);
            }
        }
        p = p + 1;
    }
    proof {
        assert(ev.take(m0 as int) =~= ev);
    }

    // one alert per pair beyond the threshold, in first-appearance order
    let ghost pv_all = pair_views(ksrc@, kdst@);
    let m = ksrc.len();
    let mut r: Vec<SuspiciousActivity> = Vec::new();
    let mut j: usize = 0;
    while j < m
        invariant
            m == ksrc@.len(),
            m == kdst@.len(),
            m == ports@.len(),
            j <= m,
            entries == ev,
            pv_all == pair_views(ksrc@, kdst@),
            pv_all == firsts(scan_pairs(ev)),
            forall|j2: int|
                0 <= j2 < m ==> port_views(#[trigger] ports@[j2]@) == firsts(
                    pair_ports(ev, ksrc@[j2]@, kdst@[j2]@),
                ),
            r@.len() == scan_qualifying(ev, pv_all.take(j as int)).len(),
            forall|a: int|
                0 <= a < r@.len() ==> scan_alert_matches(
                    #[trigger] r@[a],
                    ev,
                    scan_qualifying(ev, pv_all.take(j as int))[a],
                    detected_at,
                ),
        decreases m - j,
    {
        let ghost qpre = scan_qualifying(ev, pv_all.take(j as int));
        proof {
            assert(pv_all.take(j + 1).drop_last() =~= pv_all.take(j as int));
            assert(pv_all.take(j + 1).last() == pv_all[j as int]);
            assert(pv_all[j as int] == (ksrc@[j as int]@, kdst@[j as int]@));
            assert(port_views(ports@[j as int]@).len() == ports@[j as int]@.len());
        }
        let count = ports[j].len();
        if count as u64 > PORT_SCAN_THRESHOLD {
            let mut details = u64_to_string(count as u64);
            details.append(" unique ports scanned on ");
            details.append(kdst[j].as_str());
            r.push(
                SuspiciousActivity {
                    activity_type: ActivityType::PortScanning,
                    source: ksrc[j].clone(),
                    details,
                    timestamp: detected_at,
                },
            );
            proof {
                assert(scan_qualifying(ev, pv_all.take(j + 1)) == qpre.push(pv_all[j as int]));
                let last = r@.len() - 1;
                assert(r@[last].details@ =~= dec_str(
                    distinct_port_count(ev, ksrc@[j as int]@, kdst@[j as int]@),
                ) + " unique ports scanned on "@ + kdst@[j as int]@);
            }
        } else {
            proof {
                assert(scan_qualifying(ev, pv_all.take(j + 1)) == qpre);
            }
        }
        j = j + 1;
    }
    proof {
        assert(pv_all.take(m as int) =~= pv_all);
    }
    r
}

/// The (claimed IP, claiming MAC) of every ARP event whose source reads
/// `"<MAC> (<IP>)"`, over the whole observed history, in event order. A
/// source of any other shape is left out.
pub open spec fn arp_entries(events: Seq<NetworkEvent>) -> Seq<(Seq<char>, Seq<char>)> {
    collect(
        events,
        |e: NetworkEvent|
            if e.protocol == Protocol::Arp {
                match split_arp_endpoint(e.source@) {
                    Some(mi) => Some((mi.1, mi.0)),
                    None => None,
                }
            } else {
                None
            },
    )
}

/// The claimed IP of each entry, in order.
pub open spec fn claim_ips(entries: Seq<(Seq<char>, Seq<char>)>) -> Seq<Seq<char>> {
    entries.map_values(|t: (Seq<char>, Seq<char>)| t.0)
}

/// The distinct MACs that claimed `ip`, in order of first claim.
pub open spec fn distinct_macs(entries: Seq<(Seq<char>, Seq<char>)>, ip: Seq<char>) -> Seq<
    Seq<char>,
> {
    firsts(
        collect(
            entries,
            |t: (Seq<char>, Seq<char>)|
                if t.0 == ip {
                    Some(t.1)
                } else {
                    None
                },
        ),
    )
}

/// The claimed IPs for which more distinct MACs than the threshold were
/// observed, in order of each IP's first claim.
pub open spec fn arp_qualifying(entries: Seq<(Seq<char>, Seq<char>)>, ips: Seq<Seq<char>>) -> Seq<
    Seq<char>,
> {
    collect(
        ips,
        |ip: Seq<char>|
            if distinct_macs(entries, ip).len() > ARP_SPOOF_THRESHOLD {
                Some(ip)
            } else {
                None
            },
    )
}

/// The alert reported for a spoofed IP: the IP as source, the claiming
/// MACs joined in the details.
pub open spec fn arp_alert_matches(
    a: SuspiciousActivity,
    entries: Seq<(Seq<char>, Seq<char>)>,
    ip: Seq<char>,
    detected_at: u64,
) -> bool {
    &&& a.activity_type == ActivityType::ArpSpoofing
    &&& a.source@ == ip
    &&& a.details@ == "Multiple MACs ("@ + join_comma(distinct_macs(entries, ip))
        + ") claiming same IP"@
    &&& a.timestamp == detected_at
}

/// Scans the whole ARP history for spoofing: one alert per claimed IP for
/// which more distinct MACs than the threshold were observed, in order of
/// first claim.
pub fn detect_arp_spoofing(events: &Vec<NetworkEvent>, detected_at: u64) -> (r: Vec<
    SuspiciousActivity,
>)
    ensures
        ({
            let entries = arp_entries(events@);
            let q = arp_qualifying(entries, firsts(claim_ips(entries)));
            &&& r@.len() == q.len()
            &&& forall|a: int|
                0 <= a < r@.len() ==> arp_alert_matches(#[trigger] r@[a], entries, q[a], detected_at)
        }),
{
    let ghost entries = arp_entries(events@);

    // project the ARP history to (claimed ip, mac)
    let mut ents: Vec<(String, String)> = Vec::new();
    let n = events.len();
    let mut i: usize = 0;
    while i < n
        invariant
            n == events@.len(),
            i <= n,
            ents@.map_values(|t: (String, String)| (t.0@, t.1@)) == arp_entries(
                events@.take(i as int),
            ),
        decreases n - i,
    {
        proof {
            assert(events@.take(i + 1).drop_last() =~= events@.take(i as int));
            assert(events@.take(i + 1).last() == events@[i as int]);
        }
        let e = &events[i];
        if matches!(e.protocol, Protocol::Arp) {
            match split_arp_source(&e.source) {
                Some(mi) => {
                    ents.push((mi.1, mi.0));
                    proof {
                        assert(ents@.map_values(|t: (String, String)| (t.0@, t.1@)) =~= arp_entries(
                            events@.take(i + 1),
                        ));
                    }
                },
                None => {},
            }
        }
        i = i + 1;
    }
    proof {
        assert(events@.take(n as int) =~= events@);
    }
    let ghost ev = ents@.map_values(|t: (String, String)| (t.0@, t.1@));

    // group the distinct claiming MACs per claimed IP
    let mut keys: Vec<String> = Vec::new();
    let mut macs: Vec<Vec<String>> = Vec::new();
    let m0 = ents.len();
    let mut p: usize = 0;
    while p < m0
        invariant
            m0 == ents@.len(),
            p <= m0,
            ev == ents@.map_values(|t: (String, String)| (t.0@, t.1@)),
            entries == ev,
            keys@.len() == macs@.len(),
            views_of(keys@) == firsts(claim_ips(ev.take(p as int))),
            forall|j: int|
                0 <= j < macs@.len() ==> views_of(#[trigger] macs@[j]@) == distinct_macs(
                    ev.take(p as int),
                    keys@[j]@,
                ),
        decreases m0 - p,
    {
        let ghost pre = ev.take(p as int);
        proof {
            assert(ev.take(p + 1).drop_last() =~= pre);
            assert(ev.take(p + 1).last() == ev[p as int]);
            assert(ev[p as int] == (ents@[p as int].0@, ents@[p as int].1@));
            assert(claim_ips(ev.take(p + 1)).drop_last() =~= claim_ips(pre));
            assert(claim_ips(ev.take(p + 1)).last() == ev[p as int].0);
            lemma_firsts_no_duplicates(claim_ips(pre));
        }
        let mk = keys.len();
        let mut j: usize = 0;
        let mut found = false;
        while j < mk && !found
            invariant
                mk == keys@.len(),
                j <= mk,
                p < m0,
                m0 == ents@.len(),
                found ==> j < mk && keys@[j as int]@ == ents@[p as int].0@,
                !found ==> forall|j2: int| 0 <= j2 < j ==> keys@[j2]@ != ents@[p as int].0@,
            decreases mk - j + if found {
                0int
            } else {
                1int
            },
        {
            if keys[j] == ents[p].0 {
                found = true;
            } else {
                j = j + 1;
            }
        }
        if found {
            proof {
                assert(views_of(keys@)[j as int] == keys@[j as int]@);
                lemma_firsts_contains(claim_ips(pre), keys@[j as int]@);
                assert(firsts(claim_ips(ev.take(p + 1))) == firsts(claim_ips(pre)));
                assert(views_of(keys@) =~= firsts(claim_ips(ev.take(p + 1))));
                assert forall|j2: int|
                    0 <= j2 < macs@.len() && j2 != j implies keys@[j2]@ != ev[p as int].0 by {
                    assert(views_of(keys@)[j2] == keys@[j2]@);
                    assert(views_of(keys@)[j as int] == keys@[j as int]@);
                }
                assert(collect(
                    ev.take(p + 1),
                    |t: (Seq<char>, Seq<char>)|
                        if t.0 == keys@[j as int]@ {
                            Some(t.1)
                        } else {
                            None
                        },
                ) == collect(
                    pre,
                    |t: (Seq<char>, Seq<char>)|
                        if t.0 == keys@[j as int]@ {
                            Some(t.1)
                        } else {
                            None
                        },
                ).push(ev[p as int].1));
            }
            // record the MAC if it has not claimed this IP yet
            let mv = &macs[j];
            let mut seen = false;
            let mut t: usize = 0;
            let mn = mv.len();
            while t < mn && !seen
                invariant
                    mn == mv@.len(),
                    t <= mn,
                    p < m0,
                    m0 == ents@.len(),
                    seen ==> t < mn && mv@[t as int]@ == ents@[p as int].1@,
                    !seen ==> forall|t2: int| 0 <= t2 < t ==> mv@[t2]@ != ents@[p as int].1@,
                decreases mn - t + if seen {
                    0int
                } else {
                    1int
                },
            {
                if mv[t] == ents[p].1 {
                    seen = true;
                } else {
                    t = t + 1;
                }
            }
            let ghost old_macs = macs@[j as int]@;
            proof {
                let mm = collect(
                    pre,
                    |t: (Seq<char>, Seq<char>)|
                        if t.0 == keys@[j as int]@ {
                            Some(t.1)
                        } else {
                            None
                        },
                );
                if seen {
                    assert(views_of(old_macs)[t as int] == old_macs[t as int]@);
                    assert(firsts(mm).contains(ev[p as int].1));
                    lemma_firsts_contains(mm, ev[p as int].1);
                    assert(firsts(mm.push(ev[p as int].1)) == firsts(mm)) by {
                        assert(mm.push(ev[p as int].1).drop_last() =~= mm);
                    }
                } else {
                    assert forall|t2: int|
                        0 <= t2 < views_of(old_macs).len() implies #[trigger] views_of(old_macs)[t2]
                        != ev[p as int].1 by {
                        assert(views_of(old_macs)[t2] == old_macs[t2]@);
                    }
                    assert(!firsts(mm).contains(ev[p as int].1));
                    lemma_firsts_contains(mm, ev[p as int].1);
                    assert(firsts(mm.push(ev[p as int].1)) == firsts(mm).push(ev[p as int].1)) by {
                        assert(mm.push(ev[p as int].1).drop_last() =~= mm);
                    }
                }
            }
            if !seen {
                let mm = &mut macs[j];
                mm.push(ents[p].1.clone());
                proof {
                    assert(views_of(macs@[j as int]@) =~= views_of(old_macs).push(ev[p as int].1));
                }
            }
        } else {
            proof {
                assert(forall|j2: int|
                    0 <= j2 < keys@.len() ==> #[trigger] views_of(keys@)[j2] == keys@[j2]@);
                lemma_firsts_contains(claim_ips(pre), ev[p as int].0);
                assert(firsts(claim_ips(ev.take(p + 1))) == firsts(claim_ips(pre)).push(
                    ev[p as int].0,
                ));
                assert forall|j2: int| 0 <= j2 < macs@.len() implies distinct_macs(
                    ev.take(p + 1),
                    keys@[j2]@,
                ) == distinct_macs(pre, keys@[j2]@) by {
                    assert(views_of(keys@)[j2] == keys@[j2]@);
                    assert(firsts(claim_ips(pre)).contains(keys@[j2]@));
                }
                let f = |t: (Seq<char>, Seq<char>)|
                    if t.0 == ev[p as int].0 {
                        Some(t.1)
                    } else {
                        None
                    };
                assert forall|i2: int| 0 <= i2 < pre.len() implies f(#[trigger] pre[i2]) is None by {
                    if pre[i2].0 == ev[p as int].0 {
                        assert(claim_ips(pre)[i2] == pre[i2].0);
                        assert(claim_ips(pre).contains(ev[p as int].0));
                        lemma_firsts_contains(claim_ips(pre), ev[p as int].0);
                    }
                }
                lemma_collect_none(pre, f);
                let np = collect(ev.take(p + 1), f);
                assert(np =~= Seq::<Seq<char>>::empty().push(ev[p as int].1));
                assert(np.drop_last() =~= Seq::<Seq<char>>::empty());
                assert(!np.drop_last().contains(np.last()));
                assert(firsts(Seq::<Seq<char>>::empty()) =~= Seq::<Seq<char>>::empty());
                assert(firsts(np) =~= np);
            }
            keys.push(ents[p].0.clone());
            let mut fresh: Vec<String> = Vec::new();
            fresh.push(ents[p].1.clone());
            macs.push(fresh);
            proof {
                assert(views_of(keys@) =~= firsts(claim_ips(ev.take(p + 1))));
                assert(views_of(macs@[macs@.len() - 1]@) =~= distinct_macs(
                    ev.take(p + 1),
                    keys@[keys@.len() - 1]@,
                ));
            }
        }
        p = p + 1;
    }
    proof {
        assert(ev.take(m0 as int) =~= ev);
    }

    // one alert per spoofed IP, in first-claim order
    let ghost kv = views_of(keys@);
    let m = keys.len();
    let mut r: Vec<SuspiciousActivity> = Vec::new();
    let mut j: usize = 0;
    while j < m
        invariant
            m == keys@.len(),
            m == macs@.len(),
            j <= m,
            entries == ev,
            kv == views_of(keys@),
            kv == firsts(claim_ips(ev)),
            forall|j2: int|
                0 <= j2 < m ==> views_of(#[trigger] macs@[j2]@) == distinct_macs(ev, keys@[j2]@),
            r@.len() == arp_qualifying(ev, kv.take(j as int)).len(),
            forall|a: int|
                0 <= a < r@.len() ==> arp_alert_matches(
                    #[trigger] r@[a],
                    ev,
                    arp_qualifying(ev, kv.take(j as int))[a],
                    detected_at,
                ),
        decreases m - j,
    {
        let ghost qpre = arp_qualifying(ev, kv.take(j as int));
        proof {
            assert(kv.take(j + 1).drop_last() =~= kv.take(j as int));
            assert(kv.take(j + 1).last() == kv[j as int]);
            assert(kv[j as int] == keys@[j as int]@);
            assert(views_of(macs@[j as int]@).len() == macs@[j as int]@.len());
        }
        let count = macs[j].len();
        if count as u64 > ARP_SPOOF_THRESHOLD {
            let joined = join_strings(&macs[j]);
            let mut details = String::from_str("Multiple MACs (");
            details.append(joined.as_str());
            details.append(") claiming same IP");
            r.push(
                SuspiciousActivity {
                    activity_type: ActivityType::ArpSpoofing,
                    source: keys[j].clone(),
                    details,
                    timestamp: detected_at,
                },
            );
            proof {
                assert(arp_qualifying(ev, kv.take(j + 1)) == qpre.push(kv[j as int]));
                let last = r@.len() - 1;
                assert(views_of(macs@[j as int]@) =~= macs@[j as int]@.map_values(
                    |x: String| x@,
                ));
                assert(r@[last].details@ =~= "Multiple MACs ("@ + join_comma(
                    distinct_macs(ev, keys@[j as int]@),
                ) + ") claiming same IP"@);
            }
        } else {
            proof {
                assert(arp_qualifying(ev, kv.take(j + 1)) == qpre);
            }
        }
        j = j + 1;
    }
    proof {
        assert(kv.take(m as int) =~= kv);
    }
    r
}

/// A commonly used destination port, outside the rare-port detector's
/// interest: the well-known and registered ranges and two bands of common
/// application ports.
pub open spec fn port_allowed(p: int) -> bool {
    (1 <= p && p <= 49151) || (50000 <= p && p <= 51000) || (60000 <= p && p <= 61000)
}

/// The (destination port, source) of every TCP event inside the window
/// whose destination splits as `"ip:port"` with an uncommon port, in
/// event order.
pub open spec fn rare_entries(events: Seq<NetworkEvent>, now: u64) -> Seq<(int, Seq<char>)> {
    collect(
        events,
        |e: NetworkEvent|
            if e.protocol == Protocol::Tcp && in_window(e.timestamp, now, RARE_PORT_WINDOW) {
                match split_endpoint(e.destination@) {
                    Some(pr) => if !port_allowed(pr.1) {
                        Some((pr.1, e.source@))
                    } else {
                        None
                    },
                    None => None,
                }
            } else {
                None
            },
    )
}

/// The port of each entry, in order.
pub open spec fn rare_ports_seq(entries: Seq<(int, Seq<char>)>) -> Seq<int> {
    entries.map_values(|t: (int, Seq<char>)| t.0)
}

/// How many connections touched port `p`.
pub open spec fn rare_count(entries: Seq<(int, Seq<char>)>, p: int) -> nat {
    count_of(rare_ports_seq(entries), p)
}

/// The distinct sources that touched port `p`, in order of first touch.
pub open spec fn rare_sources(entries: Seq<(int, Seq<char>)>, p: int) -> Seq<Seq<char>> {
    firsts(
        collect(
            entries,
            |t: (int, Seq<char>)|
                if t.0 == p {
                    Some(t.1)
                } else {
                    None
                },
        ),
    )
}

/// The uncommon ports touched more often than the threshold, in order of
/// first touch.
pub open spec fn rare_qualifying(entries: Seq<(int, Seq<char>)>, ports: Seq<int>) -> Seq<int> {
    collect(
        ports,
        |p: int|
            if rare_count(entries, p) > RARE_PORT_THRESHOLD {
                Some(p)
            } else {
                None
            },
    )
}

/// The alert reported for an uncommon port: the distinct sources joined as
/// the alert's source, the connection count and port in the details.
pub open spec fn rare_alert_matches(
    a: SuspiciousActivity,
    entries: Seq<(int, Seq<char>)>,
    p: int,
    detected_at: u64,
) -> bool {
    &&& a.activity_type == ActivityType::RarePortActivity
    &&& a.source@ == join_comma(rare_sources(entries, p))
    &&& a.details@ == dec_str(rare_count(entries, p)) + " connections to port "@ + dec_str(
        p as nat,
    )
    &&& a.timestamp == detected_at
}

/// Scans the history for rare-port activity: one alert per uncommon
/// destination port with more connections than the threshold inside the
/// window, in order of first touch.
pub fn detect_rare_ports(events: &Vec<NetworkEvent>, now: u64, detected_at: u64) -> (r: Vec<
    SuspiciousActivity,
>)
    ensures
        ({
            let entries = rare_entries(events@, now);
            let q = rare_qualifying(entries, firsts(rare_ports_seq(entries)));
            &&& r@.len() == q.len()
            &&& forall|a: int|
                0 <= a < r@.len() ==> rare_alert_matches(#[trigger] r@[a], entries, q[a], detected_at)
        }),
{
    let ghost entries = rare_entries(events@, now);

    // project the qualifying TCP events to (uncommon port, source)
    let mut ents: Vec<(u64, String)> = Vec::new();
    let n = events.len();
    let mut i: usize = 0;
    while i < n
        invariant
            n == events@.len(),
            i <= n,
            ents@.map_values(|t: (u64, String)| (t.0 as int, t.1@)) == rare_entries(
                events@.take(i as int),
                now,
            ),
        decreases n - i,
    {
        proof {
            assert(events@.take(i + 1).drop_last() =~= events@.take(i as int));
            assert(events@.take(i + 1).last() == events@[i as int]);
        }
        let e = &events[i];
        if matches!(e.protocol, Protocol::Tcp) && within_window(e.timestamp, now, RARE_PORT_WINDOW)
        {
            match split_ip_port(&e.destination) {
                Some(pr) => {
                    let port = pr.1;
                    let allowed = if port <= 65535 {
                        is_common_port_range(port as i32)
                    } else {
                        false
                    };
                    if !allowed {
                        ents.push((port, e.source.clone()));
                        proof {
                            assert(ents@.map_values(|t: (u64, String)| (t.0 as int, t.1@))
                                =~= rare_entries(events@.take(i + 1), now));
                        }
                    }
                },
                None => {},
            }
        }
        i = i + 1;
    }
    proof {
        assert(events@.take(n as int) =~= events@);
    }
    let ghost ev = ents@.map_values(|t: (u64, String)| (t.0 as int, t.1@));

    // group the connection count and the distinct sources per port
    let mut keys: Vec<u64> = Vec::new();
    let mut counts: Vec<usize> = Vec::new();
    let mut srcs: Vec<Vec<String>> = Vec::new();
    let m0 = ents.len();
    let mut p: usize = 0;
    while p < m0
        invariant
            m0 == ents@.len(),
            p <= m0,
            ev == ents@.map_values(|t: (u64, String)| (t.0 as int, t.1@)),
            entries == ev,
            keys@.len() == counts@.len(),
            keys@.len() == srcs@.len(),
            port_views(keys@) == firsts(rare_ports_seq(ev.take(p as int))),
            forall|j: int|
                0 <= j < keys@.len() ==> #[trigger] counts@[j] as nat == rare_count(
                    ev.take(p as int),
                    keys@[j] as int,
                ),
            forall|j: int| 0 <= j < keys@.len() ==> #[trigger] counts@[j] <= p,
            forall|j: int|
                0 <= j < keys@.len() ==> views_of(#[trigger] srcs@[j]@) == rare_sources(
                    ev.take(p as int),
                    keys@[j] as int,
                ),
        decreases m0 - p,
    {
        let ghost pre = ev.take(p as int);
        proof {
            assert(ev.take(p + 1).drop_last() =~= pre);
            assert(ev.take(p + 1).last() == ev[p as int]);
            assert(ev[p as int] == (ents@[p as int].0 as int, ents@[p as int].1@));
            assert(rare_ports_seq(ev.take(p + 1)).drop_last() =~= rare_ports_seq(pre));
            assert(rare_ports_seq(ev.take(p + 1)).last() == ev[p as int].0);
            lemma_firsts_no_duplicates(rare_ports_seq(pre));
        }
        let mk = keys.len();
        let mut j: usize = 0;
        let mut found = false;
        while j < mk && !found
            invariant
                mk == keys@.len(),
                j <= mk,
                p < m0,
                m0 == ents@.len(),
                found ==> j < mk && keys@[j as int] == ents@[p as int].0,
                !found ==> forall|j2: int| 0 <= j2 < j ==> keys@[j2] != ents@[p as int].0,
            decreases mk - j + if found {
                0int
            } else {
                1int
            },
        {
            if keys[j] == ents[p].0 {
                found = true;
            } else {
                j = j + 1;
            }
        }
        if found {
            proof {
                assert(port_views(keys@)[j as int] == keys@[j as int] as int);
                lemma_firsts_contains(rare_ports_seq(pre), keys@[j as int] as int);
                assert(firsts(rare_ports_seq(ev.take(p + 1))) == firsts(rare_ports_seq(pre)));
                assert(port_views(keys@) =~= firsts(rare_ports_seq(ev.take(p + 1))));
                assert forall|j2: int|
                    0 <= j2 < keys@.len() && j2 != j implies keys@[j2] as int
                    != ev[p as int].0 by {
                    assert(port_views(keys@)[j2] == keys@[j2] as int);
                    assert(port_views(keys@)[j as int] == keys@[j as int] as int);
                }
                assert(collect(
                    ev.take(p + 1),
                    |t: (int, Seq<char>)|
                        if t.0 == keys@[j as int] as int {
                            Some(t.1)
                        } else {
                            None
                        },
                ) == collect(
                    pre,
                    |t: (int, Seq<char>)|
                        if t.0 == keys@[j as int] as int {
                            Some(t.1)
                        } else {
                            None
                        },
                ).push(ev[p as int].1));
            }
            let c = counts[j];
            counts[j] = c + 1;
            // record the source if it has not touched this port yet
            let sv = &srcs[j];
            let mut seen = false;
            let mut t: usize = 0;
            let sn = sv.len();
            while t < sn && !seen
                invariant
                    sn == sv@.len(),
                    t <= sn,
                    p < m0,
                    m0 == ents@.len(),
                    seen ==> t < sn && sv@[t as int]@ == ents@[p as int].1@,
                    !seen ==> forall|t2: int| 0 <= t2 < t ==> sv@[t2]@ != ents@[p as int].1@,
                decreases sn - t + if seen {
                    0int
                } else {
                    1int
                },
            {
                if sv[t] == ents[p].1 {
                    seen = true;
                } else {
                    t = t + 1;
                }
            }
            let ghost old_srcs = srcs@[j as int]@;
            proof {
                let mm = collect(
                    pre,
                    |t: (int, Seq<char>)|
                        if t.0 == keys@[j as int] as int {
                            Some(t.1)
                        } else {
                            None
                        },
                );
                if seen {
                    assert(views_of(old_srcs)[t as int] == old_srcs[t as int]@);
                    assert(firsts(mm).contains(ev[p as int].1));
                    lemma_firsts_contains(mm, ev[p as int].1);
                    assert(firsts(mm.push(ev[p as int].1)) == firsts(mm)) by {
                        assert(mm.push(ev[p as int].1).drop_last() =~= mm);
                    }
                } else {
                    assert forall|t2: int|
                        0 <= t2 < views_of(old_srcs).len() implies #[trigger] views_of(old_srcs)[t2]
                        != ev[p as int].1 by {
                        assert(views_of(old_srcs)[t2] == old_srcs[t2]@);
                    }
                    assert(!firsts(mm).contains(ev[p as int].1));
                    lemma_firsts_contains(mm, ev[p as int].1);
                    assert(firsts(mm.push(ev[p as int].1)) == firsts(mm).push(ev[p as int].1)) by {
                        assert(mm.push(ev[p as int].1).drop_last() =~= mm);
                    }
                }
            }
            if !seen {
                let sm = &mut srcs[j];
                sm.push(ents[p].1.clone());
                proof {
                    assert(views_of(srcs@[j as int]@) =~= views_of(old_srcs).push(ev[p as int].1));
                }
            }
        } else {
            proof {
                assert(forall|j2: int|
                    0 <= j2 < keys@.len() ==> #[trigger] port_views(keys@)[j2] == keys@[j2] as int);
                lemma_firsts_contains(rare_ports_seq(pre), ev[p as int].0);
                assert(firsts(rare_ports_seq(ev.take(p + 1))) == firsts(rare_ports_seq(pre)).push(
                    ev[p as int].0,
                ));
                lemma_count_of_zero(rare_ports_seq(pre), ev[p as int].0);
                assert forall|j2: int| 0 <= j2 < keys@.len() implies rare_sources(
                    ev.take(p + 1),
                    keys@[j2] as int,
                ) == rare_sources(pre, keys@[j2] as int) by {
                    assert(port_views(keys@)[j2] == keys@[j2] as int);
                    assert(firsts(rare_ports_seq(pre)).contains(keys@[j2] as int));
                }
                let f = |t: (int, Seq<char>)|
                    if t.0 == ev[p as int].0 {
                        Some(t.1)
                    } else {
                        None
                    };
                assert forall|i2: int| 0 <= i2 < pre.len() implies f(#[trigger] pre[i2]) is None by {
                    if pre[i2].0 == ev[p as int].0 {
                        assert(rare_ports_seq(pre)[i2] == pre[i2].0);
                        assert(rare_ports_seq(pre).contains(ev[p as int].0));
                        lemma_firsts_contains(rare_ports_seq(pre), ev[p as int].0);
                    }
                }
                lemma_collect_none(pre, f);
                let np = collect(ev.take(p + 1), f);
                assert(np =~= Seq::<Seq<char>>::empty().push(ev[p as int].1));
                assert(np.drop_last() =~= Seq::<Seq<char>>::empty());
                assert(!np.drop_last().contains(np.last()));
                assert(firsts(Seq::<Seq<char>>::empty()) =~= Seq::<Seq<char>>::empty());
                assert(firsts(np) =~= np);
            }
            keys.push(ents[p].0);
            counts.push(1);
            let mut fresh: Vec<String> = Vec::new();
            fresh.push(ents[p].1.clone());
            srcs.push(fresh);
            proof {
                assert(port_views(keys@) =~= firsts(rare_ports_seq(ev.take(p + 1))));
                assert(views_of(srcs@[srcs@.len() - 1]@) =~= rare_sources(
                    ev.take(p + 1),
                    keys@[keys@.len() - 1] as int,
                ));
            }
        }
        p = p + 1;
    }
    proof {
        assert(ev.take(m0 as int) =~= ev);
    }

    // one alert per offending port, in first-touch order
    let ghost kv = port_views(keys@);
    let m = keys.len();
    let mut r: Vec<SuspiciousActivity> = Vec::new();
    let mut j: usize = 0;
    while j < m
        invariant
            m == keys@.len(),
            m == counts@.len(),
            m == srcs@.len(),
            j <= m,
            entries == ev,
            kv == port_views(keys@),
            kv == firsts(rare_ports_seq(ev)),
            forall|j2: int|
                0 <= j2 < m ==> #[trigger] counts@[j2] as nat == rare_count(ev, keys@[j2] as int),
            forall|j2: int|
                0 <= j2 < m ==> views_of(#[trigger] srcs@[j2]@) == rare_sources(
                    ev,
                    keys@[j2] as int,
                ),
            r@.len() == rare_qualifying(ev, kv.take(j as int)).len(),
            forall|a: int|
                0 <= a < r@.len() ==> rare_alert_matches(
                    #[trigger] r@[a],
                    ev,
                    rare_qualifying(ev, kv.take(j as int))[a],
                    detected_at,
                ),
        decreases m - j,
    {
        let ghost qpre = rare_qualifying(ev, kv.take(j as int));
        proof {
            assert(kv.take(j + 1).drop_last() =~= kv.take(j as int));
            assert(kv.take(j + 1).last() == kv[j as int]);
            assert(kv[j as int] == keys@[j as int] as int);
        }
        let c = counts[j];
        if c as u64 > RARE_PORT_THRESHOLD {
            let source = join_strings(&srcs[j]);
            let mut details = u64_to_string(c as u64);
            details.append(" connections to port ");
            details.append(u64_to_string(keys[j]).as_str());
            r.push(
                SuspiciousActivity {
                    activity_type: ActivityType::RarePortActivity,
                    source,
                    details,
                    timestamp: detected_at,
                },
            );
            proof {
                assert(rare_qualifying(ev, kv.take(j + 1)) == qpre.push(kv[j as int]));
                let last = r@.len() - 1;
                assert(views_of(srcs@[j as int]@) =~= srcs@[j as int]@.map_values(|x: String| x@));
                assert(r@[last].source@ == join_comma(rare_sources(ev, keys@[j as int] as int)));
                assert(r@[last].details@ =~= dec_str(rare_count(ev, keys@[j as int] as int))
                    + " connections to port "@ + dec_str(keys@[j as int] as nat));
            }
        } else {
            proof {
                assert(rare_qualifying(ev, kv.take(j + 1)) == qpre);
            }
        }
        j = j + 1;
    }
    proof {
        assert(kv.take(m as int) =~= kv);
    }
    r
}

/// The event history holds a TCP connection to `ip` on the HTTP port.
pub open spec fn has_http_connection(events: Seq<NetworkEvent>, ip: Seq<char>) -> bool {
    exists|i: int|
        0 <= i < events.len() && (#[trigger] events[i]).protocol == Protocol::Tcp && match split_endpoint(
            events[i].destination@,
        ) {
            Some(pr) => pr.0 == ip && pr.1 == HTTP_PORT as int,
            None => false,
        }
}

/// Whether the history holds a TCP connection to `ip` on the HTTP port.
fn http_connection_observed(events: &Vec<NetworkEvent>, ip: &String) -> (b: bool)
    ensures
        b == has_http_connection(events@, ip@),
{
    let n = events.len();
    let mut i: usize = 0;
    while i < n
        invariant
            n == events@.len(),
            i <= n,
            forall|i2: int|
                0 <= i2 < i ==> !((#[trigger] events@[i2]).protocol == Protocol::Tcp
                    && match split_endpoint(events@[i2].destination@) {
                    Some(pr) => pr.0 == ip@ && pr.1 == HTTP_PORT as int,
                    None => false,
                }),
        decreases n - i,
    {
        let e = &events[i];
        if matches!(e.protocol, Protocol::Tcp) {
            match split_ip_port(&e.destination) {
                Some(pr) => {
                    if pr.1 == HTTP_PORT && pr.0 == *ip {
                        proof {
                            assert((events@[i as int]).protocol == Protocol::Tcp
                                && match split_endpoint(events@[i as int].destination@) {
                                Some(q) => q.0 == ip@ && q.1 == HTTP_PORT as int,
                                None => false,
                            });
                        }
                        return true;
                    }
                },
                None => {},
            }
        }
        i = i + 1;
    }
    false
}

/// A name-resolution answer the suspicious-DNS detector reports: an
/// A-record answer inside the window whose domain scores above Low and
/// whose resolved address was then contacted over HTTP.
pub open spec fn sus_qualifies(a: DnsAnswer, events: Seq<NetworkEvent>, now: u64) -> bool {
    &&& a.record_type@ == "A"@
    &&& in_window(a.timestamp, now, SUSPICIOUS_DNS_WINDOW)
    &&& spec_risk(a.query@, a.high_entropy) != RiskLevel::Low
    &&& has_http_connection(events, a.resolved_ip@)
}

/// The answers the detector reports, in answer order.
pub open spec fn qualifying_answers(
    answers: Seq<DnsAnswer>,
    events: Seq<NetworkEvent>,
    now: u64,
) -> Seq<DnsAnswer> {
    collect(
        answers,
        |a: DnsAnswer|
            if sus_qualifies(a, events, now) {
                Some(a)
            } else {
                None
            },
    )
}

/// The alert reported for a flagged resolution.
pub open spec fn sus_alert_matches(al: SuspiciousActivity, a: DnsAnswer, detected_at: u64) -> bool {
    &&& al.activity_type == ActivityType::SuspiciousDns
    &&& al.source@ == a.source@
    &&& al.details@ == "Suspicious "@ + risk_label(spec_risk(a.query@, a.high_entropy))
        + " domain: "@ + a.query@ + " resolved to "@ + a.resolved_ip@ + " (HTTP traffic detected)"@
    &&& al.timestamp == detected_at
}

/// The correlation record kept beside that alert.
pub open spec fn mapping_matches(m: DnsMapping, a: DnsAnswer, detected_at: u64) -> bool {
    &&& m.query@ == a.query@
    &&& m.resolved_ip@ == a.resolved_ip@
    &&& m.timestamp == detected_at
    &&& m.is_http == true
    &&& m.source@ == a.source@
}

/// Scans the resolution history for suspicious DNS: one alert and one
/// correlation record per qualifying answer, in answer order.
pub fn detect_suspicious_dns(
    answers: &Vec<DnsAnswer>,
    events: &Vec<NetworkEvent>,
    now: u64,
    detected_at: u64,
) -> (r: (Vec<SuspiciousActivity>, Vec<DnsMapping>))
    ensures
        ({
            let q = qualifying_answers(answers@, events@, now);
            &&& r.0@.len() == q.len()
            &&& r.1@.len() == q.len()
            &&& forall|a: int|
                0 <= a < q.len() ==> sus_alert_matches(#[trigger] r.0@[a], q[a], detected_at)
            &&& forall|a: int|
                0 <= a < q.len() ==> mapping_matches(#[trigger] r.1@[a], q[a], detected_at)
        }),
{
    let a_record = String::from_str("A");
    let mut alerts: Vec<SuspiciousActivity> = Vec::new();
    let mut mappings: Vec<DnsMapping> = Vec::new();
    let n = answers.len();
    let mut i: usize = 0;
    while i < n
        invariant
            n == answers@.len(),
            a_record@ == "A"@,
            i <= n,
            alerts@.len() == qualifying_answers(answers@.take(i as int), events@, now).len(),
            mappings@.len() == alerts@.len(),
            forall|a: int|
                0 <= a < alerts@.len() ==> sus_alert_matches(
                    #[trigger] alerts@[a],
                    qualifying_answers(answers@.take(i as int), events@, now)[a],
                    detected_at,
                ),
            forall|a: int|
                0 <= a < mappings@.len() ==> mapping_matches(
                    #[trigger] mappings@[a],
                    qualifying_answers(answers@.take(i as int), events@, now)[a],
                    detected_at,
                ),
        decreases n - i,
    {
        let ghost qpre = qualifying_answers(answers@.take(i as int), events@, now);
        proof {
            assert(answers@.take(i + 1).drop_last() =~= answers@.take(i as int));
            assert(answers@.take(i + 1).last() == answers@[i as int]);
        }
        let ans = &answers[i];
        let risk = assess_dns_risk(ans.query.as_str(), ans.high_entropy);
        let qualifies = ans.record_type == a_record && within_window(
            ans.timestamp,
            now,
            SUSPICIOUS_DNS_WINDOW,
        ) && !matches!(risk, RiskLevel::Low) && http_connection_observed(events, &ans.resolved_ip);
        if qualifies {
            proof {
                assert(sus_qualifies(answers@[i as int], events@, now));
                assert(qualifying_answers(answers@.take(i + 1), events@, now) == qpre.push(
                    answers@[i as int],
                ));
            }
            let mut details = String::from_str("Suspicious ");
            details.append(risk.label().as_str());
            details.append(" domain: ");
            details.append(ans.query.as_str());
            details.append(" resolved to ");
            details.append(ans.resolved_ip.as_str());
            details.append(" (HTTP traffic detected)");
            alerts.push(
                SuspiciousActivity {
                    activity_type: ActivityType::SuspiciousDns,
                    source: ans.source.clone(),
                    details,
                    timestamp: detected_at,
                },
            );
            mappings.push(
                DnsMapping {
                    query: ans.query.clone(),
                    resolved_ip: ans.resolved_ip.clone(),
                    timestamp: detected_at,
                    is_http: true,
                    source: ans.source.clone(),
                },
            );
            proof {
                let last = alerts@.len() - 1;
                assert(alerts@[last].details@ =~= "Suspicious "@ + risk_label(
                    spec_risk(answers@[i as int].query@, answers@[i as int].high_entropy),
                ) + " domain: "@ + answers@[i as int].query@ + " resolved to "@ + answers@[
                    i as int].resolved_ip@ + " (HTTP traffic detected)"@);
            }
        } else {
            proof {
                assert(!sus_qualifies(answers@[i as int], events@, now));
                assert(qualifying_answers(answers@.take(i + 1), events@, now) == qpre);
            }
        }
        i = i + 1;
    }
    proof {
        assert(answers@.take(n as int) =~= answers@);
    }
    (alerts, mappings)
}

/// The alerts of one activity type, in order.
pub open spec fn of_type(rs: Seq<SuspiciousActivity>, t: ActivityType) -> Seq<SuspiciousActivity> {
    collect(
        rs,
        |a: SuspiciousActivity|
            if a.activity_type == t {
                Some(a)
            } else {
                None
            },
    )
}

/// Every alert in `rs` carries type `t`.
pub open spec fn homogeneous(rs: Seq<SuspiciousActivity>, t: ActivityType) -> bool {
    forall|a: int| 0 <= a < rs.len() ==> (#[trigger] rs[a]).activity_type == t
}

proof fn lemma_of_type_same(rs: Seq<SuspiciousActivity>, t: ActivityType)
    requires
        homogeneous(rs, t),
    ensures
        of_type(rs, t) == rs,
    decreases rs.len(),
{
    if rs.len() > 0 {
        assert(forall|a: int| 0 <= a < rs.len() - 1 ==> #[trigger] rs.drop_last()[a] == rs[a]);
        lemma_of_type_same(rs.drop_last(), t);
        assert(rs[rs.len() - 1].activity_type == t);
        assert(of_type(rs, t) =~= rs);
    } else {
        assert(of_type(rs, t) =~= rs);
    }
}

proof fn lemma_of_type_none(rs: Seq<SuspiciousActivity>, t: ActivityType, t2: ActivityType)
    requires
        homogeneous(rs, t),
        t2 != t,
    ensures
        of_type(rs, t2).len() == 0,
    decreases rs.len(),
{
    if rs.len() > 0 {
        assert(forall|a: int| 0 <= a < rs.len() - 1 ==> #[trigger] rs.drop_last()[a] == rs[a]);
        lemma_of_type_none(rs.drop_last(), t, t2);
        assert(rs[rs.len() - 1].activity_type == t);
    }
}

proof fn lemma_of_type_add(x: Seq<SuspiciousActivity>, y: Seq<SuspiciousActivity>, t: ActivityType)
    ensures
        of_type(x + y, t) == of_type(x, t) + of_type(y, t),
    decreases y.len(),
{
    if y.len() == 0 {
        assert(x + y =~= x);
        assert(of_type(x, t) + of_type(y, t) =~= of_type(x, t));
    } else {
        lemma_of_type_add(x, y.drop_last(), t);
        assert((x + y).drop_last() =~= x + y.drop_last());
        assert((x + y).last() == y.last());
        if y.last().activity_type == t {
            assert(of_type(x, t) + of_type(y, t) =~= (of_type(x, t) + of_type(
                y.drop_last(),
                t,
            )).push(y.last()));
        } else {
            assert(of_type(y, t) == of_type(y.drop_last(), t));
        }
    }
}

/// An alert of type `t` in `rs` appears in `of_type(rs, t)`.
proof fn lemma_of_type_mem(rs: Seq<SuspiciousActivity>, t: ActivityType, i: int)
    requires
        0 <= i < rs.len(),
        rs[i].activity_type == t,
    ensures
        exists|k: int| 0 <= k < of_type(rs, t).len() && #[trigger] of_type(rs, t)[k] == rs[i],
    decreases rs.len(),
{
    if i == rs.len() - 1 {
        assert(of_type(rs, t)[of_type(rs, t).len() - 1] == rs[i]);
    } else {
        assert(rs.drop_last()[i] == rs[i]);
        lemma_of_type_mem(rs.drop_last(), t, i);
        let k = choose|k: int|
            0 <= k < of_type(rs.drop_last(), t).len() && #[trigger] of_type(rs.drop_last(), t)[k]
                == rs[i];
        assert(of_type(rs, t)[k] == rs[i]);
    }
}

/// Every alert in `of_type(rs, t)` stands in `rs` and carries type `t`.
proof fn lemma_of_type_elem(rs: Seq<SuspiciousActivity>, t: ActivityType, k: int)
    requires
        0 <= k < of_type(rs, t).len(),
    ensures
        exists|i: int| 0 <= i < rs.len() && #[trigger] rs[i] == of_type(rs, t)[k],
        of_type(rs, t)[k].activity_type == t,
    decreases rs.len(),
{
    if rs.len() > 0 {
        if rs.last().activity_type == t && k == of_type(rs, t).len() - 1 {
            assert(rs[rs.len() - 1] == of_type(rs, t)[k]);
        } else {
            lemma_of_type_elem(rs.drop_last(), t, k);
            let i = choose|i: int|
                0 <= i < rs.drop_last().len() && #[trigger] rs.drop_last()[i] == of_type(
                    rs.drop_last(),
                    t,
                )[k];
            assert(rs[i] == of_type(rs, t)[k]);
        }
    }
}

/// The pairs the port-scan detector must report, for a given history.
pub open spec fn scan_expected(events: Seq<NetworkEvent>, now: u64) -> Seq<(Seq<char>, Seq<char>)> {
    scan_qualifying(scan_entries(events, now), firsts(scan_pairs(scan_entries(events, now))))
}

/// The ports the rare-port detector must report.
pub open spec fn rare_expected(events: Seq<NetworkEvent>, now: u64) -> Seq<int> {
    rare_qualifying(rare_entries(events, now), firsts(rare_ports_seq(rare_entries(events, now))))
}

/// The claimed IPs the ARP detector must report.
pub open spec fn arp_expected(events: Seq<NetworkEvent>) -> Seq<Seq<char>> {
    arp_qualifying(arp_entries(events), firsts(claim_ips(arp_entries(events))))
}

/// What one full detection sweep returns, exactly, split by activity
/// type: each detector's characterisation holds of the alerts bearing its
/// type, and the correlation records pair up with the suspicious-DNS
/// alerts.
pub open spec fn sweep_characterized(
    rs: Seq<SuspiciousActivity>,
    ms: Seq<DnsMapping>,
    events: Seq<NetworkEvent>,
    answers: Seq<DnsAnswer>,
    now: u64,
    detected_at: u64,
) -> bool {
    &&& ({
        let q = scan_expected(events, now);
        &&& of_type(rs, ActivityType::PortScanning).len() == q.len()
        &&& forall|a: int|
            0 <= a < q.len() ==> scan_alert_matches(
                #[trigger] of_type(rs, ActivityType::PortScanning)[a],
                scan_entries(events, now),
                q[a],
                detected_at,
            )
    })
    &&& transfer_alerts_characterized(
        of_type(rs, ActivityType::LargeDataTransfer),
        transfer_entries(events, now),
        detected_at,
    )
    &&& count_alerts_characterized(
        of_type(rs, ActivityType::DnsFlood),
        dns_flood_sources(events, now),
        DNS_FLOOD_THRESHOLD,
        ActivityType::DnsFlood,
        " DNS queries in 1 minute"@,
        detected_at,
    )
    &&& ({
        let q = rare_expected(events, now);
        &&& of_type(rs, ActivityType::RarePortActivity).len() == q.len()
        &&& forall|a: int|
            0 <= a < q.len() ==> rare_alert_matches(
                #[trigger] of_type(rs, ActivityType::RarePortActivity)[a],
                rare_entries(events, now),
                q[a],
                detected_at,
            )
    })
    &&& ({
        let q = arp_expected(events);
        &&& of_type(rs, ActivityType::ArpSpoofing).len() == q.len()
        &&& forall|a: int|
            0 <= a < q.len() ==> arp_alert_matches(
                #[trigger] of_type(rs, ActivityType::ArpSpoofing)[a],
                arp_entries(events),
                q[a],
                detected_at,
            )
    })
    &&& count_alerts_characterized(
        of_type(rs, ActivityType::UdpFlood),
        udp_flood_sources(events, now),
        UDP_FLOOD_THRESHOLD,
        ActivityType::UdpFlood,
        " UDP packets in 1 minute"@,
        detected_at,
    )
    &&& ({
        let q = qualifying_answers(answers, events, now);
        &&& of_type(rs, ActivityType::SuspiciousDns).len() == q.len()
        &&& forall|a: int|
            0 <= a < q.len() ==> sus_alert_matches(
                #[trigger] of_type(rs, ActivityType::SuspiciousDns)[a],
                q[a],
                detected_at,
            )
        &&& ms.len() == q.len()
        &&& forall|a: int|
            0 <= a < q.len() ==> mapping_matches(#[trigger] ms[a], q[a], detected_at)
    })
}

/// Runs the full battery of detectors over the history and returns the
/// union of their alerts, with the DNS correlation records beside them.
pub fn detect_suspicious_traffic(
    events: &Vec<NetworkEvent>,
    answers: &Vec<DnsAnswer>,
    now: u64,
    detected_at: u64,
) -> (r: (Vec<SuspiciousActivity>, Vec<DnsMapping>))
    ensures
        sweep_characterized(r.0@, r.1@, events@, answers@, now, detected_at),
{
    let mut out = detect_port_scanning(events, now, detected_at);
    let mut v2 = detect_large_transfers(events, now, detected_at);
    let mut v3 = detect_dns_flood(events, now, detected_at);
    let mut v4 = detect_rare_ports(events, now, detected_at);
    let mut v5 = detect_arp_spoofing(events, detected_at);
    let mut v6 = detect_udp_floods(events, now, detected_at);
    let sus = detect_suspicious_dns(answers, events, now, detected_at);
    let mut v7 = sus.0;
    let mappings = sus.1;
    let ghost g1 = out@;
    let ghost g2 = v2@;
    let ghost g3 = v3@;
    let ghost g4 = v4@;
    let ghost g5 = v5@;
    let ghost g6 = v6@;
    let ghost g7 = v7@;
    out.append(&mut v2);
    out.append(&mut v3);
    out.append(&mut v4);
    out.append(&mut v5);
    out.append(&mut v6);
    out.append(&mut v7);
    proof {
        assert(out@ == g1 + g2 + g3 + g4 + g5 + g6 + g7);
        assert forall|a: int|
            0 <= a < g2.len() implies (#[trigger] g2[a]).activity_type
            == ActivityType::LargeDataTransfer by {
            let src = g2[a].source@;
            assert(sum_for_key(transfer_entries(events@, now), src) > LARGE_TRANSFER_THRESHOLD);
        }
        assert forall|a: int|
            0 <= a < g3.len() implies (#[trigger] g3[a]).activity_type == ActivityType::DnsFlood by {
            let src = g3[a].source@;
            assert(count_of(dns_flood_sources(events@, now), src) > DNS_FLOOD_THRESHOLD);
        }
        assert forall|a: int|
            0 <= a < g6.len() implies (#[trigger] g6[a]).activity_type == ActivityType::UdpFlood by {
            let src = g6[a].source@;
            assert(count_of(udp_flood_sources(events@, now), src) > UDP_FLOOD_THRESHOLD);
        }
        lemma_sweep_assembled(g1, g2, g3, g4, g5, g6, g7, events@, answers@, now, detected_at);
    }
    (out, mappings)
}

/// Concatenating the seven detectors' outputs yields a sweep whose
/// per-type slices are exactly those outputs.
proof fn lemma_sweep_assembled(
    g1: Seq<SuspiciousActivity>,
    g2: Seq<SuspiciousActivity>,
    g3: Seq<SuspiciousActivity>,
    g4: Seq<SuspiciousActivity>,
    g5: Seq<SuspiciousActivity>,
    g6: Seq<SuspiciousActivity>,
    g7: Seq<SuspiciousActivity>,
    events: Seq<NetworkEvent>,
    answers: Seq<DnsAnswer>,
    now: u64,
    detected_at: u64,
)
    requires
        homogeneous(g1, ActivityType::PortScanning),
        homogeneous(g2, ActivityType::LargeDataTransfer),
        homogeneous(g3, ActivityType::DnsFlood),
        homogeneous(g4, ActivityType::RarePortActivity),
        homogeneous(g5, ActivityType::ArpSpoofing),
        homogeneous(g6, ActivityType::UdpFlood),
        homogeneous(g7, ActivityType::SuspiciousDns),
    ensures
        of_type(g1 + g2 + g3 + g4 + g5 + g6 + g7, ActivityType::PortScanning) == g1,
        of_type(g1 + g2 + g3 + g4 + g5 + g6 + g7, ActivityType::LargeDataTransfer) == g2,
        of_type(g1 + g2 + g3 + g4 + g5 + g6 + g7, ActivityType::DnsFlood) == g3,
        of_type(g1 + g2 + g3 + g4 + g5 + g6 + g7, ActivityType::RarePortActivity) == g4,
        of_type(g1 + g2 + g3 + g4 + g5 + g6 + g7, ActivityType::ArpSpoofing) == g5,
        of_type(g1 + g2 + g3 + g4 + g5 + g6 + g7, ActivityType::UdpFlood) == g6,
        of_type(g1 + g2 + g3 + g4 + g5 + g6 + g7, ActivityType::SuspiciousDns) == g7,
{
    let all = g1 + g2 + g3 + g4 + g5 + g6 + g7;
    assert forall|t: ActivityType|
        #[trigger] of_type(all, t) == of_type(g1, t) + of_type(g2, t) + of_type(g3, t) + of_type(
            g4,
            t,
        ) + of_type(g5, t) + of_type(g6, t) + of_type(g7, t) by {
        lemma_of_type_add(g1, g2, t);
        lemma_of_type_add(g1 + g2, g3, t);
        lemma_of_type_add(g1 + g2 + g3, g4, t);
        lemma_of_type_add(g1 + g2 + g3 + g4, g5, t);
        lemma_of_type_add(g1 + g2 + g3 + g4 + g5, g6, t);
        lemma_of_type_add(g1 + g2 + g3 + g4 + g5 + g6, g7, t);
    }
    lemma_of_type_same(g1, ActivityType::PortScanning);
    lemma_of_type_same(g2, ActivityType::LargeDataTransfer);
    lemma_of_type_same(g3, ActivityType::DnsFlood);
    lemma_of_type_same(g4, ActivityType::RarePortActivity);
    lemma_of_type_same(g5, ActivityType::ArpSpoofing);
    lemma_of_type_same(g6, ActivityType::UdpFlood);
    lemma_of_type_same(g7, ActivityType::SuspiciousDns);
    assert(of_type(all, ActivityType::PortScanning) =~= g1) by {
        lemma_of_type_none(g2, ActivityType::LargeDataTransfer, ActivityType::PortScanning);
        lemma_of_type_none(g3, ActivityType::DnsFlood, ActivityType::PortScanning);
        lemma_of_type_none(g4, ActivityType::RarePortActivity, ActivityType::PortScanning);
        lemma_of_type_none(g5, ActivityType::ArpSpoofing, ActivityType::PortScanning);
        lemma_of_type_none(g6, ActivityType::UdpFlood, ActivityType::PortScanning);
        lemma_of_type_none(g7, ActivityType::SuspiciousDns, ActivityType::PortScanning);
    }
    assert(of_type(all, ActivityType::LargeDataTransfer) =~= g2) by {
        lemma_of_type_none(g1, ActivityType::PortScanning, ActivityType::LargeDataTransfer);
        lemma_of_type_none(g3, ActivityType::DnsFlood, ActivityType::LargeDataTransfer);
        lemma_of_type_none(g4, ActivityType::RarePortActivity, ActivityType::LargeDataTransfer);
        lemma_of_type_none(g5, ActivityType::ArpSpoofing, ActivityType::LargeDataTransfer);
        lemma_of_type_none(g6, ActivityType::UdpFlood, ActivityType::LargeDataTransfer);
        lemma_of_type_none(g7, ActivityType::SuspiciousDns, ActivityType::LargeDataTransfer);
    }
    assert(of_type(all, ActivityType::DnsFlood) =~= g3) by {
        lemma_of_type_none(g1, ActivityType::PortScanning, ActivityType::DnsFlood);
        lemma_of_type_none(g2, ActivityType::LargeDataTransfer, ActivityType::DnsFlood);
        lemma_of_type_none(g4, ActivityType::RarePortActivity, ActivityType::DnsFlood);
        lemma_of_type_none(g5, ActivityType::ArpSpoofing, ActivityType::DnsFlood);
        lemma_of_type_none(g6, ActivityType::UdpFlood, ActivityType::DnsFlood);
        lemma_of_type_none(g7, ActivityType::SuspiciousDns, ActivityType::DnsFlood);
    }
    assert(of_type(all, ActivityType::RarePortActivity) =~= g4) by {
        lemma_of_type_none(g1, ActivityType::PortScanning, ActivityType::RarePortActivity);
        lemma_of_type_none(g2, ActivityType::LargeDataTransfer, ActivityType::RarePortActivity);
        lemma_of_type_none(g3, ActivityType::DnsFlood, ActivityType::RarePortActivity);
        lemma_of_type_none(g5, ActivityType::ArpSpoofing, ActivityType::RarePortActivity);
        lemma_of_type_none(g6, ActivityType::UdpFlood, ActivityType::RarePortActivity);
        lemma_of_type_none(g7, ActivityType::SuspiciousDns, ActivityType::RarePortActivity);
    }
    assert(of_type(all, ActivityType::ArpSpoofing) =~= g5) by {
        lemma_of_type_none(g1, ActivityType::PortScanning, ActivityType::ArpSpoofing);
        lemma_of_type_none(g2, ActivityType::LargeDataTransfer, ActivityType::ArpSpoofing);
        lemma_of_type_none(g3, ActivityType::DnsFlood, ActivityType::ArpSpoofing);
        lemma_of_type_none(g4, ActivityType::RarePortActivity, ActivityType::ArpSpoofing);
        lemma_of_type_none(g6, ActivityType::UdpFlood, ActivityType::ArpSpoofing);
        lemma_of_type_none(g7, ActivityType::SuspiciousDns, ActivityType::ArpSpoofing);
    }
    assert(of_type(all, ActivityType::UdpFlood) =~= g6) by {
        lemma_of_type_none(g1, ActivityType::PortScanning, ActivityType::UdpFlood);
        lemma_of_type_none(g2, ActivityType::LargeDataTransfer, ActivityType::UdpFlood);
        lemma_of_type_none(g3, ActivityType::DnsFlood, ActivityType::UdpFlood);
        lemma_of_type_none(g4, ActivityType::RarePortActivity, ActivityType::UdpFlood);
        lemma_of_type_none(g5, ActivityType::ArpSpoofing, ActivityType::UdpFlood);
        lemma_of_type_none(g7, ActivityType::SuspiciousDns, ActivityType::UdpFlood);
    }
    assert(of_type(all, ActivityType::SuspiciousDns) =~= g7) by {
        lemma_of_type_none(g1, ActivityType::PortScanning, ActivityType::SuspiciousDns);
        lemma_of_type_none(g2, ActivityType::LargeDataTransfer, ActivityType::SuspiciousDns);
        lemma_of_type_none(g3, ActivityType::DnsFlood, ActivityType::SuspiciousDns);
        lemma_of_type_none(g4, ActivityType::RarePortActivity, ActivityType::SuspiciousDns);
        lemma_of_type_none(g5, ActivityType::ArpSpoofing, ActivityType::SuspiciousDns);
        lemma_of_type_none(g6, ActivityType::UdpFlood, ActivityType::SuspiciousDns);
    }
}

/// Two alerts agree in everything but the detection timestamp.
pub open spec fn same_alert_content(a: SuspiciousActivity, b: SuspiciousActivity) -> bool {
    a.activity_type == b.activity_type && a.source@ == b.source@ && a.details@ == b.details@
}

/// Two correlation records agree in everything but the detection
/// timestamp.
pub open spec fn same_mapping_content(a: DnsMapping, b: DnsMapping) -> bool {
    a.query@ == b.query@ && a.resolved_ip@ == b.resolved_ip@ && a.is_http == b.is_http && a.source@
        == b.source@
}

proof fn lemma_sweep_covered(
    r1: Seq<SuspiciousActivity>,
    m1: Seq<DnsMapping>,
    r2: Seq<SuspiciousActivity>,
    m2: Seq<DnsMapping>,
    events: Seq<NetworkEvent>,
    answers: Seq<DnsAnswer>,
    now: u64,
    t1: u64,
    t2: u64,
    a1: int,
)
    requires
        sweep_characterized(r1, m1, events, answers, now, t1),
        sweep_characterized(r2, m2, events, answers, now, t2),
        0 <= a1 < r1.len(),
    ensures
        exists|a2: int| 0 <= a2 < r2.len() && same_alert_content(r1[a1], #[trigger] r2[a2]),
{
    let t = r1[a1].activity_type;
    lemma_of_type_mem(r1, t, a1);
    let k = choose|k: int| 0 <= k < of_type(r1, t).len() && #[trigger] of_type(r1, t)[k] == r1[a1];
    match t {
        ActivityType::PortScanning => {
            lemma_of_type_elem(r2, t, k);
            let i2 = choose|i2: int| 0 <= i2 < r2.len() && #[trigger] r2[i2] == of_type(r2, t)[k];
            assert(same_alert_content(r1[a1], r2[i2]));
        },
        ActivityType::LargeDataTransfer => {
            let s = r1[a1].source@;
            assert(sum_for_key(transfer_entries(events, now), s) > LARGE_TRANSFER_THRESHOLD);
            let k2 = choose|k2: int|
                0 <= k2 < of_type(r2, t).len() && #[trigger] of_type(r2, t)[k2].source@ == s;
            lemma_of_type_elem(r2, t, k2);
            let i2 = choose|i2: int| 0 <= i2 < r2.len() && #[trigger] r2[i2] == of_type(r2, t)[k2];
            assert(same_alert_content(r1[a1], r2[i2]));
        },
        ActivityType::DnsFlood => {
            let s = r1[a1].source@;
            assert(count_of(dns_flood_sources(events, now), s) > DNS_FLOOD_THRESHOLD);
            let k2 = choose|k2: int|
                0 <= k2 < of_type(r2, t).len() && #[trigger] of_type(r2, t)[k2].source@ == s;
            lemma_of_type_elem(r2, t, k2);
            let i2 = choose|i2: int| 0 <= i2 < r2.len() && #[trigger] r2[i2] == of_type(r2, t)[k2];
            assert(same_alert_content(r1[a1], r2[i2]));
        },
        ActivityType::RarePortActivity => {
            lemma_of_type_elem(r2, t, k);
            let i2 = choose|i2: int| 0 <= i2 < r2.len() && #[trigger] r2[i2] == of_type(r2, t)[k];
            assert(same_alert_content(r1[a1], r2[i2]));
        },
        ActivityType::ArpSpoofing => {
            lemma_of_type_elem(r2, t, k);
            let i2 = choose|i2: int| 0 <= i2 < r2.len() && #[trigger] r2[i2] == of_type(r2, t)[k];
            assert(same_alert_content(r1[a1], r2[i2]));
        },
        ActivityType::UdpFlood => {
            let s = r1[a1].source@;
            assert(count_of(udp_flood_sources(events, now), s) > UDP_FLOOD_THRESHOLD);
            let k2 = choose|k2: int|
                0 <= k2 < of_type(r2, t).len() && #[trigger] of_type(r2, t)[k2].source@ == s;
            lemma_of_type_elem(r2, t, k2);
            let i2 = choose|i2: int| 0 <= i2 < r2.len() && #[trigger] r2[i2] == of_type(r2, t)[k2];
            assert(same_alert_content(r1[a1], r2[i2]));
        },
        ActivityType::SuspiciousDns => {
            lemma_of_type_elem(r2, t, k);
            let i2 = choose|i2: int| 0 <= i2 < r2.len() && #[trigger] r2[i2] == of_type(r2, t)[k];
            assert(same_alert_content(r1[a1], r2[i2]));
        },
    }
}

/// Running the detection sweep twice over an unchanged history produces
/// the same alert set, content-equal, though the detection timestamps
/// differ; the correlation records correspond one to one in the same way.
pub proof fn lemma_sweep_idempotent(
    r1: Seq<SuspiciousActivity>,
    m1: Seq<DnsMapping>,
    r2: Seq<SuspiciousActivity>,
    m2: Seq<DnsMapping>,
    events: Seq<NetworkEvent>,
    answers: Seq<DnsAnswer>,
    now: u64,
    t1: u64,
    t2: u64,
)
    requires
        sweep_characterized(r1, m1, events, answers, now, t1),
        sweep_characterized(r2, m2, events, answers, now, t2),
    ensures
        forall|a1: int|
            0 <= a1 < r1.len() ==> exists|a2: int|
                0 <= a2 < r2.len() && same_alert_content(#[trigger] r1[a1], r2[a2]),
        forall|a2: int|
            0 <= a2 < r2.len() ==> exists|a1: int|
                0 <= a1 < r1.len() && same_alert_content(r1[a1], #[trigger] r2[a2]),
        m1.len() == m2.len(),
        forall|j: int| 0 <= j < m1.len() ==> same_mapping_content(#[trigger] m1[j], m2[j]),
{
    assert forall|a1: int| 0 <= a1 < r1.len() implies exists|a2: int|
        0 <= a2 < r2.len() && same_alert_content(#[trigger] r1[a1], r2[a2]) by {
        lemma_sweep_covered(r1, m1, r2, m2, events, answers, now, t1, t2, a1);
    }
    assert forall|a2: int| 0 <= a2 < r2.len() implies exists|a1: int|
        0 <= a1 < r1.len() && same_alert_content(r1[a1], #[trigger] r2[a2]) by {
        lemma_sweep_covered(r2, m2, r1, m1, events, answers, now, t2, t1, a2);
        let b = choose|b: int| 0 <= b < r1.len() && same_alert_content(r2[a2], #[trigger] r1[b]);
        assert(same_alert_content(r1[b], r2[a2]));
    }
}

} // verus!
