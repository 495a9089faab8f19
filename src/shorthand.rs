//! The compact notation of class times, e.g. `246M1234`: its shape check and its expansion
//! into atomic time codes.
use vstd::prelude::*;
use vstd::string::*;
use crate::time::{
    SigaaTime, dia_char, insert_time, is_day_char, is_shift_letter, sorted_times, time_code,
    turno_digits, turno_letter, turno_of_chars,
};

verus! {

/// The characters of the Unicode class `Nd` (decimal digits of any script).
pub uninterp spec fn decimal_digit(c: char) -> bool;

/// What `\d` matches: the class `Nd`, which holds the ASCII digits and none of the shift
/// letters.
pub open spec fn pattern_digit(c: char) -> bool {
    ('0' <= c && c <= '9') || (decimal_digit(c) && !is_shift_letter(c))
}

/// `s` has the shape `(\d{1,5})([MTN])(\d{2,6})`, with its shift letter at `k`.
pub open spec fn pattern_at(s: Seq<char>, k: int) -> bool {
    &&& 1 <= k <= 5
    &&& k + 3 <= s.len() <= k + 7
    &&& is_shift_letter(s[k])
    &&& forall|i: int| 0 <= i < s.len() && i != k ==> pattern_digit(#[trigger] s[i])
}

/// `s` has the shape `(\d{1,5})([MTN])(\d{2,6})`.
pub open spec fn matches_pattern(s: Seq<char>) -> bool {
    exists|k: int| pattern_at(s, k)
}

/// Relies on `regex::Regex::new` and `regex::Regex::captures` with the pattern
/// `^(\d{1,5})([MTN])(\d{2,6})$` (where `\d` is the class `Nd`): there is a match exactly
/// when the whole text has that shape, and the three groups are the digits before the
/// letter, the letter and the digits after it.
#[verifier::external_body]
pub(crate) fn shorthand_captures(s: &str) -> (r: Option<(String, String, String)>)
    ensures
        r is Some <==> matches_pattern(s@),
        r matches Some((d, l, h)) ==> s@ == d@ + l@ + h@ && l@.len() == 1 && pattern_at(
            s@,
            d@.len() as int,
        ),
        r matches Some((d, l, h)) ==> (forall|i: int| 0 <= i < d@.len() ==> decimal_digit(
            #[trigger] d@[i],
        )) && (forall|i: int| 0 <= i < h@.len() ==> decimal_digit(#[trigger] h@[i])),
{
    let re = regex::Regex::new(r"^(\d{1,5})([MTN])(\d{2,6})$").unwrap();
    match re.captures(s) {
        Some(c) => Some((c[1].to_string(), c[2].to_string(), c[3].to_string())),
        None => None,
    }
}

/// A digit that writes a period: `1` to `6`.
pub open spec fn is_period_char(c: char) -> bool {
    '1' <= c && c <= '6'
}

/// `s` is a shorthand with its shift letter at `k`: one to five day digits (`2` to `7`),
/// the letter `M`, `T` or `N`, then two to six period digits (`1` to `6`).
pub open spec fn formatted_at(s: Seq<char>, k: int) -> bool {
    &&& 1 <= k <= 5
    &&& k + 3 <= s.len() <= k + 7
    &&& is_shift_letter(s[k])
    &&& forall|i: int| 0 <= i < k ==> is_day_char(#[trigger] s[i])
    &&& forall|i: int| k < i < s.len() ==> is_period_char(#[trigger] s[i])
}

/// `s` is a well-formed shorthand.
pub open spec fn is_formatted_code(s: Seq<char>) -> bool {
    exists|k: int| formatted_at(s, k)
}

/// A well-formed shorthand has the shape of the pattern.
proof fn lemma_formatted_has_pattern(s: Seq<char>, k: int)
    requires
        formatted_at(s, k),
    ensures
        pattern_at(s, k),
{
    assert forall|i: int| 0 <= i < s.len() && i != k implies pattern_digit(#[trigger] s[i]) by {
        if i < k {
            assert(is_day_char(s[i]));
        } else {
            assert(is_period_char(s[i]));
        }
    }
}

/// The shift letter of a text of the pattern's shape stands at one place only.
proof fn lemma_pattern_letter_unique(s: Seq<char>, k0: int, k: int)
    requires
        pattern_at(s, k0),
        0 <= k < s.len(),
        is_shift_letter(s[k]),
    ensures
        k == k0,
{
    if k != k0 {
        assert(pattern_digit(s[k]));
    }
}

/// Whether `time` is a well-formed shorthand: one to five day digits `2` to `7`, one shift
/// letter `M`, `T` or `N`, then two to six period digits `1` to `6`.
pub fn is_formatted(time: &str) -> (r: bool)
    ensures
        r == is_formatted_code(time@),
{
    match shorthand_captures(time) {
        None => {
            proof {
                if is_formatted_code(time@) {
                    let k = choose|k: int| formatted_at(time@, k);
                    lemma_formatted_has_pattern(time@, k);
                }
            }
            false
        },
        Some((d, l, h)) => {
            let ghost s = time@;
            let ghost k = d@.len() as int;
            let ds = d.as_str();
            let hs = h.as_str();
            assert(s.subrange(0, k) =~= d@);
            assert(s.subrange(k + 1, s.len() as int) =~= h@);
            let n = ds.unicode_len();
            let mut i: usize = 0;
            while i < n
                invariant
                    n == d@.len(),
                    ds@ == d@,
                    i <= n,
                    s == d@ + l@ + h@,
                    s == time@,
                    k == d@.len(),
                    pattern_at(s, k),
                    forall|j: int| 0 <= j < i ==> is_day_char(#[trigger] s[j]),
                decreases n - i,
            {
                let c = ds.get_char(i);
                if !('2' <= c && c <= '7') {
                    proof {
                        assert(s[i as int] == c);
                        if is_formatted_code(s) {
                            let k2 = choose|k2: int| formatted_at(s, k2);
                            lemma_pattern_letter_unique(s, k, k2);
                            assert(is_day_char(s[i as int]));
                        }
                    }
                    return false;
                }
                i = i + 1;
            }
            let m = hs.unicode_len();
            let mut i: usize = 0;
            while i < m
                invariant
                    m == h@.len(),
                    hs@ == h@,
                    i <= m,
                    s == d@ + l@ + h@,
                    l@.len() == 1,
                    k == d@.len(),
                    s == time@,
                    pattern_at(s, k),
                    forall|j: int| 0 <= j < k ==> is_day_char(#[trigger] s[j]),
                    forall|j: int| k < j < k + 1 + i ==> is_period_char(#[trigger] s[j]),
                decreases m - i,
            {
                let c = hs.get_char(i);
                if !('1' <= c && c <= '6') {
                    proof {
                        assert(s[k + 1 + i] == c);
                        if is_formatted_code(s) {
                            let k2 = choose|k2: int| formatted_at(s, k2);
                            lemma_pattern_letter_unique(s, k, k2);
                            assert(is_period_char(s[k + 1 + i]));
                        }
                    }
                    return false;
                }
                i = i + 1;
            }
            assert(formatted_at(s, k));
            true
        },
    }
}

/// The shorthand `s`, with its shift letter at `k`, lists the day digit `c`.
pub open spec fn lists_day(s: Seq<char>, k: int, c: char) -> bool {
    exists|i: int| 0 <= i < k && s[i] == c
}

/// The shorthand `s`, with its shift letter at `k`, lists the period digits `a`, `b` as one
/// of its two-digit pairs.
pub open spec fn lists_pair(s: Seq<char>, k: int, a: char, b: char) -> bool {
    exists|m: int| 0 <= m && k + 2 + 2 * m < s.len() && s[k + 1 + 2 * m] == a && #[trigger] s[k
        + 2 + 2 * m] == b
}

/// `t` is one of the time codes that `s`, with its shift letter at `k`, stands for: one of
/// its days, its shift letter and one of its period pairs.
pub open spec fn denotes_at(s: Seq<char>, k: int, t: SigaaTime) -> bool {
    &&& s[k] == turno_letter(t.turno)
    &&& lists_day(s, k, dia_char(t.dia))
    &&& lists_pair(s, k, turno_digits(t.turno).0, turno_digits(t.turno).1)
}

/// `s`, with its shift letter at `k`, can be expanded: day digits before the letter, an even
/// number of period digits after it, and each pair of them a period of that shift.
pub open spec fn expandable_at(s: Seq<char>, k: int) -> bool {
    &&& 1 <= k
    &&& k + 3 <= s.len()
    &&& (s.len() - k - 1) % 2 == 0
    &&& is_shift_letter(s[k])
    &&& forall|i: int| 0 <= i < k ==> is_day_char(#[trigger] s[i])
    &&& forall|m: int|
        0 <= m && k + 2 + 2 * m < s.len() ==> (turno_of_chars(s[k], s[k + 1 + 2 * m], #[trigger] s[k
            + 2 + 2 * m]) is Some)
}

/// The place of the shift letter of a well-formed shorthand.
pub open spec fn letter_index(s: Seq<char>) -> int {
    choose|k: int| formatted_at(s, k)
}

/// The period digits of the shorthand `s` come in pairs, and each pair is a period of its
/// shift (`N56`, `T13` or a lone digit are not).
pub open spec fn periods_pair_up(s: Seq<char>) -> bool {
    let k = letter_index(s);
    &&& (s.len() - k - 1) % 2 == 0
    &&& forall|m: int|
        0 <= m && k + 2 + 2 * m < s.len() ==> (turno_of_chars(s[k], s[k + 1 + 2 * m], #[trigger] s[k
            + 2 + 2 * m]) is Some)
}

/// `s` is a well-formed shorthand whose period digits pair up into periods of its shift.
pub open spec fn is_expandable(s: Seq<char>) -> bool {
    is_formatted_code(s) && periods_pair_up(s)
}

/// The time codes that the well-formed shorthand `s` stands for.
pub open spec fn shorthand_times(s: Seq<char>) -> Set<SigaaTime> {
    Set::new(|t: SigaaTime| denotes_at(s, letter_index(s), t))
}

/// The time code of the four-character shorthand `s` is the only one it stands for.
proof fn lemma_base_case(s: Seq<char>, t: SigaaTime)
    requires
        expandable_at(s, 1),
        s.len() == 4,
        time_code(t) == s,
    ensures
        forall|x: SigaaTime| denotes_at(s, 1, x) <==> x == t,
{
    assert(s[0] == dia_char(t.dia) && s[1] == turno_letter(t.turno));
    assert(s[2] == turno_digits(t.turno).0 && s[3] == turno_digits(t.turno).1);
    assert(lists_day(s, 1, dia_char(t.dia)));
    assert(s[1 + 2 + 2 * 0int] == s[3]);
    assert(lists_pair(s, 1, s[2], s[3]));
    assert forall|x: SigaaTime| denotes_at(s, 1, x) implies x == t by {
        let m = choose|m: int|
            0 <= m && 1 + 2 + 2 * m < s.len() && s[1 + 1 + 2 * m] == turno_digits(x.turno).0
                && #[trigger] s[1 + 2 + 2 * m] == turno_digits(x.turno).1;
        assert(m == 0);
    }
}

/// Splitting off the first period pair: `s` (one day, more than one pair) stands for what its
/// first pair and its other pairs stand for together.
proof fn lemma_hour_split(s: Seq<char>, first: Seq<char>, last: Seq<char>)
    requires
        expandable_at(s, 1),
        s.len() > 4,
        first == s.subrange(0, 4),
        last == s.subrange(0, 2) + s.subrange(4, s.len() as int),
    ensures
        expandable_at(first, 1),
        expandable_at(last, 1),
        first.len() < s.len(),
        last.len() < s.len(),
        forall|x: SigaaTime| denotes_at(s, 1, x) <==> denotes_at(first, 1, x) || denotes_at(last, 1, x),
{
    assert forall|m: int| 0 <= m && 1 + 2 + 2 * m < last.len() implies (turno_of_chars(
        last[1],
        last[1 + 1 + 2 * m],
        #[trigger] last[1 + 2 + 2 * m],
    ) is Some) by {
        assert(last[1 + 1 + 2 * m] == s[1 + 1 + 2 * (m + 1)]);
        assert(last[1 + 2 + 2 * m] == s[1 + 2 + 2 * (m + 1)]);
    }
    assert forall|m: int| 0 <= m && 1 + 2 + 2 * m < first.len() implies (turno_of_chars(
        first[1],
        first[1 + 1 + 2 * m],
        #[trigger] first[1 + 2 + 2 * m],
    ) is Some) by {
        assert(first[1 + 2 + 2 * m] == s[1 + 2 + 2 * m]);
    }
    assert forall|x: SigaaTime| denotes_at(s, 1, x) <==> denotes_at(first, 1, x) || denotes_at(
        last,
        1,
        x,
    ) by {
        let a = turno_digits(x.turno).0;
        let b = turno_digits(x.turno).1;
        assert(first[0] == s[0] && last[0] == s[0] && first[1] == s[1] && last[1] == s[1]);
        if s[0] == dia_char(x.dia) {
            assert(lists_day(s, 1, dia_char(x.dia)));
            assert(lists_day(first, 1, dia_char(x.dia)));
            assert(lists_day(last, 1, dia_char(x.dia)));
        }
        if lists_pair(s, 1, a, b) {
            let m = choose|m: int|
                0 <= m && 1 + 2 + 2 * m < s.len() && s[1 + 1 + 2 * m] == a && #[trigger] s[1 + 2
                    + 2 * m] == b;
            if m == 0 {
                assert(first[1 + 2 + 2 * 0int] == b);
                assert(lists_pair(first, 1, a, b));
            } else {
                assert(last[1 + 1 + 2 * (m - 1)] == a);
                assert(last[1 + 2 + 2 * (m - 1)] == b);
                assert(lists_pair(last, 1, a, b));
            }
        }
        if lists_pair(first, 1, a, b) {
            let m = choose|m: int|
                0 <= m && 1 + 2 + 2 * m < first.len() && first[1 + 1 + 2 * m] == a
                    && #[trigger] first[1 + 2 + 2 * m] == b;
            assert(m == 0);
            assert(s[1 + 2 + 2 * 0int] == b);
        }
        if lists_pair(last, 1, a, b) {
            let m = choose|m: int|
                0 <= m && 1 + 2 + 2 * m < last.len() && last[1 + 1 + 2 * m] == a
                    && #[trigger] last[1 + 2 + 2 * m] == b;
            assert(s[1 + 1 + 2 * (m + 1)] == a);
            assert(s[1 + 2 + 2 * (m + 1)] == b);
        }
    }
}

/// Removing the day digit at `j` keeps the shorthand expandable, with the letter one place
/// earlier, and it then stands for the same times but those of that digit's day alone.
proof fn lemma_day_removed(s: Seq<char>, k: int, j: int)
    requires
        expandable_at(s, k),
        k >= 2,
        0 <= j < k,
    ensures
        expandable_at(s.remove(j), k - 1),
        s.remove(j).len() < s.len(),
        forall|x: SigaaTime| #[trigger]
            denotes_at(s.remove(j), k - 1, x) ==> denotes_at(s, k, x),
        forall|x: SigaaTime|
            denotes_at(s, k, x) && (exists|i: int| 0 <= i < k && i != j && s[i] == dia_char(x.dia))
                ==> #[trigger] denotes_at(s.remove(j), k - 1, x),
{
    let w = s.remove(j);
    assert forall|i: int| 0 <= i < w.len() implies #[trigger] w[i] == (if i < j {
        s[i]
    } else {
        s[i + 1]
    }) by {}
    assert forall|m: int| 0 <= m && (k - 1) + 2 + 2 * m < w.len() implies (turno_of_chars(
        w[k - 1],
        w[(k - 1) + 1 + 2 * m],
        #[trigger] w[(k - 1) + 2 + 2 * m],
    ) is Some) by {
        assert(w[(k - 1) + 2 + 2 * m] == s[k + 2 + 2 * m]);
        assert(w[(k - 1) + 1 + 2 * m] == s[k + 1 + 2 * m]);
    }
    assert forall|i: int| 0 <= i < k - 1 implies is_day_char(#[trigger] w[i]) by {
        if i >= j {
            assert(is_day_char(s[i + 1]));
        }
    }
    assert forall|x: SigaaTime| #[trigger] denotes_at(w, k - 1, x) implies denotes_at(s, k, x) by {
        let a = turno_digits(x.turno).0;
        let b = turno_digits(x.turno).1;
        let i = choose|i: int| 0 <= i < k - 1 && w[i] == dia_char(x.dia);
        if i < j {
            assert(s[i] == dia_char(x.dia));
        } else {
            assert(s[i + 1] == dia_char(x.dia));
        }
        let m = choose|m: int|
            0 <= m && (k - 1) + 2 + 2 * m < w.len() && w[(k - 1) + 1 + 2 * m] == a
                && #[trigger] w[(k - 1) + 2 + 2 * m] == b;
        assert(s[k + 2 + 2 * m] == b);
    }
    assert forall|x: SigaaTime|
        denotes_at(s, k, x) && (exists|i: int| 0 <= i < k && i != j && s[i] == dia_char(x.dia))
            implies #[trigger] denotes_at(w, k - 1, x) by {
        let a = turno_digits(x.turno).0;
        let b = turno_digits(x.turno).1;
        let i = choose|i: int| 0 <= i < k && i != j && s[i] == dia_char(x.dia);
        if i < j {
            assert(w[i] == dia_char(x.dia));
        } else {
            assert(w[i - 1] == dia_char(x.dia));
        }
        let m = choose|m: int|
            0 <= m && k + 2 + 2 * m < s.len() && s[k + 1 + 2 * m] == a && #[trigger] s[k + 2 + 2
                * m] == b;
        assert(w[(k - 1) + 2 + 2 * m] == b);
        assert(w[(k - 1) + 1 + 2 * m] == a);
    }
}

/// The characters of `v` but the one at `j`.
fn without_index(v: &Vec<char>, j: usize) -> (w: Vec<char>)
    requires
        j < v@.len(),
    ensures
        w@ == v@.remove(j as int),
{
    let mut w: Vec<char> = Vec::new();
    let mut i: usize = 0;
    while i < v.len()
        invariant
            j < v@.len(),
            i <= v@.len(),
            w@ == (if i <= j {
                v@.subrange(0, i as int)
            } else {
                v@.subrange(0, j as int) + v@.subrange(j + 1, i as int)
            }),
        decreases v@.len() - i,
    {
        if i != j {
            w.push(v[i]);
        }
        proof {
            if i < j {
                assert(v@.subrange(0, i + 1) =~= v@.subrange(0, i as int).push(v@[i as int]));
            } else if i == j {
                assert(v@.subrange(0, j as int) + v@.subrange(j + 1, i + 1) =~= v@.subrange(
                    0,
                    i as int,
                ));
            } else {
                assert(v@.subrange(0, j as int) + v@.subrange(j + 1, i + 1) =~= (v@.subrange(
                    0,
                    j as int,
                ) + v@.subrange(j + 1, i as int)).push(v@[i as int]));
            }
        }
        i = i + 1;
    }
    assert(w@ =~= v@.remove(j as int));
    w
}

/// Expands `value`, whose shift letter is at `days`, into `acc`: a single code is added as
/// it is, several periods are split by `hour_breaker`, several days by `day_breaker`.
fn breakdown(value: &Vec<char>, days: usize, acc: &mut Vec<SigaaTime>)
    requires
        expandable_at(value@, days as int),
        sorted_times(old(acc)@),
    ensures
        sorted_times(final(acc)@),
        forall|x: SigaaTime| #[trigger]
            final(acc)@.contains(x) <==> old(acc)@.contains(x) || denotes_at(value@, days as int, x),
    decreases value@.len(), 1int,
{
    if days == 1 && value.len() == 4 {
        match SigaaTime::from_chars(value[0], value[1], value[2], value[3]) {
            Ok(t) => {
                proof {
                    assert(seq![value@[0], value@[1], value@[2], value@[3]] =~= value@);
                    lemma_base_case(value@, t);
                }
                insert_time(acc, t);
            },
            Err(_) => {
                proof {
                    let s = value@;
                    assert(1 + 2 + 2 * 0 < s.len());
                    assert(turno_of_chars(s[1], s[1 + 1 + 2 * 0int], s[1 + 2 + 2 * 0int]) is Some);
                }
            },
        }
    } else if days == 1 {
        hour_breaker(value, acc);
    } else {
        day_breaker(days, value, acc);
    }
}

/// Expands `value` once per day digit, each time with that digit taken out.
fn day_breaker(loops: usize, value: &Vec<char>, acc: &mut Vec<SigaaTime>)
    requires
        expandable_at(value@, loops as int),
        loops >= 2,
        sorted_times(old(acc)@),
    ensures
        sorted_times(final(acc)@),
        forall|x: SigaaTime| #[trigger]
            final(acc)@.contains(x) <==> old(acc)@.contains(x) || denotes_at(value@, loops as int, x),
    decreases value@.len(), 0int,
{
    let ghost acc0 = acc@;
    let ghost s = value@;
    let ghost k = loops as int;
    let mut i: usize = 0;
    while i < loops
        invariant
            s == value@,
            k == loops,
            expandable_at(s, k),
            k >= 2,
            i <= loops,
            sorted_times(acc@),
            forall|x: SigaaTime| #[trigger]
                acc@.contains(x) <==> acc0.contains(x) || exists|j: int|
                    0 <= j < i && denotes_at(s.remove(j), k - 1, x),
        decreases loops - i,
    {
        let break_value = without_index(value, i);
        proof {
            lemma_day_removed(s, k, i as int);
        }
        let ghost before = acc@;
        breakdown(&break_value, loops - 1, acc);
        proof {
            assert forall|x: SigaaTime| #[trigger]
                acc@.contains(x) <==> acc0.contains(x) || exists|j: int|
                    0 <= j < i + 1 && denotes_at(s.remove(j), k - 1, x) by {
                if denotes_at(s.remove(i as int), k - 1, x) {
                    assert(0 <= i < i + 1);
                }
                if exists|j: int| 0 <= j < i + 1 && denotes_at(s.remove(j), k - 1, x) {
                    let j = choose|j: int| 0 <= j < i + 1 && denotes_at(s.remove(j), k - 1, x);
                    if j < i {
                        assert(before.contains(x));
                    }
                }
            }
        }
        i = i + 1;
    }
    proof {
        assert forall|x: SigaaTime| #[trigger]
            acc@.contains(x) <==> acc0.contains(x) || denotes_at(s, k, x) by {
            if exists|j: int| 0 <= j < k && denotes_at(s.remove(j), k - 1, x) {
                let j = choose|j: int| 0 <= j < k && denotes_at(s.remove(j), k - 1, x);
                lemma_day_removed(s, k, j);
            }
            if denotes_at(s, k, x) {
                let i0 = choose|i0: int| 0 <= i0 < k && s[i0] == dia_char(x.dia);
                let j: int = if i0 == 0 {
                    1
                } else {
                    0
                };
                lemma_day_removed(s, k, j);
                assert(denotes_at(s.remove(j), k - 1, x));
            }
        }
    }
}

/// Expands `value` (one day digit, several period pairs) as its first pair and as the rest.
fn hour_breaker(value: &Vec<char>, acc: &mut Vec<SigaaTime>)
    requires
        expandable_at(value@, 1),
        value@.len() > 4,
        sorted_times(old(acc)@),
    ensures
        sorted_times(final(acc)@),
        forall|x: SigaaTime| #[trigger]
            final(acc)@.contains(x) <==> old(acc)@.contains(x) || denotes_at(value@, 1, x),
    decreases value@.len(), 0int,
{
    let first_part = vec![value[0], value[1], value[2], value[3]];
    let mut last_part = vec![value[0], value[1]];
    let mut i: usize = 4;
    while i < value.len()
        invariant
            4 <= i <= value@.len(),
            last_part@ == value@.subrange(0, 2) + value@.subrange(4, i as int),
        decreases value@.len() - i,
    {
        last_part.push(value[i]);
        proof {
            assert(value@.subrange(0, 2) + value@.subrange(4, i + 1) =~= (value@.subrange(0, 2)
                + value@.subrange(4, i as int)).push(value@[i as int]));
        }
        i = i + 1;
    }
    proof {
        assert(first_part@ =~= value@.subrange(0, 4));
        assert(last_part@ =~= value@.subrange(0, 2) + value@.subrange(4, value@.len() as int));
        lemma_hour_split(value@, first_part@, last_part@);
    }
    breakdown(&first_part, 1, acc);
    breakdown(&last_part, 1, acc);
}

/// The shift letter of a well-formed shorthand is the one at `letter_index`.
proof fn lemma_letter_index(s: Seq<char>, k: int)
    requires
        formatted_at(s, k),
    ensures
        letter_index(s) == k,
{
    let k2 = letter_index(s);
    assert(formatted_at(s, k2));
    if k2 < k {
        assert(is_day_char(s[k2]));
    } else if k < k2 {
        assert(is_day_char(s[k]));
    }
}

/// A well-formed shorthand whose period digits pair up into periods of its shift can be
/// expanded, and stands for at least one time code.
pub proof fn lemma_formatted_code_expands(s: Seq<char>)
    requires
        is_formatted_code(s),
        periods_pair_up(s),
    ensures
        expandable_at(s, letter_index(s)),
        exists|t: SigaaTime| shorthand_times(s).contains(t),
{
    let k = letter_index(s);
    assert(formatted_at(s, k));
    assert(turno_of_chars(s[k], s[k + 1 + 2 * 0int], s[k + 2 + 2 * 0int]) is Some);
    match (crate::time::dia_of_char(s[0]), turno_of_chars(s[k], s[k + 1], s[k + 2])) {
        (d, Some(tu)) => {
            let t = SigaaTime { dia: d, turno: tu };
            assert(is_day_char(s[0]));
            assert(dia_char(d) == s[0]);
            crate::time::lemma_turno_chars_round_trip(tu);
            assert(turno_letter(tu) == s[k] && turno_digits(tu).0 == s[k + 1] && turno_digits(
                tu,
            ).1 == s[k + 2]) by {
                assert(turno_of_chars(s[k], s[k + 1], s[k + 2]) == Some(tu));
            }
            assert(lists_day(s, k, dia_char(t.dia)));
            assert(s[k + 2 + 2 * 0int] == s[k + 2]);
            assert(lists_pair(s, k, turno_digits(tu).0, turno_digits(tu).1));
            assert(shorthand_times(s).contains(t));
        },
        (_, None) => {},
    }
}

/// The characters of `s`, one by one.
fn code_chars(s: &str) -> (v: Vec<char>)
    ensures
        v@ == s@,
{
    let n = s.unicode_len();
    let mut v: Vec<char> = Vec::new();
    let mut i: usize = 0;
    while i < n
        invariant
            n == s@.len(),
            i <= n,
            v@ == s@.subrange(0, i as int),
        decreases n - i,
    {
        v.push(s.get_char(i));
        proof {
            assert(s@.subrange(0, i + 1) =~= s@.subrange(0, i as int).push(s@[i as int]));
        }
        i = i + 1;
    }
    assert(v@ =~= s@);
    v
}

/// The number of day digits of a well-formed shorthand: the place of its shift letter.
fn extract_day(texto: &Vec<char>) -> (days: usize)
    requires
        is_formatted_code(texto@),
    ensures
        days == letter_index(texto@),
{
    let ghost k = letter_index(texto@);
    proof {
        assert(formatted_at(texto@, k));
    }
    let mut i: usize = 0;
    while !(texto[i] == 'M' || texto[i] == 'T' || texto[i] == 'N')
        invariant
            formatted_at(texto@, k),
            i <= k,
        decreases k - i,
    {
        assert(is_day_char(texto@[i as int]));
        i = i + 1;
    }
    proof {
        if (i as int) < k {
            assert(is_day_char(texto@[i as int]));
        }
    }
    i
}

/// Whether the period digits after the shift letter at `k` pair up into periods of it.
fn pairs_up(v: &Vec<char>, k: usize) -> (r: bool)
    requires
        formatted_at(v@, k as int),
    ensures
        r == periods_pair_up(v@),
{
    proof {
        lemma_letter_index(v@, k as int);
    }
    if (v.len() - k - 1) % 2 != 0 {
        return false;
    }
    let mut m: usize = 0;
    while k + 2 + 2 * m < v.len()
        invariant
            formatted_at(v@, k as int),
            letter_index(v@) == k,
            (v@.len() - k - 1) % 2 == 0,
            k + 1 + 2 * m <= v@.len(),
            forall|j: int|
                0 <= j < m ==> (turno_of_chars(v@[k as int], v@[k + 1 + 2 * j], #[trigger] v@[k
                    + 2 + 2 * j]) is Some),
        decreases v@.len() - 2 * m,
    {
        match crate::time::Turno::from_chars(v[k], v[k + 1 + 2 * m], v[k + 2 + 2 * m]) {
            Ok(_) => {},
            Err(_) => {
                return false;
            },
        }
        m = m + 1;
    }
    proof {
        assert forall|j: int|
            0 <= j && k + 2 + 2 * j < v@.len() implies (turno_of_chars(
            v@[k as int],
            v@[k + 1 + 2 * j],
            #[trigger] v@[k + 2 + 2 * j],
        ) is Some) by {
            assert(j < m);
        }
    }
    true
}

/// Expands a well-formed shorthand into its time codes, in the order of the week and each
/// once: `"246T12"` gives `2T12`, `4T12`, `6T12`.
pub fn valid_string_to_vec_sigaa_times(valid_string: &str) -> (r: Vec<SigaaTime>)
    requires
        is_expandable(valid_string@),
    ensures
        sorted_times(r@),
        r@.to_set() == shorthand_times(valid_string@),
{
    let value = code_chars(valid_string);
    let days = extract_day(&value);
    proof {
        lemma_formatted_code_expands(value@);
    }
    let mut acc: Vec<SigaaTime> = Vec::new();
    breakdown(&value, days, &mut acc);
    assert(acc@.to_set() =~= shorthand_times(valid_string@));
    acc
}

/// Expands `code` when its period digits pair up into periods of its shift, and gives
/// `None` when they do not.
pub(crate) fn try_expand(code: &str) -> (r: Option<Vec<SigaaTime>>)
    requires
        is_formatted_code(code@),
    ensures
        r is Some <==> periods_pair_up(code@),
        r matches Some(v) ==> sorted_times(v@) && v@.to_set() == shorthand_times(code@),
{
    let value = code_chars(code);
    let days = extract_day(&value);
    proof {
        assert(formatted_at(value@, days as int));
    }
    if !pairs_up(&value, days) {
        return None;
    }
    Some(valid_string_to_vec_sigaa_times(code))
}

} // verus!
