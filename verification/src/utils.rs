//! Text helpers and the system clock.
use vstd::prelude::*;
use vstd::string::{StrSliceExecFns, StringSliceAdditionalSpecFns};
use vstd::utf8::encode_utf8_decode_utf8;
use std::time::{Duration, SystemTime, SystemTimeError};

verus! {

#[verifier::external_type_specification]
#[verifier::external_body]
pub struct ExSystemTime(SystemTime);

#[verifier::external_type_specification]
#[verifier::external_body]
pub struct ExSystemTimeError(SystemTimeError);

// ----- comparing text -----
/// Whether two strings hold the same characters (compared by their bytes).
pub fn text_eq(a: &str, b: &str) -> (r: bool)
    ensures
        r == (a@ == b@),
{
    let x = a.as_bytes();
    let y = b.as_bytes();
    if x.len() != y.len() {
        return false;
    }
    let mut i: usize = 0;
    while i < x.len()
        invariant
            x@ == a.spec_bytes(),
            y@ == b.spec_bytes(),
            x@.len() == y@.len(),
            i <= x@.len(),
            forall|j: int| 0 <= j < i ==> x@[j] == y@[j],
        decreases x@.len() - i,
    {
        if x[i] != y[i] {
            return false;
        }
        i = i + 1;
    }
    proof {
        assert(x@ =~= y@);
        encode_utf8_decode_utf8(a@);
        encode_utf8_decode_utf8(b@);
    }
    true
}

// ----- key=value arguments -----
/// `s` splits at its first `=` into the text before and the text after it.
pub open spec fn spec_split_key_value(s: Seq<char>) -> Option<(Seq<char>, Seq<char>)> {
    if exists|i: int| 0 <= i < s.len() && s[i] == '=' {
        let f = choose|i: int|
            0 <= i < s.len() && s[i] == '=' && forall|j: int| 0 <= j < i ==> s[j] != '=';
        Some((s.take(f), s.skip(f + 1)))
    } else {
        None
    }
}

/// Splits `arg` at its first `=`; `None` when it holds none.
pub fn split_key_value(arg: &str) -> (r: Option<(String, String)>)
    ensures
        match spec_split_key_value(arg@) {
            Some((k, v)) => r matches Some((key, value)) && key@ == k && value@ == v,
            None => r is None,
        },
{
    let n = arg.unicode_len();
    let mut i: usize = 0;
    while i < n
        invariant
            n == arg@.len(),
            i <= n,
            forall|j: int| 0 <= j < i ==> arg@[j] != '=',
        decreases n - i,
    {
        if arg.get_char(i) == '=' {
            let key = arg.substring_char(0, i).to_owned();
            let value = arg.substring_char(i + 1, n).to_owned();
            proof {
                let s = arg@;
                let f = choose|k: int|
                    0 <= k < s.len() && s[k] == '=' && forall|j: int| 0 <= j < k ==> s[j] != '=';
                assert(0 <= i < s.len() && s[i as int] == '=' && forall|j: int|
                    0 <= j < i ==> s[j] != '=');
                assert(f == i as int) by {
                    if f < i {
                        assert(s[f] != '=');
                    } else if f > i {
                        assert(s[i as int] != '=');
                    }
                }
                assert(s.take(f) =~= s.subrange(0, i as int));
                assert(s.skip(f + 1) =~= s.subrange(i + 1, n as int));
            }
            return Some((key, value));
        }
        i = i + 1;
    }
    None
}

/// The value that the last `key=value` argument naming `key` gives it, if
/// any: a later argument overrides an earlier one, and an argument without
/// `=` sets nothing.
pub open spec fn spec_last_setting(args: Seq<Seq<char>>, key: Seq<char>) -> Option<Seq<char>>
    decreases args.len(),
{
    if args.len() == 0 {
        None
    } else {
        match spec_split_key_value(args.last()) {
            Some((k, v)) => if k == key {
                Some(v)
            } else {
                spec_last_setting(args.drop_last(), key)
            },
            None => spec_last_setting(args.drop_last(), key),
        }
    }
}

/// `key=value` splits into `key` and `value` when `key` holds no `=`
/// (the value may hold more).
pub proof fn lemma_split_key_value_of_pair(key: Seq<char>, value: Seq<char>)
    requires
        forall|j: int| 0 <= j < key.len() ==> key[j] != '=',
    ensures
        spec_split_key_value(key + seq!['='] + value) == Some((key, value)),
{
    let s = key + seq!['='] + value;
    let n = key.len() as int;
    assert(s[n] == '=');
    assert(0 <= n < s.len() && s[n] == '=' && forall|j: int| 0 <= j < n ==> s[j] != '=') by {
        assert forall|j: int| 0 <= j < n implies s[j] != '=' by {
            assert(s[j] == key[j]);
        }
    }
    let f = choose|i: int| 0 <= i < s.len() && s[i] == '=' && forall|j: int| 0 <= j < i ==> s[j] != '=';
    assert(f == n) by {
        if f < n {
            assert(s[f] == key[f]);
        } else if f > n {
            assert(s[n] != '=');
        }
    }
    assert(s.take(n) =~= key);
    assert(s.skip(n + 1) =~= value);
}

/// An argument that names `key` sets it to its value unless a later
/// argument names `key` too: every `key=value` argument is looked at, and
/// the last one naming a key wins.
pub proof fn lemma_last_setting_finds(args: Seq<Seq<char>>, key: Seq<char>, i: int, value: Seq<char>)
    requires
        0 <= i < args.len(),
        spec_split_key_value(args[i]) == Some((key, value)),
        forall|j: int| #![trigger args[j]]
            i < j < args.len() ==> !(spec_split_key_value(args[j]) matches Some((k, _)) && k == key),
    ensures
        spec_last_setting(args, key) == Some(value),
    decreases args.len(),
{
    if i < args.len() - 1 {
        let rest = args.drop_last();
        assert(args.last() == args[args.len() - 1]);
        assert forall|j: int| #![trigger rest[j]]
            i < j < rest.len() implies !(spec_split_key_value(rest[j]) matches Some((k, _)) && k
                == key) by {
            assert(rest[j] == args[j]);
        }
        lemma_last_setting_finds(rest, key, i, value);
    }
}

/// A key that no argument names is not set.
pub proof fn lemma_last_setting_absent(args: Seq<Seq<char>>, key: Seq<char>)
    requires
        forall|j: int| #![trigger args[j]]
            0 <= j < args.len() ==> !(spec_split_key_value(args[j]) matches Some((k, _)) && k == key),
    ensures
        spec_last_setting(args, key) is None,
    decreases args.len(),
{
    if args.len() > 0 {
        let rest = args.drop_last();
        assert(args.last() == args[args.len() - 1]);
        assert forall|j: int| #![trigger rest[j]]
            0 <= j < rest.len() implies !(spec_split_key_value(rest[j]) matches Some((k, _)) && k
                == key) by {
            assert(rest[j] == args[j]);
        }
        lemma_last_setting_absent(rest, key);
    }
}

/// The texts of a list of arguments.
pub open spec fn texts(args: Seq<String>) -> Seq<Seq<char>> {
    args.map_values(|a: String| a@)
}

/// The value that the `key=value` arguments give `key`: that of the last
/// one naming it; `None` when none does.
pub fn last_setting(args: &[String], key: &str) -> (r: Option<String>)
    ensures
        match spec_last_setting(texts(args@), key@) {
            Some(v) => r matches Some(s) && s@ == v,
            None => r is None,
        },
{
    let ghost all = texts(args@);
    let mut i: usize = args.len();
    assert(all.take(i as int) =~= all);
    while i > 0
        invariant
            i <= args@.len(),
            all == texts(args@),
            spec_last_setting(all.take(i as int), key@) == spec_last_setting(all, key@),
        decreases i,
    {
        let ghost prefix = all.take(i as int);
        assert(prefix.last() == args@[i - 1]@);
        assert(prefix.drop_last() =~= all.take(i - 1));
        match split_key_value(args[i - 1].as_str()) {
            Some((k, v)) => {
                if text_eq(k.as_str(), key) {
                    return Some(v);
                }
            },
            None => {},
        }
        i = i - 1;
    }
    None
}

// ----- decimal numbers -----
/// Whether `c` is one of the ASCII digits.
pub open spec fn is_digit(c: char) -> bool {
    '0' <= c <= '9'
}

/// The value of a string of ASCII digits, most significant first.
pub open spec fn digits_value(d: Seq<char>) -> nat
    decreases d.len(),
{
    if d.len() == 0 {
        0
    } else {
        digits_value(d.drop_last()) * 10 + ((d.last() as u32) - 48) as nat
    }
}

/// Whether every character of `d` is an ASCII digit.
pub open spec fn all_digits(d: Seq<char>) -> bool {
    forall|i: int| 0 <= i < d.len() ==> is_digit(#[trigger] d[i])
}

/// `s` without a leading `+`.
pub open spec fn unsigned_digits(s: Seq<char>) -> Seq<char> {
    if s.len() > 0 && s[0] == '+' {
        s.drop_first()
    } else {
        s
    }
}

/// What `str::parse::<u64>` accepts: an optional `+`, then one or more ASCII
/// digits whose value fits in 64 bits.
pub open spec fn spec_parse_u64(s: Seq<char>) -> Option<u64> {
    let d = unsigned_digits(s);
    if d.len() == 0 || !all_digits(d) {
        None
    } else if digits_value(d) > u64::MAX {
        None
    } else {
        Some(digits_value(d) as u64)
    }
}

/// The value of a prefix only grows as digits are added.
proof fn lemma_digits_value_monotone(d: Seq<char>, k: int)
    requires
        0 <= k <= d.len(),
        all_digits(d),
    ensures
        digits_value(d.take(k)) <= digits_value(d),
    decreases d.len() - k,
{
    if k < d.len() {
        lemma_digits_value_monotone(d, k + 1);
        assert(d.take(k + 1).drop_last() =~= d.take(k));
    } else {
        assert(d.take(k) =~= d);
    }
}

/// Once the digits read so far are worth more than 64 bits hold, the whole
/// input fails to parse.
proof fn lemma_overflow_fails(d: Seq<char>, k: int)
    requires
        0 < k <= d.len(),
        digits_value(d.take(k)) > u64::MAX,
    ensures
        d.len() == 0 || !all_digits(d) || digits_value(d) > u64::MAX,
{
    if all_digits(d) {
        lemma_digits_value_monotone(d, k);
    }
}

/// Reads a decimal `u64` as `str::parse::<u64>` does; `None` where it would
/// fail.
pub fn parse_u64(s: &str) -> (r: Option<u64>)
    ensures
        r == spec_parse_u64(s@),
{
    let n = s.unicode_len();
    let start: usize = if n > 0 && s.get_char(0) == '+' {
        1
    } else {
        0
    };
    let ghost d = unsigned_digits(s@);
    assert(d =~= s@.skip(start as int));
    if start == n {
        return None;
    }
    let mut v: u64 = 0;
    let mut i: usize = start;
    while i < n
        invariant
            n == s@.len(),
            start <= i <= n,
            d == s@.skip(start as int),
            d == unsigned_digits(s@),
            forall|j: int| 0 <= j < i - start ==> is_digit(d[j]),
            v as nat == digits_value(d.take(i - start)),
        decreases n - i,
    {
        let c = s.get_char(i);
        assert(d[i - start] == c);
        if !('0' <= c && c <= '9') {
            assert(!is_digit(d[i - start]));
            assert(!all_digits(d));
            return None;
        }
        let digit = (c as u32 - 48) as u64;
        assert(d.take(i + 1 - start).drop_last() =~= d.take(i - start));
        assert(d.take(i + 1 - start).last() == c);
        assert(digits_value(d.take(i + 1 - start)) == v * 10 + digit);
        match v.checked_mul(10) {
            Some(t) => match t.checked_add(digit) {
                Some(w) => v = w,
                None => {
                    proof {
                        lemma_overflow_fails(d, i + 1 - start);
                    }
                    return None;
                },
            },
            None => {
                proof {
                    lemma_overflow_fails(d, i + 1 - start);
                }
                return None;
            },
        }
        i = i + 1;
    }
    assert(d.take(n - start) =~= d);
    Some(v)
}

// ----- the clock -----
/// `SystemTime::now`: the system clock's current time. Nothing is stated
/// of it.
#[verifier::external_body]
fn system_now() -> SystemTime {
    SystemTime::now()
}

/// `SystemTime::duration_since(UNIX_EPOCH)`: fails when the time is before
/// the epoch. Nothing is stated of the duration.
#[verifier::external_body]
fn since_unix_epoch(t: &SystemTime) -> Result<Duration, SystemTimeError> {
    t.duration_since(std::time::UNIX_EPOCH)
}

/// `Duration::as_secs`: the whole seconds of a duration.
#[verifier::external_body]
fn whole_seconds(d: &Duration) -> u64 {
    d.as_secs()
}

/// The current time in whole seconds since the Unix epoch; `None` when the
/// clock reads a time before the epoch.
pub fn ts() -> Option<u64> {
    match since_unix_epoch(&system_now()) {
        Ok(d) => Some(whole_seconds(&d)),
        Err(_) => None,
    }
}

/// The ASCII digit of `d`.
pub open spec fn digit_char(d: int) -> char {
    seq!['0', '1', '2', '3', '4', '5', '6', '7', '8', '9'][d]
}

/// `n` (below 100) in two digits.
pub open spec fn two_digits(n: int) -> Seq<char> {
    seq![digit_char(n / 10), digit_char(n % 10)]
}

/// The time of day, `HH:MM:SS` (UTC), of a count of seconds since the Unix
/// epoch.
pub open spec fn spec_hhmmss(total_secs: u64) -> Seq<char> {
    let t = total_secs as int;
    two_digits((t / 3600) % 24) + seq![':'] + two_digits((t / 60) % 60) + seq![':'] + two_digits(
        t % 60,
    )
}

fn digit_text(d: u64) -> (r: &'static str)
    requires
        d < 10,
    ensures
        r@ == seq![digit_char(d as int)],
{
    if d == 0 {
        proof { reveal_strlit("0"); }
        "0"
    } else if d == 1 {
        proof { reveal_strlit("1"); }
        "1"
    } else if d == 2 {
        proof { reveal_strlit("2"); }
        "2"
    } else if d == 3 {
        proof { reveal_strlit("3"); }
        "3"
    } else if d == 4 {
        proof { reveal_strlit("4"); }
        "4"
    } else if d == 5 {
        proof { reveal_strlit("5"); }
        "5"
    } else if d == 6 {
        proof { reveal_strlit("6"); }
        "6"
    } else if d == 7 {
        proof { reveal_strlit("7"); }
        "7"
    } else if d == 8 {
        proof { reveal_strlit("8"); }
        "8"
    } else {
        proof { reveal_strlit("9"); }
        "9"
    }
}

fn push_two_digits(out: &mut String, n: u64)
    requires
        n < 100,
    ensures
        final(out)@ == old(out)@ + two_digits(n as int),
{
    out.append(digit_text(n / 10));
    out.append(digit_text(n % 10));
}

/// `HH:MM:SS` for a count of seconds since the Unix epoch.
pub fn hhmmss_of(total_secs: u64) -> (r: String)
    ensures
        r@ == spec_hhmmss(total_secs),
{
    let mut out = String::new();
    push_two_digits(&mut out, (total_secs / 3600) % 24);
    proof { reveal_strlit(":"); }
    out.append(":");
    push_two_digits(&mut out, (total_secs / 60) % 60);
    out.append(":");
    push_two_digits(&mut out, total_secs % 60);
    out
}

/// The current time of day, `HH:MM:SS` (UTC); `None` when the clock reads a
/// time before the Unix epoch.
pub fn hhmmss() -> (r: Option<String>)
    ensures
        r matches Some(s) ==> exists|t: u64| s@ == spec_hhmmss(t),
{
    match ts() {
        Some(t) => Some(hhmmss_of(t)),
        None => None,
    }
}

} // verus!
