//! String ordering and parsing helpers shared by the other components.

use vstd::prelude::*;

use crate::environment::{spec_detect, CIPlatform, EnvironmentMap};

pub use crate::git::{get_repo_description, get_repo_head};
pub use crate::krono::strptime;

verus! {

#[verifier::external_type_specification]
#[verifier::external_body]
pub struct ExVersion(semver::Version);

/// Whether semver accepts `s` as a version, a function of the text
/// alone.
pub uninterp spec fn semver_accepts(s: Seq<char>) -> bool;

/// Relies on semver::Version::parse, which succeeds exactly on the
/// strings the semver grammar accepts.
#[verifier::external_body]
fn parse_semver(s: &str) -> (r: Option<semver::Version>)
    ensures
        (r is Some) == semver_accepts(s@),
{
    match semver::Version::parse(s) {
        Ok(v) => Some(v),
        Err(_) => None,
    }
}

/// Parses serialized (name, version) pairs as the generated output
/// records them, keeping each name in order; the parse succeeds exactly
/// when semver accepts every version string.
pub fn parse_versions(name_and_versions: &Vec<(String, String)>) -> (r: Option<
    Vec<(String, semver::Version)>,
>)
    ensures
        (r is Some) == (forall|i: int|
            0 <= i < name_and_versions.deep_view().len() ==> semver_accepts(
                #[trigger] name_and_versions.deep_view()[i].1,
            )),
        r matches Some(v) ==> v@.len() == name_and_versions@.len() && forall|i: int|
            0 <= i < v@.len() ==> (#[trigger] v@[i]).0@ == name_and_versions.deep_view()[i].0,
{
    let mut out: Vec<(String, semver::Version)> = Vec::new();
    let n = name_and_versions.len();
    let mut i: usize = 0;
    while i < n
        invariant
            i <= n,
            n == name_and_versions@.len(),
            out@.len() == i,
            forall|j: int|
                0 <= j < i ==> semver_accepts(#[trigger] name_and_versions.deep_view()[j].1),
            forall|j: int|
                0 <= j < i ==> (#[trigger] out@[j]).0@ == name_and_versions.deep_view()[j].0,
        decreases n - i,
    {
        let p = &name_and_versions[i];
        match parse_semver(p.1.as_str()) {
            Some(ver) => {
                out.push((p.0.clone(), ver));
            },
            None => {
                proof {
                    assert(!semver_accepts(name_and_versions.deep_view()[i as int].1));
                }
                return None;
            },
        }
        i = i + 1;
    }
    Some(out)
}

/// Detects execution on a continuous-integration platform from the
/// snapshot's marker variables; see `EnvironmentMap::detect_ci`.
#[must_use]
pub fn detect_ci(env: &mut EnvironmentMap) -> (r: Option<CIPlatform>)
    requires
        old(env).wf(),
    ensures
        final(env).wf(),
        final(env).keys() == old(env).keys(),
        final(env).vals() == old(env).vals(),
        final(env).prefix() == old(env).prefix(),
        r == spec_detect(*old(env)),
        forall|i: int|
            0 <= i < old(env).states().len() ==> old(env).states()[i].spec_le(
                #[trigger] final(env).states()[i],
            ),
{
    env.detect_ci()
}

/// Strict lexicographic order on character sequences.
pub open spec fn chars_lt(a: Seq<char>, b: Seq<char>) -> bool
    decreases a.len(),
{
    if b.len() == 0 {
        false
    } else if a.len() == 0 {
        true
    } else if a[0] != b[0] {
        a[0] < b[0]
    } else {
        chars_lt(a.skip(1), b.skip(1))
    }
}

/// Compares two strings in lexicographic character order; returns a
/// negative outcome exactly when `a` sorts strictly before `b`.
pub fn str_lt(a: &str, b: &str) -> (r: bool)
    ensures
        r == chars_lt(a@, b@),
{
    let a_len = a.unicode_len();
    let b_len = b.unicode_len();
    let mut i: usize = 0;
    proof {
        assert(a@.skip(0) =~= a@);
        assert(b@.skip(0) =~= b@);
    }
    loop
        invariant
            i <= a_len,
            i <= b_len,
            a_len == a@.len(),
            b_len == b@.len(),
            forall|j: int| 0 <= j < i ==> a@[j] == b@[j],
            chars_lt(a@, b@) == chars_lt(a@.skip(i as int), b@.skip(i as int)),
        decreases a_len - i,
    {
        if i == b_len {
            return false;
        }
        if i == a_len {
            return true;
        }
        let ca = a.get_char(i);
        let cb = b.get_char(i);
        if ca != cb {
            return ca < cb;
        }
        proof {
            assert(a@.skip(i as int).skip(1) =~= a@.skip(i + 1));
            assert(b@.skip(i as int).skip(1) =~= b@.skip(i + 1));
        }
        i = i + 1;
    }
}

/// Non-strict lexicographic order.
pub open spec fn chars_le(a: Seq<char>, b: Seq<char>) -> bool {
    !chars_lt(b, a)
}

/// Of two character sequences, exactly one of `a < b`, `a == b`, `b < a`
/// holds: the lexicographic order is total.
pub proof fn lemma_chars_trichotomy(a: Seq<char>, b: Seq<char>)
    ensures
        chars_lt(a, b) || chars_lt(b, a) || a == b,
        !(chars_lt(a, b) && chars_lt(b, a)),
        chars_lt(a, b) ==> a != b,
    decreases a.len() + b.len(),
{
    if a.len() > 0 && b.len() > 0 && a[0] == b[0] {
        lemma_chars_trichotomy(a.skip(1), b.skip(1));
        if a.skip(1) == b.skip(1) {
            assert(a.len() == b.len());
            assert forall|i: int| 0 <= i < a.len() implies a[i] == b[i] by {
                if i >= 1 {
                    assert(a[i] == a.skip(1)[i - 1]);
                    assert(b[i] == b.skip(1)[i - 1]);
                }
            }
            assert(a =~= b);
        }
        if a == b {
            assert(a.skip(1) =~= b.skip(1));
        }
    }
}

/// The lexicographic order is transitive.
pub proof fn lemma_chars_lt_trans(a: Seq<char>, b: Seq<char>, c: Seq<char>)
    requires
        chars_lt(a, b),
        chars_lt(b, c),
    ensures
        chars_lt(a, c),
    decreases a.len() + b.len() + c.len(),
{
    if a.len() > 0 && b.len() > 0 && c.len() > 0 && a[0] == b[0] && b[0] == c[0] {
        lemma_chars_lt_trans(a.skip(1), b.skip(1), c.skip(1));
    }
}

/// A strict step composed with `chars_le` stays strict.
pub proof fn lemma_chars_lt_le_trans(a: Seq<char>, b: Seq<char>, c: Seq<char>)
    requires
        chars_lt(a, b),
        chars_le(b, c),
    ensures
        chars_lt(a, c),
{
    lemma_chars_trichotomy(b, c);
    if b == c {
    } else {
        lemma_chars_lt_trans(a, b, c);
    }
}

/// Sorted in non-decreasing lexicographic order.
pub open spec fn strs_sorted(s: Seq<Seq<char>>) -> bool {
    forall|i: int, j: int| 0 <= i < j < s.len() ==> chars_le(s[i], s[j])
}

/// Inserts `x` into a sorted vector, keeping it sorted.
fn insert_sorted_string(out: &mut Vec<String>, x: String)
    requires
        strs_sorted(old(out).deep_view()),
    ensures
        strs_sorted(final(out).deep_view()),
        final(out).deep_view().to_multiset() == old(out).deep_view().to_multiset().insert(x@),
{
    broadcast use vstd::seq_lib::group_to_multiset_ensures;

    let n = out.len();
    let mut i: usize = 0;
    while i < n && !str_lt(x.as_str(), out[i].as_str())
        invariant
            i <= n,
            n == out.len(),
            *out == *old(out),
            strs_sorted(out.deep_view()),
            forall|k: int| 0 <= k < i ==> chars_le(#[trigger] out.deep_view()[k], x@),
        decreases n - i,
    {
        i = i + 1;
    }
    let ghost prev = out.deep_view();
    let ghost pos = i as int;
    out.insert(i, x);
    proof {
        let dv = out.deep_view();
        assert(dv =~= prev.insert(pos, x@));
        assert(dv =~= prev.take(pos).push(x@) + prev.skip(pos));
        vstd::seq_lib::lemma_multiset_commutative(prev.take(pos).push(x@), prev.skip(pos));
        vstd::seq_lib::lemma_multiset_commutative(prev.take(pos), prev.skip(pos));
        assert(prev =~= prev.take(pos) + prev.skip(pos));
        assert(dv.to_multiset() =~= prev.to_multiset().insert(x@));
        assert forall|a: int, b: int| 0 <= a < b < dv.len() implies chars_le(dv[a], dv[b]) by {
            if b < pos {
            } else if b == pos {
                assert(dv[a] == prev[a] && chars_le(prev[a], x@));
            } else if a == pos {
                let c = prev[b - 1];
                assert(dv[b] == c);
                assert(pos < prev.len());
                assert(chars_lt(x@, prev[pos]));
                if b - 1 > pos {
                    assert(chars_le(prev[pos], c));
                    lemma_chars_lt_le_trans(x@, prev[pos], c);
                }
                lemma_chars_trichotomy(x@, c);
            } else if a < pos {
                assert(dv[a] == prev[a] && dv[b] == prev[b - 1]);
                assert(chars_le(prev[a], prev[b - 1]));
            } else {
                assert(dv[a] == prev[a - 1] && dv[b] == prev[b - 1]);
                assert(chars_le(prev[a - 1], prev[b - 1]));
            }
        }
    }
}

/// Sorts strings in non-decreasing lexicographic order; the result is a
/// rearrangement of the input.
pub fn sort_strings(v: Vec<String>) -> (r: Vec<String>)
    ensures
        strs_sorted(r.deep_view()),
        r.deep_view().to_multiset() == v.deep_view().to_multiset(),
{
    broadcast use vstd::seq_lib::group_to_multiset_ensures;

    let mut rest = v;
    let mut out: Vec<String> = Vec::new();
    proof {
        assert(out.deep_view() =~= Seq::<Seq<char>>::empty());
        assert(out.deep_view().to_multiset().add(rest.deep_view().to_multiset()) =~= v.deep_view().to_multiset());
    }
    while rest.len() > 0
        invariant
            strs_sorted(out.deep_view()),
            out.deep_view().to_multiset().add(rest.deep_view().to_multiset()) == v.deep_view().to_multiset(),
        decreases rest.len(),
    {
        let ghost rest_prev = rest.deep_view();
        let x = rest.pop().unwrap();
        proof {
            assert(rest.deep_view() =~= rest_prev.drop_last());
            assert(rest_prev =~= rest.deep_view().push(x@));
        }
        let ghost out_prev = out.deep_view();
        insert_sorted_string(&mut out, x);
        proof {
            rest.deep_view().to_multiset_ensures();
            assert(rest.deep_view().push(x@).to_multiset() =~= rest.deep_view().to_multiset().insert(x@));
            assert(rest_prev.to_multiset() == rest.deep_view().to_multiset().insert(x@));
            assert(out.deep_view().to_multiset() == out_prev.to_multiset().insert(x@));
            assert(out.deep_view().to_multiset().add(rest.deep_view().to_multiset())
                =~= out_prev.to_multiset().add(rest_prev.to_multiset()));
        }
    }
    proof {
        assert(rest.deep_view() =~= Seq::<Seq<char>>::empty());
        assert(out.deep_view().to_multiset() =~= v.deep_view().to_multiset());
    }
    out
}

/// Error returned when an override value does not parse as the requested
/// type.  The offending key and value are reported by the caller that
/// looked the override up, so the parse error itself carries no data.
#[derive(Clone, Copy, Debug, PartialEq, Eq, Structural)]
pub struct ParseError;

/// Types that an override variable can be parsed into.
///
/// `parse_spec` is the mathematical description of the accepted grammar:
/// `None` for rejected text, otherwise the abstract value.  The executable
/// parser is proved to decide exactly that function.
pub trait ParseFromEnv<'a>: Sized + DeepView {
    spec fn parse_spec(s: Seq<char>) -> Option<Self::V>;

    fn parse_from_env(s: &'a str) -> (r: Result<Self, ParseError>)
        ensures
            match r {
                Ok(v) => Self::parse_spec(s@) == Some(v.deep_view()),
                Err(_) => Self::parse_spec(s@) is None,
            };

    /// Decides, without constructing the value, whether `s` parses.
    fn parse_check(s: &str) -> (r: bool)
        ensures
            r == (Self::parse_spec(s@) is Some);
}

impl<'a> ParseFromEnv<'a> for &'a str {
    open spec fn parse_spec(s: Seq<char>) -> Option<Seq<char>> {
        Some(s)
    }

    fn parse_from_env(s: &'a str) -> (r: Result<Self, ParseError>) {
        Ok(s)
    }

    fn parse_check(s: &str) -> (r: bool) {
        true
    }
}

impl<'a> ParseFromEnv<'a> for String {
    open spec fn parse_spec(s: Seq<char>) -> Option<Seq<char>> {
        Some(s)
    }

    fn parse_from_env(s: &'a str) -> (r: Result<Self, ParseError>) {
        Ok(s.to_owned())
    }

    fn parse_check(s: &str) -> (r: bool) {
        true
    }
}

/// A decimal digit.
pub open spec fn is_digit(c: char) -> bool {
    '0' <= c && c <= '9'
}

pub open spec fn digit_val(c: char) -> int {
    c as int - '0' as int
}

pub open spec fn all_digits(s: Seq<char>) -> bool {
    forall|i: int| 0 <= i < s.len() ==> is_digit(s[i])
}

/// Numeric value of a digit string, most significant digit first.
pub open spec fn digits_num(s: Seq<char>) -> int
    decreases s.len(),
{
    if s.len() == 0 {
        0
    } else {
        digits_num(s.drop_last()) * 10 + digit_val(s.last())
    }
}

/// Value of a non-empty all-digit string; `None` for anything else.
pub open spec fn digits_val(s: Seq<char>) -> Option<int> {
    if s.len() > 0 && all_digits(s) {
        Some(digits_num(s))
    } else {
        None
    }
}

/// The integer denoted by `s` under standard decimal parsing: an optional
/// sign (`-` only when `signed`), at least one digit, and a value within
/// `[lo, hi]`.  Anything else is rejected.
pub open spec fn int_spec(s: Seq<char>, lo: int, hi: int, signed: bool) -> Option<int> {
    if s.len() == 0 {
        None
    } else {
        let neg = signed && s[0] == '-';
        let mag = if s[0] == '-' && signed {
            s.skip(1)
        } else if s[0] == '+' {
            s.skip(1)
        } else {
            s
        };
        match digits_val(mag) {
            Some(v) => {
                let sv = if neg {
                    -v
                } else {
                    v
                };
                if lo <= sv && sv <= hi {
                    Some(sv)
                } else {
                    None
                }
            },
            None => None,
        }
    }
}

proof fn lemma_digits_num_nonneg(s: Seq<char>)
    requires
        all_digits(s),
    ensures
        digits_num(s) >= 0,
    decreases s.len(),
{
    if s.len() > 0 {
        assert(all_digits(s.drop_last())) by {
            assert(forall|i: int|
                0 <= i < s.len() - 1 ==> s.drop_last()[i] == s[i] && is_digit(s[i]));
        }
        lemma_digits_num_nonneg(s.drop_last());
    }
}

/// A digit prefix never exceeds the whole digit string in value.
proof fn lemma_digits_num_prefix(s: Seq<char>, i: int)
    requires
        all_digits(s),
        0 <= i <= s.len(),
    ensures
        digits_num(s.take(i)) <= digits_num(s),
    decreases s.len() - i,
{
    if i == s.len() {
        assert(s.take(i) =~= s);
    } else {
        lemma_digits_num_prefix(s, i + 1);
        assert(s.take(i + 1).drop_last() =~= s.take(i));
        assert(s.take(i + 1).last() == s[i]);
        assert(all_digits(s.take(i))) by {
            assert(forall|j: int| 0 <= j < i ==> s.take(i)[j] == s[j] && is_digit(s[j]));
        }
        lemma_digits_num_nonneg(s.take(i));
        assert(is_digit(s[i]));
        assert(digit_val(s[i]) >= 0);
        assert(digits_num(s.take(i)) * 10 >= digits_num(s.take(i))) by (nonlinear_arith)
            requires digits_num(s.take(i)) >= 0;
        assert(digits_num(s.take(i + 1)) == digits_num(s.take(i)) * 10 + digit_val(s[i]));
    }
}

/// Accumulates the decimal digits of `s` from position `start` on.
/// Returns `None` if the tail is empty, contains a non-digit, or denotes
/// a value above `u64::MAX`.
fn parse_digits_u64(s: &str, start: usize) -> (r: Option<u64>)
    requires
        start <= s@.len(),
    ensures
        match r {
            Some(v) => digits_val(s@.skip(start as int)) == Some(v as int),
            None => !(digits_val(s@.skip(start as int)) matches Some(v) && v <= u64::MAX),
        },
{
    let ghost sub = s@.skip(start as int);
    let n = s.unicode_len();
    if start == n {
        return None;
    }
    let mut acc: u64 = 0;
    let mut j: usize = 0;
    proof {
        assert(sub.take(0) =~= Seq::<char>::empty());
    }
    while start + j < n
        invariant
            start + j <= n,
            n == s@.len(),
            sub == s@.skip(start as int),
            sub.len() == n - start,
            acc as int == digits_num(sub.take(j as int)),
            forall|k: int| 0 <= k < j ==> is_digit(sub[k]),
        decreases n - start - j,
    {
        let c = s.get_char(start + j);
        proof {
            assert(sub[j as int] == s@[start + j]);
        }
        if !(c >= '0' && c <= '9') {
            proof {
                assert(!all_digits(sub));
            }
            return None;
        }
        let d: u64 = (c as u32 - '0' as u32) as u64;
        proof {
            assert(d as int == digit_val(sub[j as int]));
            assert(sub.take(j + 1).drop_last() =~= sub.take(j as int));
            assert(sub.take(j + 1).last() == sub[j as int]);
        }
        if acc > (u64::MAX - d) / 10 {
            proof {
                let m = u64::MAX as int;
                assert(acc * 10 + d > m) by (nonlinear_arith)
                    requires
                        acc as int > (m - d) / 10,
                        0 <= d <= 9,
                        m == u64::MAX as int,
                ;
                if all_digits(sub) {
                    lemma_digits_num_prefix(sub, j + 1);
                }
            }
            return None;
        }
        proof {
            assert(acc * 10 + d <= u64::MAX) by (nonlinear_arith)
                requires
                    acc as int <= (u64::MAX as int - d) / 10,
                    0 <= d <= 9,
            ;
        }
        acc = acc * 10 + d;
        j = j + 1;
    }
    proof {
        assert(sub.take(j as int) =~= sub);
    }
    Some(acc)
}

/// Parses a signed decimal integer constrained to `[lo, hi]`.
fn parse_signed(s: &str, lo: i64, hi: i64) -> (r: Result<i64, ParseError>)
    requires
        lo <= 0 <= hi,
    ensures
        match r {
            Ok(v) => int_spec(s@, lo as int, hi as int, true) == Some(v as int),
            Err(_) => int_spec(s@, lo as int, hi as int, true) is None,
        },
{
    let n = s.unicode_len();
    if n == 0 {
        return Err(ParseError);
    }
    let c0 = s.get_char(0);
    let neg = c0 == '-';
    let start: usize = if c0 == '-' || c0 == '+' {
        1
    } else {
        0
    };
    proof {
        if start == 0 {
            assert(s@.skip(0) =~= s@);
        }
    }
    match parse_digits_u64(s, start) {
        None => Err(ParseError),
        Some(mag) => {
            if neg {
                if mag <= i64::MAX as u64 {
                    let v = -(mag as i64);
                    if v >= lo {
                        Ok(v)
                    } else {
                        Err(ParseError)
                    }
                } else if mag == i64::MAX as u64 + 1 {
                    if lo == i64::MIN {
                        Ok(i64::MIN)
                    } else {
                        Err(ParseError)
                    }
                } else {
                    Err(ParseError)
                }
            } else {
                if mag <= hi as u64 {
                    Ok(mag as i64)
                } else {
                    Err(ParseError)
                }
            }
        },
    }
}

/// Parses an unsigned decimal integer constrained to `[0, hi]`.
fn parse_unsigned(s: &str, hi: u64) -> (r: Result<u64, ParseError>)
    ensures
        match r {
            Ok(v) => int_spec(s@, 0, hi as int, false) == Some(v as int),
            Err(_) => int_spec(s@, 0, hi as int, false) is None,
        },
{
    let n = s.unicode_len();
    if n == 0 {
        return Err(ParseError);
    }
    let c0 = s.get_char(0);
    let start: usize = if c0 == '+' {
        1
    } else {
        0
    };
    proof {
        if start == 0 {
            assert(s@.skip(0) =~= s@);
        }
        if c0 == '-' {
            assert(!all_digits(s@));
        }
    }
    match parse_digits_u64(s, start) {
        None => Err(ParseError),
        Some(mag) => {
            if mag <= hi {
                Ok(mag)
            } else {
                Err(ParseError)
            }
        },
    }
}

impl<'a> ParseFromEnv<'a> for i64 {
    open spec fn parse_spec(s: Seq<char>) -> Option<i64> {
        match int_spec(s, i64::MIN as int, i64::MAX as int, true) {
            Some(v) => Some(v as i64),
            None => None,
        }
    }

    fn parse_from_env(s: &'a str) -> (r: Result<Self, ParseError>) {
        parse_signed(s, i64::MIN, i64::MAX)
    }

    fn parse_check(s: &str) -> (r: bool) {
        matches!(parse_signed(s, i64::MIN, i64::MAX), Ok(_))
    }
}

impl<'a> ParseFromEnv<'a> for i32 {
    open spec fn parse_spec(s: Seq<char>) -> Option<i32> {
        match int_spec(s, i32::MIN as int, i32::MAX as int, true) {
            Some(v) => Some(v as i32),
            None => None,
        }
    }

    fn parse_from_env(s: &'a str) -> (r: Result<Self, ParseError>) {
        match parse_signed(s, i32::MIN as i64, i32::MAX as i64) {
            Ok(v) => Ok(v as i32),
            Err(e) => Err(e),
        }
    }

    fn parse_check(s: &str) -> (r: bool) {
        matches!(parse_signed(s, i32::MIN as i64, i32::MAX as i64), Ok(_))
    }
}

impl<'a> ParseFromEnv<'a> for i16 {
    open spec fn parse_spec(s: Seq<char>) -> Option<i16> {
        match int_spec(s, i16::MIN as int, i16::MAX as int, true) {
            Some(v) => Some(v as i16),
            None => None,
        }
    }

    fn parse_from_env(s: &'a str) -> (r: Result<Self, ParseError>) {
        match parse_signed(s, i16::MIN as i64, i16::MAX as i64) {
            Ok(v) => Ok(v as i16),
            Err(e) => Err(e),
        }
    }

    fn parse_check(s: &str) -> (r: bool) {
        matches!(parse_signed(s, i16::MIN as i64, i16::MAX as i64), Ok(_))
    }
}

impl<'a> ParseFromEnv<'a> for i8 {
    open spec fn parse_spec(s: Seq<char>) -> Option<i8> {
        match int_spec(s, i8::MIN as int, i8::MAX as int, true) {
            Some(v) => Some(v as i8),
            None => None,
        }
    }

    fn parse_from_env(s: &'a str) -> (r: Result<Self, ParseError>) {
        match parse_signed(s, i8::MIN as i64, i8::MAX as i64) {
            Ok(v) => Ok(v as i8),
            Err(e) => Err(e),
        }
    }

    fn parse_check(s: &str) -> (r: bool) {
        matches!(parse_signed(s, i8::MIN as i64, i8::MAX as i64), Ok(_))
    }
}

impl<'a> ParseFromEnv<'a> for u64 {
    open spec fn parse_spec(s: Seq<char>) -> Option<u64> {
        match int_spec(s, 0, u64::MAX as int, false) {
            Some(v) => Some(v as u64),
            None => None,
        }
    }

    fn parse_from_env(s: &'a str) -> (r: Result<Self, ParseError>) {
        parse_unsigned(s, u64::MAX)
    }

    fn parse_check(s: &str) -> (r: bool) {
        matches!(parse_unsigned(s, u64::MAX), Ok(_))
    }
}

impl<'a> ParseFromEnv<'a> for u32 {
    open spec fn parse_spec(s: Seq<char>) -> Option<u32> {
        match int_spec(s, 0, u32::MAX as int, false) {
            Some(v) => Some(v as u32),
            None => None,
        }
    }

    fn parse_from_env(s: &'a str) -> (r: Result<Self, ParseError>) {
        match parse_unsigned(s, u32::MAX as u64) {
            Ok(v) => Ok(v as u32),
            Err(e) => Err(e),
        }
    }

    fn parse_check(s: &str) -> (r: bool) {
        matches!(parse_unsigned(s, u32::MAX as u64), Ok(_))
    }
}

impl<'a> ParseFromEnv<'a> for u16 {
    open spec fn parse_spec(s: Seq<char>) -> Option<u16> {
        match int_spec(s, 0, u16::MAX as int, false) {
            Some(v) => Some(v as u16),
            None => None,
        }
    }

    fn parse_from_env(s: &'a str) -> (r: Result<Self, ParseError>) {
        match parse_unsigned(s, u16::MAX as u64) {
            Ok(v) => Ok(v as u16),
            Err(e) => Err(e),
        }
    }

    fn parse_check(s: &str) -> (r: bool) {
        matches!(parse_unsigned(s, u16::MAX as u64), Ok(_))
    }
}

impl<'a> ParseFromEnv<'a> for u8 {
    open spec fn parse_spec(s: Seq<char>) -> Option<u8> {
        match int_spec(s, 0, u8::MAX as int, false) {
            Some(v) => Some(v as u8),
            None => None,
        }
    }

    fn parse_from_env(s: &'a str) -> (r: Result<Self, ParseError>) {
        match parse_unsigned(s, u8::MAX as u64) {
            Ok(v) => Ok(v as u8),
            Err(e) => Err(e),
        }
    }

    fn parse_check(s: &str) -> (r: bool) {
        matches!(parse_unsigned(s, u8::MAX as u64), Ok(_))
    }
}

impl<'a> ParseFromEnv<'a> for bool {
    open spec fn parse_spec(s: Seq<char>) -> Option<bool> {
        if s == "true"@ {
            Some(true)
        } else if s == "false"@ {
            Some(false)
        } else {
            None
        }
    }

    fn parse_from_env(s: &'a str) -> (r: Result<Self, ParseError>) {
        if str_eq(s, "true") {
            Ok(true)
        } else if str_eq(s, "false") {
            Ok(false)
        } else {
            Err(ParseError)
        }
    }

    fn parse_check(s: &str) -> (r: bool) {
        str_eq(s, "true") || str_eq(s, "false")
    }
}

/// A character with the Unicode `White_Space` property, the set that
/// list segments are trimmed by.
pub open spec fn is_space(c: char) -> bool {
    ||| c == ' '
    ||| c == '\t'
    ||| c == '\n'
    ||| c == '\r'
    ||| c == '\u{b}'
    ||| c == '\u{c}'
    ||| c == '\u{85}'
    ||| c == '\u{a0}'
    ||| c == '\u{1680}'
    ||| ('\u{2000}' <= c && c <= '\u{200a}')
    ||| c == '\u{2028}'
    ||| c == '\u{2029}'
    ||| c == '\u{202f}'
    ||| c == '\u{205f}'
    ||| c == '\u{3000}'
}

/// Number of leading whitespace characters.
pub open spec fn leading_spaces(s: Seq<char>) -> int
    decreases s.len(),
{
    if s.len() == 0 || !is_space(s[0]) {
        0
    } else {
        1 + leading_spaces(s.skip(1))
    }
}

/// Number of trailing whitespace characters.
pub open spec fn trailing_spaces(s: Seq<char>) -> int
    decreases s.len(),
{
    if s.len() == 0 || !is_space(s.last()) {
        0
    } else {
        1 + trailing_spaces(s.drop_last())
    }
}

/// `s` with leading and trailing whitespace removed.
pub open spec fn trimmed(s: Seq<char>) -> Seq<char> {
    if leading_spaces(s) == s.len() {
        Seq::empty()
    } else {
        s.subrange(leading_spaces(s), s.len() - trailing_spaces(s))
    }
}

proof fn lemma_leading_spaces_at(s: Seq<char>, i: int)
    requires
        0 <= i <= s.len(),
        forall|k: int| 0 <= k < i ==> is_space(s[k]),
        i < s.len() ==> !is_space(s[i]),
    ensures
        leading_spaces(s) == i,
    decreases i,
{
    if i == 0 {
    } else {
        assert(is_space(s[0]));
        let t = s.skip(1);
        assert(forall|k: int| 0 <= k < i - 1 ==> t[k] == s[k + 1] && is_space(s[k + 1]));
        assert(i - 1 < t.len() ==> t[i - 1] == s[i]);
        lemma_leading_spaces_at(t, i - 1);
    }
}

proof fn lemma_trailing_spaces_at(s: Seq<char>, i: int)
    requires
        0 <= i <= s.len(),
        forall|k: int| s.len() - i <= k < s.len() ==> is_space(s[k]),
        i < s.len() ==> !is_space(s[s.len() - i - 1]),
    ensures
        trailing_spaces(s) == i,
    decreases i,
{
    if i == 0 {
    } else {
        assert(is_space(s.last()));
        let t = s.drop_last();
        assert(forall|k: int| t.len() - (i - 1) <= k < t.len() ==> t[k] == s[k] && is_space(s[k]));
        lemma_trailing_spaces_at(t, i - 1);
    }
}

fn is_space_exec(c: char) -> (r: bool)
    ensures
        r == is_space(c),
{
    c == ' ' || c == '\t' || c == '\n' || c == '\r' || c == '\u{b}' || c == '\u{c}'
        || c == '\u{85}' || c == '\u{a0}' || c == '\u{1680}'
        || ('\u{2000}' <= c && c <= '\u{200a}') || c == '\u{2028}' || c == '\u{2029}'
        || c == '\u{202f}' || c == '\u{205f}' || c == '\u{3000}'
}

/// Removes leading and trailing whitespace.
pub fn trim<'a>(s: &'a str) -> (r: &'a str)
    ensures
        r@ == trimmed(s@),
{
    let n = s.unicode_len();
    let mut a: usize = 0;
    while a < n && is_space_exec(s.get_char(a))
        invariant
            a <= n,
            n == s@.len(),
            forall|k: int| 0 <= k < a ==> is_space(s@[k]),
        decreases n - a,
    {
        a = a + 1;
    }
    proof {
        lemma_leading_spaces_at(s@, a as int);
    }
    if a == n {
        let r = s.substring_char(n, n);
        proof {
            assert(r@ =~= trimmed(s@));
        }
        return r;
    }
    let mut b: usize = 0;
    while is_space_exec(s.get_char(n - 1 - b))
        invariant
            b < n,
            n == s@.len(),
            a < n,
            !is_space(s@[a as int]),
            forall|k: int| n - b <= k < n ==> is_space(s@[k]),
        decreases n - b,
    {
        b = b + 1;
        proof {
            if b >= n - a {
                assert(is_space(s@[a as int]));
            }
        }
    }
    proof {
        lemma_trailing_spaces_at(s@, b as int);
    }
    s.substring_char(a, n - b)
}

/// Index of the first comma, `-1` if there is none.
pub open spec fn comma_idx(s: Seq<char>) -> int
    decreases s.len(),
{
    if s.len() == 0 {
        -1
    } else if s[0] == ',' {
        0
    } else {
        let r = comma_idx(s.skip(1));
        if r < 0 {
            -1
        } else {
            r + 1
        }
    }
}

proof fn lemma_comma_idx(s: Seq<char>)
    ensures
        comma_idx(s) == -1 || (0 <= comma_idx(s) < s.len()),
        comma_idx(s) >= 0 ==> s[comma_idx(s)] == ',',
        forall|j: int| 0 <= j < comma_idx(s) ==> s[j] != ',',
        comma_idx(s) == -1 ==> forall|j: int| 0 <= j < s.len() ==> s[j] != ',',
    decreases s.len(),
{
    if s.len() > 0 && s[0] != ',' {
        let t = s.skip(1);
        lemma_comma_idx(t);
        assert(forall|j: int| 1 <= j < s.len() ==> s[j] == t[j - 1]);
        if comma_idx(t) >= 0 {
            assert(forall|j: int| 1 <= j < comma_idx(s) ==> #[trigger] t[j - 1] != ',');
        } else {
            assert(forall|j: int| 1 <= j < s.len() ==> #[trigger] t[j - 1] != ',');
        }
    }
}

/// The comma-separated segments of `s`, in order; a text without commas is
/// one segment, and every comma separates two (possibly empty) segments.
pub open spec fn split_commas(s: Seq<char>) -> Seq<Seq<char>>
    decreases s.len(),
    via split_commas_decreases
{
    if comma_idx(s) < 0 {
        seq![s]
    } else {
        seq![s.take(comma_idx(s))] + split_commas(s.skip(comma_idx(s) + 1))
    }
}

#[via_fn]
proof fn split_commas_decreases(s: Seq<char>) {
    lemma_comma_idx(s);
}

/// Finds the first comma of `s` at or after `from`.
fn find_comma(s: &str, from: usize) -> (r: Option<usize>)
    requires
        from <= s@.len(),
    ensures
        match r {
            Some(i) => from <= i < s@.len() && comma_idx(s@.skip(from as int)) == i - from,
            None => comma_idx(s@.skip(from as int)) == -1,
        },
{
    let n = s.unicode_len();
    let mut i = from;
    while i < n
        invariant
            from <= i <= n,
            n == s@.len(),
            forall|k: int| from <= k < i ==> s@[k] != ',',
        decreases n - i,
    {
        if s.get_char(i) == ',' {
            proof {
                let sub = s@.skip(from as int);
                assert(forall|k: int| 0 <= k < i - from ==> sub[k] == s@[k + from]);
                assert(sub[i - from] == s@[i as int]);
                lemma_first_comma_at(sub, i - from);
            }
            return Some(i);
        }
        i = i + 1;
    }
    proof {
        let sub = s@.skip(from as int);
        assert(forall|k: int| 0 <= k < sub.len() ==> sub[k] == s@[k + from] && s@[k + from] != ',');
        lemma_comma_idx(sub);
        if comma_idx(sub) >= 0 {
            assert(sub[comma_idx(sub)] == ',');
        }
    }
    None
}

proof fn lemma_first_comma_at(s: Seq<char>, i: int)
    requires
        0 <= i < s.len(),
        s[i] == ',',
        forall|k: int| 0 <= k < i ==> s[k] != ',',
    ensures
        comma_idx(s) == i,
    decreases i,
{
    if i > 0 {
        let t = s.skip(1);
        assert(forall|k: int| 0 <= k < i - 1 ==> t[k] == s[k + 1] && s[k + 1] != ',');
        assert(t[i - 1] == s[i]);
        lemma_first_comma_at(t, i - 1);
    }
}

/// Splits `s` at every comma.
pub fn split_commas_exec<'a>(s: &'a str) -> (r: Vec<&'a str>)
    ensures
        r.deep_view() == split_commas(s@),
    decreases s@.len(),
{
    let n = s.unicode_len();
    match find_comma(s, 0) {
        None => {
            proof {
                assert(s@.skip(0) =~= s@);
            }
            let mut v: Vec<&'a str> = Vec::new();
            v.push(s);
            proof {
                assert(v.deep_view() =~= split_commas(s@));
            }
            v
        },
        Some(i) => {
            proof {
                assert(s@.skip(0) =~= s@);
            }
            let head = s.substring_char(0, i);
            let tail = s.substring_char(i + 1, n);
            let rest = split_commas_exec(tail);
            let mut v: Vec<&'a str> = Vec::new();
            v.push(head);
            let mut rest = rest;
            let mut k: usize = 0;
            let rest_len = rest.len();
            while k < rest_len
                invariant
                    k <= rest_len,
                    rest_len == rest.len(),
                    v.len() == k + 1,
                    v.deep_view()[0] == head@,
                    forall|j: int| 0 <= j < k ==> v.deep_view()[j + 1] == rest.deep_view()[j],
                decreases rest_len - k,
            {
                let item = rest[k];
                v.push(item);
                k = k + 1;
            }
            proof {
                assert(head@ == s@.take(comma_idx(s@)));
                assert(tail@ == s@.skip(comma_idx(s@) + 1));
                assert(v.deep_view() =~= split_commas(s@));
            }
            v
        },
    }
}

/// Element-wise parse of trimmed list segments: every segment must parse
/// for the list to parse.
pub open spec fn parse_segments<'a, T: ParseFromEnv<'a>>(segs: Seq<Seq<char>>) -> Option<
    Seq<<T as DeepView>::V>,
>
    decreases segs.len(),
{
    if segs.len() == 0 {
        Some(Seq::empty())
    } else {
        match parse_segments::<T>(segs.drop_last()) {
            None => None,
            Some(init) => match T::parse_spec(trimmed(segs.last())) {
                None => None,
                Some(v) => Some(init.push(v)),
            },
        }
    }
}

impl<'a, T: ParseFromEnv<'a>> ParseFromEnv<'a> for Vec<T> {
    open spec fn parse_spec(s: Seq<char>) -> Option<Seq<<T as DeepView>::V>> {
        parse_segments::<T>(split_commas(s))
    }

    fn parse_from_env(s: &'a str) -> (r: Result<Self, ParseError>) {
        let segs = split_commas_exec(s);
        let mut out: Vec<T> = Vec::new();
        let mut i: usize = 0;
        let n = segs.len();
        proof {
            assert(segs.deep_view().take(0) =~= Seq::<Seq<char>>::empty());
        }
        while i < n
            invariant
                i <= n,
                n == segs.len(),
                segs.deep_view() == split_commas(s@),
                parse_segments::<T>(segs.deep_view().take(i as int)) == Some(out.deep_view()),
            decreases n - i,
        {
            let seg = trim(segs[i]);
            match T::parse_from_env(seg) {
                Ok(v) => {
                    let ghost prev = out.deep_view();
                    let ghost vv = v.deep_view();
                    out.push(v);
                    proof {
                        let dv = segs.deep_view();
                        assert(dv.take(i + 1).drop_last() =~= dv.take(i as int));
                        assert(dv.take(i + 1).last() == dv[i as int]);
                        assert(seg@ == trimmed(dv[i as int]));
                        assert(out.deep_view() =~= prev.push(vv));
                    }
                },
                Err(e) => {
                    proof {
                        let dv = segs.deep_view();
                        assert(dv.take(i + 1).drop_last() =~= dv.take(i as int));
                        assert(dv.take(i + 1).last() == dv[i as int]);
                        assert(seg@ == trimmed(dv[i as int]));
                        assert(parse_segments::<T>(dv.take(i + 1)) is None);
                        lemma_parse_segments_prefix_none::<T>(dv, i + 1);
                    }
                    return Err(e);
                },
            }
            i = i + 1;
        }
        proof {
            assert(segs.deep_view().take(n as int) =~= segs.deep_view());
        }
        Ok(out)
    }

    fn parse_check(s: &str) -> (r: bool) {
        let segs = split_commas_exec(s);
        let mut i: usize = 0;
        let n = segs.len();
        proof {
            assert(segs.deep_view().take(0) =~= Seq::<Seq<char>>::empty());
        }
        while i < n
            invariant
                i <= n,
                n == segs.len(),
                segs.deep_view() == split_commas(s@),
                parse_segments::<T>(segs.deep_view().take(i as int)) is Some,
            decreases n - i,
        {
            let seg = trim(segs[i]);
            let ok = T::parse_check(seg);
            proof {
                let dv = segs.deep_view();
                assert(dv.take(i + 1).drop_last() =~= dv.take(i as int));
                assert(dv.take(i + 1).last() == dv[i as int]);
                assert(seg@ == trimmed(dv[i as int]));
            }
            if !ok {
                proof {
                    let dv = segs.deep_view();
                    assert(parse_segments::<T>(dv.take(i + 1)) is None);
                    lemma_parse_segments_prefix_none::<T>(dv, i + 1);
                }
                return false;
            }
            i = i + 1;
        }
        proof {
            assert(segs.deep_view().take(n as int) =~= segs.deep_view());
        }
        true
    }
}

/// Once some prefix of the segments fails to parse, the whole list fails.
proof fn lemma_parse_segments_prefix_none<'a, T: ParseFromEnv<'a>>(segs: Seq<Seq<char>>, i: int)
    requires
        0 <= i <= segs.len(),
        parse_segments::<T>(segs.take(i)) is None,
    ensures
        parse_segments::<T>(segs) is None,
    decreases segs.len() - i,
{
    if i < segs.len() {
        assert(segs.take(i + 1).drop_last() =~= segs.take(i));
        lemma_parse_segments_prefix_none::<T>(segs, i + 1);
    } else {
        assert(segs.take(i) =~= segs);
    }
}

impl<'a, T: ParseFromEnv<'a>> ParseFromEnv<'a> for Option<T> {
    open spec fn parse_spec(s: Seq<char>) -> Option<Option<<T as DeepView>::V>> {
        if s == "BUILT_OVERRIDE_NONE"@ {
            Some(None)
        } else {
            match T::parse_spec(s) {
                Some(v) => Some(Some(v)),
                None => None,
            }
        }
    }

    fn parse_from_env(s: &'a str) -> (r: Result<Self, ParseError>) {
        if str_eq(s, "BUILT_OVERRIDE_NONE") {
            Ok(None)
        } else {
            match T::parse_from_env(s) {
                Ok(v) => Ok(Some(v)),
                Err(e) => Err(e),
            }
        }
    }

    fn parse_check(s: &str) -> (r: bool) {
        str_eq(s, "BUILT_OVERRIDE_NONE") || T::parse_check(s)
    }
}

/// A list of plain strings always parses: every segment is accepted.
pub proof fn lemma_string_segments_total(segs: Seq<Seq<char>>)
    ensures
        parse_segments::<String>(segs) is Some,
    decreases segs.len(),
{
    if segs.len() > 0 {
        lemma_string_segments_total(segs.drop_last());
    }
}

/// What `str::to_lowercase` returns; it depends on the characters alone.
pub uninterp spec fn lower_of(s: Seq<char>) -> Seq<char>;

/// Relies on str::to_lowercase: a pure function of the input characters.
#[verifier::external_body]
fn lowercase(s: &str) -> (r: String)
    ensures
        r@ == lower_of(s@),
{
    s.to_lowercase()
}

/// Lowercases every string of a list, in order.
pub fn lowercase_all(v: &Vec<String>) -> (r: Vec<String>)
    ensures
        r.deep_view().len() == v.deep_view().len(),
        forall|i: int|
            0 <= i < v.deep_view().len() ==> #[trigger] r.deep_view()[i] == lower_of(
                v.deep_view()[i],
            ),
{
    let mut out: Vec<String> = Vec::new();
    let n = v.len();
    let mut i: usize = 0;
    while i < n
        invariant
            i <= n,
            n == v.len(),
            out.deep_view().len() == i,
            forall|j: int|
                0 <= j < i ==> #[trigger] out.deep_view()[j] == lower_of(v.deep_view()[j]),
        decreases n - i,
    {
        let ghost prev = out.deep_view();
        let low = lowercase(v[i].as_str());
        let ghost lv = low@;
        out.push(low);
        proof {
            assert(out.deep_view() =~= prev.push(lv));
        }
        i = i + 1;
    }
    out
}

/// `parts` joined by `sep`.
pub open spec fn join_with(parts: Seq<Seq<char>>, sep: Seq<char>) -> Seq<char>
    decreases parts.len(),
{
    if parts.len() == 0 {
        Seq::empty()
    } else if parts.len() == 1 {
        parts[0]
    } else {
        join_with(parts.drop_last(), sep) + sep + parts.last()
    }
}

/// Joins strings with a separator.
pub fn join_strings(parts: &Vec<String>, sep: &str) -> (r: String)
    ensures
        r@ == join_with(parts.deep_view(), sep@),
{
    let mut out = String::new();
    let n = parts.len();
    let mut i: usize = 0;
    while i < n
        invariant
            i <= n,
            n == parts.len(),
            out@ == join_with(parts.deep_view().take(i as int), sep@),
        decreases n - i,
    {
        proof {
            assert(parts.deep_view().take(i + 1).drop_last() =~= parts.deep_view().take(i as int));
            assert(parts.deep_view().take(i + 1).last() == parts.deep_view()[i as int]);
        }
        if i > 0 {
            out.append(sep);
        }
        out.append(parts[i].as_str());
        i = i + 1;
    }
    proof {
        assert(parts.deep_view().take(n as int) =~= parts.deep_view());
    }
    out
}

/// Tests whether `p` is a character-for-character prefix of `s`.
pub fn has_prefix(s: &str, p: &str) -> (r: bool)
    ensures
        r == p@.is_prefix_of(s@),
{
    let n = s.unicode_len();
    let m = p.unicode_len();
    if m > n {
        return false;
    }
    let mut i: usize = 0;
    while i < m
        invariant
            i <= m,
            m <= n,
            n == s@.len(),
            m == p@.len(),
            forall|j: int| 0 <= j < i ==> s@[j] == p@[j],
        decreases m - i,
    {
        if s.get_char(i) != p.get_char(i) {
            proof {
                assert(!p@.is_prefix_of(s@)) by {
                    assert(s@.subrange(0, m as int)[i as int] == s@[i as int]);
                }
            }
            return false;
        }
        i = i + 1;
    }
    proof {
        assert(p@ =~= s@.subrange(0, m as int));
    }
    true
}

/// Compares two strings for character-for-character equality.
pub fn str_eq(a: &str, b: &str) -> (r: bool)
    ensures
        r == (a@ == b@),
{
    let a_len = a.unicode_len();
    let b_len = b.unicode_len();
    if a_len != b_len {
        return false;
    }
    let mut i: usize = 0;
    loop
        invariant
            i <= a_len,
            a_len == a@.len(),
            a_len == b@.len(),
            forall|j: int| 0 <= j < i ==> a@[j] == b@[j],
        decreases a_len - i,
    {
        if i == a_len {
            proof {
                assert(a@ =~= b@);
            }
            return true;
        }
        if a.get_char(i) != b.get_char(i) {
            return false;
        }
        i = i + 1;
    }
}

} // verus!
