use vstd::prelude::*;

verus! {

/// A parse failure; it carries the text that could not be converted.
pub type ParseErr = String;

pub open spec fn is_digit(c: char) -> bool {
    '0' <= c && c <= '9'
}

pub open spec fn digit_value(c: char) -> int {
    c as int - '0' as int
}

pub open spec fn all_digits(s: Seq<char>) -> bool {
    forall|i: int| 0 <= i < s.len() ==> is_digit(#[trigger] s[i])
}

/// The number that a string of decimal digits denotes.
pub open spec fn digits_value(s: Seq<char>) -> nat
    decreases s.len(),
{
    if s.len() == 0 {
        0
    } else {
        (digits_value(s.drop_last()) * 10 + digit_value(s.last())) as nat
    }
}

/// One or more decimal digits.
pub open spec fn decimal_value(s: Seq<char>) -> Option<nat> {
    if s.len() > 0 && all_digits(s) {
        Some(digits_value(s))
    } else {
        None
    }
}

/// Unsigned text: an optional `+`, then one or more decimal digits.
pub open spec fn unsigned_value(s: Seq<char>) -> Option<int> {
    let body = if s.len() > 0 && s[0] == '+' { s.drop_first() } else { s };
    match decimal_value(body) {
        Some(n) => Some(n as int),
        None => None,
    }
}

/// Signed text: an optional `+` or `-`, then one or more decimal digits.
pub open spec fn signed_value(s: Seq<char>) -> Option<int> {
    if s.len() > 0 && s[0] == '-' {
        match decimal_value(s.drop_first()) {
            Some(n) => Some(-n),
            None => None,
        }
    } else {
        unsigned_value(s)
    }
}

/// `v` when it lies in `lo..=hi`.
pub open spec fn within(v: Option<int>, lo: int, hi: int) -> Option<int> {
    match v {
        Some(n) => if lo <= n <= hi { Some(n) } else { None },
        None => None,
    }
}

pub open spec fn digit_char(d: nat) -> char {
    ('0' as u8 + d) as char
}

/// The canonical decimal text of a natural number: no sign, no leading zeros.
pub open spec fn decimal_text(n: nat) -> Seq<char>
    decreases n,
{
    if n < 10 {
        seq![digit_char(n)]
    } else {
        decimal_text(n / 10).push(digit_char(n % 10))
    }
}

/// The canonical text of an integer: `-` before negative numbers.
pub open spec fn integer_text(v: int) -> Seq<char> {
    if v < 0 {
        seq!['-'] + decimal_text((-v) as nat)
    } else {
        decimal_text(v as nat)
    }
}

pub proof fn lemma_decimal_text(n: nat)
    ensures
        decimal_text(n).len() > 0,
        all_digits(decimal_text(n)),
        digits_value(decimal_text(n)) == n,
    decreases n,
{
    if n >= 10 {
        lemma_decimal_text(n / 10);
        let t = decimal_text(n);
        assert(t.drop_last() =~= decimal_text(n / 10));
        assert(digit_value(t.last()) == n % 10);
        assert(digits_value(t) == digits_value(t.drop_last()) * 10 + digit_value(t.last()));
        assert((n / 10) * 10 + n % 10 == n) by (nonlinear_arith);
    } else {
        assert(decimal_text(n).drop_last() =~= Seq::<char>::empty());
        assert(digit_value(digit_char(n)) == n);
        assert(digits_value(decimal_text(n).drop_last()) == 0);
        assert(decimal_text(n).last() == digit_char(n));
    }
}

/// Digits appended never make a number smaller.
proof fn lemma_digits_prefix_le(s: Seq<char>, k: int)
    requires
        0 <= k <= s.len(),
        all_digits(s),
    ensures
        digits_value(s.subrange(0, k)) <= digits_value(s),
    decreases s.len() - k,
{
    if k < s.len() {
        lemma_digits_prefix_le(s, k + 1);
        let p = s.subrange(0, k + 1);
        assert(p.drop_last() =~= s.subrange(0, k));
        assert(is_digit(s[k]));
    } else {
        assert(s.subrange(0, k) =~= s);
    }
}

/// `n` as a `u64` when it is at most `limit`.
pub open spec fn bounded(v: Option<nat>, limit: u64) -> Option<u64> {
    match v {
        Some(n) => if n <= limit { Some(n as u64) } else { None },
        None => None,
    }
}

/// Reads `s[start..]` as one or more decimal digits whose value is at most
/// `limit`.
fn parse_digits(s: &str, start: usize, limit: u64) -> (r: Option<u64>)
    requires
        start <= s@.len(),
    ensures
        r == bounded(decimal_value(s@.subrange(start as int, s@.len() as int)), limit),
{
    let len = s.unicode_len();
    if start == len {
        return None;
    }
    let ghost body = s@.subrange(start as int, s@.len() as int);
    let mut acc: u64 = 0;
    let mut i: usize = start;
    while i < len
        invariant
            start <= i <= len,
            len == s@.len(),
            body == s@.subrange(start as int, s@.len() as int),
            all_digits(body.subrange(0, i - start)),
            acc == digits_value(body.subrange(0, i - start)),
            acc <= limit,
        decreases len - i,
    {
        let c = s.get_char(i);
        if !('0' <= c && c <= '9') {
            assert(body[i - start] == c);
            return None;
        }
        let d: u64 = (c as u64) - ('0' as u64);
        let ghost prefix = body.subrange(0, i - start + 1);
        assert(prefix.drop_last() =~= body.subrange(0, i - start));
        assert(prefix.last() == c);
        if d > limit || acc > (limit - d) / 10 {
            proof {
                assert(acc * 10 + d > limit) by (nonlinear_arith)
                    requires d > limit || acc > (limit - d) / 10, acc >= 0;
                if all_digits(body) {
                    lemma_digits_prefix_le(body, i - start + 1);
                    assert(body.subrange(0, i - start + 1) == prefix);
                }
            }
            return None;
        }
        proof {
            assert(acc * 10 + d <= limit) by (nonlinear_arith)
                requires acc <= (limit - d) / 10, d <= limit;
        }
        acc = acc * 10 + d;
        i = i + 1;
    }
    assert(body.subrange(0, i - start) =~= body);
    Some(acc)
}

pub open spec fn to_u64(v: Option<int>) -> Option<u64> {
    match v {
        Some(n) => Some(n as u64),
        None => None,
    }
}

pub open spec fn to_i64(v: Option<int>) -> Option<i64> {
    match v {
        Some(n) => Some(n as i64),
        None => None,
    }
}

/// Unsigned text whose value is at most `limit`.
fn parse_unsigned(s: &str, limit: u64) -> (r: Option<u64>)
    ensures
        r == to_u64(within(unsigned_value(s@), 0, limit as int)),
{
    let len = s.unicode_len();
    if len > 0 && s.get_char(0) == '+' {
        assert(s@.drop_first() =~= s@.subrange(1, s@.len() as int));
        parse_digits(s, 1, limit)
    } else {
        assert(s@ =~= s@.subrange(0, s@.len() as int));
        parse_digits(s, 0, limit)
    }
}

/// Signed text whose value lies in `min..=max`.
fn parse_signed(s: &str, min: i64, max: i64) -> (r: Option<i64>)
    requires
        min < 0 <= max,
    ensures
        r == to_i64(within(signed_value(s@), min as int, max as int)),
{
    let len = s.unicode_len();
    if len > 0 && s.get_char(0) == '-' {
        assert(s@.drop_first() =~= s@.subrange(1, s@.len() as int));
        let limit: u64 = ((-(min + 1)) as u64) + 1;
        match parse_digits(s, 1, limit) {
            Some(m) => {
                if m == 0 {
                    Some(0)
                } else {
                    Some(-((m - 1) as i64) - 1)
                }
            },
            None => None,
        }
    } else {
        match parse_unsigned(s, max as u64) {
            Some(n) => Some(n as i64),
            None => None,
        }
    }
}

/// Whether two texts hold the same characters.
pub(crate) fn same_text(a: &str, b: &str) -> (r: bool)
    ensures
        r == (a@ == b@),
{
    let n = a.unicode_len();
    if n != b.unicode_len() {
        return false;
    }
    let mut i: usize = 0;
    while i < n
        invariant
            n == a@.len() == b@.len(),
            i <= n,
            a@.subrange(0, i as int) == b@.subrange(0, i as int),
        decreases n - i,
    {
        if a.get_char(i) != b.get_char(i) {
            return false;
        }
        assert(a@.subrange(0, i + 1) =~= a@.subrange(0, i as int).push(a@[i as int]));
        assert(b@.subrange(0, i + 1) =~= b@.subrange(0, i as int).push(b@[i as int]));
        i = i + 1;
    }
    assert(a@ =~= a@.subrange(0, n as int));
    assert(b@ =~= b@.subrange(0, n as int));
    true
}

/// A type whose values a flag can be set to from text.
pub trait FlagParseable: Sized + View + Clone {
    /// The value that the text `s` denotes, if it denotes one.
    spec fn parse_spec(s: Seq<char>) -> Option<Self::V>;

    /// The canonical text of `v`, as `Display` writes it.
    spec fn format_spec(v: Self::V) -> Seq<char>;

    /// Whether `v` has a canonical text.
    spec fn canonical(v: Self::V) -> bool;

    /// Whether `e` is the text reported as offending when `s` fails to parse.
    spec fn reports(s: Seq<char>, e: Seq<char>) -> bool;

    /// Parsing the canonical text of a value gives the value back.
    proof fn lemma_round_trip(v: Self::V)
        requires
            Self::canonical(v),
        ensures
            Self::parse_spec(Self::format_spec(v)) == Some(v),
    ;

    /// A clone has the same view as the value it was made from.
    proof fn lemma_clone_keeps_view(a: Self, b: Self)
        requires
            cloned(a, b),
        ensures
            a@ == b@,
    ;

    /// Converts `s`; on failure the error is the offending text.
    fn parse_from_str(s: &str) -> (r: Result<Self, ParseErr>)
        ensures
            match r {
                Ok(v) => Self::parse_spec(s@) == Some(v@),
                Err(e) => Self::parse_spec(s@).is_none() && Self::reports(s@, e@),
            },
    ;
}

pub proof fn lemma_unsigned_round_trip(n: nat)
    ensures
        unsigned_value(decimal_text(n)) == Some(n as int),
{
    lemma_decimal_text(n);
    assert(is_digit(decimal_text(n)[0]));
}

pub proof fn lemma_signed_round_trip(v: int)
    ensures
        signed_value(integer_text(v)) == Some(v),
{
    if v < 0 {
        let m = (-v) as nat;
        lemma_decimal_text(m);
        assert((seq!['-'] + decimal_text(m)).drop_first() =~= decimal_text(m));
    } else {
        lemma_unsigned_round_trip(v as nat);
        lemma_decimal_text(v as nat);
        assert(is_digit(decimal_text(v as nat)[0]));
    }
}

impl FlagParseable for String {
    open spec fn parse_spec(s: Seq<char>) -> Option<Seq<char>> {
        Some(s)
    }

    open spec fn format_spec(v: Seq<char>) -> Seq<char> {
        v
    }

    open spec fn canonical(v: Self::V) -> bool {
        true
    }

    open spec fn reports(s: Seq<char>, e: Seq<char>) -> bool {
        e == s
    }

    proof fn lemma_clone_keeps_view(a: Self, b: Self) {
    }

    proof fn lemma_round_trip(v: Seq<char>) {
    }

    fn parse_from_str(s: &str) -> (r: Result<String, ParseErr>) {
        Ok(s.to_owned())
    }
}

impl FlagParseable for bool {
    open spec fn parse_spec(s: Seq<char>) -> Option<bool> {
        if s == "true"@ {
            Some(true)
        } else if s == "false"@ {
            Some(false)
        } else {
            None
        }
    }

    open spec fn format_spec(v: bool) -> Seq<char> {
        if v { "true"@ } else { "false"@ }
    }

    open spec fn canonical(v: Self::V) -> bool {
        true
    }

    open spec fn reports(s: Seq<char>, e: Seq<char>) -> bool {
        e == s
    }

    proof fn lemma_clone_keeps_view(a: Self, b: Self) {
    }

    proof fn lemma_round_trip(v: bool) {
        reveal_strlit("true");
        reveal_strlit("false");
        assert("true"@ != "false"@) by {
            assert("true"@.len() != "false"@.len());
        }
    }

    fn parse_from_str(s: &str) -> (r: Result<bool, ParseErr>) {
        if same_text(s, "true") {
            Ok(true)
        } else if same_text(s, "false") {
            Ok(false)
        } else {
            Err(s.to_owned())
        }
    }
}

impl FlagParseable for u8 {
    open spec fn parse_spec(s: Seq<char>) -> Option<u8> {
        match within(unsigned_value(s), 0, u8::MAX as int) {
            Some(n) => Some(n as u8),
            None => None,
        }
    }

    open spec fn format_spec(v: u8) -> Seq<char> {
        decimal_text(v as nat)
    }

    open spec fn canonical(v: Self::V) -> bool {
        true
    }

    open spec fn reports(s: Seq<char>, e: Seq<char>) -> bool {
        e == s
    }

    proof fn lemma_clone_keeps_view(a: Self, b: Self) {
    }

    proof fn lemma_round_trip(v: u8) {
        lemma_unsigned_round_trip(v as nat);
    }

    fn parse_from_str(s: &str) -> (r: Result<u8, ParseErr>) {
        match parse_unsigned(s, u8::MAX as u64) {
            Some(n) => Ok(n as u8),
            None => Err(s.to_owned()),
        }
    }
}

impl FlagParseable for u32 {
    open spec fn parse_spec(s: Seq<char>) -> Option<u32> {
        match within(unsigned_value(s), 0, u32::MAX as int) {
            Some(n) => Some(n as u32),
            None => None,
        }
    }

    open spec fn format_spec(v: u32) -> Seq<char> {
        decimal_text(v as nat)
    }

    open spec fn canonical(v: Self::V) -> bool {
        true
    }

    open spec fn reports(s: Seq<char>, e: Seq<char>) -> bool {
        e == s
    }

    proof fn lemma_clone_keeps_view(a: Self, b: Self) {
    }

    proof fn lemma_round_trip(v: u32) {
        lemma_unsigned_round_trip(v as nat);
    }

    fn parse_from_str(s: &str) -> (r: Result<u32, ParseErr>) {
        match parse_unsigned(s, u32::MAX as u64) {
            Some(n) => Ok(n as u32),
            None => Err(s.to_owned()),
        }
    }
}

impl FlagParseable for u64 {
    open spec fn parse_spec(s: Seq<char>) -> Option<u64> {
        match within(unsigned_value(s), 0, u64::MAX as int) {
            Some(n) => Some(n as u64),
            None => None,
        }
    }

    open spec fn format_spec(v: u64) -> Seq<char> {
        decimal_text(v as nat)
    }

    open spec fn canonical(v: Self::V) -> bool {
        true
    }

    open spec fn reports(s: Seq<char>, e: Seq<char>) -> bool {
        e == s
    }

    proof fn lemma_clone_keeps_view(a: Self, b: Self) {
    }

    proof fn lemma_round_trip(v: u64) {
        lemma_unsigned_round_trip(v as nat);
    }

    fn parse_from_str(s: &str) -> (r: Result<u64, ParseErr>) {
        match parse_unsigned(s, u64::MAX as u64) {
            Some(n) => Ok(n as u64),
            None => Err(s.to_owned()),
        }
    }
}

impl FlagParseable for i8 {
    open spec fn parse_spec(s: Seq<char>) -> Option<i8> {
        match within(signed_value(s), i8::MIN as int, i8::MAX as int) {
            Some(n) => Some(n as i8),
            None => None,
        }
    }

    open spec fn format_spec(v: i8) -> Seq<char> {
        integer_text(v as int)
    }

    open spec fn canonical(v: Self::V) -> bool {
        true
    }

    open spec fn reports(s: Seq<char>, e: Seq<char>) -> bool {
        e == s
    }

    proof fn lemma_clone_keeps_view(a: Self, b: Self) {
    }

    proof fn lemma_round_trip(v: i8) {
        lemma_signed_round_trip(v as int);
    }

    fn parse_from_str(s: &str) -> (r: Result<i8, ParseErr>) {
        match parse_signed(s, i8::MIN as i64, i8::MAX as i64) {
            Some(n) => Ok(n as i8),
            None => Err(s.to_owned()),
        }
    }
}

impl FlagParseable for i32 {
    open spec fn parse_spec(s: Seq<char>) -> Option<i32> {
        match within(signed_value(s), i32::MIN as int, i32::MAX as int) {
            Some(n) => Some(n as i32),
            None => None,
        }
    }

    open spec fn format_spec(v: i32) -> Seq<char> {
        integer_text(v as int)
    }

    open spec fn canonical(v: Self::V) -> bool {
        true
    }

    open spec fn reports(s: Seq<char>, e: Seq<char>) -> bool {
        e == s
    }

    proof fn lemma_clone_keeps_view(a: Self, b: Self) {
    }

    proof fn lemma_round_trip(v: i32) {
        lemma_signed_round_trip(v as int);
    }

    fn parse_from_str(s: &str) -> (r: Result<i32, ParseErr>) {
        match parse_signed(s, i32::MIN as i64, i32::MAX as i64) {
            Some(n) => Ok(n as i32),
            None => Err(s.to_owned()),
        }
    }
}

impl FlagParseable for i64 {
    open spec fn parse_spec(s: Seq<char>) -> Option<i64> {
        match within(signed_value(s), i64::MIN as int, i64::MAX as int) {
            Some(n) => Some(n as i64),
            None => None,
        }
    }

    open spec fn format_spec(v: i64) -> Seq<char> {
        integer_text(v as int)
    }

    open spec fn canonical(v: Self::V) -> bool {
        true
    }

    open spec fn reports(s: Seq<char>, e: Seq<char>) -> bool {
        e == s
    }

    proof fn lemma_clone_keeps_view(a: Self, b: Self) {
    }

    proof fn lemma_round_trip(v: i64) {
        lemma_signed_round_trip(v as int);
    }

    fn parse_from_str(s: &str) -> (r: Result<i64, ParseErr>) {
        match parse_signed(s, i64::MIN as i64, i64::MAX as i64) {
            Some(n) => Ok(n as i64),
            None => Err(s.to_owned()),
        }
    }
}

} // verus!
