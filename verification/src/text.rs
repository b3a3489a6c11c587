//! Character-level helpers for the line-oriented text protocol: decimal
//! numbers, whitespace trimming and string assembly.
use vstd::prelude::*;
use vstd::string::*;

verus! {

/// Appends one character to a string.
///
/// Trusted: `String::push`, documented as appending the given `char` to the
/// end of the string.
#[verifier::external_body]
fn push_char(s: &mut String, c: char)
    ensures
        final(s)@ == old(s)@.push(c),
{
    s.push(c);
}

/// The characters of a string slice, in order.
pub fn chars_of(s: &str) -> (r: Vec<char>)
    ensures
        r@ == s@,
{
    let n = s.unicode_len();
    let mut r: Vec<char> = Vec::new();
    let mut i: usize = 0;
    while i < n
        invariant
            n == s@.len(),
            i <= n,
            r@ == s@.take(i as int),
        decreases n - i,
    {
        let c = s.get_char(i);
        r.push(c);
        i = i + 1;
        assert(r@ =~= s@.take(i as int));
    }
    assert(r@ =~= s@);
    r
}

/// Builds a string from a run of characters.
pub fn string_from_chars(cs: &[char]) -> (r: String)
    ensures
        r@ == cs@,
{
    let mut r = String::new();
    let mut i: usize = 0;
    while i < cs.len()
        invariant
            i <= cs@.len(),
            r@ == cs@.take(i as int),
        decreases cs@.len() - i,
    {
        push_char(&mut r, cs[i]);
        i = i + 1;
        assert(r@ =~= cs@.take(i as int));
    }
    assert(r@ =~= cs@);
    r
}

/// Concatenates two strings into a new one.
pub fn concat_str(a: &str, b: &str) -> (r: String)
    ensures
        r@ == a@ + b@,
{
    let mut r = <String as StringExecFns>::from_str(a);
    r.append(b);
    r
}

/// The bytes of an ASCII text.
pub open spec fn ascii_bytes(s: Seq<char>) -> Seq<u8> {
    s.map_values(|c: char| c as u8)
}

/// Whether `b` holds exactly the bytes of the ASCII text `s`.
pub fn bytes_eq_ascii(b: &[u8], s: &str) -> (r: bool)
    ensures
        r == (b@ == ascii_bytes(s@)),
{
    let cs = chars_of(s);
    if b.len() != cs.len() {
        assert(ascii_bytes(s@).len() == s@.len());
        return false;
    }
    let mut i: usize = 0;
    while i < b.len()
        invariant
            cs@ == s@,
            b@.len() == cs@.len(),
            i <= b@.len(),
            forall|j: int| 0 <= j < i ==> b@[j] == ascii_bytes(s@)[j],
        decreases b@.len() - i,
    {
        if b[i] != cs[i] as u8 {
            assert(b@[i as int] != ascii_bytes(s@)[i as int]);
            return false;
        }
        i = i + 1;
    }
    assert(b@ =~= ascii_bytes(s@));
    true
}

/// Whether two strings hold the same characters.
pub fn str_eq(a: &str, b: &str) -> (r: bool)
    ensures
        r == (a@ == b@),
{
    let x = chars_of(a);
    let y = chars_of(b);
    if x.len() != y.len() {
        return false;
    }
    let mut i: usize = 0;
    while i < x.len()
        invariant
            x@ == a@,
            y@ == b@,
            x@.len() == y@.len(),
            i <= x@.len(),
            forall|j: int| 0 <= j < i ==> x@[j] == y@[j],
        decreases x@.len() - i,
    {
        if x[i] != y[i] {
            return false;
        }
        i = i + 1;
    }
    assert(x@ =~= y@);
    true
}

/// Whitespace as `char::is_whitespace` defines it: the Unicode `White_Space`
/// property.
pub open spec fn is_white_space(c: char) -> bool {
    let u = c as u32;
    ||| 0x09 <= u <= 0x0d
    ||| u == 0x20
    ||| u == 0x85
    ||| u == 0xa0
    ||| u == 0x1680
    ||| 0x2000 <= u <= 0x200a
    ||| u == 0x2028
    ||| u == 0x2029
    ||| u == 0x202f
    ||| u == 0x205f
    ||| u == 0x3000
}

pub fn is_white_space_char(c: char) -> (r: bool)
    ensures
        r == is_white_space(c),
{
    let u = c as u32;
    (0x09 <= u && u <= 0x0d) || u == 0x20 || u == 0x85 || u == 0xa0 || u == 0x1680 || (0x2000
        <= u && u <= 0x200a) || u == 0x2028 || u == 0x2029 || u == 0x202f || u == 0x205f || u
        == 0x3000
}

/// `s` without its leading whitespace.
pub open spec fn trim_start(s: Seq<char>) -> Seq<char>
    decreases s.len(),
{
    if s.len() > 0 && is_white_space(s[0]) {
        trim_start(s.drop_first())
    } else {
        s
    }
}

/// `s` without its trailing whitespace.
pub open spec fn trim_end(s: Seq<char>) -> Seq<char>
    decreases s.len(),
{
    if s.len() > 0 && is_white_space(s.last()) {
        trim_end(s.drop_last())
    } else {
        s
    }
}

/// `s` without leading and trailing whitespace, as `str::trim` gives it.
pub open spec fn trim(s: Seq<char>) -> Seq<char> {
    trim_end(trim_start(s))
}

/// Removes leading and trailing whitespace.
pub fn trim_chars(s: &[char]) -> (r: Vec<char>)
    ensures
        r@ == trim(s@),
{
    let n = s.len();
    let mut start: usize = 0;
    assert(s@.subrange(0, n as int) =~= s@);
    while start < n && is_white_space_char(s[start])
        invariant
            n == s@.len(),
            start <= n,
            trim_start(s@) == trim_start(s@.subrange(start as int, n as int)),
        decreases n - start,
    {
        assert(s@.subrange(start as int, n as int).drop_first() =~= s@.subrange(
            start + 1,
            n as int,
        ));
        start = start + 1;
    }
    assert(trim_start(s@) == s@.subrange(start as int, n as int));
    let mut end: usize = n;
    while end > start && is_white_space_char(s[end - 1])
        invariant
            n == s@.len(),
            start <= end <= n,
            trim(s@) == trim_end(s@.subrange(start as int, end as int)),
        decreases end,
    {
        assert(s@.subrange(start as int, end as int).drop_last() =~= s@.subrange(
            start as int,
            end - 1,
        ));
        end = end - 1;
    }
    let mut r: Vec<char> = Vec::new();
    let mut i: usize = start;
    while i < end
        invariant
            start <= i <= end <= n,
            n == s@.len(),
            r@ == s@.subrange(start as int, i as int),
        decreases end - i,
    {
        r.push(s[i]);
        i = i + 1;
        assert(r@ =~= s@.subrange(start as int, i as int));
    }
    r
}

/// The character of a decimal digit.
pub open spec fn digit_char(d: nat) -> char {
    if d == 0 {
        '0'
    } else if d == 1 {
        '1'
    } else if d == 2 {
        '2'
    } else if d == 3 {
        '3'
    } else if d == 4 {
        '4'
    } else if d == 5 {
        '5'
    } else if d == 6 {
        '6'
    } else if d == 7 {
        '7'
    } else if d == 8 {
        '8'
    } else {
        '9'
    }
}

fn digit_char_of(d: u64) -> (c: char)
    requires
        d < 10,
    ensures
        c == digit_char(d as nat),
{
    if d == 0 {
        '0'
    } else if d == 1 {
        '1'
    } else if d == 2 {
        '2'
    } else if d == 3 {
        '3'
    } else if d == 4 {
        '4'
    } else if d == 5 {
        '5'
    } else if d == 6 {
        '6'
    } else if d == 7 {
        '7'
    } else if d == 8 {
        '8'
    } else {
        '9'
    }
}

/// Decimal digits of a natural number, most significant first, without
/// leading zeros.
pub open spec fn decimal_digits(n: nat) -> Seq<char>
    decreases n,
{
    if n < 10 {
        seq![digit_char(n)]
    } else {
        decimal_digits(n / 10).push(digit_char(n % 10))
    }
}

/// Decimal text of an integer, with a leading `-` when it is negative, as
/// `{}` formats an integer.
pub open spec fn decimal(n: int) -> Seq<char> {
    if n < 0 {
        seq!['-'] + decimal_digits((-n) as nat)
    } else {
        decimal_digits(n as nat)
    }
}

fn digits_u64(n: u64) -> (r: Vec<char>)
    ensures
        r@ == decimal_digits(n as nat),
    decreases n,
{
    if n < 10 {
        let c = digit_char_of(n);
        let mut v: Vec<char> = Vec::new();
        v.push(c);
        assert(v@ =~= seq![c]);
        v
    } else {
        let mut v = digits_u64(n / 10);
        let c = digit_char_of(n % 10);
        v.push(c);
        v
    }
}

/// Decimal text of a 64-bit signed integer.
pub fn decimal_i64(n: i64) -> (r: String)
    ensures
        r@ == decimal(n as int),
{
    if n < 0 {
        let m: u64 = if n == i64::MIN {
            0x8000_0000_0000_0000u64
        } else {
            (-n) as u64
        };
        let ds = digits_u64(m);
        let mut r = String::new();
        push_char(&mut r, '-');
        let rest = string_from_chars(ds.as_slice());
        r.append(rest.as_str());
        assert(r@ =~= decimal(n as int));
        r
    } else {
        let ds = digits_u64(n as u64);
        string_from_chars(ds.as_slice())
    }
}

/// The reasons for which a decimal integer does not parse, as
/// `core::num::IntErrorKind` names them.
#[derive(Debug, Clone, Copy, PartialEq, Eq)]
pub enum IntErrorKind {
    Empty,
    InvalidDigit,
    PosOverflow,
    NegOverflow,
}

/// The text with which `ParseIntError` describes each kind.
pub open spec fn int_error_text(k: IntErrorKind) -> Seq<char> {
    match k {
        IntErrorKind::Empty => "cannot parse integer from empty string"@,
        IntErrorKind::InvalidDigit => "invalid digit found in string"@,
        IntErrorKind::PosOverflow => "number too large to fit in target type"@,
        IntErrorKind::NegOverflow => "number too small to fit in target type"@,
    }
}

pub fn int_error_message(k: IntErrorKind) -> (r: String)
    ensures
        r@ == int_error_text(k),
{
    match k {
        IntErrorKind::Empty => <String as StringExecFns>::from_str(
            "cannot parse integer from empty string",
        ),
        IntErrorKind::InvalidDigit => <String as StringExecFns>::from_str(
            "invalid digit found in string",
        ),
        IntErrorKind::PosOverflow => <String as StringExecFns>::from_str(
            "number too large to fit in target type",
        ),
        IntErrorKind::NegOverflow => <String as StringExecFns>::from_str(
            "number too small to fit in target type",
        ),
    }
}

pub open spec fn is_ascii_digit(c: char) -> bool {
    '0' <= c <= '9'
}

pub open spec fn digit_value(c: char) -> int {
    c as int - '0' as int
}

/// Accumulates the digits of `ds` from left to right, as the standard
/// library does: the first character that is no digit, or the first
/// prefix whose value leaves `lo..=hi`, decides the error.
pub open spec fn scan_digits(ds: Seq<char>, neg: bool, lo: int, hi: int) -> Result<
    int,
    IntErrorKind,
>
    decreases ds.len(),
{
    if ds.len() == 0 {
        Ok(0)
    } else {
        match scan_digits(ds.drop_last(), neg, lo, hi) {
            Err(k) => Err(k),
            Ok(v) => {
                let c = ds.last();
                if !is_ascii_digit(c) {
                    Err(IntErrorKind::InvalidDigit)
                } else {
                    let nv = if neg {
                        v * 10 - digit_value(c)
                    } else {
                        v * 10 + digit_value(c)
                    };
                    if nv > hi {
                        Err(IntErrorKind::PosOverflow)
                    } else if nv < lo {
                        Err(IntErrorKind::NegOverflow)
                    } else {
                        Ok(nv)
                    }
                }
            },
        }
    }
}

/// What `str::parse` gives for an integer type with range `lo..=hi`: an
/// optional sign (`-` only where the type is signed), then decimal digits.
pub open spec fn parse_integer(s: Seq<char>, lo: int, hi: int, signed: bool) -> Result<
    int,
    IntErrorKind,
> {
    if s.len() == 0 {
        Err(IntErrorKind::Empty)
    } else if s.len() == 1 && (s[0] == '+' || s[0] == '-') {
        Err(IntErrorKind::InvalidDigit)
    } else if s[0] == '+' {
        scan_digits(s.drop_first(), false, lo, hi)
    } else if s[0] == '-' && signed {
        scan_digits(s.drop_first(), true, lo, hi)
    } else {
        scan_digits(s, false, lo, hi)
    }
}

pub open spec fn parse_i32_spec(s: Seq<char>) -> Result<int, IntErrorKind> {
    parse_integer(s, i32::MIN as int, i32::MAX as int, true)
}

pub open spec fn parse_u32_spec(s: Seq<char>) -> Result<int, IntErrorKind> {
    parse_integer(s, 0, u32::MAX as int, false)
}

fn scan_digits_exec(ds: &[char], start: usize, neg: bool, lo: i64, hi: i64) -> (r: Result<
    i64,
    IntErrorKind,
>)
    requires
        start <= ds@.len(),
        lo <= 0 <= hi,
        -0x1_0000_0000 <= lo,
        hi <= 0x1_0000_0000,
    ensures
        match r {
            Ok(v) => scan_digits(ds@.skip(start as int), neg, lo as int, hi as int) == Ok::<
                int,
                IntErrorKind,
            >(v as int),
            Err(k) => scan_digits(ds@.skip(start as int), neg, lo as int, hi as int) == Err::<
                int,
                IntErrorKind,
            >(k),
        },
{
    let ghost body = ds@.skip(start as int);
    let mut acc: i64 = 0;
    let mut i: usize = start;
    while i < ds.len()
        invariant
            start <= i <= ds@.len(),
            body == ds@.skip(start as int),
            lo <= acc <= hi,
            lo <= 0 <= hi,
            -0x1_0000_0000 <= lo,
            hi <= 0x1_0000_0000,
            scan_digits(body.take(i - start), neg, lo as int, hi as int) == Ok::<
                int,
                IntErrorKind,
            >(acc as int),
        decreases ds@.len() - i,
    {
        let c = ds[i];
        let ghost pre = body.take(i - start);
        let ghost cur = body.take(i - start + 1);
        assert(cur.drop_last() =~= pre);
        assert(cur.last() == c);
        if !('0' <= c && c <= '9') {
            proof {
                lemma_scan_error_persists(body, i - start + 1, neg, lo as int, hi as int);
            }
            return Err(IntErrorKind::InvalidDigit);
        }
        let d: i64 = (c as u32 - '0' as u32) as i64;
        let nv: i64 = if neg {
            acc * 10 - d
        } else {
            acc * 10 + d
        };
        if nv > hi {
            proof {
                lemma_scan_error_persists(body, i - start + 1, neg, lo as int, hi as int);
            }
            return Err(IntErrorKind::PosOverflow);
        }
        if nv < lo {
            proof {
                lemma_scan_error_persists(body, i - start + 1, neg, lo as int, hi as int);
            }
            return Err(IntErrorKind::NegOverflow);
        }
        acc = nv;
        i = i + 1;
    }
    assert(body.take(i - start) =~= body);
    Ok(acc)
}

/// Once a prefix fails to scan, every longer prefix fails with the same error.
proof fn lemma_scan_error_persists(ds: Seq<char>, k: int, neg: bool, lo: int, hi: int)
    requires
        0 <= k <= ds.len(),
        scan_digits(ds.take(k), neg, lo, hi) is Err,
    ensures
        scan_digits(ds, neg, lo, hi) == scan_digits(ds.take(k), neg, lo, hi),
    decreases ds.len() - k,
{
    if k < ds.len() {
        let longer = ds.take(k + 1);
        assert(longer.drop_last() =~= ds.take(k));
        assert(ds.take(k + 1).take(k) =~= ds.take(k));
        lemma_scan_error_persists(ds, k + 1, neg, lo, hi);
    } else {
        assert(ds.take(k) =~= ds);
    }
}

fn parse_integer_exec(s: &[char], lo: i64, hi: i64, signed: bool) -> (r: Result<
    i64,
    IntErrorKind,
>)
    requires
        lo <= 0 <= hi,
        -0x1_0000_0000 <= lo,
        hi <= 0x1_0000_0000,
    ensures
        match r {
            Ok(v) => parse_integer(s@, lo as int, hi as int, signed) == Ok::<int, IntErrorKind>(
                v as int,
            ),
            Err(k) => parse_integer(s@, lo as int, hi as int, signed) == Err::<int, IntErrorKind>(
                k,
            ),
        },
{
    if s.len() == 0 {
        return Err(IntErrorKind::Empty);
    }
    if s.len() == 1 && (s[0] == '+' || s[0] == '-') {
        return Err(IntErrorKind::InvalidDigit);
    }
    if s[0] == '+' {
        assert(s@.skip(1) =~= s@.drop_first());
        scan_digits_exec(s, 1, false, lo, hi)
    } else if s[0] == '-' && signed {
        assert(s@.skip(1) =~= s@.drop_first());
        scan_digits_exec(s, 1, true, lo, hi)
    } else {
        assert(s@.skip(0) =~= s@);
        scan_digits_exec(s, 0, false, lo, hi)
    }
}

/// Parses a signed 32-bit decimal integer, as `str::parse::<i32>` does.
pub fn parse_i32(s: &[char]) -> (r: Result<i32, IntErrorKind>)
    ensures
        match r {
            Ok(v) => parse_i32_spec(s@) == Ok::<int, IntErrorKind>(v as int),
            Err(k) => parse_i32_spec(s@) == Err::<int, IntErrorKind>(k),
        },
{
    match parse_integer_exec(s, i32::MIN as i64, i32::MAX as i64, true) {
        Ok(v) => Ok(v as i32),
        Err(k) => Err(k),
    }
}

/// Parses an unsigned 32-bit decimal integer, as `str::parse::<u32>` does.
pub fn parse_u32(s: &[char]) -> (r: Result<u32, IntErrorKind>)
    ensures
        match r {
            Ok(v) => parse_u32_spec(s@) == Ok::<int, IntErrorKind>(v as int),
            Err(k) => parse_u32_spec(s@) == Err::<int, IntErrorKind>(k),
        },
{
    match parse_integer_exec(s, 0, u32::MAX as i64, false) {
        Ok(v) => Ok(v as u32),
        Err(k) => Err(k),
    }
}

proof fn lemma_digit_char(d: nat)
    requires
        d < 10,
    ensures
        is_ascii_digit(digit_char(d)),
        digit_value(digit_char(d)) == d,
        digit_char(d) != '+' && digit_char(d) != '-' && digit_char(d) != '.',
        !is_white_space(digit_char(d)),
{
}

/// The digits of a number are decimal digits, and there is at least one.
pub proof fn lemma_decimal_digits_shape(n: nat)
    ensures
        decimal_digits(n).len() >= 1,
        forall|i: int|
            #![trigger decimal_digits(n)[i]]
            0 <= i < decimal_digits(n).len() ==> is_ascii_digit(decimal_digits(n)[i])
                && decimal_digits(n)[i] != '.' && !is_white_space(decimal_digits(n)[i]),
    decreases n,
{
    if n < 10 {
        lemma_digit_char(n);
    } else {
        lemma_decimal_digits_shape(n / 10);
        lemma_digit_char(n % 10);
        let p = decimal_digits(n / 10);
        assert forall|i: int| 0 <= i < decimal_digits(n).len() implies is_ascii_digit(
            #[trigger] decimal_digits(n)[i],
        ) && decimal_digits(n)[i] != '.' && !is_white_space(decimal_digits(n)[i]) by {
            if i < p.len() {
                assert(decimal_digits(n)[i] == p[i]);
            }
        }
    }
}

/// Scanning the digits of `n` gives back `n` (or `-n`), when it is in range.
proof fn lemma_scan_decimal_digits(n: nat, neg: bool, lo: int, hi: int)
    requires
        lo <= 0 <= hi,
        !neg ==> n <= hi,
        neg ==> -(n as int) >= lo,
    ensures
        scan_digits(decimal_digits(n), neg, lo, hi) == Ok::<int, IntErrorKind>(
            if neg {
                -(n as int)
            } else {
                n as int
            },
        ),
    decreases n,
{
    let ds = decimal_digits(n);
    if n < 10 {
        lemma_digit_char(n);
        assert(ds.drop_last() =~= Seq::<char>::empty());
    } else {
        assert((n / 10) * 10 + n % 10 == n) by (nonlinear_arith);
        assert(n / 10 <= n) by (nonlinear_arith);
        lemma_scan_decimal_digits(n / 10, neg, lo, hi);
        lemma_digit_char(n % 10);
        assert(ds.drop_last() =~= decimal_digits(n / 10));
        assert(ds.last() == digit_char(n % 10));
    }
}

/// Parsing the decimal text of an `i32` gives the number back.
pub proof fn lemma_parse_decimal_i32(v: i32)
    ensures
        parse_i32_spec(decimal(v as int)) == Ok::<int, IntErrorKind>(v as int),
{
    if v < 0 {
        let m = (-(v as int)) as nat;
        lemma_scan_decimal_digits(m, true, i32::MIN as int, i32::MAX as int);
        lemma_decimal_digits_shape(m);
        let s = decimal(v as int);
        assert(s.drop_first() =~= decimal_digits(m));
    } else {
        lemma_scan_decimal_digits(v as nat, false, i32::MIN as int, i32::MAX as int);
        lemma_decimal_digits_shape(v as nat);
        assert(is_ascii_digit(decimal_digits(v as nat)[0]));
    }
}

/// Parsing the decimal text of a `u32` gives the number back.
pub proof fn lemma_parse_decimal_u32(v: u32)
    ensures
        parse_u32_spec(decimal(v as int)) == Ok::<int, IntErrorKind>(v as int),
{
    lemma_scan_decimal_digits(v as nat, false, 0, u32::MAX as int);
    lemma_decimal_digits_shape(v as nat);
    assert(is_ascii_digit(decimal_digits(v as nat)[0]));
}

/// The decimal text of a number has no surrounding whitespace to trim.
pub proof fn lemma_trim_decimal(v: int)
    ensures
        trim(decimal(v)) == decimal(v),
{
    let s = decimal(v);
    let m = if v < 0 {
        (-v) as nat
    } else {
        v as nat
    };
    lemma_decimal_digits_shape(m);
    let ds = decimal_digits(m);
    assert(!is_white_space(ds[ds.len() - 1]));
    if v < 0 {
        assert(!is_white_space('-'));
        assert(s.last() == ds.last());
    } else {
        assert(!is_white_space(ds[0]));
    }
}

} // verus!
