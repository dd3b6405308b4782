//! Keys that identify locations.
use crate::text::decimal_text_u64;
use vstd::prelude::*;
use vstd::string::{StrSliceExecFns, StringExecFns};

verus! {

/// A unique identifier for a location: an index and a version.
#[derive(Clone, Copy, Debug, PartialEq, Eq, Hash, Structural)]
pub struct LocationKey {
    /// The version in the upper half, the index in the lower half.
    pub ffi: u64,
}

/// Why a text is not a location key.
#[derive(Clone, Copy, Debug, PartialEq, Eq, Structural)]
pub enum LocationKeyError {
    /// It does not start with `loc`, or there is no `v` after that.
    Format,
    /// The index or the version is not a number.
    Number(NumberError),
}

/// Why a text is not an unsigned number.
#[derive(Clone, Copy, Debug, PartialEq, Eq, Structural)]
pub enum NumberError {
    Empty,
    InvalidDigit,
    Overflow,
}

/// The index of a key.
pub open spec fn index_of(ffi: u64) -> u64 {
    ffi & 0xffff_ffff
}

/// The version of a key; it is always odd.
pub open spec fn version_of(ffi: u64) -> u64 {
    (ffi >> 32) | 1
}

pub open spec fn digit_char(d: nat) -> char {
    ('0' as int + d) as char
}

/// A number in decimal notation.
pub open spec fn decimal(n: nat) -> Seq<char>
    decreases n,
{
    if n < 10 {
        seq![digit_char(n)]
    } else {
        decimal(n / 10).push(digit_char(n % 10))
    }
}

pub open spec fn is_digit(c: char) -> bool {
    '0' <= c && c <= '9'
}

/// Reads digits from the left; stops at the first character that is no digit, or at
/// the first digit with which the value no longer fits.
pub open spec fn read_digits(s: Seq<char>) -> Result<u64, NumberError>
    decreases s.len(),
{
    if s.len() == 0 {
        Ok(0)
    } else {
        match read_digits(s.drop_last()) {
            Err(e) => Err(e),
            Ok(v) => {
                let longer = v * 10 + (s.last() as int - '0' as int);
                if !is_digit(s.last()) {
                    Err(NumberError::InvalidDigit)
                } else if longer > u64::MAX {
                    Err(NumberError::Overflow)
                } else {
                    Ok(longer as u64)
                }
            },
        }
    }
}

/// The digits of a number, without the plus sign that may stand before them.
pub open spec fn digits_of(s: Seq<char>) -> Seq<char> {
    if s.len() >= 2 && s[0] == '+' {
        s.skip(1)
    } else {
        s
    }
}

/// Reads an unsigned number.
pub open spec fn read_number(s: Seq<char>) -> Result<u64, NumberError> {
    if digits_of(s).len() == 0 {
        Err(NumberError::Empty)
    } else {
        read_digits(digits_of(s))
    }
}

/// The text of a key's data.
pub open spec fn key_text(ffi: u64) -> Seq<char> {
    if index_of(ffi) == 0xffff_ffff {
        seq!['n', 'u', 'l', 'l']
    } else {
        decimal(index_of(ffi) as nat) + seq!['v'] + decimal(version_of(ffi) as nat)
    }
}

/// `slotmap::KeyData::from_ffi`, read back with `as_ffi`: the lower half is the index,
/// and the upper half is the version, which is made odd.
#[verifier::external_body]
fn key_data(value: u64) -> (r: u64)
    ensures
        r == value | 0x1_0000_0000,
{
    slotmap::KeyData::from_ffi(value).as_ffi()
}

/// The `Debug` text of `slotmap::KeyData`: the index, a `v` and the version, or `null`
/// for the greatest index.
#[verifier::external_body]
fn key_data_text(value: u64) -> (r: String)
    ensures
        r@ == key_text(value),
{
    format!("{:?}", slotmap::KeyData::from_ffi(value))
}

proof fn lemma_read_fails_early(s: Seq<char>, n: int)
    requires
        0 <= n <= s.len(),
        read_digits(s.take(n)) is Err,
    ensures
        read_digits(s) == read_digits(s.take(n)),
    decreases s.len() - n,
{
    if n == s.len() {
        assert(s.take(n) =~= s);
    } else {
        crate::seqs::lemma_take_next(s, n);
        lemma_read_fails_early(s, n + 1);
    }
}

/// Reads an unsigned number, with an optional plus sign.
fn parse_number(s: &Vec<char>, from: usize, to: usize) -> (r: Result<u64, NumberError>)
    requires
        from <= to <= s.len(),
    ensures
        r == read_number(s@.subrange(from as int, to as int)),
{
    let start: usize = if to - from >= 2 && s[from] == '+' {
        from + 1
    } else {
        from
    };
    let ghost d = digits_of(s@.subrange(from as int, to as int));
    assert(d =~= s@.subrange(start as int, to as int));
    if start == to {
        return Err(NumberError::Empty);
    }
    let mut value: u64 = 0;
    let mut i: usize = start;
    while i < to
        invariant
            start <= i <= to <= s.len(),
            d == s@.subrange(start as int, to as int),
            d == digits_of(s@.subrange(from as int, to as int)),
            start < to,
            read_digits(d.take(i - start)) == Ok::<u64, NumberError>(value),
        decreases to - i,
    {
        let c: char = s[i];
        let ghost k = i - start;
        assert(d[k] == c);
        proof {
            crate::seqs::lemma_take_next(d, k);
            if read_digits(d.take(k + 1)) is Err {
                lemma_read_fails_early(d, k + 1);
            }
        }
        if c < '0' || c > '9' {
            return Err(NumberError::InvalidDigit);
        }
        let digit: u64 = c as u64 - '0' as u64;
        match value.checked_mul(10) {
            None => {
                return Err(NumberError::Overflow);
            },
            Some(tenfold) => {
                match tenfold.checked_add(digit) {
                    None => {
                        return Err(NumberError::Overflow);
                    },
                    Some(sum) => {
                        value = sum;
                    },
                }
            },
        }
        i += 1;
    }
    assert(d.take(d.len() as int) =~= d);
    Ok(value)
}

/// The first place of a `v` in a text, if there is one.
pub open spec fn first_v(s: Seq<char>) -> Option<int>
    decreases s.len(),
{
    if s.len() == 0 {
        None
    } else {
        match first_v(s.drop_last()) {
            Some(i) => Some(i),
            None => if s.last() == 'v' {
                Some(s.len() - 1)
            } else {
                None
            },
        }
    }
}

/// What a text means as a location key.
pub open spec fn read_key(s: Seq<char>) -> Result<LocationKey, LocationKeyError> {
    if !(s.len() >= 3 && s[0] == 'l' && s[1] == 'o' && s[2] == 'c') {
        Err(LocationKeyError::Format)
    } else {
        let nvn = s.skip(3);
        match first_v(nvn) {
            None => Err(LocationKeyError::Format),
            Some(p) => match (read_number(nvn.take(p)), read_number(nvn.skip(p + 1))) {
                (Err(e), _) => Err(LocationKeyError::Number(e)),
                (Ok(_), Err(e)) => Err(LocationKeyError::Number(e)),
                (Ok(i), Ok(v)) => Ok(LocationKey { ffi: ((v << 32) | i) | 0x1_0000_0000 }),
            },
        }
    }
}

proof fn lemma_first_v(s: Seq<char>, n: int)
    requires
        0 <= n <= s.len(),
    ensures
        first_v(s.take(n)) is None <==> forall|j: int| 0 <= j < n ==> s[j] != 'v',
    decreases n,
{
    if n > 0 {
        lemma_first_v(s, n - 1);
        crate::seqs::lemma_take_next(s, n - 1);
    }
}

proof fn lemma_first_v_found(s: Seq<char>, n: int, p: int)
    requires
        0 <= p < n <= s.len(),
        s[p] == 'v',
        forall|j: int| 0 <= j < p ==> s[j] != 'v',
    ensures
        first_v(s.take(n)) == Some(p),
    decreases n,
{
    crate::seqs::lemma_take_next(s, n - 1);
    if p < n - 1 {
        lemma_first_v_found(s, n - 1, p);
    } else {
        lemma_first_v(s, p);
    }
}

/// The expression that stands for a key in the code of a plan.
pub open spec fn key_tokens(root: Seq<char>, ffi: u64) -> Seq<char> {
    root + "::location::LocationKey::from("@ + root
        + "::runtime_support::slotmap::KeyData::from_ffi("@ + decimal(ffi as nat) + "u64))"@
}

impl LocationKey {
    /// The key with the given representation.
    pub fn from_ffi(value: u64) -> (r: Self)
        ensures
            r.ffi == value | 0x1_0000_0000,
    {
        LocationKey { ffi: key_data(value) }
    }

    /// The first location key.
    pub fn first() -> (r: Self)
        ensures
            r.ffi == 0x0000_0001_0000_0001,
    {
        assert(0x0000_0001_0000_0001u64 | 0x1_0000_0000u64 == 0x0000_0001_0000_0001u64)
            by (bit_vector);
        Self::from_ffi(0x0000_0001_0000_0001)
    }

    /// The text of this key, such as `loc1v1`.
    pub fn to_text(&self) -> (r: String)
        ensures
            r@ == seq!['l', 'o', 'c'] + key_text(self.ffi),
    {
        let mut text: String = "loc".to_owned();
        proof {
            reveal_strlit("loc");
        }
        let data = key_data_text(self.ffi);
        text.append(data.as_str());
        assert(text@ =~= seq!['l', 'o', 'c'] + key_text(self.ffi));
        text
    }

    /// The expression that stands for this key in the code of a plan. `root` is the path of the
    /// crate in which that code finds the key's type.
    pub fn to_tokens(self, root: &str) -> (r: String)
        ensures
            r@ == key_tokens(root@, self.ffi),
    {
        let mut text: String = root.to_owned();
        text.append("::location::LocationKey::from(");
        text.append(root);
        text.append("::runtime_support::slotmap::KeyData::from_ffi(");
        text.append(decimal_text_u64(self.ffi).as_str());
        text.append("u64))");
        text
    }

    /// Reads a key from its text.
    pub fn from_str(s: &str) -> (r: Result<Self, LocationKeyError>)
        ensures
            r == read_key(s@),
    {
        let mut text: Vec<char> = Vec::new();
        let n: usize = s.unicode_len();
        for i in 0..n
            invariant
                n == s@.len(),
                text@ == s@.take(i as int),
        {
            text.push(s.get_char(i));
            proof {
                crate::seqs::lemma_take_next(s@, i as int);
            }
        }
        assert(text@ =~= s@);
        if !(n >= 3 && text[0] == 'l' && text[1] == 'o' && text[2] == 'c') {
            return Err(LocationKeyError::Format);
        }
        let ghost nvn = s@.skip(3);
        let mut p: usize = 3;
        while p < n && text[p] != 'v'
            invariant
                3 <= p <= n,
                n == text.len(),
                text@ == s@,
                nvn == s@.skip(3),
                forall|j: int| 0 <= j < p - 3 ==> nvn[j] != 'v',
            decreases n - p,
        {
            p += 1;
        }
        assert(nvn.take(nvn.len() as int) =~= nvn);
        if p == n {
            proof {
                lemma_first_v(nvn, nvn.len() as int);
            }
            return Err(LocationKeyError::Format);
        }
        proof {
            lemma_first_v_found(nvn, nvn.len() as int, p - 3);
            assert(nvn.take(p - 3) =~= text@.subrange(3, p as int));
            assert(nvn.skip(p - 3 + 1) =~= text@.subrange(p + 1, n as int));
        }
        let idx = parse_number(&text, 3, p);
        let ver = parse_number(&text, p + 1, n);
        match (idx, ver) {
            (Err(e), _) => Err(LocationKeyError::Number(e)),
            (Ok(_), Err(e)) => Err(LocationKeyError::Number(e)),
            (Ok(i), Ok(v)) => Ok(Self::from_ffi((v << 32) | i)),
        }
    }
}

proof fn lemma_decimal_digits(n: nat)
    ensures
        decimal(n).len() >= 1,
        forall|i: int| 0 <= i < decimal(n).len() ==> is_digit(#[trigger] decimal(n)[i]),
    decreases n,
{
    if n >= 10 {
        lemma_decimal_digits(n / 10);
    }
}

/// A number in decimal notation reads back as that number.
pub proof fn lemma_read_decimal(n: nat)
    requires
        n <= u64::MAX,
    ensures
        read_digits(decimal(n)) == Ok::<u64, NumberError>(n as u64),
    decreases n,
{
    if n < 10 {
        let d = decimal(n);
        assert(d.drop_last() =~= Seq::<char>::empty());
        assert(d.last() == digit_char(n));
        assert(read_digits(Seq::<char>::empty()) == Ok::<u64, NumberError>(0));
    } else {
        lemma_read_decimal(n / 10);
        assert(decimal(n).drop_last() =~= decimal(n / 10));
    }
}

/// The text of a key reads back as that key, unless its index is the greatest one, whose
/// text is `locnull`.
pub proof fn law_key_text_round_trip(key: LocationKey)
    requires
        key.ffi & 0x1_0000_0000 != 0,
        index_of(key.ffi) != 0xffff_ffff,
    ensures
        read_key(seq!['l', 'o', 'c'] + key_text(key.ffi)) == Ok::<LocationKey, LocationKeyError>(
            key,
        ),
{
    let ffi = key.ffi;
    let idx = index_of(ffi);
    let ver = version_of(ffi);
    let a = decimal(idx as nat);
    let b = decimal(ver as nat);
    let text = seq!['l', 'o', 'c'] + key_text(ffi);
    let nvn = text.skip(3);
    lemma_decimal_digits(idx as nat);
    lemma_decimal_digits(ver as nat);
    lemma_read_decimal(idx as nat);
    lemma_read_decimal(ver as nat);
    assert(nvn =~= a + seq!['v'] + b);
    let p = a.len() as int;
    assert forall|j: int| 0 <= j < p implies nvn[j] != 'v' by {
        assert(is_digit(a[j]));
    }
    lemma_first_v_found(nvn, nvn.len() as int, p);
    assert(nvn.take(nvn.len() as int) =~= nvn);
    assert(nvn.take(p) =~= a);
    assert(nvn.skip(p + 1) =~= b);
    assert(is_digit(a[0]) && is_digit(b[0]));
    assert(digits_of(a) == a && digits_of(b) == b);
    assert(((((ffi >> 32) | 1) << 32) | (ffi & 0xffff_ffff)) | 0x1_0000_0000 == ffi) by (bit_vector)
        requires
            ffi & 0x1_0000_0000 != 0,
    ;
}

/// The number that a list of digits stands for.
pub open spec fn value_of(s: Seq<char>) -> int {
    s.fold_left(0, |v: int, c: char| 10 * v + (c as int - '0' as int))
}

/// Whether all characters are digits.
pub open spec fn all_digits(s: Seq<char>) -> bool {
    forall|i: int| 0 <= i < s.len() ==> '0' <= #[trigger] s[i] && s[i] <= '9'
}

proof fn lemma_value_next(s: Seq<char>)
    requires
        s.len() > 0,
    ensures
        value_of(s) == 10 * value_of(s.drop_last()) + (s.last() as int - '0' as int),
{
}

proof fn lemma_value_positive(s: Seq<char>)
    requires
        all_digits(s),
    ensures
        value_of(s) >= 0,
    decreases s.len(),
{
    if s.len() > 0 {
        lemma_value_positive(s.drop_last());
        lemma_value_next(s);
        assert(s.last() == s[s.len() - 1]);
    }
}

proof fn lemma_read_value(s: Seq<char>)
    requires
        all_digits(s),
    ensures
        value_of(s) <= u64::MAX ==> read_digits(s) == Ok::<u64, NumberError>(value_of(s) as u64),
        value_of(s) > u64::MAX ==> read_digits(s) == Err::<u64, NumberError>(NumberError::Overflow),
    decreases s.len(),
{
    if s.len() > 0 {
        lemma_read_value(s.drop_last());
        lemma_value_positive(s.drop_last());
        lemma_value_next(s);
        assert(s.last() == s[s.len() - 1]);
    }
}

proof fn lemma_read_stops(s: Seq<char>, n: int)
    requires
        0 <= n <= s.len(),
        read_digits(s.take(n)) is Err,
    ensures
        read_digits(s) == read_digits(s.take(n)),
    decreases s.len(),
{
    if n < s.len() {
        assert(s.drop_last().take(n) =~= s.take(n));
        lemma_read_stops(s.drop_last(), n);
    } else {
        assert(s.take(n) =~= s);
    }
}

/// A number is one or more digits, with or without a plus sign before them, and means what its
/// digits mean. One that does not fit is an overflow. A character that is no digit makes the text
/// invalid, unless the digits before it are too many already. An empty text is no number, and
/// neither is a plus sign alone.
pub proof fn law_read_number(d: Seq<char>, rest: Seq<char>)
    requires
        all_digits(d),
        rest.len() > 0 ==> rest[0] < '0' || '9' < rest[0],
    ensures
        read_number(Seq::empty()) == Err::<u64, NumberError>(NumberError::Empty),
        read_number(seq!['+']) == Err::<u64, NumberError>(NumberError::InvalidDigit),
        d.len() > 0 ==> read_number(seq!['+'] + d + rest) == read_number(d + rest),
        d.len() > 0 && rest.len() == 0 && value_of(d) <= u64::MAX ==> read_number(d + rest) == Ok::<
            u64,
            NumberError,
        >(value_of(d) as u64),
        d.len() > 0 && rest.len() > 0 && value_of(d) <= u64::MAX ==> read_number(d + rest) == Err::<
            u64,
            NumberError,
        >(NumberError::InvalidDigit),
        d.len() > 0 && value_of(d) > u64::MAX ==> read_number(d + rest) == Err::<u64, NumberError>(
            NumberError::Overflow,
        ),
        rest.len() > 0 && rest[0] != '+' ==> read_number(rest) == Err::<u64, NumberError>(
            NumberError::InvalidDigit,
        ),
{
    let plus = seq!['+'];
    assert(digits_of(plus) == plus);
    assert(plus.drop_last() =~= Seq::empty());
    assert(read_digits(Seq::<char>::empty()) == Ok::<u64, NumberError>(0));
    assert(plus.last() == '+');
    let s = d + rest;
    if d.len() > 0 {
        assert(s[0] == d[0]);
        assert(digits_of(s) == s);
        assert((plus + d + rest)[0] == '+');
        assert((plus + d + rest).skip(1) =~= s);
    }
    lemma_read_value(d);
    assert(s.take(d.len() as int) =~= d);
    if value_of(d) > u64::MAX {
        lemma_read_stops(s, d.len() as int);
    } else if rest.len() > 0 {
        let n = d.len() + 1;
        assert(s.take(n as int).drop_last() =~= d);
        assert(s.take(n as int).last() == rest[0]);
        lemma_read_stops(s, n as int);
    } else {
        assert(s =~= d);
    }
    if rest.len() > 0 && rest[0] != '+' {
        assert(digits_of(rest) == rest);
        assert(rest.take(1).drop_last() =~= Seq::empty());
        assert(rest.take(1).last() == rest[0]);
        lemma_read_stops(rest, 1);
    }
}

/// Decimal notation has only digits, no zero before other digits, and means the number.
pub proof fn law_decimal(n: nat)
    ensures
        decimal(n).len() > 0,
        all_digits(decimal(n)),
        value_of(decimal(n)) == n,
        n >= 10 ==> decimal(n)[0] != '0',
        n < 10 ==> decimal(n).len() == 1,
    decreases n,
{
    let d = decimal(n);
    if n < 10 {
        assert(d.drop_last() =~= Seq::empty());
        lemma_value_next(d);
    } else {
        law_decimal(n / 10);
        assert(d.drop_last() =~= decimal(n / 10));
        lemma_value_next(d);
        assert(d[0] == decimal(n / 10)[0]);
    }
}

/// A text is a key only if it starts with `loc` and has a `v` after that. What stands between the
/// two is the index, and what comes after the first `v` is the version. The first of the two that
/// is no number is the error.
pub proof fn law_read_key(a: Seq<char>, b: Seq<char>)
    requires
        !a.contains('v'),
    ensures
        read_key(seq!['l', 'o', 'c'] + a) == Err::<LocationKey, LocationKeyError>(
            LocationKeyError::Format,
        ),
        ({
            let r = read_key(seq!['l', 'o', 'c'] + a + seq!['v'] + b);
            match (read_number(a), read_number(b)) {
                (Err(e), _) => r == Err::<LocationKey, LocationKeyError>(
                    LocationKeyError::Number(e),
                ),
                (Ok(_), Err(e)) => r == Err::<LocationKey, LocationKeyError>(
                    LocationKeyError::Number(e),
                ),
                (Ok(i), Ok(v)) => r is Ok && (i <= 0xffff_ffff && v <= 0xffff_ffff ==> index_of(
                    r->Ok_0.ffi,
                ) == i && (v % 2 == 1 ==> version_of(r->Ok_0.ffi) == v)),
            }
        }),
{
    let loc = seq!['l', 'o', 'c'];
    assert((loc + a).skip(3) =~= a);
    assert forall|j: int| 0 <= j < a.len() implies a[j] != 'v' by {
        if a[j] == 'v' {
            assert(a.contains('v'));
        }
    }
    lemma_first_v(a, a.len() as int);
    assert(a.take(a.len() as int) =~= a);
    let s = loc + a + seq!['v'] + b;
    let nvn = s.skip(3);
    assert(nvn =~= a + seq!['v'] + b);
    let p = a.len() as int;
    lemma_first_v_found(nvn, nvn.len() as int, p);
    assert(nvn.take(nvn.len() as int) =~= nvn);
    assert(nvn.take(p) =~= a);
    assert(nvn.skip(p + 1) =~= b);
    if let (Ok(i), Ok(v)) = (read_number(a), read_number(b)) {
        let ffi = ((v << 32) | i) | 0x1_0000_0000u64;
        assert(i <= 0xffff_ffff && v <= 0xffff_ffff ==> ffi & 0xffff_ffff == i && (v % 2 == 1 ==> (
        ffi >> 32) | 1 == v)) by (bit_vector)
            requires
                ffi == ((v << 32) | i) | 0x1_0000_0000u64,
        ;
    }
}

/// A text that does not start with `loc` is no key.
pub proof fn law_no_key(s: Seq<char>)
    requires
        !seq!['l', 'o', 'c'].is_prefix_of(s),
    ensures
        read_key(s) == Err::<LocationKey, LocationKeyError>(LocationKeyError::Format),
{
    if s.len() >= 3 && s[0] == 'l' && s[1] == 'o' && s[2] == 'c' {
        assert(seq!['l', 'o', 'c'] =~= s.subrange(0, 3));
    }
}

} // verus!
