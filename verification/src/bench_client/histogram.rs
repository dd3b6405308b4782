//! Histograms of latencies.
use flate2::read::ZlibDecoder;
use hdrhistogram::serialization::{Deserializer, Serializer, V2Serializer};
use hdrhistogram::Histogram;
use std::io::Read;
use vstd::arithmetic::div_mod::lemma_div_denominator;
use vstd::arithmetic::power2::{lemma2_to64, lemma_pow2_pos, lemma_pow2_unfold, pow2};
use vstd::multiset::Multiset;
use vstd::prelude::*;

verus! {

/// A histogram, which counts values with a limited number of digits, and which can be turned
/// into bytes and back.
#[verifier::external_body]
pub struct SerializableHistogramWrapper {
    histogram: Histogram<u64>,
}

/// The values that a histogram has counted, each as the least value that it does not tell
/// apart from it.
pub uninterp spec fn recorded(h: SerializableHistogramWrapper) -> Multiset<u64>;

/// What a histogram was set up with: the least value that it tells apart from zero, the
/// number of digits that it keeps, and whether it grows with what it counts.
pub uninterp spec fn settings(h: SerializableHistogramWrapper) -> (u64, u8, bool);

/// What `ZlibDecoder` unpacks from bytes: what it yields up to `n` bytes, or nothing if it fails
/// before that.
pub uninterp spec fn unpacked(packed: Seq<u8>, n: nat) -> Option<Seq<u8>>;

/// What `Deserializer::deserialize` makes of bytes that describe a histogram with three digits
/// that tells one from zero, on a machine with the given width of `usize`: the counted values.
pub uninterp spec fn histogram_read(bytes: Seq<u8>, usize_bits: nat) -> Option<Multiset<u64>>;

/// The least value that a histogram with three digits does not tell apart from `v`. Below
/// 2048 it tells all values apart, below the double of that every second one, and so on.
pub open spec fn rounded(v: nat) -> nat
    decreases v,
{
    if v < 2048 {
        v
    } else {
        2 * rounded(v / 2)
    }
}

/// Four bytes as a number, the highest first.
pub open spec fn number_at(bytes: Seq<u8>, i: int) -> nat {
    (bytes[i] * 0x100_0000 + bytes[i + 1] * 0x1_0000 + bytes[i + 2] * 0x100 + bytes[i + 3]) as nat
}

/// Whether the bytes start as an uncompressed histogram does.
pub open spec fn is_plain(bytes: Seq<u8>) -> bool {
    bytes.len() >= 4 && bytes[0] == 0x1c && bytes[1] == 0x84 && bytes[2] == 0x93 && bytes[3] == 0x13
}

/// Whether the bytes start as a compressed histogram does, and tell how many bytes it takes.
pub open spec fn is_packed(bytes: Seq<u8>) -> bool {
    bytes.len() >= 8 && bytes[0] == 0x1c && bytes[1] == 0x84 && bytes[2] == 0x93 && bytes[3] == 0x14
}

/// The first `n` bytes of the uncompressed histogram that the bytes hold, if they hold so many.
/// A compressed histogram stands behind eight bytes, and the last four of these tell how many
/// bytes it takes.
pub open spec fn plain_bytes(bytes: Seq<u8>, n: nat) -> Option<Seq<u8>> {
    let end = 8 + number_at(bytes, 4);
    let plain = if is_packed(bytes) {
        unpacked(
            bytes.subrange(
                8,
                if end < bytes.len() {
                    end as int
                } else {
                    bytes.len() as int
                },
            ),
            n,
        )
    } else if n <= bytes.len() {
        Some(bytes.take(n as int))
    } else {
        None
    };
    if (plain matches Some(s) && s.len() == n && is_plain(s)) {
        plain
    } else {
        None
    }
}

/// The forty bytes that describe the histogram, if there are so many.
pub open spec fn description(bytes: Seq<u8>) -> Option<Seq<u8>> {
    plain_bytes(bytes, 40)
}

/// The description and the counters behind it, if they are there. The fifth to eighth byte of
/// the description tell how many bytes the counters take.
pub open spec fn with_counters(bytes: Seq<u8>) -> Option<Seq<u8>> {
    match description(bytes) {
        Some(d) => plain_bytes(bytes, 40 + number_at(d, 4)),
        None => None,
    }
}

/// Whether no counter of the histogram that the bytes hold has all its bits set.
pub open spec fn all_counters_fit(bytes: Seq<u8>) -> bool {
    match with_counters(bytes) {
        Some(plain) => counters_fit(plain, 40, 0, true),
        None => true,
    }
}

/// Whether the bytes describe a histogram with these settings: the least value told apart from
/// zero, and the number of digits.
pub open spec fn describes(bytes: Seq<u8>, low: u64, digits: u8) -> bool {
    description(bytes) matches Some(d) && number_at(d, 12) == digits && number_at(d, 16)
        * 0x1_0000_0000 + number_at(d, 20) == low
}

/// Whether no counter from a place on takes nine bytes that have all their bits set. A counter
/// ends with a byte whose highest bit is not set, or with its ninth byte. At this place `k`
/// bytes of a counter have been passed, and `full` says whether all their bits were set.
pub open spec fn counters_fit(bytes: Seq<u8>, i: int, k: nat, full: bool) -> bool
    decreases bytes.len() - i,
{
    if i >= bytes.len() {
        true
    } else if k == 8 {
        !(full && bytes[i] == 0xff) && counters_fit(bytes, i + 1, 0, true)
    } else if bytes[i] < 0x80 {
        counters_fit(bytes, i + 1, 0, true)
    } else {
        counters_fit(bytes, i + 1, k + 1, full && bytes[i] == 0xff)
    }
}

/// Whether some counter of a histogram is above the greatest signed number.
pub open spec fn over_counted(h: SerializableHistogramWrapper) -> bool {
    exists|v: u64| #[trigger] recorded(h).count(v) > i64::MAX
}

/// `Histogram::new`: an empty histogram that keeps the given number of digits, tells all
/// positive values from zero and grows with what it counts. It fails only for more than five
/// digits.
#[verifier::external_body]
fn new_histogram(digits: u8) -> (r: SerializableHistogramWrapper)
    requires
        digits <= 5,
    ensures
        recorded(r) == Multiset::<u64>::empty(),
        settings(r) == (1u64, digits, true),
{
    SerializableHistogramWrapper { histogram: Histogram::new(digits).unwrap() }
}

/// `Histogram::record`: counts one more occurrence of the value. A histogram that grows takes
/// every value. The counters stop at their greatest number, so nothing is claimed of a
/// histogram that is full.
#[verifier::external_body]
fn record_value(h: &mut SerializableHistogramWrapper, value: u64)
    requires
        settings(*old(h)) == (1u64, 3u8, true),
    ensures
        settings(*final(h)) == settings(*old(h)),
        recorded(*old(h)).len() < u64::MAX ==> recorded(*final(h)) == recorded(*old(h)).insert(
            rounded(value as nat) as u64,
        ),
{
    h.histogram.record(value).unwrap();
}

/// `Histogram::len`: how many values were counted, unless there are more than the counter can
/// tell.
#[verifier::external_body]
fn count_values(h: &SerializableHistogramWrapper) -> (r: u64)
    ensures
        recorded(*h).len() <= u64::MAX ==> r == recorded(*h).len(),
{
    h.histogram.len()
}

/// `Histogram::add`: counts everything that the other histogram has counted. Both keep the
/// same digits, and the one that is added to grows, so it does not fail. Nothing is claimed
/// where the counters are full.
#[verifier::external_body]
fn add_values(h: &mut SerializableHistogramWrapper, other: &SerializableHistogramWrapper)
    requires
        settings(*old(h)) == (1u64, 3u8, true),
        settings(*other).0 == 1 && settings(*other).1 == 3,
    ensures
        settings(*final(h)) == settings(*old(h)),
        recorded(*old(h)).len() + recorded(*other).len() <= u64::MAX ==> recorded(*final(h))
            == recorded(*old(h)).add(recorded(*other)),
{
    h.histogram.add(&other.histogram).unwrap();
}

/// `Histogram::auto`: whether the histogram grows from now on.
#[verifier::external_body]
fn set_auto(h: &mut SerializableHistogramWrapper, enabled: bool)
    ensures
        recorded(*final(h)) == recorded(*old(h)),
        settings(*final(h)) == (settings(*old(h)).0, settings(*old(h)).1, enabled),
{
    h.histogram.auto(enabled);
}

/// `Histogram::low`: the least value that is told apart from zero.
#[verifier::external_body]
fn lowest_value(h: &SerializableHistogramWrapper) -> (r: u64)
    ensures
        r == settings(*h).0,
{
    h.histogram.low()
}

/// `Histogram::sigfig`: the number of digits that are kept.
#[verifier::external_body]
fn digits(h: &SerializableHistogramWrapper) -> (r: u8)
    ensures
        r == settings(*h).1,
{
    h.histogram.sigfig()
}

/// `V2Serializer::serialize`: the histogram as bytes. It fails if some counter is above the
/// greatest signed number, and only then. The bytes are not compressed, they describe the
/// settings, and each counter is written as an even number or in fewer than nine bytes. With
/// three digits, and one told apart from zero, `Deserializer::deserialize` makes the same values
/// of them again. For other settings that is left unsaid: how values are grouped then depends on
/// how exactly the machine computes logarithms.
#[verifier::external_body]
fn write_histogram(h: &SerializableHistogramWrapper) -> (r: Option<Vec<u8>>)
    ensures
        r is None <==> over_counted(*h),
        r matches Some(bytes) ==> is_plain(bytes@) && all_counters_fit(bytes@) && describes(
            bytes@,
            settings(*h).0,
            settings(*h).1,
        ),
        r matches Some(bytes) ==> (has_standard_settings(*h) ==> histogram_read(
            bytes@,
            usize::BITS as nat,
        ) == Some(recorded(*h))),
{
    let mut bytes: Vec<u8> = Vec::new();
    match V2Serializer::new().serialize(&h.histogram, &mut bytes) {
        Ok(_) => Some(bytes),
        Err(_) => None,
    }
}

/// `Deserializer::deserialize`: the histogram that the bytes stand for, compressed or not, if
/// they stand for one. It has the settings that the bytes describe, and does not grow. The call
/// negates a counter that has all its bits set, which overflows, so it is kept away from such
/// bytes. Of settings other than three digits, and one told apart from zero, nothing more is
/// said: how values are grouped then depends on how exactly the machine computes logarithms.
#[verifier::external_body]
fn read_histogram(bytes: &Vec<u8>) -> (r: Option<SerializableHistogramWrapper>)
    requires
        all_counters_fit(bytes@),
    ensures
        match r {
            Some(h) => !settings(h).2 && describes(bytes@, settings(h).0, settings(h).1) && (
            has_standard_settings(h) ==> histogram_read(bytes@, usize::BITS as nat) == Some(
                recorded(h),
            )),
            None => describes(bytes@, 1, 3) ==> histogram_read(bytes@, usize::BITS as nat) is None,
        },
{
    let mut rest: &[u8] = bytes.as_slice();
    match Deserializer::new().deserialize(&mut rest) {
        Ok(histogram) => Some(SerializableHistogramWrapper { histogram }),
        Err(_) => None,
    }
}

/// `ZlibDecoder`, read up to `n` bytes: what the bytes unpack to, as far as that.
#[verifier::external_body]
fn unpack(packed: &[u8], n: u64) -> (r: Option<Vec<u8>>)
    ensures
        match r {
            Some(out) => unpacked(packed@, n as nat) == Some(out@) && out@.len() <= n,
            None => unpacked(packed@, n as nat) is None,
        },
{
    let mut out: Vec<u8> = Vec::new();
    match ZlibDecoder::new(packed).take(n).read_to_end(&mut out) {
        Ok(_) => Some(out),
        Err(_) => None,
    }
}

/// Four bytes as a number, the highest first.
fn read_number(bytes: &Vec<u8>, i: usize) -> (r: u64)
    requires
        i + 4 <= bytes.len(),
    ensures
        r == number_at(bytes@, i as int),
        r < 0x1_0000_0000,
{
    bytes[i] as u64 * 0x100_0000 + bytes[i + 1] as u64 * 0x1_0000 + bytes[i + 2] as u64 * 0x100
        + bytes[i + 3] as u64
}

/// The first `n` bytes of the uncompressed histogram that the bytes hold, if they hold so many.
fn read_plain(bytes: &Vec<u8>, n: u64) -> (r: Option<Vec<u8>>)
    ensures
        match r {
            Some(out) => plain_bytes(bytes@, n as nat) == Some(out@),
            None => plain_bytes(bytes@, n as nat) is None,
        },
{
    let plain = if bytes.len() >= 8 && bytes[0] == 0x1c && bytes[1] == 0x84 && bytes[2] == 0x93
        && bytes[3] == 0x14 {
        let told: u64 = 8 + read_number(bytes, 4);
        let mut end: usize = bytes.len();
        if told < end as u64 {
            end = told as usize;
        }
        unpack(vstd::slice::slice_subrange(bytes.as_slice(), 8, end), n)
    } else if n <= bytes.len() as u64 {
        let out = vstd::slice::slice_to_vec(
            vstd::slice::slice_subrange(bytes.as_slice(), 0, n as usize),
        );
        assert(out@ =~= bytes@.take(n as int));
        Some(out)
    } else {
        None
    };
    match plain {
        Some(out) => {
            if out.len() as u64 == n && out.len() >= 4 && out[0] == 0x1c && out[1] == 0x84 && out[2]
                == 0x93 && out[3] == 0x13 {
                Some(out)
            } else {
                None
            }
        },
        None => None,
    }
}

/// Whether no counter of an uncompressed histogram has all its bits set.
fn check_counters(bytes: &Vec<u8>) -> (b: bool)
    ensures
        b == counters_fit(bytes@, 40, 0, true),
{
    let mut i: usize = 40;
    let mut k: usize = 0;
    let mut full = true;
    while i < bytes.len()
        invariant
            k <= 8,
            counters_fit(bytes@, 40, 0, true) == counters_fit(bytes@, i as int, k as nat, full),
        decreases bytes.len() - i,
    {
        if k == 8 {
            if full && bytes[i] == 0xff {
                return false;
            }
            k = 0;
            full = true;
        } else if bytes[i] < 0x80 {
            k = 0;
            full = true;
        } else {
            k += 1;
            full = full && bytes[i] == 0xff;
        }
        i += 1;
    }
    true
}

/// Whether no counter of the histogram that the bytes hold has all its bits set.
fn check_all_counters(bytes: &Vec<u8>) -> (b: bool)
    ensures
        b == all_counters_fit(bytes@),
{
    match read_plain(bytes, 40) {
        Some(d) => match read_plain(bytes, 40 + read_number(&d, 4)) {
            Some(plain) => check_counters(&plain),
            None => true,
        },
        None => true,
    }
}

/// Whether a histogram has the settings with which latencies are measured, apart from whether
/// it grows.
pub open spec fn has_standard_settings(h: SerializableHistogramWrapper) -> bool {
    settings(h).0 == 1 && settings(h).1 == 3
}

/// Whether the bytes stand for the histogram: they describe its settings and, if these are the
/// ones with which latencies are measured, hold what it has counted.
pub open spec fn is_written(h: SerializableHistogramWrapper, bytes: Seq<u8>) -> bool {
    &&& all_counters_fit(bytes)
    &&& describes(bytes, settings(h).0, settings(h).1)
    &&& has_standard_settings(h) ==> histogram_read(bytes, usize::BITS as nat) == Some(recorded(h))
}

/// Whether this is what is made of the bytes: a histogram that grows, if they stand for one.
pub open spec fn is_read(bytes: Seq<u8>, r: Option<SerializableHistogramWrapper>) -> bool {
    match r {
        Some(h) => is_written(h, bytes) && settings(h).2,
        None => !all_counters_fit(bytes) || (describes(bytes, 1, 3) ==> histogram_read(
            bytes,
            usize::BITS as nat,
        ) is None),
    }
}

/// A histogram that is written and read again has counted the same values, and others can be
/// added to it.
pub proof fn law_histogram_round_trip(
    h: SerializableHistogramWrapper,
    bytes: Seq<u8>,
    r: Option<SerializableHistogramWrapper>,
)
    requires
        h.wf(),
        is_written(h, bytes),
        is_read(bytes, r),
    ensures
        r matches Some(again) && recorded(again) == recorded(h) && again.wf(),
{
}

impl SerializableHistogramWrapper {
    /// Whether this histogram has the settings with which latencies are measured.
    pub open spec fn wf(self) -> bool {
        settings(self) == (1u64, 3u8, true)
    }

    /// An empty histogram.
    pub fn new() -> (r: Self)
        ensures
            r.wf(),
            recorded(r) == Multiset::<u64>::empty(),
    {
        new_histogram(3)
    }

    /// Whether this histogram has the settings with which latencies are measured, apart from
    /// whether it grows.
    pub fn is_standard(&self) -> (b: bool)
        ensures
            b == has_standard_settings(*self),
    {
        lowest_value(self) == 1 && digits(self) == 3
    }

    /// How many values were counted.
    pub fn len(&self) -> (r: u64)
        ensures
            recorded(*self).len() <= u64::MAX ==> r == recorded(*self).len(),
    {
        count_values(self)
    }

    /// Counts a value.
    pub fn record(&mut self, value: u64)
        requires
            old(self).wf(),
        ensures
            final(self).wf(),
            recorded(*old(self)).len() < u64::MAX ==> recorded(*final(self)) == recorded(
                *old(self),
            ).insert(rounded(value as nat) as u64),
    {
        record_value(self, value);
    }

    /// Counts everything that the other histogram has counted.
    pub fn add(&mut self, other: &Self)
        requires
            old(self).wf(),
            other.wf(),
        ensures
            final(self).wf(),
            recorded(*old(self)).len() + recorded(*other).len() <= u64::MAX ==> recorded(
                *final(self),
            ) == recorded(*old(self)).add(recorded(*other)),
    {
        add_values(self, other);
    }

    /// This histogram as bytes. There are none if it has counted some value too often.
    pub fn serialize(&self) -> (r: Option<Vec<u8>>)
        ensures
            r is None <==> over_counted(*self),
            r matches Some(bytes) ==> is_plain(bytes@) && is_written(*self, bytes@),
    {
        write_histogram(self)
    }

    /// The histogram that the bytes stand for, compressed or not, if they stand for one. It
    /// grows, so that others can be added to it. What stands behind the counters is ignored.
    pub fn deserialize(bytes: &Vec<u8>) -> (r: Option<Self>)
        ensures
            is_read(bytes@, r),
    {
        if !check_all_counters(bytes) {
            return None;
        }
        match read_histogram(bytes) {
            Some(h) => {
                let mut histogram = h;
                set_auto(&mut histogram, true);
                Some(histogram)
            },
            None => None,
        }
    }
}

/// A histogram keeps three digits: what it does not tell apart differs by less than a
/// thousandth. Counting a value, or counting the least value that is not told apart from it,
/// is the same.
pub proof fn law_three_digits(v: nat)
    ensures
        rounded(rounded(v)) == rounded(v),
        rounded(v) <= v,
        v > 0 ==> (v - rounded(v)) * 1000 < v,
{
    lemma_rounded(v);
}

/// Up to 2048 all values are told apart. Above, a value is told as the multiple of a power of
/// two at or below it, so that 1024 to 2047 multiples are told apart between two doublings.
pub proof fn law_rounding(v: nat, e: nat)
    requires
        1024 * pow2(e) <= v < 2048 * pow2(e),
    ensures
        rounded(v) == (v / pow2(e)) * pow2(e),
    decreases e,
{
    if e == 0 {
        lemma2_to64();
        assert(v / 1 == v);
        assert(rounded(v) == v);
    } else {
        let d = (e - 1) as nat;
        lemma_pow2_unfold(e);
        lemma_pow2_pos(d);
        assert(pow2(e) == 2 * pow2(d));
        law_rounding(v / 2, d);
        assert((v / 2) / pow2(d) == v / (2 * pow2(d))) by {
            lemma_div_denominator(v as int, 2, pow2(d) as int);
        }
        let q = v / pow2(e);
        assert(2 * (q * pow2(d)) == q * (2 * pow2(d))) by (nonlinear_arith);
        if v < 2048 {
            assert(2048 * pow2(d) >= 2048);
            lemma_small_rounding(v, e);
        }
    }
}

/// Where all values are told apart, rounding to a power of two changes nothing.
proof fn lemma_small_rounding(v: nat, e: nat)
    requires
        e > 0,
        1024 * pow2(e) <= v,
    ensures
        v >= 2048,
{
    lemma_pow2_unfold(e);
    lemma_pow2_pos((e - 1) as nat);
}

/// Values below 2048 are counted as they are, and greater ones as something from 1024 on.
pub proof fn law_exact_rounding(v: nat)
    ensures
        v < 2048 ==> rounded(v) == v,
        v >= 2048 ==> rounded(v) >= 1024,
{
    lemma_rounded(v);
}

proof fn lemma_rounded(v: nat)
    ensures
        rounded(rounded(v)) == rounded(v),
        rounded(v) <= v,
        v >= 1024 ==> rounded(v) >= 1024 && (v - rounded(v) + 1) * 1024 <= v,
        v < 2048 ==> rounded(v) == v,
    decreases v,
{
    if v >= 2048 {
        lemma_rounded(v / 2);
        assert(rounded(v) / 2 == rounded(v / 2));
    }
}

/// Four bytes make a number, the first one counting most.
pub proof fn law_number(bytes: Seq<u8>, i: int)
    ensures
        number_at(bytes, i) == 256 * (256 * (256 * bytes[i] + bytes[i + 1]) + bytes[i + 2])
            + bytes[i + 3],
        number_at(bytes, i) < 0x1_0000_0000,
{
}

/// Counters stand one behind the other. One takes `m` bytes: each but the last has its highest bit
/// set, and the last has not, unless it is the ninth. So all counters fit if this one has not all
/// bits of nine bytes set and those behind it fit.
pub proof fn law_counter(bytes: Seq<u8>, i: int, m: int)
    requires
        0 <= i,
        1 <= m <= 9,
        i + m <= bytes.len(),
        forall|j: int| i <= j < i + m - 1 ==> #[trigger] bytes[j] >= 0x80,
        m < 9 ==> bytes[i + m - 1] < 0x80,
    ensures
        counters_fit(bytes, bytes.len() as int, 0, true),
        counters_fit(bytes, i, 0, true) <==> !(m == 9 && forall|j: int|
            i <= j < i + m ==> #[trigger] bytes[j] == 0xff) && counters_fit(bytes, i + m, 0, true),
{
    lemma_counter_from(bytes, i, m, 0);
}

proof fn lemma_counter_from(bytes: Seq<u8>, i: int, m: int, k: int)
    requires
        0 <= i,
        1 <= m <= 9,
        0 <= k < m,
        i + m <= bytes.len(),
        forall|j: int| i <= j < i + m - 1 ==> #[trigger] bytes[j] >= 0x80,
        m < 9 ==> bytes[i + m - 1] < 0x80,
    ensures
        ({
            let full = forall|j: int| i <= j < i + k ==> #[trigger] bytes[j] == 0xff;
            counters_fit(bytes, i + k, k as nat, full) <==> !(m == 9 && forall|j: int|
                i <= j < i + m ==> #[trigger] bytes[j] == 0xff) && counters_fit(
                bytes,
                i + m,
                0,
                true,
            )
        }),
    decreases m - k,
{
    let full = forall|j: int| i <= j < i + k ==> #[trigger] bytes[j] == 0xff;
    let next = forall|j: int| i <= j < i + k + 1 ==> #[trigger] bytes[j] == 0xff;
    assert(next <==> full && bytes[i + k] == 0xff);
    if k < m - 1 {
        lemma_counter_from(bytes, i, m, k + 1);
        assert(bytes[i + k] >= 0x80);
    }
}

/// A compressed histogram has the counters of the uncompressed one that it unpacks to, whatever
/// stands behind it.
pub proof fn law_compressed(packed: Seq<u8>, bytes: Seq<u8>, plain: Seq<u8>)
    requires
        packed.len() < 0x1_0000_0000,
        bytes.len() >= 8 + packed.len(),
        is_packed(bytes),
        number_at(bytes, 4) == packed.len(),
        bytes.subrange(8, 8 + packed.len() as int) == packed,
        plain.len() >= 40,
        is_plain(plain),
        plain.len() >= 40 + number_at(plain, 4),
        unpacked(packed, 40) == Some(plain.take(40)),
        unpacked(packed, 40 + number_at(plain, 4)) == Some(
            plain.take(40 + number_at(plain, 4) as int),
        ),
    ensures
        description(bytes) == Some(plain.take(40)),
        with_counters(bytes) == Some(plain.take(40 + number_at(plain, 4) as int)),
        description(plain) == description(bytes),
        with_counters(plain) == with_counters(bytes),
        all_counters_fit(bytes) <==> counters_fit(
            plain.take(40 + number_at(plain, 4) as int),
            40,
            0,
            true,
        ),
{
    assert(number_at(plain.take(40), 4) == number_at(plain, 4));
    assert(!is_packed(plain));
}

} // verus!
