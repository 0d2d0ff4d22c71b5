use vstd::arithmetic::div_mod::lemma_mod_breakdown;
use vstd::arithmetic::div_mod::lemma_small_mod;
use vstd::prelude::*;

verus! {

/// Outcome of an attempt to read a header at some position of a buffer.
#[derive(Debug, Clone, Copy, PartialEq, Eq, Structural)]
pub enum ReadStreamResult {
    Success,
    TooFewBytes,
    PositionOutOfScope,
    CorruptStream,
    FailUnknownReason,
}

/// Longest header the decoder accepts.
pub const MAX_HEADER_LENGTH: usize = 5;

/// `128` to the power `n`: the weight of the `n`-th seven-bit group.
pub open spec fn pow128(n: nat) -> nat
    decreases n,
{
    if n == 0 {
        1
    } else {
        128 * pow128((n - 1) as nat)
    }
}

/// A header of `h` bytes can state the total `p + h` of a payload of `p` bytes.
pub open spec fn fits(p: int, h: nat) -> bool {
    p + h < pow128(h)
}

/// Number of header bytes for a payload of `p` bytes: the least `h >= 1`
/// with `fits(p, h)`; five always suffice for a 32-bit payload size.
pub open spec fn header_len(p: int) -> nat {
    if fits(p, 1) {
        1
    } else if fits(p, 2) {
        2
    } else if fits(p, 3) {
        3
    } else if fits(p, 4) {
        4
    } else {
        5
    }
}

/// The `i`-th seven-bit group of `t`, least significant first.
pub open spec fn group(t: int, i: nat) -> int {
    (t / (pow128(i) as int)) % 128
}

/// The header for a payload of `p` bytes: the groups of `p + h`, least
/// significant first, with the high bit set on the last byte only.
pub open spec fn encoded(p: int) -> Seq<u8> {
    let h = header_len(p);
    Seq::new(
        h,
        |i: int|
            if i == h - 1 {
                (group(p + h, i as nat) + 128) as u8
            } else {
                group(p + h, i as nat) as u8
            },
    )
}

/// A header byte with the high bit set ends the header.
pub open spec fn is_terminator(b: u8) -> bool {
    b >= 128
}

/// Scans the header that starts at `start`, given that its first `k` bytes
/// carry no terminator. Yields the status and the number of bytes scanned.
pub open spec fn header_scan(s: Seq<u8>, start: int, k: nat) -> (ReadStreamResult, nat)
    decreases 5 - k,
{
    if start + k >= s.len() {
        (ReadStreamResult::TooFewBytes, k)
    } else if k >= 5 {
        (ReadStreamResult::CorruptStream, k)
    } else if is_terminator(s[start + k]) {
        (ReadStreamResult::Success, k + 1)
    } else {
        header_scan(s, start, k + 1)
    }
}

/// Sum of the seven-bit groups of the `n` bytes from `start`.
pub open spec fn header_value(s: Seq<u8>, start: int, n: nat) -> nat
    decreases n,
{
    if n == 0 {
        0
    } else {
        header_value(s, start, (n - 1) as nat) + ((s[start + n - 1] % 128) as nat) * pow128(
            (n - 1) as nat,
        )
    }
}

/// Value of a header as a 32-bit accumulator holds it.
pub open spec fn header_raw(s: Seq<u8>, start: int, n: nat) -> nat {
    header_value(s, start, n) % 0x1_0000_0000
}

/// Decoding the header at `start`: status, stated total size, header length.
/// A header whose stated total is smaller than the header itself is corrupt.
pub open spec fn decode_header(s: Seq<u8>, start: int) -> (ReadStreamResult, nat, nat) {
    if start < 0 || start >= s.len() {
        (ReadStreamResult::PositionOutOfScope, 0, 0)
    } else {
        let (st, n) = header_scan(s, start, 0);
        if st == ReadStreamResult::Success {
            if header_raw(s, start, n) < n {
                (ReadStreamResult::CorruptStream, 0, 0)
            } else {
                (ReadStreamResult::Success, header_raw(s, start, n), n)
            }
        } else {
            (st, 0, 0)
        }
    }
}

pub proof fn lemma_pow128_values()
    ensures
        pow128(0) == 1,
        pow128(1) == 128,
        pow128(2) == 16384,
        pow128(3) == 2097152,
        pow128(4) == 268435456,
        pow128(5) == 34359738368,
{
    reveal_with_fuel(pow128, 6);
}

/// Encodes the header for a payload of `payload_size` bytes.
pub fn payload_size_to_byte_stream(payload_size: u32) -> (r: Vec<u8>)
    ensures
        r@ == encoded(payload_size as int),
        1 <= r@.len() <= 5,
{
    proof {
        lemma_pow128_values();
    }
    let p: u64 = payload_size as u64;
    let mut h: u64 = 1;
    let mut limit: u64 = 128;
    while p >= limit
        invariant
            1 <= h <= 5,
            limit == pow128(h as nat),
            128 <= limit <= 34359738368,
            p <= 0xffff_ffff,
            forall|k: nat| 1 <= k < h ==> !fits(p as int, k),
        decreases 5 - h,
    {
        proof {
            lemma_pow128_values();
            assert(!fits(p as int, h as nat));
            if h == 5 {
                assert(false);
            }
            assert(pow128((h + 1) as nat) == 128 * pow128(h as nat));
        }
        h = h + 1;
        limit = limit * 128;
    }
    if p + h >= limit {
        proof {
            if h == 5 {
                assert(false);
            }
            assert(pow128((h + 1) as nat) == 128 * pow128(h as nat));
        }
        h = h + 1;
        limit = limit * 128;
    }
    assert(fits(p as int, h as nat));
    assert(h == header_len(p as int)) by {
        assert(forall|k: nat| 1 <= k < h ==> !fits(p as int, k));
    }
    let total: u64 = p + h;
    let mut v: Vec<u8> = Vec::with_capacity(h as usize);
    let mut i: u64 = 0;
    let mut weight: u64 = 1;
    while i < h
        invariant
            1 <= h <= 5,
            h == header_len(p as int),
            total == p + h,
            i <= h,
            weight == pow128(i as nat),
            1 <= weight <= 34359738368,
            v@.len() == i,
            forall|j: int| 0 <= j < i ==> v@[j] == group(total as int, j as nat) as u8,
        decreases h - i,
    {
        let g: u8 = ((total / weight) % 128) as u8;
        v.push(g);
        proof {
            assert(pow128((i + 1) as nat) == 128 * pow128(i as nat));
            lemma_pow128_values();
            if i == 5 {
                assert(false);
            }
        }
        i = i + 1;
        weight = weight * 128;
    }
    let last: usize = v.len() - 1;
    let top: u8 = v[last];
    v.set(last, top + 128);
    assert(v@ =~= encoded(p as int));
    v
}

/// Where a header decode starts, and what it found there.
#[derive(Debug)]
pub struct PackageInfo {
    /// Position in the buffer where the header starts.
    pub start_pos: u32,
    /// Total size that the header states: header and payload together.
    pub package_size: u32,
    /// Number of bytes the header occupies.
    pub info_length_in_bytes: u32,
}

impl PackageInfo {
    pub fn new(start_pos: u32) -> (r: Self)
        ensures
            r.start_pos == start_pos,
            r.package_size == 0,
            r.info_length_in_bytes == 0,
    {
        Self { start_pos, package_size: 0, info_length_in_bytes: 0 }
    }

    /// Payload size of a successfully decoded header.
    pub fn get_payload_size(&self) -> (r: u32)
        requires
            self.package_size >= self.info_length_in_bytes,
        ensures
            r == self.package_size - self.info_length_in_bytes,
    {
        self.package_size - self.info_length_in_bytes
    }

    pub fn start_pos(&self) -> (r: &u32)
        ensures
            *r == self.start_pos,
    {
        &self.start_pos
    }

    pub fn package_size(&self) -> (r: &u32)
        ensures
            *r == self.package_size,
    {
        &self.package_size
    }

    pub fn info_length_in_bytes(&self) -> (r: &u32)
        ensures
            *r == self.info_length_in_bytes,
    {
        &self.info_length_in_bytes
    }

    pub fn set_start_pos(&mut self, v: u32)
        ensures
            final(self).start_pos == v,
            final(self).package_size == old(self).package_size,
            final(self).info_length_in_bytes == old(self).info_length_in_bytes,
    {
        self.start_pos = v;
    }

    pub fn set_package_size(&mut self, v: u32)
        ensures
            final(self).start_pos == old(self).start_pos,
            final(self).package_size == v,
            final(self).info_length_in_bytes == old(self).info_length_in_bytes,
    {
        self.package_size = v;
    }

    pub fn set_info_length_in_bytes(&mut self, v: u32)
        ensures
            final(self).start_pos == old(self).start_pos,
            final(self).package_size == old(self).package_size,
            final(self).info_length_in_bytes == v,
    {
        self.info_length_in_bytes = v;
    }
}

/// Decodes the header that starts at `package_stream_info.start_pos`.
/// On success the stated total size and the header length are stored in
/// `package_stream_info`; otherwise it is left as it was.
pub fn byte_stream_to_u32(stream: &Vec<u8>, package_stream_info: &mut PackageInfo) -> (r:
    ReadStreamResult)
    ensures
        r == decode_header(stream@, old(package_stream_info).start_pos as int).0,
        r != ReadStreamResult::FailUnknownReason,
        r == ReadStreamResult::Success ==> {
            &&& final(package_stream_info).start_pos == old(package_stream_info).start_pos
            &&& final(package_stream_info).package_size == decode_header(
                stream@,
                old(package_stream_info).start_pos as int,
            ).1
            &&& final(package_stream_info).info_length_in_bytes == decode_header(
                stream@,
                old(package_stream_info).start_pos as int,
            ).2
        },
        r != ReadStreamResult::Success ==> *final(package_stream_info) == *old(
            package_stream_info,
        ),
{
    let start: usize = package_stream_info.start_pos as usize;
    if start >= stream.len() {
        return ReadStreamResult::PositionOutOfScope;
    }
    let ghost s = stream@;
    let mut pos: usize = 0;
    let mut found: bool = false;
    let mut acc: u64 = 0;
    let mut weight: u64 = 1;
    while pos < MAX_HEADER_LENGTH && pos < stream.len() - start && !found
        invariant
            start < stream.len(),
            s == stream@,
            pos <= 5,
            weight == pow128(pos as nat),
            acc == header_value(s, start as int, pos as nat),
            acc < weight,
            !found ==> header_scan(s, start as int, 0) == header_scan(s, start as int, pos as nat),
            found ==> header_scan(s, start as int, 0) == (ReadStreamResult::Success, pos as nat),
        decreases 5 - pos,
    {
        proof {
            lemma_pow128_values();
            assert(weight <= 268435456) by {
                if pos == 5 {
                    assert(false);
                }
            }
        }
        let b: u8 = stream[start + pos];
        let g: u64 = (b % 128) as u64;
        proof {
            assert(acc + g * weight < 128 * weight) by (nonlinear_arith)
                requires
                    acc < weight,
                    g < 128,
            ;
        }
        acc = acc + g * weight;
        if b >= 128 {
            found = true;
        }
        pos = pos + 1;
        weight = weight * 128;
    }
    if !found {
        if pos < stream.len() - start {
            return ReadStreamResult::CorruptStream;
        }
        return ReadStreamResult::TooFewBytes;
    }
    let raw: u32 = (acc % 0x1_0000_0000) as u32;
    let len: u32 = pos as u32;
    if raw < len {
        return ReadStreamResult::CorruptStream;
    }
    package_stream_info.package_size = raw;
    package_stream_info.info_length_in_bytes = len;
    ReadStreamResult::Success
}

/// One message: its declared payload size and the payload bytes received so
/// far, with a cursor for producing its serialized form byte by byte.
#[derive(Debug)]
pub struct Package {
    /// Declared payload size; fixed once the package is made.
    pub payload_size: u32,
    /// Payload bytes received so far.
    pub payload: Vec<u8>,
    /// Position of the next byte that `next` hands out.
    pub cur: usize,
    /// Header bytes that `next` hands out before the payload.
    pub package_size_byte_encode: Vec<u8>,
}

impl Package {
    /// The payload never outgrows the declared size.
    pub open spec fn wf(&self) -> bool {
        self.payload@.len() <= self.payload_size
    }

    /// Header and payload as `next` hands them out.
    pub open spec fn byte_sequence(&self) -> Seq<u8> {
        self.package_size_byte_encode@ + self.payload@
    }

    pub open spec fn is_complete(&self) -> bool {
        self.payload@.len() >= self.payload_size
    }

    pub fn new(payload_size: u32) -> (r: Self)
        ensures
            r.wf(),
            r.payload_size == payload_size,
            r.payload@ == Seq::<u8>::empty(),
            r.cur == 0,
            r.package_size_byte_encode@ == Seq::<u8>::empty(),
    {
        Self {
            payload: Vec::with_capacity(payload_size as usize),
            payload_size: payload_size,
            cur: 0,
            package_size_byte_encode: Vec::new(),
        }
    }

    /// Copies into the payload as many bytes from `in_bytes[start_read_pos..]`
    /// as the payload still lacks, at most all of them; returns how many.
    pub fn add_bytes_to_payload(&mut self, start_read_pos: u32, in_bytes: &Vec<u8>) -> (n: u32)
        requires
            old(self).wf(),
            start_read_pos <= in_bytes@.len(),
        ensures
            final(self).wf(),
            n == if old(self).payload_size - old(self).payload@.len() < in_bytes@.len()
                - start_read_pos {
                old(self).payload_size - old(self).payload@.len()
            } else {
                in_bytes@.len() - start_read_pos
            },
            final(self).payload@ == old(self).payload@ + in_bytes@.subrange(
                start_read_pos as int,
                start_read_pos + n,
            ),
            final(self).payload_size == old(self).payload_size,
            final(self).cur == old(self).cur,
            final(self).package_size_byte_encode == old(self).package_size_byte_encode,
    {
        let missing_bytes_in_payload: u32 = (self.payload_size as usize - self.payload.len()) as u32;
        let max_bytes_in: usize = in_bytes.len() - start_read_pos as usize;
        let number_read_bytes: u32 = if (missing_bytes_in_payload as usize) < max_bytes_in {
            missing_bytes_in_payload
        } else {
            max_bytes_in as u32
        };
        let ghost before = self.payload@;
        let start: usize = start_read_pos as usize;
        let count: usize = number_read_bytes as usize;
        let mut i: usize = 0;
        while i < count
            invariant
                count == number_read_bytes,
                i <= count,
                start + count <= in_bytes.len(),
                before.len() + number_read_bytes <= self.payload_size,
                self.payload@ == before + in_bytes@.subrange(start as int, start + i),
                self.payload_size == old(self).payload_size,
                self.cur == old(self).cur,
                self.package_size_byte_encode == old(self).package_size_byte_encode,
            decreases count - i,
        {
            self.payload.push(in_bytes[start + i]);
            i = i + 1;
            assert(self.payload@ =~= before + in_bytes@.subrange(start as int, start + i));
        }
        number_read_bytes
    }

    pub fn is_payload_complete(&self) -> (r: bool)
        ensures
            r == self.is_complete(),
    {
        self.payload.len() >= self.payload_size as usize
    }

    /// Regenerates the header and rewinds the cursor to the first byte.
    pub fn reset_iterator(&mut self)
        ensures
            final(self).cur == 0,
            final(self).package_size_byte_encode@ == encoded(old(self).payload_size as int),
            final(self).payload_size == old(self).payload_size,
            final(self).payload == old(self).payload,
    {
        self.cur = 0;
        self.package_size_byte_encode = payload_size_to_byte_stream(self.payload_size);
    }

    /// Hands out the next byte of the header-then-payload sequence, or
    /// `None` once it is exhausted.
    pub fn next(&mut self) -> (r: Option<u8>)
        requires
            old(self).byte_sequence().len() <= usize::MAX,
        ensures
            final(self).payload_size == old(self).payload_size,
            final(self).payload == old(self).payload,
            final(self).package_size_byte_encode == old(self).package_size_byte_encode,
            old(self).cur < old(self).byte_sequence().len() ==> {
                &&& r == Some(old(self).byte_sequence()[old(self).cur as int])
                &&& final(self).cur == old(self).cur + 1
            },
            old(self).cur >= old(self).byte_sequence().len() ==> {
                &&& r.is_none()
                &&& final(self).cur == old(self).cur
            },
    {
        let value: u8;
        if self.cur < self.package_size_byte_encode.len() {
            value = self.package_size_byte_encode[self.cur];
        } else {
            let payload_pos: usize = self.cur - self.package_size_byte_encode.len();
            if payload_pos < self.payload.len() {
                value = self.payload[payload_pos];
            } else {
                return None;
            }
        }
        self.cur = self.cur + 1;
        Some(value)
    }

    /// The serialized package: header for the declared size, then the payload.
    pub fn create_bytestram(&mut self) -> (r: Vec<u8>)
        requires
            old(self).wf(),
            old(self).payload_size + MAX_HEADER_LENGTH <= usize::MAX,
        ensures
            r@ == encoded(old(self).payload_size as int) + old(self).payload@,
            final(self).payload_size == old(self).payload_size,
            final(self).payload == old(self).payload,
            final(self).package_size_byte_encode@ == encoded(old(self).payload_size as int),
            final(self).cur == r@.len(),
    {
        self.reset_iterator();
        assert(self.byte_sequence().len() <= usize::MAX);
        let mut v: Vec<u8> = Vec::new();
        let mut n = self.next();
        while n.is_some()
            invariant
                old(self).wf(),
                self.payload_size == old(self).payload_size,
                self.payload == old(self).payload,
                self.byte_sequence().len() <= usize::MAX,
                self.package_size_byte_encode@ == encoded(old(self).payload_size as int),
                n.is_some() ==> {
                    &&& self.cur >= 1
                    &&& self.cur <= self.byte_sequence().len()
                    &&& v@ == self.byte_sequence().subrange(0, self.cur - 1)
                    &&& n == Some(self.byte_sequence()[self.cur - 1])
                },
                n.is_none() ==> {
                    &&& self.cur == self.byte_sequence().len()
                    &&& v@ == self.byte_sequence()
                },
            decreases self.byte_sequence().len() - self.cur + (if n.is_some() { 1int } else { 0 }),
        {
            v.push(n.unwrap());
            n = self.next();
            assert(n.is_none() ==> v@ =~= self.byte_sequence());
            assert(n.is_some() ==> v@ =~= self.byte_sequence().subrange(0, self.cur - 1));
        }
        v
    }

    pub fn payload_size(&self) -> (r: &u32)
        ensures
            *r == self.payload_size,
    {
        &self.payload_size
    }

    pub fn payload(&self) -> (r: &Vec<u8>)
        ensures
            *r == self.payload,
    {
        &self.payload
    }
}

/// Two packages are equal when their payloads are; the declared size and the
/// iteration state are not compared.
impl PartialEq for Package {
    fn eq(&self, other: &Package) -> (r: bool) {
        if self.payload.len() != other.payload.len() {
            return false;
        }
        let mut i: usize = 0;
        while i < self.payload.len()
            invariant
                self.payload@.len() == other.payload@.len(),
                i <= self.payload@.len(),
                self.payload@.subrange(0, i as int) == other.payload@.subrange(0, i as int),
            decreases self.payload@.len() - i,
        {
            if self.payload[i] != other.payload[i] {
                assert(self.payload@[i as int] != other.payload@[i as int]);
                return false;
            }
            assert(self.payload@.subrange(0, i + 1) =~= self.payload@.subrange(0, i as int).push(
                self.payload@[i as int],
            ));
            assert(other.payload@.subrange(0, i + 1) =~= other.payload@.subrange(
                0,
                i as int,
            ).push(other.payload@[i as int]));
            i = i + 1;
        }
        assert(self.payload@ =~= self.payload@.subrange(0, i as int));
        assert(other.payload@ =~= other.payload@.subrange(0, i as int));
        true
    }
}

impl vstd::std_specs::cmp::PartialEqSpecImpl for Package {
    open spec fn obeys_eq_spec() -> bool {
        true
    }

    open spec fn eq_spec(&self, other: &Package) -> bool {
        self.payload@ == other.payload@
    }
}

impl Eq for Package {

}

/// Payload of the sample package of `n` bytes: byte `i` is `i % 255`.
pub open spec fn test_payload(n: nat) -> Seq<u8> {
    Seq::new(n, |i: int| (i % 255) as u8)
}

/// A complete package of `payload_size` bytes of sample payload.
pub fn create_test_package(payload_size: u32) -> (r: Package)
    ensures
        r.wf(),
        r.is_complete(),
        r.payload_size == payload_size,
        r.payload@ == test_payload(payload_size as nat),
        r.cur == 0,
        r.package_size_byte_encode@ == Seq::<u8>::empty(),
{
    let mut vec: Vec<u8> = Vec::with_capacity(payload_size as usize);
    let mut n: u32 = 0;
    while n < payload_size
        invariant
            n <= payload_size,
            vec@ == test_payload(n as nat),
        decreases payload_size - n,
    {
        vec.push((n % 255) as u8);
        n = n + 1;
        assert(vec@ =~= test_payload(n as nat));
    }
    let mut pac = Package::new(payload_size);
    pac.add_bytes_to_payload(0, &vec);
    assert(vec@.subrange(0, vec@.len() as int) =~= vec@);
    pac
}

proof fn lemma_pow128_positive(n: nat)
    ensures
        pow128(n) >= 1,
    decreases n,
{
    if n > 0 {
        lemma_pow128_positive((n - 1) as nat);
    }
}

/// For every 32-bit payload size the chosen header length fits, and every
/// shorter one does not.
pub proof fn lemma_header_len(p: u32)
    ensures
        1 <= header_len(p as int) <= 5,
        fits(p as int, header_len(p as int)),
        forall|k: nat| 1 <= k < header_len(p as int) ==> !fits(p as int, k),
{
    lemma_pow128_values();
}

/// Every byte of `encoded(p)` but the last has the high bit clear, and the
/// low seven bits of each byte are the groups of `p + header_len(p)`.
proof fn lemma_encoded_bytes(p: u32, i: int)
    requires
        0 <= i < header_len(p as int),
    ensures
        encoded(p as int)[i] % 128 == group(p + header_len(p as int), i as nat),
        is_terminator(encoded(p as int)[i]) <==> i == header_len(p as int) - 1,
{
    let t = p + header_len(p as int);
    lemma_pow128_positive(i as nat);
    assert(0 <= group(t, i as nat) < 128);
}

proof fn lemma_scan_encoded(p: u32, k: nat)
    requires
        k < header_len(p as int),
    ensures
        header_scan(encoded(p as int), 0, k) == (ReadStreamResult::Success, header_len(p as int)),
    decreases header_len(p as int) - k,
{
    lemma_header_len(p);
    lemma_encoded_bytes(p, k as int);
    if k + 1 < header_len(p as int) {
        lemma_scan_encoded(p, k + 1);
    }
}

proof fn lemma_value_encoded(p: u32, n: nat)
    requires
        n <= header_len(p as int),
    ensures
        header_value(encoded(p as int), 0, n) == (p + header_len(p as int)) % (pow128(n) as int),
    decreases n,
{
    let t: int = p + header_len(p as int);
    if n == 0 {
        assert(t % 1 == 0);
    } else {
        let m = (n - 1) as nat;
        lemma_value_encoded(p, m);
        lemma_encoded_bytes(p, m as int);
        lemma_pow128_positive(m);
        lemma_mod_breakdown(t, pow128(m) as int, 128);
        let e = encoded(p as int);
        let w = pow128(m) as int;
        let g = group(t, m);
        assert(pow128(n) == w * 128);
        assert(header_value(e, 0, n) == header_value(e, 0, m) + ((e[m as int] % 128) as nat) * pow128(m));
        assert(g * w == w * g) by (nonlinear_arith);
        assert(t % (w * 128) == w * g + t % w);
    }
}

/// Decoding an encoded header gives back the payload size: the decode
/// succeeds, the header spans all of `encoded(p)`, and the stated total less
/// the header length is `p`. Sizes whose total would not fit in 32 bits are
/// left out.
pub proof fn lemma_round_trip(p: u32)
    requires
        p + MAX_HEADER_LENGTH <= u32::MAX,
    ensures
        decode_header(encoded(p as int), 0) == (
            ReadStreamResult::Success,
            (p + header_len(p as int)) as nat,
            header_len(p as int),
        ),
        decode_header(encoded(p as int), 0).1 - decode_header(encoded(p as int), 0).2 == p,
{
    let h = header_len(p as int);
    let t: nat = (p + h) as nat;
    lemma_header_len(p);
    lemma_scan_encoded(p, 0);
    lemma_value_encoded(p, h);
    lemma_small_mod(t, pow128(h));
    lemma_small_mod(t, 0x1_0000_0000);
}

} // verus!
