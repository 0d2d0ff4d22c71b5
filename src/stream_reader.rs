use crate::package::byte_stream_to_u32;
use crate::package::decode_header;
use crate::package::encoded;
use crate::package::lemma_round_trip;
use crate::package::MAX_HEADER_LENGTH;
use crate::package::header_scan;
use crate::package::header_value;
use crate::package::Package;
use crate::package::PackageInfo;
use crate::package::ReadStreamResult;
use vstd::prelude::*;

verus! {

/// The payloads of the packages that a buffer holds from its first byte on,
/// read header by header until a header fails to decode or a payload is
/// not all there.
pub open spec fn frames(s: Seq<u8>) -> Seq<Seq<u8>>
    decreases s.len(),
{
    let d = decode_header(s, 0);
    if d.0 == ReadStreamResult::Success && d.2 >= 1 && s.len() >= d.1 {
        seq![s.subrange(d.2 as int, d.1 as int)] + frames(s.subrange(d.1 as int, s.len() as int))
    } else {
        Seq::empty()
    }
}

/// The payloads that follow from a package in flight, given as its declared
/// size and the payload bytes it already holds, and the bytes after it.
pub open spec fn pending_frames(in_flight: Option<(nat, Seq<u8>)>, s: Seq<u8>) -> Seq<Seq<u8>> {
    match in_flight {
        None => frames(s),
        Some((size, got)) => {
            let need = size - got.len();
            if need <= s.len() {
                seq![got + s.subrange(0, need)] + frames(s.subrange(need, s.len() as int))
            } else {
                Seq::empty()
            }
        },
    }
}

/// The payloads of a list of packages.
pub open spec fn payloads(v: Seq<Package>) -> Seq<Seq<u8>> {
    v.map_values(|p: Package| p.payload@)
}

proof fn lemma_scan_success(s: Seq<u8>, start: int, k: nat)
    requires
        0 <= start,
        header_scan(s, start, k).0 == ReadStreamResult::Success,
    ensures
        header_scan(s, start, k).1 >= k + 1,
        start + header_scan(s, start, k).1 <= s.len(),
    decreases 5 - k,
{
    if start + k < s.len() && k < 5 && !crate::package::is_terminator(s[start + k]) {
        lemma_scan_success(s, start, k + 1);
    }
}

proof fn lemma_scan_shift(s: Seq<u8>, start: int, k: nat)
    requires
        0 <= start <= s.len(),
    ensures
        header_scan(s, start, k) == header_scan(s.subrange(start, s.len() as int), 0, k),
    decreases 5 - k,
{
    if start + k < s.len() && k < 5 {
        lemma_scan_shift(s, start, k + 1);
    }
}

proof fn lemma_value_shift(s: Seq<u8>, start: int, n: nat)
    requires
        0 <= start,
        start + n <= s.len(),
    ensures
        header_value(s, start, n) == header_value(s.subrange(start, s.len() as int), 0, n),
    decreases n,
{
    if n > 0 {
        lemma_value_shift(s, start, (n - 1) as nat);
    }
}

/// Decoding at `start` reads the same as decoding the rest of the buffer.
pub proof fn lemma_decode_shift(s: Seq<u8>, start: int)
    requires
        0 <= start <= s.len(),
    ensures
        decode_header(s, start) == decode_header(s.subrange(start, s.len() as int), 0),
{
    let rest = s.subrange(start, s.len() as int);
    if start < s.len() {
        lemma_scan_shift(s, start, 0);
        let (st, n) = header_scan(s, start, 0);
        if st == ReadStreamResult::Success {
            lemma_scan_success(s, start, 0);
            lemma_value_shift(s, start, n);
        }
    }
}

proof fn lemma_scan_prefix(s: Seq<u8>, x: Seq<u8>, k: nat)
    requires
        header_scan(s, 0, k).0 != ReadStreamResult::TooFewBytes,
    ensures
        header_scan(s + x, 0, k) == header_scan(s, 0, k),
    decreases 5 - k,
{
    if k < 5 && !crate::package::is_terminator(s[k as int]) {
        lemma_scan_prefix(s, x, k + 1);
    }
}

proof fn lemma_value_prefix(s: Seq<u8>, x: Seq<u8>, n: nat)
    requires
        n <= s.len(),
    ensures
        header_value(s + x, 0, n) == header_value(s, 0, n),
    decreases n,
{
    if n > 0 {
        lemma_value_prefix(s, x, (n - 1) as nat);
    }
}

/// Once a header decodes, or is found corrupt, more bytes after it change
/// nothing.
pub proof fn lemma_decode_prefix(s: Seq<u8>, x: Seq<u8>)
    requires
        decode_header(s, 0).0 == ReadStreamResult::Success || decode_header(s, 0).0
            == ReadStreamResult::CorruptStream,
    ensures
        decode_header(s + x, 0) == decode_header(s, 0),
        decode_header(s, 0).0 == ReadStreamResult::Success ==> {
            &&& decode_header(s, 0).2 >= 1
            &&& decode_header(s, 0).2 <= decode_header(s, 0).1
            &&& decode_header(s, 0).2 <= s.len()
        },
{
    lemma_scan_prefix(s, x, 0);
    let (st, n) = header_scan(s, 0, 0);
    if st == ReadStreamResult::Success {
        lemma_scan_success(s, 0, 0);
        lemma_value_prefix(s, x, n);
    }
}

proof fn lemma_frames_complete(s: Seq<u8>, x: Seq<u8>)
    requires
        decode_header(s, 0).0 == ReadStreamResult::Success,
        decode_header(s, 0).1 <= s.len(),
    ensures
        frames(s + x) == seq![s.subrange(decode_header(s, 0).2 as int, decode_header(s, 0).1 as int)]
            + frames(s.subrange(decode_header(s, 0).1 as int, s.len() as int) + x),
{
    let d = decode_header(s, 0);
    lemma_decode_prefix(s, x);
    let sx = s + x;
    assert(sx.subrange(d.2 as int, d.1 as int) =~= s.subrange(d.2 as int, d.1 as int));
    assert(sx.subrange(d.1 as int, sx.len() as int) =~= s.subrange(d.1 as int, s.len() as int) + x);
}

proof fn lemma_frames_incomplete(s: Seq<u8>, x: Seq<u8>)
    requires
        decode_header(s, 0).0 == ReadStreamResult::Success,
        decode_header(s, 0).1 > s.len(),
    ensures
        frames(s + x) == pending_frames(
            Some(
                (
                    (decode_header(s, 0).1 - decode_header(s, 0).2) as nat,
                    s.subrange(decode_header(s, 0).2 as int, s.len() as int),
                ),
            ),
            x,
        ),
{
    let d = decode_header(s, 0);
    lemma_decode_prefix(s, x);
    let sx = s + x;
    let got = s.subrange(d.2 as int, s.len() as int);
    let need = d.1 - s.len();
    if sx.len() >= d.1 {
        assert(sx.subrange(d.2 as int, d.1 as int) =~= got + x.subrange(0, need));
        assert(sx.subrange(d.1 as int, sx.len() as int) =~= x.subrange(need, x.len() as int));
    }
}

proof fn lemma_pending_complete(size: nat, got: Seq<u8>, s: Seq<u8>, x: Seq<u8>)
    requires
        got.len() <= size,
        size - got.len() <= s.len(),
    ensures
        pending_frames(Some((size, got)), s + x) == seq![got + s.subrange(0, size - got.len())]
            + frames(s.subrange(size - got.len(), s.len() as int) + x),
{
    let need = size - got.len();
    let sx = s + x;
    assert(sx.subrange(0, need) =~= s.subrange(0, need));
    assert(sx.subrange(need, sx.len() as int) =~= s.subrange(need, s.len() as int) + x);
}

proof fn lemma_pending_incomplete(size: nat, got: Seq<u8>, s: Seq<u8>, x: Seq<u8>)
    requires
        got.len() <= size,
        size - got.len() > s.len(),
    ensures
        pending_frames(Some((size, got)), s + x) == pending_frames(Some((size, got + s)), x),
{
    let need = size - got.len();
    let need2 = size - (got + s).len();
    let sx = s + x;
    if need <= sx.len() {
        assert(got + sx.subrange(0, need) =~= (got + s) + x.subrange(0, need2));
        assert(sx.subrange(need, sx.len() as int) =~= x.subrange(need2, x.len() as int));
    }
}

/// Reassembles packages from chunks of bytes handed in one call at a time.
pub struct Stream {
    /// Bytes received and not yet discarded.
    pub temp_stream_storage: Vec<u8>,
    /// First byte of `temp_stream_storage` that no package has taken yet.
    pub pos_start_reading: usize,
    /// A package whose header has been read but whose payload is not all there.
    pub incomplet_package: Option<Package>,
}

/// What one call of `Stream::add_new_bytes_to_stream` produced.
#[derive(Debug)]
pub struct AddNewByteResult {
    /// Packages completed by the call, in the order they arrived.
    pub packages: Vec<Package>,
    /// Bytes buffered but not attributed to any package yet.
    pub left_bytes: u32,
    /// Status of the call's last header decode.
    pub read_stream_result: ReadStreamResult,
}

impl AddNewByteResult {
    pub fn packages(&self) -> (r: &Vec<Package>)
        ensures
            *r == self.packages,
    {
        &self.packages
    }

    pub fn left_bytes(&self) -> (r: &u32)
        ensures
            *r == self.left_bytes,
    {
        &self.left_bytes
    }

    pub fn read_stream_result(&self) -> (r: &ReadStreamResult)
        ensures
            *r == self.read_stream_result,
    {
        &self.read_stream_result
    }
}

impl Stream {
    /// Buffered bytes that no package has taken yet.
    pub open spec fn rest(&self) -> Seq<u8> {
        self.temp_stream_storage@.subrange(
            self.pos_start_reading as int,
            self.temp_stream_storage@.len() as int,
        )
    }

    /// The package in flight, as its declared size and the payload it holds.
    pub open spec fn in_flight(&self) -> Option<(nat, Seq<u8>)> {
        match self.incomplet_package {
            Some(p) => Some((p.payload_size as nat, p.payload@)),
            None => None,
        }
    }

    /// Between calls nothing that is buffered can be completed: either a
    /// package waits for more payload and every buffered byte went to it, or
    /// no header at the read position decodes.
    pub open spec fn wf(&self) -> bool {
        &&& self.pos_start_reading <= self.temp_stream_storage@.len()
        &&& match self.incomplet_package {
            Some(p) => {
                &&& p.wf()
                &&& !p.is_complete()
                &&& self.pos_start_reading == self.temp_stream_storage@.len()
            },
            None => decode_header(self.rest(), 0).0 != ReadStreamResult::Success,
        }
    }

    /// Length of the buffer once `n` new bytes are taken in: they replace a
    /// buffer that is all consumed, and are appended to one that is not.
    pub open spec fn admitted_len(&self, n: nat) -> nat {
        if self.rest().len() == 0 {
            n
        } else {
            self.temp_stream_storage@.len() + n
        }
    }

    pub fn new() -> (r: Stream)
        ensures
            r.wf(),
            r.rest() == Seq::<u8>::empty(),
            r.in_flight().is_none(),
    {
        Self { temp_stream_storage: Vec::new(), pos_start_reading: 0, incomplet_package: None }
    }

    /// Takes in a chunk of bytes and returns every package that it completes.
    pub fn add_new_bytes_to_stream(&mut self, bytes: Vec<u8>) -> (r: AddNewByteResult)
        requires
            old(self).wf(),
            old(self).admitted_len(bytes@.len()) <= u32::MAX,
        ensures
            add_bytes_post(*old(self), bytes@, *final(self), r),
    {
        let ghost old_view = self.in_flight();
        let ghost input = self.rest() + bytes@;
        let mut bytes = bytes;
        if self.pos_start_reading == self.temp_stream_storage.len() {
            self.temp_stream_storage = bytes;
            self.pos_start_reading = 0;
            assert(self.rest() =~= input);
        } else {
            self.temp_stream_storage.append(&mut bytes);
            assert(self.rest() =~= input);
        }
        let ghost buf = self.temp_stream_storage@;
        let mut packages: Vec<Package> = Vec::new();
        let mut left_bytes: u32 = 0;
        let mut read_stream_result = ReadStreamResult::FailUnknownReason;
        let ghost mut skipped = false;
        proof {
            assert forall|x: Seq<u8>|
                pending_frames(old_view, input + x) == payloads(packages@) + pending_frames(
                    self.in_flight(),
                    self.rest() + x,
                ) by {
                assert(payloads(packages@) =~= Seq::<Seq<u8>>::empty());
                assert(payloads(packages@) + pending_frames(self.in_flight(), self.rest() + x)
                    =~= pending_frames(self.in_flight(), self.rest() + x));
            }
        }
        let optional_incomplete_package = self.incomplet_package.take();
        match optional_incomplete_package {
            Some(mut incomplete_package) => {
                let ghost size = incomplete_package.payload_size as nat;
                let ghost got = incomplete_package.payload@;
                let ghost rest0 = self.rest();
                let read_bytes = incomplete_package.add_bytes_to_payload(
                    self.pos_start_reading as u32,
                    &self.temp_stream_storage,
                );
                self.pos_start_reading = self.pos_start_reading + read_bytes as usize;
                if incomplete_package.is_payload_complete() {
                    proof {
                        let need = size - got.len();
                        assert(incomplete_package.payload@ =~= got + rest0.subrange(0, need));
                        assert(self.rest() =~= rest0.subrange(need, rest0.len() as int));
                        assert forall|x: Seq<u8>|
                            pending_frames(old_view, input + x) == payloads(
                                packages@.push(incomplete_package),
                            ) + pending_frames(None, self.rest() + x) by {
                            lemma_pending_complete(size, got, rest0, x);
                            assert(payloads(packages@.push(incomplete_package)) =~= seq![
                                incomplete_package.payload@,
                            ]);
                        }
                    }
                    packages.push(incomplete_package);
                    assert(packages@[0].wf() && packages@[0].is_complete());
                    left_bytes = (self.temp_stream_storage.len() - self.pos_start_reading) as u32;
                } else {
                    proof {
                        assert(incomplete_package.payload@ =~= got + rest0);
                        assert(self.rest() =~= Seq::<u8>::empty());
                        assert forall|x: Seq<u8>|
                            pending_frames(old_view, input + x) == payloads(packages@)
                                + pending_frames(
                                Some((size, got + rest0)),
                                self.rest() + x,
                            ) by {
                            lemma_pending_incomplete(size, got, rest0, x);
                            assert(self.rest() + x =~= x);
                            assert(payloads(packages@) + pending_frames(
                                Some((size, got + rest0)),
                                self.rest() + x,
                            ) =~= pending_frames(Some((size, got + rest0)), x));
                        }
                        skipped = true;
                    }
                    left_bytes = 0;
                    self.incomplet_package = Some(incomplete_package);
                }
            },
            None => {},
        }
        let mut read_more_package: bool = self.incomplet_package.is_none();
        while read_more_package
            invariant
                self.temp_stream_storage@ == buf,
                buf.len() <= u32::MAX,
                self.pos_start_reading <= buf.len(),
                forall|x: Seq<u8>|
                    #[trigger] pending_frames(old_view, input + x) == payloads(packages@)
                        + pending_frames(self.in_flight(), self.rest() + x),
                forall|i: int|
                    0 <= i < packages@.len() ==> #[trigger] packages@[i].wf()
                        && packages@[i].is_complete(),
                read_more_package ==> self.incomplet_package.is_none(),
                skipped ==> {
                    &&& !read_more_package
                    &&& read_stream_result == ReadStreamResult::FailUnknownReason
                    &&& packages@.len() == 0
                    &&& old_view.is_some()
                },
                !skipped ==> (old_view.is_some() ==> packages@.len() >= 1),
                !skipped && !read_more_package ==> read_stream_result
                    != ReadStreamResult::FailUnknownReason,
                !read_more_package ==> {
                    &&& left_bytes == buf.len() - self.pos_start_reading
                    &&& self.wf()
                    &&& read_stream_result == ReadStreamResult::Success ==> self.rest().len() == 0
                    &&& (read_stream_result != ReadStreamResult::Success && read_stream_result
                        != ReadStreamResult::FailUnknownReason) ==> {
                        &&& self.in_flight().is_none()
                        &&& read_stream_result == decode_header(self.rest(), 0).0
                    }
                    &&& (self.in_flight().is_some() && read_stream_result
                        != ReadStreamResult::FailUnknownReason) ==> read_stream_result
                        == ReadStreamResult::Success
                },
            decreases buf.len() - self.pos_start_reading + (if read_more_package {
                1int
            } else {
                0
            }),
        {
            let ghost rest0 = self.rest();
            let ghost pos0 = self.pos_start_reading;
            assert(forall|i: int| 0 <= i < packages@.len() ==> packages@[i].wf());
            let mut package_stream_info = PackageInfo::new(self.pos_start_reading as u32);
            read_stream_result = byte_stream_to_u32(&self.temp_stream_storage, &mut package_stream_info);
            proof {
                lemma_decode_shift(buf, pos0 as int);
            }
            if read_stream_result == ReadStreamResult::Success {
                let ghost d = decode_header(rest0, 0);
                proof {
                    lemma_decode_prefix(rest0, Seq::<u8>::empty());
                }
                let mut package = Package::new(package_stream_info.get_payload_size());
                self.pos_start_reading = self.pos_start_reading
                    + package_stream_info.info_length_in_bytes as usize;
                let read_bytes = package.add_bytes_to_payload(
                    self.pos_start_reading as u32,
                    &self.temp_stream_storage,
                );
                self.pos_start_reading = self.pos_start_reading + read_bytes as usize;
                if package.is_payload_complete() {
                    proof {
                        assert(package.payload@ =~= rest0.subrange(d.2 as int, d.1 as int));
                        assert(self.rest() =~= rest0.subrange(d.1 as int, rest0.len() as int));
                        assert forall|x: Seq<u8>|
                            #[trigger] pending_frames(old_view, input + x) == payloads(
                                packages@.push(package),
                            ) + pending_frames(None, self.rest() + x) by {
                            lemma_frames_complete(rest0, x);
                            assert(payloads(packages@.push(package)) =~= payloads(packages@).push(
                                package.payload@,
                            ));
                            assert(payloads(packages@) + frames(rest0 + x) =~= payloads(
                                packages@.push(package),
                            ) + frames(self.rest() + x));
                        }
                    }
                    let ghost before = packages@;
                    packages.push(package);
                    proof {
                        assert forall|i: int| 0 <= i < packages@.len() implies #[trigger] packages@[i].wf()
                            && packages@[i].is_complete() by {
                            if i < before.len() {
                                assert(packages@[i] == before[i]);
                                assert(before[i].wf() && before[i].is_complete());
                            }
                        }
                    }
                    left_bytes = (self.temp_stream_storage.len() - self.pos_start_reading) as u32;
                } else {
                    proof {
                        assert(package.payload@ =~= rest0.subrange(d.2 as int, rest0.len() as int));
                        assert(self.rest() =~= Seq::<u8>::empty());
                        assert forall|x: Seq<u8>|
                            #[trigger] pending_frames(old_view, input + x) == payloads(packages@)
                                + pending_frames(
                                Some((package.payload_size as nat, package.payload@)),
                                self.rest() + x,
                            ) by {
                            lemma_frames_incomplete(rest0, x);
                            assert(self.rest() + x =~= x);
                        }
                    }
                    left_bytes = 0;
                    self.incomplet_package = Some(package);
                }
                if left_bytes == 0 {
                    read_more_package = false;
                }
            } else {
                left_bytes = (self.temp_stream_storage.len() - self.pos_start_reading) as u32;
                read_more_package = false;
            }
        }
        AddNewByteResult {
            packages: packages,
            left_bytes: left_bytes,
            read_stream_result: read_stream_result,
        }
    }
}

/// What a call of `add_new_bytes_to_stream` owes, from the stream before it,
/// the bytes handed in, the stream after it and the result.
///
/// The packages returned, followed by whatever the new state will yield on
/// any further bytes `x`, are exactly what the old state yields on the new
/// bytes followed by `x`.
pub open spec fn add_bytes_post(old: Stream, bytes: Seq<u8>, new: Stream, r: AddNewByteResult) -> bool {
    &&& new.wf()
    &&& r.left_bytes == new.rest().len()
    &&& forall|i: int|
        0 <= i < r.packages@.len() ==> #[trigger] r.packages@[i].wf()
            && r.packages@[i].is_complete()
    &&& forall|x: Seq<u8>|
        #[trigger] pending_frames(old.in_flight(), old.rest() + bytes + x) == payloads(r.packages@)
            + pending_frames(new.in_flight(), new.rest() + x)
    &&& (old.in_flight().is_some() && r.packages@.len() == 0) <==> r.read_stream_result
        == ReadStreamResult::FailUnknownReason
    &&& r.read_stream_result == ReadStreamResult::Success ==> new.rest().len() == 0
    &&& (r.read_stream_result != ReadStreamResult::Success && r.read_stream_result
        != ReadStreamResult::FailUnknownReason) ==> {
        &&& new.in_flight().is_none()
        &&& r.read_stream_result == decode_header(new.rest(), 0).0
    }
    &&& (new.in_flight().is_some() && r.read_stream_result != ReadStreamResult::FailUnknownReason)
        ==> r.read_stream_result == ReadStreamResult::Success
}

/// A serialized package, header then payload, reads back as that payload,
/// whatever bytes follow it.
pub proof fn lemma_serialized_package_frames(payload: Seq<u8>, x: Seq<u8>)
    requires
        payload.len() + MAX_HEADER_LENGTH <= u32::MAX,
    ensures
        frames(encoded(payload.len() as int) + payload + x) == seq![payload] + frames(x),
{
    let p = payload.len() as u32;
    let e = encoded(p as int);
    lemma_round_trip(p);
    lemma_decode_prefix(e, payload + x);
    let s = e + payload + x;
    assert(s =~= e + (payload + x));
    let d = decode_header(s, 0);
    assert(s.subrange(d.2 as int, d.1 as int) =~= payload);
    assert(s.subrange(d.1 as int, s.len() as int) =~= x);
}

/// Between calls a stream holds nothing that is complete: without more
/// bytes it yields no package.
pub proof fn lemma_settled_stream_yields_nothing(s: Stream)
    requires
        s.wf(),
    ensures
        pending_frames(s.in_flight(), s.rest()) == Seq::<Seq<u8>>::empty(),
{
}

/// A call that hands in no bytes completes no package, and reports as
/// leftover exactly the buffered bytes that no package has taken.
pub proof fn lemma_empty_chunk_yields_nothing(
    before: Stream,
    after: Stream,
    r: AddNewByteResult,
)
    requires
        before.wf(),
        add_bytes_post(before, Seq::<u8>::empty(), after, r),
    ensures
        r.packages@.len() == 0,
        r.left_bytes == after.rest().len(),
{
    let e = Seq::<u8>::empty();
    assert(before.rest() + e + e =~= before.rest());
    assert(after.rest() + e =~= after.rest());
    assert(pending_frames(before.in_flight(), before.rest() + e + e) == payloads(r.packages@)
        + pending_frames(after.in_flight(), after.rest() + e));
    lemma_settled_stream_yields_nothing(before);
    lemma_settled_stream_yields_nothing(after);
    assert(payloads(r.packages@).len() == 0);
}

/// Splitting a chunk in two changes nothing: the packages of the two calls,
/// in order, are those of one call with the whole chunk.
pub proof fn lemma_chunking_invariance(
    s0: Stream,
    a: Seq<u8>,
    s1: Stream,
    r1: AddNewByteResult,
    b: Seq<u8>,
    s2: Stream,
    r2: AddNewByteResult,
    s3: Stream,
    r3: AddNewByteResult,
)
    requires
        s0.wf(),
        add_bytes_post(s0, a, s1, r1),
        add_bytes_post(s1, b, s2, r2),
        add_bytes_post(s0, a + b, s3, r3),
    ensures
        payloads(r1.packages@) + payloads(r2.packages@) == payloads(r3.packages@),
{
    let e = Seq::<u8>::empty();
    assert(pending_frames(s0.in_flight(), s0.rest() + a + b) == payloads(r1.packages@)
        + pending_frames(s1.in_flight(), s1.rest() + b));
    assert(pending_frames(s1.in_flight(), s1.rest() + b + e) == payloads(r2.packages@)
        + pending_frames(s2.in_flight(), s2.rest() + e));
    assert(pending_frames(s0.in_flight(), s0.rest() + (a + b) + e) == payloads(r3.packages@)
        + pending_frames(s3.in_flight(), s3.rest() + e));
    assert(s1.rest() + b + e =~= s1.rest() + b);
    assert(s2.rest() + e =~= s2.rest());
    assert(s3.rest() + e =~= s3.rest());
    assert(s0.rest() + (a + b) + e =~= s0.rest() + a + b);
    lemma_settled_stream_yields_nothing(s2);
    lemma_settled_stream_yields_nothing(s3);
    assert(payloads(r1.packages@) + payloads(r2.packages@) =~= payloads(r3.packages@));
}

} // verus!
