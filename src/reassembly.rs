//! The receive buffer of a connection: bytes that arrived ahead of the next
//! expected sequence number wait in it until the gap before them is filled.
use vstd::prelude::*;

verus! {

/// Bytes the buffer holds past the next expected sequence number.
pub const RECV_BUFFER: usize = 65535;

/// `buf` with `data` written from offset `d`; slots past its end are empty.
pub open spec fn stored(buf: Seq<Option<u8>>, d: int, data: Seq<u8>) -> Seq<Option<u8>> {
    let n = if buf.len() < d + data.len() { d + data.len() } else { buf.len() as int };
    Seq::new(
        n as nat,
        |j: int|
            if d <= j < d + data.len() {
                Some(data[j - d])
            } else if j < buf.len() {
                buf[j]
            } else {
                None
            },
    )
}

/// How many slots at the front of `buf` are filled.
pub open spec fn leading(buf: Seq<Option<u8>>) -> nat
    decreases buf.len(),
{
    if buf.len() == 0 || buf[0] is None {
        0
    } else {
        1 + leading(buf.subrange(1, buf.len() as int))
    }
}

/// The bytes of the first `k` slots.
pub open spec fn bytes_of(buf: Seq<Option<u8>>, k: int) -> Seq<u8> {
    Seq::new(k as nat, |j: int| buf[j]->Some_0)
}

pub fn store(buf: &Vec<Option<u8>>, d: usize, data: &[u8]) -> (r: Vec<Option<u8>>)
    requires
        d + data@.len() <= RECV_BUFFER,
    ensures
        r@ == stored(buf@, d as int, data@),
{
    let n: usize = if buf.len() < d + data.len() { d + data.len() } else { buf.len() };
    let mut r: Vec<Option<u8>> = Vec::new();
    let mut j: usize = 0;
    while j < n
        invariant
            n == stored(buf@, d as int, data@).len(),
            d + data@.len() <= RECV_BUFFER,
            j <= n,
            r@ == stored(buf@, d as int, data@).subrange(0, j as int),
        decreases n - j,
    {
        let v = if d <= j && j < d + data.len() {
            Some(data[j - d])
        } else if j < buf.len() {
            buf[j]
        } else {
            None
        };
        r.push(v);
        j = j + 1;
        assert(r@ =~= stored(buf@, d as int, data@).subrange(0, j as int));
    }
    assert(r@ =~= stored(buf@, d as int, data@));
    r
}

pub fn count_leading(buf: &Vec<Option<u8>>) -> (k: usize)
    ensures
        k <= buf@.len(),
        k == leading(buf@),
        forall|j: int| 0 <= j < k ==> (#[trigger] buf@[j]) is Some,
{
    let mut j: usize = 0;
    assert(buf@.subrange(0, buf@.len() as int) =~= buf@);
    while j < buf.len() && buf[j].is_some()
        invariant
            j <= buf@.len(),
            forall|i: int| 0 <= i < j ==> (#[trigger] buf@[i]) is Some,
            leading(buf@) == j + leading(buf@.subrange(j as int, buf@.len() as int)),
        decreases buf@.len() - j,
    {
        let ghost sub = buf@.subrange(j as int, buf@.len() as int);
        assert(sub.subrange(1, sub.len() as int) =~= buf@.subrange(j + 1, buf@.len() as int));
        j = j + 1;
    }
    j
}

pub fn take_bytes(buf: &Vec<Option<u8>>, k: usize) -> (r: Vec<u8>)
    requires
        k <= buf@.len(),
        forall|j: int| 0 <= j < k ==> (#[trigger] buf@[j]) is Some,
    ensures
        r@ == bytes_of(buf@, k as int),
{
    let mut r: Vec<u8> = Vec::new();
    let mut j: usize = 0;
    while j < k
        invariant
            k <= buf@.len(),
            forall|i: int| 0 <= i < k ==> (#[trigger] buf@[i]) is Some,
            j <= k,
            r@ == bytes_of(buf@, j as int),
        decreases k - j,
    {
        match buf[j] {
            Some(b) => r.push(b),
            None => {},
        }
        j = j + 1;
        assert(r@ =~= bytes_of(buf@, j as int));
    }
    r
}

pub fn drop_slots(buf: &Vec<Option<u8>>, k: usize) -> (r: Vec<Option<u8>>)
    requires
        k <= buf@.len(),
    ensures
        r@ == buf@.subrange(k as int, buf@.len() as int),
{
    let mut r: Vec<Option<u8>> = Vec::new();
    let mut j: usize = k;
    while j < buf.len()
        invariant
            k <= j <= buf@.len(),
            r@ == buf@.subrange(k as int, j as int),
        decreases buf@.len() - j,
    {
        r.push(buf[j]);
        j = j + 1;
        assert(r@ =~= buf@.subrange(k as int, j as int));
    }
    r
}

} // verus!

verus! {

/// Every filled slot of `buf` holds the byte of `stream` at `base` plus its
/// offset.
pub open spec fn agrees(buf: Seq<Option<u8>>, stream: Seq<u8>, base: int) -> bool {
    forall|j: int|
        0 <= j < buf.len() && (#[trigger] buf[j]) is Some ==> 0 <= base + j < stream.len() && buf[j]->Some_0
            == stream[base + j]
}

proof fn lemma_leading_filled(buf: Seq<Option<u8>>)
    ensures
        leading(buf) <= buf.len(),
        forall|j: int| 0 <= j < leading(buf) ==> (#[trigger] buf[j]) is Some,
    decreases buf.len(),
{
    if buf.len() > 0 && buf[0] is Some {
        let rest = buf.subrange(1, buf.len() as int);
        lemma_leading_filled(rest);
        assert forall|j: int| 0 <= j < leading(buf) implies (#[trigger] buf[j]) is Some by {
            if j > 0 {
                assert(buf[j] == rest[j - 1]);
            }
        }
    }
}

/// Reassembly delivers the stream in order: when the buffer agrees with a
/// byte stream from `base`, and a segment carries that stream's bytes from
/// `base + d`, the bytes delivered after writing it in are the stream's next
/// bytes from `base`, and what stays in the buffer agrees with the stream
/// from where delivery stopped.
pub proof fn lemma_delivery_is_stream_prefix(
    buf: Seq<Option<u8>>,
    stream: Seq<u8>,
    base: int,
    d: int,
    data: Seq<u8>,
)
    requires
        0 <= base,
        0 <= d,
        agrees(buf, stream, base),
        base + d + data.len() <= stream.len(),
        data == stream.subrange(base + d, base + d + data.len()),
    ensures
        agrees(stored(buf, d, data), stream, base),
        bytes_of(stored(buf, d, data), leading(stored(buf, d, data)) as int) == stream.subrange(
            base,
            base + leading(stored(buf, d, data)),
        ),
        agrees(
            stored(buf, d, data).subrange(leading(stored(buf, d, data)) as int, stored(buf, d, data).len() as int),
            stream,
            base + leading(stored(buf, d, data)),
        ),
{
    let w = stored(buf, d, data);
    assert forall|j: int| 0 <= j < w.len() && (#[trigger] w[j]) is Some implies 0 <= base + j < stream.len()
        && w[j]->Some_0 == stream[base + j] by {
        if d <= j < d + data.len() {
            assert(data[j - d] == stream[base + d + (j - d)]);
        } else {
            assert(buf[j] is Some);
        }
    }
    lemma_leading_filled(w);
    let k = leading(w) as int;
    if k > 0 {
        assert(w[k - 1] is Some);
    }
    assert forall|j: int| 0 <= j < k implies #[trigger] bytes_of(w, k)[j] == stream.subrange(base, base + k)[j] by {
        assert(w[j] is Some);
    }
    assert(bytes_of(w, k) =~= stream.subrange(base, base + k));
    let rest = w.subrange(k, w.len() as int);
    assert forall|j: int| 0 <= j < rest.len() && (#[trigger] rest[j]) is Some implies 0 <= base + k + j
        < stream.len() && rest[j]->Some_0 == stream[base + k + j] by {
        assert(rest[j] == w[k + j]);
    }
}

} // verus!
