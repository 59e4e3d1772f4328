//! DNS stub-resolver codec: encoding a hostname into a standard A-record
//! query and decoding a raw response datagram into an IPv4 address or a
//! typed failure. The datagram socket itself is driven outside the library;
//! only plain byte buffers pass through here.

use vstd::prelude::*;
use vstd::arithmetic::div_mod::lemma_fundamental_div_mod;

verus! {

/// A resolved IPv4 address, as its four dotted-quad octets.
#[derive(Clone, Copy, PartialEq, Eq, Structural, Debug)]
pub struct Ipv4 {
    pub a: u8,
    pub b: u8,
    pub c: u8,
    pub d: u8,
}

/// Why decoding a response did not yield an address.
#[derive(Clone, Copy, PartialEq, Eq, Structural, Debug)]
pub enum DnsFailure {
    /// The response echoed a transaction id other than the one sent.
    TransactionIdMismatch,
    /// The answer record's type field is not an A record.
    NotARecord,
    /// The response is shorter than the fixed answer layout requires.
    TruncatedResponse,
}

/// Outcome of decoding one response datagram.
#[derive(Clone, Copy, PartialEq, Eq, Structural, Debug)]
pub enum DnsOutcome {
    ResolvedAddress(Ipv4),
    Failure(DnsFailure),
}

/// Error returned by the resolution driver for any decode failure.
#[derive(Clone, Copy, PartialEq, Eq, Structural, Debug)]
pub enum Error {
    IpResolveError,
}

impl Error {
    /// Diagnostic text for this error, in place of a `Display` impl.
    pub fn message(&self) -> (r: String)
        ensures
            r@ == "Error converting Ip address"@,
    {
        String::from_str("Error converting Ip address")
    }
}

/// The byte value of `'.'`, the label separator in a hostname.
pub open spec fn dot() -> u8 {
    46
}

/// Length of the first label of `b`: the run of bytes before the first `'.'`,
/// or all of `b` when it has none.
pub open spec fn label_len(b: Seq<u8>) -> int
    decreases b.len(),
{
    if b.len() == 0 {
        0
    } else if b[0] == dot() {
        0
    } else {
        1 + label_len(b.drop_first())
    }
}

/// The first label's length never leaves the buffer.
pub proof fn lemma_label_len_bounds(b: Seq<u8>)
    ensures
        0 <= label_len(b) <= b.len(),
    decreases b.len(),
{
    if b.len() == 0 {
    } else if b[0] == dot() {
    } else {
        lemma_label_len_bounds(b.drop_first());
    }
}

/// Every label of `b` fits in a DNS length byte restricted to [0, 63].
pub open spec fn labels_ok(b: Seq<u8>) -> bool
    decreases b.len(),
    via labels_ok_dec
{
    let n = label_len(b);
    n <= 63 && (n == b.len() || labels_ok(b.skip(n + 1)))
}

#[via_fn]
proof fn labels_ok_dec(b: Seq<u8>) {
    lemma_label_len_bounds(b);
}

/// The question-section encoding of hostname bytes `b`: each label as a
/// length byte followed by the label's bytes.
pub open spec fn encode_labels(b: Seq<u8>) -> Seq<u8>
    decreases b.len(),
    via encode_labels_dec
{
    let n = label_len(b);
    if n == b.len() {
        seq![n as u8] + b
    } else {
        seq![n as u8] + b.take(n) + encode_labels(b.skip(n + 1))
    }
}

#[via_fn]
proof fn encode_labels_dec(b: Seq<u8>) {
    lemma_label_len_bounds(b);
}

/// The 12-byte query header: transaction id (big-endian), flags 0x0100
/// (standard query, recursion desired), one question, no other records.
pub open spec fn query_header(tid: u16) -> Seq<u8> {
    seq![(tid / 256) as u8, (tid % 256) as u8, 1u8, 0u8, 0u8, 1u8, 0u8, 0u8, 0u8, 0u8, 0u8, 0u8]
}

/// The full query message for hostname bytes `b` under transaction id `tid`:
/// header, encoded labels, zero terminator, QTYPE A, QCLASS IN.
pub open spec fn query_spec(b: Seq<u8>, tid: u16) -> Seq<u8> {
    query_header(tid) + encode_labels(b) + seq![0u8, 0u8, 1u8, 0u8, 1u8]
}

/// The transaction id carried in the first two bytes of a message, read
/// big-endian.
pub open spec fn msg_tid(b: Seq<u8>) -> int {
    b[0] as int * 256 + b[1] as int
}

/// What decoding a response `b` against a sent id and the queried hostname's
/// byte length yields. The fixed layout places the answer's type field at
/// `hlen + 20` and the address at `hlen + 30`; a buffer shorter than
/// `hlen + 34` cannot hold that layout and is rejected as truncated.
pub open spec fn parse_response_spec(b: Seq<u8>, sent: u16, hlen: int) -> DnsOutcome {
    if b.len() < hlen + 34 {
        DnsOutcome::Failure(DnsFailure::TruncatedResponse)
    } else if msg_tid(b) != sent as int {
        DnsOutcome::Failure(DnsFailure::TransactionIdMismatch)
    } else if b[hlen + 20] == 0u8 && b[hlen + 21] == 1u8 {
        DnsOutcome::ResolvedAddress(
            Ipv4 { a: b[hlen + 30], b: b[hlen + 31], c: b[hlen + 32], d: b[hlen + 33] },
        )
    } else {
        DnsOutcome::Failure(DnsFailure::NotARecord)
    }
}

/// Relies on rand::thread_rng and rand::Rng::gen for a uniformly distributed
/// random value; nothing is promised of the result.
#[verifier::external_body]
fn random_u16() -> u16 {
    rand::Rng::gen::<u16>(&mut rand::thread_rng())
}

proof fn lemma_label_len_at(b: Seq<u8>, n: int)
    requires
        0 <= n <= b.len(),
        forall|k: int| 0 <= k < n ==> b[k] != dot(),
        n == b.len() || b[n] == dot(),
    ensures
        label_len(b) == n,
    decreases n,
{
    if b.len() == 0 {
    } else if b[0] == dot() {
        assert(n == 0);
    } else {
        assert(n >= 1);
        let t = b.drop_first();
        assert(forall|k: int| 0 <= k < n - 1 ==> t[k] == b[k + 1] && t[k] != dot());
        lemma_label_len_at(t, n - 1);
    }
}

/// The next `'.'` at or after `from`, or the end of the buffer.
fn find_dot(hb: &Vec<u8>, from: usize) -> (j: usize)
    requires
        from <= hb@.len(),
    ensures
        from <= j <= hb@.len(),
        forall|k: int| from <= k < j ==> hb@[k] != dot(),
        j == hb@.len() || hb@[j as int] == dot(),
{
    let mut j = from;
    while j < hb.len()
        invariant
            from <= j <= hb@.len(),
            forall|k: int| from <= k < j ==> hb@[k] != dot(),
        decreases hb@.len() - j,
    {
        if hb[j] == 46u8 {
            return j;
        }
        j += 1;
    }
    j
}

/// Appends the label encoding of `hb[from..]` to `out`.
fn encode_labels_from(hb: &Vec<u8>, from: usize, out: &mut Vec<u8>)
    requires
        from <= hb@.len(),
        labels_ok(hb@.skip(from as int)),
    ensures
        final(out)@ == old(out)@ + encode_labels(hb@.skip(from as int)),
    decreases hb@.len() - from,
{
    let ghost rest = hb@.skip(from as int);
    let j = find_dot(hb, from);
    proof {
        assert(forall|k: int| 0 <= k < j - from ==> rest[k] == hb@[k + from] && rest[k] != dot());
        assert(j - from == rest.len() || rest[j - from] == dot());
        lemma_label_len_at(rest, j - from);
    }
    out.push((j - from) as u8);
    let mut k = from;
    while k < j
        invariant
            from <= k <= j <= hb@.len(),
            out@ == old(out)@ + seq![(j - from) as u8] + hb@.subrange(from as int, k as int),
        decreases j - k,
    {
        out.push(hb[k]);
        proof {
            assert(out@ == old(out)@ + seq![(j - from) as u8] + hb@.subrange(
                from as int,
                k + 1 as int,
            ));
        }
        k += 1;
    }
    if j < hb.len() {
        proof {
            assert(rest.take(j - from) =~= hb@.subrange(from as int, j as int));
            assert(rest.skip(j - from + 1) =~= hb@.skip(j + 1 as int));
        }
        encode_labels_from(hb, j + 1, out);
        proof {
            assert(out@ =~= old(out)@ + encode_labels(rest));
        }
    } else {
        proof {
            assert(rest =~= hb@.subrange(from as int, j as int));
            assert(out@ =~= old(out)@ + encode_labels(rest));
        }
    }
}

fn labels_fit_from(hb: &Vec<u8>, from: usize) -> (r: bool)
    requires
        from <= hb@.len(),
    ensures
        r == labels_ok(hb@.skip(from as int)),
    decreases hb@.len() - from,
{
    let ghost rest = hb@.skip(from as int);
    let j = find_dot(hb, from);
    proof {
        assert(forall|k: int| 0 <= k < j - from ==> rest[k] == hb@[k + from] && rest[k] != dot());
        assert(j - from == rest.len() || rest[j - from] == dot());
        lemma_label_len_at(rest, j - from);
    }
    if j - from > 63 {
        return false;
    }
    if j < hb.len() {
        proof {
            assert(rest.skip(j - from + 1) =~= hb@.skip(j + 1 as int));
        }
        labels_fit_from(hb, j + 1)
    } else {
        true
    }
}

/// Whether every dot-separated label of the hostname fits in a DNS length
/// byte, as `Query::build_query` asks.
pub fn labels_fit(hostname: &str) -> (r: bool)
    ensures
        r == labels_ok(vstd::utf8::encode_utf8(hostname@)),
{
    let hb = hostname.as_bytes_vec();
    proof {
        assert(hb@.skip(0) =~= hb@);
    }
    labels_fit_from(&hb, 0)
}

/// A query message under construction, paired with its transaction id once
/// built.
pub struct Query;

impl Query {
    pub fn new() -> (q: Query) {
        Query
    }

    /// Assembles the query message for `hostname` under the fresh random
    /// transaction id that is returned beside it. The first two bytes of the
    /// message, read big-endian, are that id.
    pub fn build_query(hostname: &str) -> (r: (Vec<u8>, u16))
        requires
            labels_ok(vstd::utf8::encode_utf8(hostname@)),
        ensures
            r.0@ == query_spec(vstd::utf8::encode_utf8(hostname@), r.1),
            r.0@.len() >= 2,
            msg_tid(r.0@) == r.1 as int,
    {
        let tid = random_u16();
        let q = Self::encode_query(hostname, tid);
        (q, tid)
    }

    /// Assembles the query message for `hostname` under the given
    /// transaction id.
    pub fn encode_query(hostname: &str, tid: u16) -> (r: Vec<u8>)
        requires
            labels_ok(vstd::utf8::encode_utf8(hostname@)),
        ensures
            r@ == query_spec(vstd::utf8::encode_utf8(hostname@), tid),
            r@.len() >= 2,
            msg_tid(r@) == tid as int,
    {
        let hb = hostname.as_bytes_vec();
        let mut q: Vec<u8> = Vec::new();
        let hi = (tid / 256) as u8;
        let lo = (tid % 256) as u8;
        q.push(hi);
        q.push(lo);
        q.push(1u8);
        q.push(0u8);
        q.push(0u8);
        q.push(1u8);
        q.push(0u8);
        q.push(0u8);
        q.push(0u8);
        q.push(0u8);
        q.push(0u8);
        q.push(0u8);
        proof {
            assert(q@ =~= query_header(tid));
            assert(hb@.skip(0) =~= hb@);
        }
        encode_labels_from(&hb, 0, &mut q);
        q.push(0u8);
        q.push(0u8);
        q.push(1u8);
        q.push(0u8);
        q.push(1u8);
        proof {
            assert(q@ =~= query_spec(hb@, tid));
            lemma_fundamental_div_mod(tid as int, 256);
        }
        q
    }

    /// Decodes one response datagram against the id that was sent and the
    /// byte length of the hostname that was queried.
    pub fn parse_response(buffer: &Vec<u8>, sent_transaction_id: u16, hostname_length: usize) -> (r:
        DnsOutcome)
        ensures
            r == parse_response_spec(buffer@, sent_transaction_id, hostname_length as int),
    {
        if buffer.len() < 34 || buffer.len() - 34 < hostname_length {
            return DnsOutcome::Failure(DnsFailure::TruncatedResponse);
        }
        let rtid: u16 = (buffer[0] as u16) * 256 + (buffer[1] as u16);
        if rtid != sent_transaction_id {
            return DnsOutcome::Failure(DnsFailure::TransactionIdMismatch);
        }
        if buffer[hostname_length + 20] == 0u8 && buffer[hostname_length + 21] == 1u8 {
            DnsOutcome::ResolvedAddress(
                Ipv4 {
                    a: buffer[hostname_length + 30],
                    b: buffer[hostname_length + 31],
                    c: buffer[hostname_length + 32],
                    d: buffer[hostname_length + 33],
                },
            )
        } else {
            DnsOutcome::Failure(DnsFailure::NotARecord)
        }
    }
}

/// A response that carries a transaction id other than the one sent is
/// always a failure, whatever the rest of its payload holds.
pub proof fn lemma_mismatch_always_fails(b: Seq<u8>, sent: u16, hlen: int)
    requires
        b.len() < hlen + 34 || msg_tid(b) != sent as int,
    ensures
        parse_response_spec(b, sent, hlen) is Failure,
{
}

/// A response shorter than the fixed layout requires is rejected as
/// truncated, whatever it holds.
pub proof fn lemma_short_response_truncated(b: Seq<u8>, sent: u16, hlen: int)
    requires
        b.len() < hlen + 34,
    ensures
        parse_response_spec(b, sent, hlen) == DnsOutcome::Failure(DnsFailure::TruncatedResponse),
{
}

/// A well-formed response — long enough, echoing the sent id, with an
/// A-record type field at the expected offset — decodes to exactly the
/// address bytes it carries.
pub proof fn lemma_wellformed_response_resolves(b: Seq<u8>, sent: u16, hlen: int)
    requires
        hlen >= 0,
        b.len() >= hlen + 34,
        msg_tid(b) == sent as int,
        b[hlen + 20] == 0u8,
        b[hlen + 21] == 1u8,
    ensures
        parse_response_spec(b, sent, hlen) == DnsOutcome::ResolvedAddress(
            Ipv4 { a: b[hlen + 30], b: b[hlen + 31], c: b[hlen + 32], d: b[hlen + 33] },
        ),
{
}

} // verus!
