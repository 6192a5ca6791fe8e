use vstd::prelude::*;
use crate::address::addr_end;
use vstd::utf8::is_char_boundary;
use vstd::string::StringSliceAdditionalSpecFns;

verus! {

/// The largest payload that one bridge request may carry: 32 MiB.
pub const CHUNK_MAX: u64 = 0x200_0000;

/// Errors of the bridge connection.
#[derive(Clone, Copy, Debug, PartialEq, Eq, Structural)]
pub enum BridgeError {
    InvalidArgument,
    Unsupported,
    TransportLost,
    ProtocolViolation,
    RemoteError,
}

/// The parts of a connection URL that the bridge looks at.
pub struct UrlParts {
    pub scheme: Vec<u8>,
    pub host: Option<Vec<u8>>,
    pub port: Option<u16>,
    pub path: Vec<u8>,
}

/// Where a bridge connection goes.
pub enum Endpoint {
    Unix { path: Vec<u8> },
    Tcp { host: Vec<u8>, port: u16, nodelay: bool },
}

/// An endpoint as plain values.
pub enum EndpointView {
    Unix { path: Seq<u8> },
    Tcp { host: Seq<u8>, port: u16, nodelay: bool },
}

impl Endpoint {
    pub open spec fn view(&self) -> EndpointView {
        match self {
            Endpoint::Unix { path } => EndpointView::Unix { path: path@ },
            Endpoint::Tcp { host, port, nodelay } => EndpointView::Tcp { host: host@, port: *port, nodelay: *nodelay },
        }
    }
}

/// A result with its endpoint as plain values.
pub open spec fn endpoint_result(r: Result<Endpoint, BridgeError>) -> Result<EndpointView, BridgeError> {
    match r {
        Ok(e) => Ok(e.view()),
        Err(x) => Err(x),
    }
}

/// Whether `url` parses as a URL.
pub uninterp spec fn url_parses(url: Seq<u8>) -> bool;

/// The scheme of a URL.
pub uninterp spec fn url_scheme_of(url: Seq<u8>) -> Seq<u8>;

/// The host of a URL, where it has one.
pub uninterp spec fn url_host_of(url: Seq<u8>) -> Option<Seq<u8>>;

/// The port of a URL, where it names one that is not the scheme's default.
pub uninterp spec fn url_port_of(url: Seq<u8>) -> Option<u16>;

/// The path of a URL.
pub uninterp spec fn url_path_of(url: Seq<u8>) -> Seq<u8>;

/// Relies on `url::Url::parse` and on its `scheme`, `host_str`, `port` and `path`
/// accessors; each part depends on the text alone.
#[verifier::external_body]
fn parse_url_parts(s: &str) -> (r: Option<UrlParts>)
    ensures
        r is Some <==> url_parses(s.spec_bytes()),
        r is Some ==> r->0.scheme@ == url_scheme_of(s.spec_bytes()),
        r is Some ==> r->0.port == url_port_of(s.spec_bytes()),
        r is Some ==> r->0.path@ == url_path_of(s.spec_bytes()),
        r is Some ==> match r->0.host {
            Some(h) => url_host_of(s.spec_bytes()) == Some(h@),
            None => url_host_of(s.spec_bytes()) is None,
        },
{
    url::Url::parse(s).ok().map(|u| UrlParts {
        scheme: u.scheme().as_bytes().to_vec(),
        host: u.host_str().map(|h| h.as_bytes().to_vec()),
        port: u.port(),
        path: u.path().as_bytes().to_vec(),
    })
}

/// The bytes of `unix`.
pub open spec fn unix_scheme() -> Seq<u8> {
    seq![0x75u8, 0x6e, 0x69, 0x78]
}

/// The bytes of `tcp`.
pub open spec fn tcp_scheme() -> Seq<u8> {
    seq![0x74u8, 0x63, 0x70]
}

/// The bytes of `nodelay`.
pub open spec fn nodelay_option() -> Seq<u8> {
    seq![0x6eu8, 0x6f, 0x64, 0x65, 0x6c, 0x61, 0x79]
}

/// The endpoint that URL parts and the `nodelay` option name.
pub open spec fn endpoint_of(
    scheme: Seq<u8>,
    host: Option<Seq<u8>>,
    port: Option<u16>,
    path: Seq<u8>,
    nodelay: bool,
) -> Result<EndpointView, BridgeError> {
    if scheme == unix_scheme() {
        Ok(EndpointView::Unix { path })
    } else if scheme == tcp_scheme() {
        match (host, port) {
            (Some(h), Some(p)) => Ok(EndpointView::Tcp { host: h, port: p, nodelay }),
            _ => Err(BridgeError::InvalidArgument),
        }
    } else {
        Err(BridgeError::InvalidArgument)
    }
}

/// Index of the first comma of `b` at or after `i`, or its length.
pub open spec fn comma_from(b: Seq<u8>, i: int) -> int
    decreases b.len() - i,
{
    if i >= b.len() || i < 0 {
        b.len() as int
    } else if b[i] == 0x2c {
        i
    } else {
        comma_from(b, i + 1)
    }
}

/// Whether `opt` is one of the comma-separated options after the URL proper.
pub open spec fn has_option(b: Seq<u8>, opt: Seq<u8>) -> bool {
    exists|i: int|
        comma_from(b, 0) < i && i + opt.len() <= b.len() && b[i - 1] == 0x2c && #[trigger] b.subrange(
            i,
            i + opt.len(),
        ) == opt && (i + opt.len() == b.len() || b[i + opt.len()] == 0x2c)
}

pub(crate) fn same_bytes(a: &[u8], b: &[u8]) -> (r: bool)
    ensures
        r == (a@ == b@),
{
    if a.len() != b.len() {
        return false;
    }
    let mut i: usize = 0;
    while i < a.len()
        invariant
            a@.len() == b@.len(),
            i <= a@.len(),
            forall|j: int| 0 <= j < i ==> a@[j] == b@[j],
        decreases a@.len() - i,
    {
        if a[i] != b[i] {
            return false;
        }
        i = i + 1;
    }
    assert(a@ =~= b@);
    true
}

fn unix_bytes() -> (r: Vec<u8>)
    ensures
        r@ == unix_scheme(),
{
    let r: Vec<u8> = vec![0x75u8, 0x6e, 0x69, 0x78];
    assert(r@ =~= unix_scheme());
    r
}

fn tcp_bytes() -> (r: Vec<u8>)
    ensures
        r@ == tcp_scheme(),
{
    let r: Vec<u8> = vec![0x74u8, 0x63, 0x70];
    assert(r@ =~= tcp_scheme());
    r
}

/// Picks the endpoint from parsed URL parts: `unix` takes the path, `tcp` takes host
/// and port; any other scheme, or `tcp` without host or port, is an invalid argument.
pub fn endpoint_from_parts(parts: UrlParts, nodelay: bool) -> (r: Result<Endpoint, BridgeError>)
    ensures
        endpoint_result(r) == endpoint_of(
            parts.scheme@,
            match parts.host {
                Some(h) => Some(h@),
                None => None,
            },
            parts.port,
            parts.path@,
            nodelay,
        ),
{
    let u = unix_bytes();
    let t = tcp_bytes();
    if same_bytes(parts.scheme.as_slice(), u.as_slice()) {
        Ok(Endpoint::Unix { path: parts.path })
    } else if same_bytes(parts.scheme.as_slice(), t.as_slice()) {
        match (parts.host, parts.port) {
            (Some(h), Some(p)) => Ok(Endpoint::Tcp { host: h, port: p, nodelay }),
            _ => Err(BridgeError::InvalidArgument),
        }
    } else {
        Err(BridgeError::InvalidArgument)
    }
}

fn first_comma(b: &[u8]) -> (r: usize)
    ensures
        r == comma_from(b@, 0),
{
    let mut i: usize = 0;
    while i < b.len()
        invariant
            i <= b@.len(),
            comma_from(b@, 0) == comma_from(b@, i as int),
        decreases b@.len() - i,
    {
        if b[i] == 0x2c {
            return i;
        }
        i = i + 1;
    }
    i
}

fn nodelay_at(b: &[u8], i: usize) -> (r: bool)
    requires
        i + 7 <= b@.len(),
    ensures
        r == (b@.subrange(i as int, i + 7) == nodelay_option()),
{
    let r = b[i] == 0x6e && b[i + 1] == 0x6f && b[i + 2] == 0x64 && b[i + 3] == 0x65 && b[i + 4] == 0x6c
        && b[i + 5] == 0x61 && b[i + 6] == 0x79;
    if r {
        assert(b@.subrange(i as int, i + 7) =~= nodelay_option());
    } else {
        assert(b@.subrange(i as int, i + 7) != nodelay_option()) by {
            let s = b@.subrange(i as int, i + 7);
            assert(s[0] == b@[i as int] && s[1] == b@[i + 1] && s[2] == b@[i + 2] && s[3] == b@[i + 3]
                && s[4] == b@[i + 4] && s[5] == b@[i + 5] && s[6] == b@[i + 6]);
        }
    }
    r
}

/// Whether `nodelay` is among the options of a connection URL.
pub fn has_nodelay(b: &[u8]) -> (r: bool)
    ensures
        r == has_option(b@, nodelay_option()),
{
    let h = first_comma(b);
    if h >= b.len() {
        return false;
    }
    let mut i: usize = h + 1;
    while b.len() >= 7 && i <= b.len() - 7
        invariant
            h == comma_from(b@, 0),
            h < i <= b@.len(),
            forall|k: int|
                h < k < i && k + 7 <= b@.len() ==> !(b@[k - 1] == 0x2c && #[trigger] b@.subrange(k, k + 7)
                    == nodelay_option() && (k + 7 == b@.len() || b@[k + 7] == 0x2c)),
        decreases b@.len() - i,
    {
        if b[i - 1] == 0x2c && nodelay_at(b, i) && (i + 7 == b.len() || b[i + 7] == 0x2c) {
            assert(b@.subrange(i as int, i + nodelay_option().len()) == nodelay_option());
            return true;
        }
        i = i + 1;
    }
    false
}

/// Reads a connection URL of the form `scheme://target[,option]*` into an endpoint.
/// The text before the first comma is parsed as a URL; `nodelay` among the options
/// asks for `TCP_NODELAY`.
pub fn parse_connect_url(url: &str) -> (r: Result<Endpoint, BridgeError>)
    ensures
        ({
            let b = url.spec_bytes();
            let head = b.subrange(0, comma_from(b, 0));
            endpoint_result(r) == if !is_char_boundary(b, comma_from(b, 0)) || !url_parses(head) {
                Err(BridgeError::InvalidArgument)
            } else {
                endpoint_of(
                    url_scheme_of(head),
                    url_host_of(head),
                    url_port_of(head),
                    url_path_of(head),
                    has_option(b, nodelay_option()),
                )
            }
        }),
{
    let b = url.as_bytes();
    let h = first_comma(b);
    let nodelay = has_nodelay(b);
    if !url.is_char_boundary(h) {
        return Err(BridgeError::InvalidArgument);
    }
    let (head_text, _) = url.split_at(h);
    match parse_url_parts(head_text) {
        None => Err(BridgeError::InvalidArgument),
        Some(parts) => endpoint_from_parts(parts, nodelay),
    }
}

/// One bridge request of a split transfer.
#[derive(Clone, Copy, Debug, PartialEq, Eq, Structural)]
pub struct Chunk {
    pub addr: u64,
    pub len: u64,
}

/// The requests that carry `len` bytes at `addr`: one where the payload fits in a
/// chunk, else a full chunk followed by the requests for the rest.
pub open spec fn chunks(addr: int, len: int) -> Seq<(int, int)>
    decreases len,
{
    if len <= CHUNK_MAX {
        seq![(addr, len)]
    } else {
        seq![(addr, CHUNK_MAX as int)] + chunks(addr + CHUNK_MAX, len - CHUNK_MAX)
    }
}

/// A chunk as a pair of integers.
pub open spec fn chunk_pair(c: Chunk) -> (int, int) {
    (c.addr as int, c.len as int)
}

/// Splits a transfer of `len` bytes at `addr` into requests of at most 32 MiB, in
/// address order.
pub fn chunk_plan(addr: u64, len: u64) -> (r: Vec<Chunk>)
    requires
        addr + len <= addr_end(),
    ensures
        r@.map_values(|c: Chunk| chunk_pair(c)) == chunks(addr as int, len as int),
{
    let mut r: Vec<Chunk> = Vec::new();
    let mut base = addr;
    let mut rest = len;
    while rest > CHUNK_MAX
        invariant
            base + rest <= addr_end(),
            r@.map_values(|c: Chunk| chunk_pair(c)) + chunks(base as int, rest as int) == chunks(
                addr as int,
                len as int,
            ),
        decreases rest,
    {
        let ghost prev = r@;
        r.push(Chunk { addr: base, len: CHUNK_MAX });
        proof {
            assert(r@.map_values(|c: Chunk| chunk_pair(c)) =~= prev.map_values(|c: Chunk| chunk_pair(c)).push(
                (base as int, CHUNK_MAX as int),
            ));
            assert(chunks(base as int, rest as int) == seq![(base as int, CHUNK_MAX as int)] + chunks(
                base + CHUNK_MAX,
                rest - CHUNK_MAX,
            ));
            assert(r@.map_values(|c: Chunk| chunk_pair(c)) + chunks(base + CHUNK_MAX, rest - CHUNK_MAX)
                =~= prev.map_values(|c: Chunk| chunk_pair(c)) + chunks(base as int, rest as int));
        }
        base = base + CHUNK_MAX;
        rest = rest - CHUNK_MAX;
    }
    let ghost prev = r@;
    r.push(Chunk { addr: base, len: rest });
    assert(r@.map_values(|c: Chunk| chunk_pair(c)) =~= prev.map_values(|c: Chunk| chunk_pair(c)) + chunks(
        base as int,
        rest as int,
    ));
    r
}

/// Splitting a transfer longer than a chunk is the same as sending its first chunk
/// and then splitting the rest.
pub proof fn lemma_chunks_split(addr: int, len: int)
    requires
        len > CHUNK_MAX,
    ensures
        chunks(addr, len) == chunks(addr, CHUNK_MAX as int) + chunks(addr + CHUNK_MAX, len - CHUNK_MAX),
{
}

/// Every request of a split transfer carries at most 32 MiB, and each starts where
/// the one before it ended.
pub proof fn lemma_chunks_bounded(addr: int, len: int)
    requires
        len >= 0,
    ensures
        forall|i: int| 0 <= i < chunks(addr, len).len() ==> (#[trigger] chunks(addr, len)[i]).1 <= CHUNK_MAX,
        forall|i: int| 0 < i < chunks(addr, len).len() ==> (#[trigger] chunks(addr, len)[i]).0 == chunks(addr, len)[i - 1].0 + chunks(addr, len)[i - 1].1,
        chunks(addr, len)[0].0 == addr,
    decreases len,
{
    if len > CHUNK_MAX {
        lemma_chunks_bounded(addr + CHUNK_MAX, len - CHUNK_MAX);
        let rest = chunks(addr + CHUNK_MAX, len - CHUNK_MAX);
        assert forall|i: int| 0 < i < chunks(addr, len).len() implies (#[trigger] chunks(addr, len)[i]).0
            == chunks(addr, len)[i - 1].0 + chunks(addr, len)[i - 1].1 by {
            if i > 1 {
                assert(chunks(addr, len)[i] == rest[i - 1]);
                assert(chunks(addr, len)[i - 1] == rest[i - 2]);
            }
        }
    }
}

/// The buffer that a split read of `len` bytes yields from the replies `parts`, one
/// per request: reply `i` fills the bytes of request `i`, up to its own length; what
/// no reply covers stays zero.
pub open spec fn assembled(len: int, parts: Seq<Seq<u8>>) -> Seq<u8> {
    Seq::new(len as nat, |j: int| {
        let i = j / CHUNK_MAX as int;
        let k = j % CHUNK_MAX as int;
        if i < parts.len() && k < parts[i].len() {
            parts[i][k]
        } else {
            0u8
        }
    })
}

/// The request that carries byte `j` of a split transfer.
pub open spec fn chunk_index(j: int) -> int {
    j / CHUNK_MAX as int
}

/// The place of byte `j` in its request.
pub open spec fn chunk_offset(j: int) -> int {
    j % CHUNK_MAX as int
}

proof fn lemma_pos_unique(j: int, i: int, k: int)
    requires
        0 <= j,
        j / CHUNK_MAX as int == i,
        j % CHUNK_MAX as int == k,
    ensures
        j == i * CHUNK_MAX + k,
{
    vstd::arithmetic::div_mod::lemma_fundamental_div_mod(j, CHUNK_MAX as int);
}

proof fn lemma_pos_below(len: int, i: int, k: int)
    requires
        0 <= i,
        0 <= k < CHUNK_MAX,
        0 <= len,
        i < len / CHUNK_MAX as int || (i == len / CHUNK_MAX as int && k < len % CHUNK_MAX as int),
    ensures
        i * CHUNK_MAX + k < len,
{
    vstd::arithmetic::div_mod::lemma_fundamental_div_mod(len, CHUNK_MAX as int);
    if i < len / CHUNK_MAX as int {
        vstd::arithmetic::mul::lemma_mul_inequality(i + 1, len / CHUNK_MAX as int, CHUNK_MAX as int);
    }
}

proof fn lemma_pos_bound(len: int, i: int, k: int)
    requires
        0 <= i,
        0 <= k < CHUNK_MAX,
        0 <= len,
        !(i < len / CHUNK_MAX as int || (i == len / CHUNK_MAX as int && k < len % CHUNK_MAX as int)),
    ensures
        i * CHUNK_MAX + k >= len,
{
    vstd::arithmetic::div_mod::lemma_fundamental_div_mod(len, CHUNK_MAX as int);
    if i > len / CHUNK_MAX as int {
        vstd::arithmetic::mul::lemma_mul_inequality(len / CHUNK_MAX as int + 1, i, CHUNK_MAX as int);
    }
}

/// Puts the replies of a split read together into one buffer of `len` bytes.
pub fn assemble(len: u64, parts: &Vec<Vec<u8>>) -> (r: Vec<u8>)
    requires
        len <= usize::MAX,
    ensures
        r@ == assembled(len as int, parts@.map_values(|p: Vec<u8>| p@)),
{
    let mut r: Vec<u8> = vec![0u8; len as usize];
    let ghost ps = parts@.map_values(|p: Vec<u8>| p@);
    let mut i: usize = 0;
    while i < parts.len()
        invariant
            ps == parts@.map_values(|p: Vec<u8>| p@),
            len <= usize::MAX,
            r@.len() == len,
            i <= parts@.len(),
            forall|j: int| 0 <= j < len ==> #[trigger] r@[j] == if j / CHUNK_MAX as int >= i {
                0u8
            } else {
                assembled(len as int, ps)[j]
            },
        decreases parts@.len() - i,
    {
        let part = &parts[i];
        let mut k: usize = 0;
        while k < part.len() && (k as u64) < CHUNK_MAX
            invariant
                ps == parts@.map_values(|p: Vec<u8>| p@),
                part@ == ps[i as int],
                len <= usize::MAX,
                r@.len() == len,
                i < parts@.len(),
                k <= part@.len(),
                k <= CHUNK_MAX,
                forall|j: int| 0 <= j < len ==> #[trigger] r@[j] == if j / CHUNK_MAX as int > i || (j
                    / CHUNK_MAX as int == i && j % CHUNK_MAX as int >= k) {
                    0u8
                } else {
                    assembled(len as int, ps)[j]
                },
            decreases part@.len() - k,
        {
            if (i as u64) < len / CHUNK_MAX || ((i as u64) == len / CHUNK_MAX && (k as u64) < len % CHUNK_MAX) {
                let at = (i as u64) * CHUNK_MAX + k as u64;
                proof {
                    assert(at / CHUNK_MAX == i && at % CHUNK_MAX == k) by (nonlinear_arith)
                        requires
                            at == i * CHUNK_MAX + k,
                            k < CHUNK_MAX,
                            CHUNK_MAX == 0x200_0000,
                    ;
                }
                assert(at < len) by {
                    lemma_pos_below(len as int, i as int, k as int);
                }
                assert(chunk_index(at as int) == i && chunk_offset(at as int) == k);
                assert(ps[i as int].len() == part@.len());
                let ghost before = r@;
                r.set(at as usize, part[k]);
                assert(r@[at as int] == ps[i as int][k as int]);
                assert forall|j: int| 0 <= j < len && j != at implies !(#[trigger] chunk_index(j) == i
                    && chunk_offset(j) == k) by {
                    if chunk_index(j) == i && chunk_offset(j) == k {
                        lemma_pos_unique(j, i as int, k as int);
                    }
                }
                assert(r@[at as int] == assembled(len as int, ps)[at as int]);
            } else {
                assert forall|j: int| 0 <= j < len implies !(#[trigger] chunk_index(j) == i && chunk_offset(j)
                    == k) by {
                    if chunk_index(j) == i && chunk_offset(j) == k {
                        lemma_pos_unique(j, i as int, k as int);
                        lemma_pos_bound(len as int, i as int, k as int);
                    }
                }
            }
            k = k + 1;
        }
        i = i + 1;
    }
    r
}

/// A 64 MiB read put together from its two replies is the 32 MiB read of the first
/// half followed by the 32 MiB read of the second.
pub proof fn lemma_assemble_halves(first: Seq<u8>, second: Seq<u8>)
    ensures
        assembled(2 * CHUNK_MAX, seq![first, second]) == assembled(CHUNK_MAX as int, seq![first]) + assembled(
            CHUNK_MAX as int,
            seq![second],
        ),
{
    let whole = assembled(2 * CHUNK_MAX, seq![first, second]);
    let joined = assembled(CHUNK_MAX as int, seq![first]) + assembled(CHUNK_MAX as int, seq![second]);
    assert forall|j: int| 0 <= j < whole.len() implies whole[j] == joined[j] by {
        if j < CHUNK_MAX {
            assert(j / CHUNK_MAX as int == 0 && j % CHUNK_MAX as int == j);
        } else {
            assert(j / CHUNK_MAX as int == 1 && j % CHUNK_MAX as int == j - CHUNK_MAX);
            assert((j - CHUNK_MAX) / CHUNK_MAX as int == 0 && (j - CHUNK_MAX) % CHUNK_MAX as int == j - CHUNK_MAX);
        }
    }
    assert(whole =~= joined);
}

/// The payloads of the requests that write `d`: one per chunk of the split transfer.
pub open spec fn split_payload_spec(d: Seq<u8>) -> Seq<Seq<u8>>
    decreases d.len(),
{
    if d.len() <= CHUNK_MAX {
        seq![d]
    } else {
        seq![d.subrange(0, CHUNK_MAX as int)] + split_payload_spec(d.subrange(CHUNK_MAX as int, d.len() as int))
    }
}

fn copy_range(d: &[u8], lo: usize, hi: usize) -> (r: Vec<u8>)
    requires
        lo <= hi <= d@.len(),
    ensures
        r@ == d@.subrange(lo as int, hi as int),
{
    let mut r: Vec<u8> = Vec::new();
    let mut i: usize = lo;
    while i < hi
        invariant
            lo <= i <= hi <= d@.len(),
            r@ == d@.subrange(lo as int, i as int),
        decreases hi - i,
    {
        r.push(d[i]);
        assert(r@ =~= d@.subrange(lo as int, i + 1));
        i = i + 1;
    }
    r
}

/// Cuts a write payload into the parts that the requests of its split transfer carry.
pub fn split_payload(d: &[u8]) -> (r: Vec<Vec<u8>>)
    ensures
        r@.map_values(|p: Vec<u8>| p@) == split_payload_spec(d@),
{
    let mut r: Vec<Vec<u8>> = Vec::new();
    let mut lo: usize = 0;
    assert(d@.subrange(0, d@.len() as int) =~= d@);
    assert(r@.map_values(|p: Vec<u8>| p@) + split_payload_spec(d@) =~= split_payload_spec(d@));
    while d.len() - lo > CHUNK_MAX as usize
        invariant
            lo <= d@.len(),
            r@.map_values(|p: Vec<u8>| p@) + split_payload_spec(d@.subrange(lo as int, d@.len() as int)) == split_payload_spec(d@),
        decreases d@.len() - lo,
    {
        let ghost prev = r@.map_values(|p: Vec<u8>| p@);
        let ghost rest = d@.subrange(lo as int, d@.len() as int);
        let part = copy_range(d, lo, lo + CHUNK_MAX as usize);
        r.push(part);
        proof {
            assert(rest.subrange(0, CHUNK_MAX as int) =~= d@.subrange(lo as int, lo + CHUNK_MAX));
            assert(rest.subrange(CHUNK_MAX as int, rest.len() as int) =~= d@.subrange(lo + CHUNK_MAX, d@.len() as int));
            assert(r@.map_values(|p: Vec<u8>| p@) =~= prev.push(d@.subrange(lo as int, lo + CHUNK_MAX)));
            assert(r@.map_values(|p: Vec<u8>| p@) + split_payload_spec(d@.subrange(lo + CHUNK_MAX, d@.len() as int)) =~= prev
                + split_payload_spec(rest));
        }
        lo = lo + CHUNK_MAX as usize;
    }
    let ghost prev = r@.map_values(|p: Vec<u8>| p@);
    let last = copy_range(d, lo, d.len());
    r.push(last);
    assert(r@.map_values(|p: Vec<u8>| p@) =~= prev + split_payload_spec(d@.subrange(lo as int, d@.len() as int)));
    r
}

/// Cutting a payload into request parts and putting the parts back together gives
/// the payload: what a server that stores each write and answers each read with what
/// it stored hands back is what was written, however many requests it took.
pub proof fn lemma_split_then_assemble(d: Seq<u8>)
    ensures
        assembled(d.len() as int, split_payload_spec(d)) == d,
    decreases d.len(),
{
    let parts = split_payload_spec(d);
    let c = CHUNK_MAX as int;
    if d.len() <= CHUNK_MAX {
        assert forall|j: int| 0 <= j < d.len() implies assembled(d.len() as int, parts)[j] == d[j] by {
            assert(chunk_index(j) == 0 && chunk_offset(j) == j);
        }
    } else {
        let rest = d.subrange(c, d.len() as int);
        lemma_split_then_assemble(rest);
        assert forall|j: int| 0 <= j < d.len() implies assembled(d.len() as int, parts)[j] == d[j] by {
            if j < c {
                assert(chunk_index(j) == 0 && chunk_offset(j) == j);
            } else {
                assert(chunk_index(j) == chunk_index(j - c) + 1 && chunk_offset(j) == chunk_offset(j - c));
                assert(assembled(rest.len() as int, split_payload_spec(rest))[j - c] == rest[j - c]);
            }
        }
    }
    assert(assembled(d.len() as int, parts) =~= d);
}

/// Whether there is at most one reply per request and no reply is longer than its
/// request. A shorter reply is a short read: the bytes it does not cover stay zero.
pub open spec fn replies_fit(plan: Seq<(int, int)>, parts: Seq<Seq<u8>>) -> bool {
    parts.len() <= plan.len() && forall|i: int| 0 <= i < parts.len() ==> (#[trigger] parts[i]).len() <= plan[i].1
}

/// Puts the replies of a split read of `len` bytes at `addr` together: each reply fills
/// the place of its request, and what no reply covers stays zero. More replies than
/// requests, or a reply longer than its request, is a protocol violation.
pub fn assemble_replies(addr: u64, len: u64, parts: &Vec<Vec<u8>>) -> (r: Result<Vec<u8>, BridgeError>)
    requires
        addr + len <= addr_end(),
        len <= usize::MAX,
    ensures
        r is Err <==> !replies_fit(chunks(addr as int, len as int), parts@.map_values(|p: Vec<u8>| p@)),
        r is Err ==> r->Err_0 == BridgeError::ProtocolViolation,
        r is Ok ==> r->Ok_0@ == assembled(len as int, parts@.map_values(|p: Vec<u8>| p@)),
{
    let plan = chunk_plan(addr, len);
    let ghost pv = plan@.map_values(|c: Chunk| chunk_pair(c));
    let ghost ps = parts@.map_values(|p: Vec<u8>| p@);
    if parts.len() > plan.len() {
        return Err(BridgeError::ProtocolViolation);
    }
    let mut i: usize = 0;
    while i < parts.len()
        invariant
            pv == plan@.map_values(|c: Chunk| chunk_pair(c)),
            pv == chunks(addr as int, len as int),
            ps == parts@.map_values(|p: Vec<u8>| p@),
            parts@.len() <= plan@.len(),
            i <= parts@.len(),
            forall|j: int| 0 <= j < i ==> (#[trigger] ps[j]).len() <= pv[j].1,
        decreases parts@.len() - i,
    {
        if parts[i].len() as u64 > plan[i].len {
            assert(ps[i as int].len() > pv[i as int].1);
            return Err(BridgeError::ProtocolViolation);
        }
        i = i + 1;
    }
    Ok(assemble(len, parts))
}

} // verus!
