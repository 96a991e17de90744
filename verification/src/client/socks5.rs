//! Local SOCKS5 inbound (RFC 1928): CONNECT and UDP ASSOCIATE, with optional
//! username and password (RFC 1929).
//!
//! The functions decide on the bytes read so far; the caller reads and writes.

use vstd::arithmetic::div_mod::{lemma_div_denominator, lemma_mod_breakdown};
use vstd::prelude::*;
use vstd::utf8::{decode_utf8, encode_utf8, valid_utf8};

use super::outbound::{target_of, ClientError};
use crate::net::Ip;
use crate::proto::mux::OpenError;
use crate::wire;

verus! {

/// How long a UDP relay without traffic from the remote side lives, in
/// milliseconds.
pub const UDP_IDLE: u64 = 300_000;

/// Why a client is turned away.
#[derive(Debug, Clone, Copy, PartialEq, Eq, Structural)]
pub enum SocksError {
    NotSocks5,
    BadVersion,
    BadAddressType(u8),
    BadDomain,
    UnsupportedCommand(u8),
    NoAcceptableMethod,
    BadAuthVersion,
    WrongCredentials,
}

/// What the bytes read so far amount to.
#[derive(Debug)]
pub enum Progress<T> {
    /// At least this many more bytes belong to the message.
    Need(usize),
    Done(T),
    Refuse(SocksError),
}

/// The message is complete after `n` bytes, or bytes are missing.
pub open spec fn wants<T>(have: nat, n: nat) -> Progress<T> {
    Progress::Need((n - have) as usize)
}

// ---------------------------------------------------------------------------
// Greeting
// ---------------------------------------------------------------------------
/// Authentication methods on the wire.
pub const METHOD_NONE: u8 = 0;

pub const METHOD_PASSWORD: u8 = 2;

pub const METHOD_REFUSED: u8 = 0xff;

/// The greeting in `b` is complete.
pub open spec fn greeting_complete(b: Seq<u8>) -> bool {
    b.len() >= 2 && b.len() >= 2 + b[1]
}

/// The methods that a complete greeting offers.
pub open spec fn offered(b: Seq<u8>) -> Seq<u8> {
    b.subrange(2, 2 + b[1])
}

/// The method to use: none without local authentication, the password method
/// with it, when the client offers that.
pub open spec fn method_spec(b: Seq<u8>, need_auth: bool) -> Result<u8, SocksError> {
    if !need_auth {
        Ok(METHOD_NONE)
    } else if offered(b).contains(METHOD_PASSWORD) {
        Ok(METHOD_PASSWORD)
    } else {
        Err(SocksError::NoAcceptableMethod)
    }
}

/// Without local authentication no method is asked for; with it the password
/// method is, and clients that do not offer it are refused, whatever else they
/// offer.
pub proof fn law_method_by_the_offer(methods: Seq<u8>, tail: Seq<u8>)
    requires
        methods.len() <= 255,
    ensures
        ({
            let b = seq![5u8, methods.len() as u8] + methods + tail;
            &&& greeting_complete(b)
            &&& method_spec(b, false) == Ok::<u8, SocksError>(0)
            &&& methods.contains(2) ==> method_spec(b, true) == Ok::<u8, SocksError>(2)
            &&& !methods.contains(2) ==> method_spec(b, true) == Err::<u8, SocksError>(
                SocksError::NoAcceptableMethod,
            )
        }),
{
    let b = seq![5u8, methods.len() as u8] + methods + tail;
    assert(offered(b) =~= methods);
}

/// Read the greeting: the version, the number of methods, the methods. The
/// version is judged as soon as the first two bytes are there.
pub fn greeting(b: &[u8], need_auth: bool) -> (r: Progress<u8>)
    ensures
        if b@.len() < 2 {
            r == wants::<u8>(b@.len(), 2)
        } else if b@[0] != 5 {
            r == Progress::<u8>::Refuse(SocksError::NotSocks5)
        } else if !greeting_complete(b@) {
            r == wants::<u8>(b@.len(), (2 + b@[1]) as nat)
        } else {
            match method_spec(b@, need_auth) {
                Ok(m) => r == Progress::Done(m),
                Err(e) => r == Progress::<u8>::Refuse(e),
            }
        },
{
    if b.len() < 2 {
        return Progress::Need(2 - b.len());
    }
    if b[0] != 5 {
        return Progress::Refuse(SocksError::NotSocks5);
    }
    let n: usize = 2 + b[1] as usize;
    if b.len() < n {
        return Progress::Need(n - b.len());
    }
    if !need_auth {
        return Progress::Done(METHOD_NONE);
    }
    let mut i: usize = 2;
    while i < n
        invariant
            2 <= i <= n <= b.len(),
            n == 2 + b@[1],
            b@[0] == 5,
            need_auth,
            forall|j: int| 2 <= j < i ==> b@[j] != METHOD_PASSWORD,
        decreases n - i,
    {
        if b[i] == METHOD_PASSWORD {
            assert(offered(b@)[i - 2] == METHOD_PASSWORD);
            return Progress::Done(METHOD_PASSWORD);
        }
        i += 1;
    }
    assert forall|k: int| 0 <= k < offered(b@).len() implies offered(b@)[k] != METHOD_PASSWORD by {
        assert(offered(b@)[k] == b@[k + 2]);
    }
    Progress::Refuse(SocksError::NoAcceptableMethod)
}

/// The answer to a greeting: the chosen method, or the refusal of all.
pub fn method_reply(chosen: Option<u8>) -> (r: Vec<u8>)
    ensures
        r@ == seq![
            5u8,
            match chosen {
                Some(m) => m,
                None => METHOD_REFUSED,
            },
        ],
{
    let m = match chosen {
        Some(m) => m,
        None => METHOD_REFUSED,
    };
    let v = vec![5u8, m];
    assert(v@ =~= seq![5u8, m]);
    v
}

// ---------------------------------------------------------------------------
// Username and password
// ---------------------------------------------------------------------------
/// A username and password message.
pub open spec fn credentials_encoding(user: Seq<u8>, password: Seq<u8>) -> Seq<u8> {
    seq![1u8, user.len() as u8] + user + seq![password.len() as u8] + password
}

/// What a username and password message amounts to: version 1, then each with
/// a length byte in front.
pub open spec fn credentials_spec(b: Seq<u8>, user: Seq<u8>, password: Seq<u8>) -> Progress<()> {
    if b.len() < 2 {
        wants(b.len(), 2)
    } else if b[0] != 1 {
        Progress::Refuse(SocksError::BadAuthVersion)
    } else if b.len() < 3 + b[1] {
        wants(b.len(), (3 + b[1]) as nat)
    } else if b.len() < 3 + b[1] + b[2 + b[1]] {
        wants(b.len(), (3 + b[1] + b[2 + b[1]]) as nat)
    } else if b.subrange(2, 2 + b[1]) == user && b.subrange(3 + b[1], 3 + b[1] + b[2 + b[1]])
        == password {
        Progress::Done(())
    } else {
        Progress::Refuse(SocksError::WrongCredentials)
    }
}

/// Read username and password and compare them with the configured ones.
pub fn credentials(b: &[u8], user: &str, password: &str) -> (r: Progress<()>)
    ensures
        r == credentials_spec(b@, encode_utf8(user@), encode_utf8(password@)),
{
    if b.len() < 2 {
        return Progress::Need(2 - b.len());
    }
    if b[0] != 1 {
        return Progress::Refuse(SocksError::BadAuthVersion);
    }
    let u: usize = b[1] as usize;
    if b.len() < 3 + u {
        return Progress::Need(3 + u - b.len());
    }
    let p: usize = b[2 + u] as usize;
    if b.len() < 3 + u + p {
        return Progress::Need(3 + u + p - b.len());
    }
    let same_user = wire::same_bytes(wire::slice(b, 2, 2 + u), user.as_bytes());
    let same_password = wire::same_bytes(wire::slice(b, 3 + u, 3 + u + p), password.as_bytes());
    if same_user && same_password {
        Progress::Done(())
    } else {
        Progress::Refuse(SocksError::WrongCredentials)
    }
}

/// A client that sends the configured credentials is let in, and one that
/// sends others is not.
pub proof fn law_credentials_decide(
    user: Seq<u8>,
    password: Seq<u8>,
    sent_user: Seq<u8>,
    sent_password: Seq<u8>,
)
    requires
        sent_user.len() <= 255,
        sent_password.len() <= 255,
    ensures
        credentials_spec(credentials_encoding(sent_user, sent_password), user, password) == if (
        sent_user == user && sent_password == password) {
            Progress::Done(())
        } else {
            Progress::Refuse(SocksError::WrongCredentials)
        },
{
    let b = credentials_encoding(sent_user, sent_password);
    assert(b[1] == sent_user.len());
    assert(b[2 + b[1]] == sent_password.len());
    assert(b.subrange(2, 2 + b[1]) =~= sent_user);
    assert(b.subrange(3 + b[1], 3 + b[1] + b[2 + b[1]]) =~= sent_password);
}

/// A username and password message is read byte by byte: version 1, the length
/// of the name, the name, the length of the password, the password. While bytes
/// are missing more are asked for; another version is refused at once.
pub proof fn law_credentials_on_the_wire(
    user: Seq<u8>,
    password: Seq<u8>,
    name: Seq<u8>,
    word: Seq<u8>,
    tail: Seq<u8>,
    n: int,
)
    requires
        name.len() <= 255,
        word.len() <= 255,
        2 <= n < 3 + name.len() + word.len(),
    ensures
        ({
            let b = seq![1u8, name.len() as u8] + name + seq![word.len() as u8] + word;
            &&& credentials_spec(b + tail, user, password) == if name == user && word == password {
                Progress::Done(())
            } else {
                Progress::<()>::Refuse(SocksError::WrongCredentials)
            }
            &&& credentials_spec(b.take(n), user, password) == Progress::<()>::Need(
                (if n < 3 + name.len() {
                    3 + name.len() - n
                } else {
                    3 + name.len() + word.len() - n
                }) as usize,
            )
            &&& b[0] != tail[0] && tail.len() >= 2 ==> credentials_spec(tail, user, password)
                == Progress::<()>::Refuse(SocksError::BadAuthVersion)
        }),
{
    let b = seq![1u8, name.len() as u8] + name + seq![word.len() as u8] + word;
    let c = b + tail;
    let k = name.len() as int;
    assert(c[1] == name.len() && c[2 + k] == word.len());
    assert(c.subrange(2, 2 + k) =~= name);
    assert(c.subrange(3 + k, 3 + k + word.len()) =~= word);
    let d = b.take(n);
    assert(d[0] == 1 && d[1] == name.len());
    if n >= 3 + k {
        assert(d[2 + k] == word.len());
    }
}

/// The answer to username and password.
pub fn credentials_reply(accepted: bool) -> (r: Vec<u8>)
    ensures
        r@ == seq![
            1u8,
            if accepted {
                0u8
            } else {
                1u8
            },
        ],
{
    let code: u8 = if accepted {
        0
    } else {
        1
    };
    let v = vec![1u8, code];
    assert(v@ =~= seq![1u8, code]);
    v
}

// ---------------------------------------------------------------------------
// Request
// ---------------------------------------------------------------------------
/// The host of a request.
#[derive(Debug)]
pub enum TargetHost {
    V4([u8; 4]),
    Domain(String),
    V6([u8; 16]),
}

/// A host, as plain values.
pub ghost enum HostView {
    V4(Seq<u8>),
    Domain(Seq<char>),
    V6(Seq<u8>),
}

impl TargetHost {
    pub open spec fn view(self) -> HostView {
        match self {
            TargetHost::V4(b) => HostView::V4(b@),
            TargetHost::Domain(s) => HostView::Domain(s@),
            TargetHost::V6(b) => HostView::V6(b@),
        }
    }
}

/// Where a request leads: the host and the port.
pub open spec fn target_encoding(h: HostView, port: u16) -> Seq<u8> {
    match h {
        HostView::V4(b) => seq![1u8] + b + wire::be(port as nat, 2),
        HostView::Domain(s) => seq![3u8, encode_utf8(s).len() as u8] + encode_utf8(s) + wire::be(
            port as nat,
            2,
        ),
        HostView::V6(b) => seq![4u8] + b + wire::be(port as nat, 2),
    }
}

/// How many bytes a target has, as far as the bytes read so far tell.
pub open spec fn target_len(b: Seq<u8>) -> nat {
    if b.len() < 1 {
        1
    } else if b[0] == 1 {
        7
    } else if b[0] == 4 {
        19
    } else if b.len() < 2 {
        2
    } else {
        (4 + b[1]) as nat
    }
}

/// Whether the type byte is one of the known ones.
pub open spec fn known_type(t: u8) -> bool {
    t == 1 || t == 3 || t == 4
}

/// Why the bytes read so far cannot become a target.
pub open spec fn target_refusal(b: Seq<u8>) -> Option<SocksError> {
    if b.len() > 0 && !known_type(b[0]) {
        Some(SocksError::BadAddressType(b[0]))
    } else if b.len() >= 2 && b[0] == 3 && b.len() >= 2 + b[1] && !valid_utf8(
        b.subrange(2, 2 + b[1]),
    ) {
        Some(SocksError::BadDomain)
    } else {
        None
    }
}

/// What a complete target says.
pub open spec fn target_decoding(b: Seq<u8>) -> (HostView, u16) {
    let n = target_len(b) as int;
    let port = wire::be_value(b.subrange(n - 2, n)) as u16;
    if b[0] == 1 {
        (HostView::V4(b.subrange(1, 5)), port)
    } else if b[0] == 4 {
        (HostView::V6(b.subrange(1, 17)), port)
    } else {
        (HostView::Domain(decode_utf8(b.subrange(2, n - 2))), port)
    }
}

/// A target reads back as itself.
pub proof fn law_target_roundtrip(h: HostView, port: u16)
    requires
        match h {
            HostView::V4(b) => b.len() == 4,
            HostView::Domain(s) => encode_utf8(s).len() <= 255,
            HostView::V6(b) => b.len() == 16,
        },
    ensures
        target_encoding(h, port).len() == target_len(target_encoding(h, port)),
        target_refusal(target_encoding(h, port)) is None,
        target_decoding(target_encoding(h, port)) == (h, port),
{
    let b = target_encoding(h, port);
    wire::lemma_be_len(port as nat, 2);
    wire::lemma_pow256();
    wire::lemma_be_roundtrip(port as nat, 2);
    let n = target_len(b) as int;
    assert(b.subrange(n - 2, n) =~= wire::be(port as nat, 2));
    match h {
        HostView::V4(x) => {
            assert(b.subrange(1, 5) =~= x);
        },
        HostView::Domain(s) => {
            assert(b.subrange(2, n - 2) =~= encode_utf8(s));
            wire::lemma_utf8_roundtrip(s);
        },
        HostView::V6(x) => {
            assert(b.subrange(1, 17) =~= x);
        },
    }
}

/// A target on the wire: type 1 and four bytes, type 3, a length and a name, or
/// type 4 and sixteen bytes; then the port, its high byte first. Other types are
/// refused.
pub proof fn law_target_on_the_wire(
    v4: Seq<u8>,
    v6: Seq<u8>,
    name: Seq<char>,
    hi: u8,
    lo: u8,
    tail: Seq<u8>,
)
    requires
        v4.len() == 4,
        v6.len() == 16,
        encode_utf8(name).len() <= 255,
    ensures
        ({
            let port = (hi * 256 + lo) as u16;
            let a = seq![1u8] + v4 + seq![hi, lo] + tail;
            let b = seq![4u8] + v6 + seq![hi, lo] + tail;
            let c = seq![3u8, encode_utf8(name).len() as u8] + encode_utf8(name) + seq![hi, lo]
                + tail;
            &&& target_refusal(a) is None && target_len(a) == 7 && target_decoding(a) == (
                HostView::V4(v4),
                port,
            )
            &&& target_refusal(b) is None && target_len(b) == 19 && target_decoding(b) == (
                HostView::V6(v6),
                port,
            )
            &&& target_refusal(c) is None && target_len(c) == 4 + encode_utf8(name).len()
                && target_decoding(c) == (HostView::Domain(name), port)
            &&& tail.len() > 0 && tail[0] != 1 && tail[0] != 3 && tail[0] != 4 ==> target_refusal(
                tail,
            ) == Some(SocksError::BadAddressType(tail[0]))
        }),
{
    wire::law_short_numbers(hi, lo, 0, 0);
    wire::lemma_utf8_roundtrip(name);
    let a = seq![1u8] + v4 + seq![hi, lo] + tail;
    assert(a.subrange(1, 5) =~= v4);
    assert(a.subrange(5, 7) =~= seq![hi, lo]);
    let b = seq![4u8] + v6 + seq![hi, lo] + tail;
    assert(b.subrange(1, 17) =~= v6);
    assert(b.subrange(17, 19) =~= seq![hi, lo]);
    let e = encode_utf8(name);
    let c = seq![3u8, e.len() as u8] + e + seq![hi, lo] + tail;
    let n = e.len() as int;
    assert(c[0] == 3 && c[1] == n);
    assert(c.subrange(2, 2 + n) =~= e);
    assert(c.subrange(2 + n, 4 + n) =~= seq![hi, lo]);
}

/// Read the target of a request. The type and the domain are judged as soon as
/// they are there.
pub fn read_target(b: &[u8]) -> (r: Progress<(TargetHost, u16)>)
    ensures
        match target_refusal(b@) {
            Some(e) => r == Progress::<(TargetHost, u16)>::Refuse(e),
            None => if b@.len() < target_len(b@) {
                r == wants::<(TargetHost, u16)>(b@.len(), target_len(b@))
            } else {
                r matches Progress::Done((host, port)) && (host@, port) == target_decoding(b@)
            },
        },
{
    if b.len() == 0 {
        return Progress::Need(1);
    }
    let t = b[0];
    if t == 1 {
        if b.len() < 7 {
            return Progress::Need(7 - b.len());
        }
        let port = read_port(b, 5);
        let h: [u8; 4] = [b[1], b[2], b[3], b[4]];
        assert(h@ =~= b@.subrange(1, 5));
        Progress::Done((TargetHost::V4(h), port))
    } else if t == 4 {
        if b.len() < 19 {
            return Progress::Need(19 - b.len());
        }
        let port = read_port(b, 17);
        let h = crate::proto::crypto::take16(wire::slice(b, 1, 17));
        Progress::Done((TargetHost::V6(h), port))
    } else if t == 3 {
        if b.len() < 2 {
            return Progress::Need(2 - b.len());
        }
        let n: usize = b[1] as usize;
        if b.len() < n + 2 {
            return Progress::Need(n + 4 - b.len());
        }
        match wire::utf8_text(wire::slice(b, 2, 2 + n)) {
            Some(s) => {
                if b.len() < n + 4 {
                    return Progress::Need(n + 4 - b.len());
                }
                Progress::Done((TargetHost::Domain(s), read_port(b, 2 + n)))
            },
            None => Progress::Refuse(SocksError::BadDomain),
        }
    } else {
        Progress::Refuse(SocksError::BadAddressType(t))
    }
}

/// The port at `at`.
fn read_port(b: &[u8], at: usize) -> (r: u16)
    requires
        at + 2 <= b.len(),
    ensures
        r == wire::be_value(b@.subrange(at as int, at + 2)) as u16,
{
    let s = wire::slice(b, at, at + 2);
    proof {
        wire::lemma_be_value_bound(s@);
        wire::lemma_pow256();
    }
    wire::read_be(s) as u16
}

/// What a client asks for.
#[derive(Debug)]
pub enum SocksRequest {
    Connect(TargetHost, u16),
    UdpAssociate,
}

/// A target is judged by the command in front of it.
pub open spec fn is_request(cmd: u8, host: HostView, port: u16, r: Progress<SocksRequest>) -> bool {
    if cmd == 1 {
        r matches Progress::Done(SocksRequest::Connect(h, p)) && h@ == host && p == port
    } else if cmd == 3 {
        r == Progress::Done(SocksRequest::UdpAssociate)
    } else {
        r == Progress::<SocksRequest>::Refuse(SocksError::UnsupportedCommand(cmd))
    }
}

/// Command 1 asks for a connection to exactly the host and port it names, 3 for
/// a UDP relay; every other command is refused by its number.
pub proof fn law_commands(cmd: u8, host: HostView, port: u16, r: Progress<SocksRequest>)
    requires
        is_request(cmd, host, port, r),
    ensures
        cmd == 1 <==> r matches Progress::Done(SocksRequest::Connect(_, _)),
        r matches Progress::Done(SocksRequest::Connect(h, p)) ==> h@ == host && p == port,
        cmd == 3 <==> r == Progress::Done(SocksRequest::UdpAssociate),
        cmd != 1 && cmd != 3 <==> r is Refuse,
        r matches Progress::Refuse(e) ==> e == SocksError::UnsupportedCommand(cmd),
{
}

/// Read a request: version, command, a reserved byte, the target. The target
/// is read whatever the command is.
pub fn read_request(b: &[u8]) -> (r: Progress<SocksRequest>)
    ensures
        if b@.len() < 3 {
            r == wants::<SocksRequest>(b@.len(), 3)
        } else if b@[0] != 5 {
            r == Progress::<SocksRequest>::Refuse(SocksError::BadVersion)
        } else {
            let t = b@.skip(3);
            match target_refusal(t) {
                Some(e) => r == Progress::<SocksRequest>::Refuse(e),
                None => if t.len() < target_len(t) {
                    r == wants::<SocksRequest>(t.len(), target_len(t))
                } else {
                    is_request(b@[1], target_decoding(t).0, target_decoding(t).1, r)
                },
            }
        },
{
    if b.len() < 3 {
        return Progress::Need(3 - b.len());
    }
    if b[0] != 5 {
        return Progress::Refuse(SocksError::BadVersion);
    }
    let cmd = b[1];
    let rest = wire::slice(b, 3, b.len());
    assert(rest@ =~= b@.skip(3));
    match read_target(rest) {
        Progress::Need(n) => Progress::Need(n),
        Progress::Refuse(e) => Progress::Refuse(e),
        Progress::Done((host, port)) => if cmd == 1 {
            Progress::Done(SocksRequest::Connect(host, port))
        } else if cmd == 3 {
            Progress::Done(SocksRequest::UdpAssociate)
        } else {
            Progress::Refuse(SocksError::UnsupportedCommand(cmd))
        },
    }
}

// ---------------------------------------------------------------------------
// Replies
// ---------------------------------------------------------------------------
/// Reply codes.
pub const REPLY_OK: u8 = 0;

pub const REPLY_FAILURE: u8 = 1;

pub const REPLY_DENIED: u8 = 2;

pub const REPLY_REFUSED: u8 = 5;

pub const REPLY_BAD_COMMAND: u8 = 7;

/// A reply without an address.
pub fn reply(code: u8) -> (r: Vec<u8>)
    ensures
        r@ == seq![5u8, code, 0u8, 1u8, 0u8, 0u8, 0u8, 0u8, 0u8, 0u8],
{
    let v = vec![5u8, code, 0u8, 1u8, 0u8, 0u8, 0u8, 0u8, 0u8, 0u8];
    assert(v@ =~= seq![5u8, code, 0u8, 1u8, 0u8, 0u8, 0u8, 0u8, 0u8, 0u8]);
    v
}

/// The code that reports why a session could not be opened.
pub open spec fn code_of(e: ClientError) -> u8 {
    match target_of(e) {
        Some(t) => match t.0 {
            OpenError::Denied => REPLY_DENIED,
            OpenError::DialFailed => REPLY_REFUSED,
            _ => REPLY_FAILURE,
        },
        None => REPLY_FAILURE,
    }
}

/// The local client learns why its request failed: 2 for a target that the
/// server does not let through, 5 for one that does not answer, 1 for anything
/// else.
pub proof fn law_failures_have_their_codes(e: ClientError)
    ensures
        code_of(e) == 2 <==> (e matches ClientError::Target(t) && t.0 == OpenError::Denied),
        code_of(e) == 5 <==> (e matches ClientError::Target(t) && t.0 == OpenError::DialFailed),
        code_of(e) == 1 || code_of(e) == 2 || code_of(e) == 5,
{
}

pub fn failure_code(e: &ClientError) -> (r: u8)
    ensures
        r == code_of(*e),
{
    match e {
        ClientError::Target(t) => match t.0 {
            OpenError::Denied => REPLY_DENIED,
            OpenError::DialFailed => REPLY_REFUSED,
            _ => REPLY_FAILURE,
        },
        ClientError::Transport(_) => REPLY_FAILURE,
    }
}

/// The reply that names a bound address: the address of the control connection
/// and the port of the relay.
pub open spec fn bound_reply_spec(ip: Ip, port: u16) -> Seq<u8> {
    match ip {
        Ip::V4(a) => seq![5u8, 0u8, 0u8, 1u8] + wire::be(a as nat, 4) + wire::be(port as nat, 2),
        Ip::V6(a) => seq![5u8, 0u8, 0u8, 4u8] + wire::be(a as nat, 16) + wire::be(port as nat, 2),
    }
}

proof fn lemma_be_split(a: u128)
    ensures
        wire::be(a as nat, 16) == wire::be((a / 0x1_0000_0000_0000_0000) as nat, 8) + wire::be(
            (a % 0x1_0000_0000_0000_0000) as nat,
            8,
        ),
{
    lemma_be_append(a as nat, 8, 8);
    wire::lemma_pow256();
}

proof fn lemma_pow256_positive(k: nat)
    ensures
        wire::pow256(k) > 0,
    decreases k,
{
    if k > 0 {
        lemma_pow256_positive((k - 1) as nat);
    }
}

proof fn lemma_be_append(n: nat, j: nat, k: nat)
    ensures
        wire::be(n, j + k) == wire::be(n / wire::pow256(k), j) + wire::be(n % wire::pow256(k), k),
    decreases k,
{
    if k == 0 {
        assert(wire::pow256(0) == 1);
        assert(n / wire::pow256(k) == n);
        assert(wire::be(n, j + k) =~= wire::be(n, j) + wire::be(n % wire::pow256(k), k));
    } else {
        let p = wire::pow256((k - 1) as nat);
        lemma_pow256_positive((k - 1) as nat);
        lemma_be_append(n / 256, j, (k - 1) as nat);
        lemma_div_denominator(n as int, 256, p as int);
        lemma_mod_breakdown(n as int, 256, p as int);
        let low = n % wire::pow256(k);
        assert(low / 256 == n / 256 % p && low % 256 == n % 256);
        assert(wire::be(n, j + k) =~= wire::be(n / wire::pow256(k), j) + wire::be(low, k));
    }
}

proof fn lemma_two_bytes(port: u16)
    ensures
        wire::be(port as nat, 2) == seq![(port / 256) as u8, (port % 256) as u8],
{
    reveal_with_fuel(wire::be, 3);
    assert(wire::be(port as nat, 2) =~= seq![(port / 256) as u8, (port % 256) as u8]);
}

proof fn lemma_four_bytes(a: u8, b: u8, c: u8, d: u8)
    ensures
        wire::be((a * 0x100_0000 + b * 0x1_0000 + c * 0x100 + d) as nat, 4) == seq![a, b, c, d],
{
    let n = (a * 0x100_0000 + b * 0x1_0000 + c * 0x100 + d) as nat;
    let m = (a * 0x1_0000 + b * 0x100 + c) as nat;
    let l = (a * 0x100 + b) as nat;
    assert(n / 256 == m && n % 256 == d);
    assert(m / 256 == l && m % 256 == c);
    assert(l / 256 == a && l % 256 == b);
    assert(wire::be(0, 0) =~= Seq::<u8>::empty());
    assert(wire::be(a as nat, 1) =~= seq![a]) by {
        reveal_with_fuel(wire::be, 2);
    }
    assert(wire::be(l, 2) =~= seq![a, b]);
    assert(wire::be(m, 3) =~= seq![a, b, c]);
    assert(wire::be(n, 4) =~= seq![a, b, c, d]);
}

/// The reply begins with version 5, success, a zero and the type of the
/// address; the address and the port follow with their high bytes first.
pub proof fn law_bound_reply_on_the_wire(a: u8, b: u8, c: u8, d: u8, v6: u128, port: u16)
    ensures
        bound_reply_spec(
            Ip::V4((a * 0x100_0000 + b * 0x1_0000 + c * 0x100 + d) as u32),
            port,
        ) == seq![5u8, 0, 0, 1, a, b, c, d, (port / 256) as u8, (port % 256) as u8],
        bound_reply_spec(Ip::V6(v6), port).len() == 22,
        bound_reply_spec(Ip::V6(v6), port).take(4) == seq![5u8, 0, 0, 4],
        wire::be_value(bound_reply_spec(Ip::V6(v6), port).subrange(4, 20)) == v6,
        bound_reply_spec(Ip::V6(v6), port).subrange(20, 22) == seq![
            (port / 256) as u8,
            (port % 256) as u8,
        ],
{
    let n = (a * 0x100_0000 + b * 0x1_0000 + c * 0x100 + d) as nat;
    lemma_four_bytes(a, b, c, d);
    lemma_two_bytes(port);
    assert(bound_reply_spec(Ip::V4(n as u32), port) =~= seq![
        5u8,
        0,
        0,
        1,
        a,
        b,
        c,
        d,
        (port / 256) as u8,
        (port % 256) as u8,
    ]);
    wire::lemma_pow256();
    wire::lemma_be_roundtrip(v6 as nat, 16);
    let r = bound_reply_spec(Ip::V6(v6), port);
    assert(r.take(4) =~= seq![5u8, 0, 0, 4]);
    assert(r.subrange(4, 20) =~= wire::be(v6 as nat, 16));
    assert(r.subrange(20, 22) =~= wire::be(port as nat, 2));
}

/// The reply that names a bound address.
pub fn bound_reply(ip: Ip, port: u16) -> (r: Vec<u8>)
    ensures
        r@ == bound_reply_spec(ip, port),
{
    let mut v: Vec<u8> = Vec::new();
    v.push(5);
    v.push(0);
    v.push(0);
    match ip {
        Ip::V4(a) => {
            v.push(1);
            wire::push_be(&mut v, a as u64, 4);
        },
        Ip::V6(a) => {
            v.push(4);
            wire::push_be(&mut v, (a / 0x1_0000_0000_0000_0000) as u64, 8);
            wire::push_be(&mut v, (a % 0x1_0000_0000_0000_0000) as u64, 8);
            proof {
                lemma_be_split(a);
            }
        },
    }
    wire::push_be(&mut v, port as u64, 2);
    assert(v@ =~= bound_reply_spec(ip, port));
    v
}

// ---------------------------------------------------------------------------
// UDP relay
// ---------------------------------------------------------------------------
/// How long the relay may still wait for the remote side, when nothing came
/// from it for `quiet` milliseconds.
pub fn idle_left(quiet: u64) -> (r: u64)
    ensures
        r == if quiet < UDP_IDLE {
            UDP_IDLE - quiet
        } else {
            0
        },
{
    if quiet < UDP_IDLE {
        UDP_IDLE - quiet
    } else {
        0
    }
}

/// The endpoint of the local client: the first one that a datagram came from.
pub fn client_endpoint(known: Option<(Ip, u16)>, from: (Ip, u16)) -> (r: (Ip, u16))
    ensures
        r == match known {
            Some(k) => k,
            None => from,
        },
{
    match known {
        Some(k) => k,
        None => from,
    }
}

/// The codes that this side of the protocol sends.
pub proof fn law_codes_of_replies()
    ensures
        METHOD_NONE == 0 && METHOD_PASSWORD == 2 && METHOD_REFUSED == 255,
        REPLY_OK == 0 && REPLY_FAILURE == 1 && REPLY_DENIED == 2 && REPLY_REFUSED == 5
            && REPLY_BAD_COMMAND == 7,
        UDP_IDLE == 5 * 60 * 1000,
{
}

/// How long a target is shows in its first byte for addresses and in its second
/// for names; before that, the byte that is missing is asked for.
pub proof fn law_length_of_a_target(b: Seq<u8>)
    ensures
        b.len() == 0 ==> target_len(b) == 1,
        b.len() == 1 && b[0] == 3 ==> target_len(b) == 2,
        b.len() >= 1 && b[0] == 1 ==> target_len(b) == 1 + 4 + 2,
        b.len() >= 1 && b[0] == 4 ==> target_len(b) == 1 + 16 + 2,
        b.len() >= 2 && b[0] == 3 ==> target_len(b) == 2 + b[1] + 2,
{
}

} // verus!
