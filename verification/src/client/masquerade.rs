//! The URL to dial. A masquerade name replaces the host of the URL, where it
//! drives TLS SNI and the HTTP authority; the connection still goes to the
//! address that the given URL names.

use vstd::prelude::*;
use vstd::utf8::encode_utf8;

use crate::config::opt_view;

verus! {

/// The port of a URL that names none.
pub const DEFAULT_PORT: u16 = 443;

/// Why a URL cannot be dialed.
#[derive(Debug, Clone, Copy, PartialEq, Eq, Structural)]
pub enum UrlError {
    BadUrl,
    NoHost,
    /// The masquerade name cannot replace the host.
    BadSni,
}

/// The URL with another host surely fits the 32-bit positions that `url::Url`
/// keeps: percent-encoding makes three bytes of one, and a host name grows by
/// less than the factor here when it is converted to ASCII. `set_host` panics
/// on a position that does not fit.
pub open spec fn positions_fit(url: Seq<char>, host: Seq<char>) -> bool {
    3 * encode_utf8(url).len() + 64 * encode_utf8(host).len() + 64 <= u32::MAX
}

/// Where the host is to be replaced, the positions of the result fit.
pub open spec fn maskable(url: Seq<char>, sni: Option<Seq<char>>) -> bool {
    match sni {
        Some(s) => positions_fit(url, s),
        None => true,
    }
}

/// Whether a plan can be made for the URL under this masquerade, if any.
pub fn can_mask(url: &str, sni: &Option<String>) -> (r: bool)
    ensures
        r == maskable(url@, opt_view(*sni)),
{
    match sni {
        Some(s) => {
            let a: u128 = url.as_bytes().len() as u128;
            let b: u128 = s.as_str().as_bytes().len() as u128;
            3 * a + 64 * b + 64 <= 0xffff_ffff
        },
        None => true,
    }
}

/// Host and port of a URL, as `url::Url` reads it; nothing for what it does
/// not take for a URL.
pub uninterp spec fn url_authority(url: Seq<char>) -> Option<(Option<Seq<char>>, Option<u16>)>;

/// `url::Url::parse`, then `host_str` and `port`: what they make of the text
/// depends on the text alone. The port is absent where it is the scheme's own.
#[verifier::external_body]
fn parse_authority(url: &str) -> (r: Option<(Option<String>, Option<u16>)>)
    ensures
        match r {
            Some((h, p)) => url_authority(url@) == Some((opt_view(h), p)),
            None => url_authority(url@) is None,
        },
{
    let u = url::Url::parse(url).ok()?;
    Some((u.host_str().map(|h| h.to_owned()), u.port()))
}

/// A URL with another host, as `url::Url` writes it: nothing for what is not a
/// URL, and nothing inside for a host that cannot stand there.
pub uninterp spec fn url_with_host(url: Seq<char>, host: Seq<char>) -> Option<Option<Seq<char>>>;

/// `url::Url::set_host`: what it makes of the two texts depends on them alone.
#[verifier::external_body]
fn replace_host(url: &str, host: &str) -> (r: Option<Option<String>>)
    requires
        positions_fit(url@, host@),
    ensures
        match r {
            Some(u) => url_with_host(url@, host@) == Some(opt_view(u)),
            None => url_with_host(url@, host@) is None,
        },
{
    let mut u = url::Url::parse(url).ok()?;
    match u.set_host(Some(host)) {
        Ok(()) => Some(Some(u.to_string())),
        Err(_) => Some(None),
    }
}

/// A URL with another host and without a port, as `url::Url` writes it.
pub uninterp spec fn url_with_host_alone(url: Seq<char>, host: Seq<char>) -> Option<
    Option<Seq<char>>,
>;

/// `url::Url::set_host` followed by `set_port(None)`, which leaves a URL that
/// can have no port as it is: what they make of the two texts depends on them
/// alone.
#[verifier::external_body]
fn replace_host_and_port(url: &str, host: &str) -> (r: Option<Option<String>>)
    requires
        positions_fit(url@, host@),
    ensures
        match r {
            Some(u) => url_with_host_alone(url@, host@) == Some(opt_view(u)),
            None => url_with_host_alone(url@, host@) is None,
        },
{
    let mut u = url::Url::parse(url).ok()?;
    match u.set_host(Some(host)) {
        Ok(()) => {
            let _ = u.set_port(None);
            Some(Some(u.to_string()))
        },
        Err(_) => Some(None),
    }
}

/// Host and port to resolve for a URL with this authority.
pub open spec fn real_address(a: Option<(Option<Seq<char>>, Option<u16>)>) -> Result<
    (Seq<char>, u16),
    UrlError,
> {
    match a {
        None => Err(UrlError::BadUrl),
        Some((None, _)) => Err(UrlError::NoHost),
        Some((Some(h), Some(p))) => Ok((h, p)),
        Some((Some(h), None)) => Ok((h, DEFAULT_PORT)),
    }
}

/// An outcome, as text.
pub open spec fn address_view(r: Result<(String, u16), UrlError>) -> Result<
    (Seq<char>, u16),
    UrlError,
> {
    match r {
        Ok((h, p)) => Ok((h@, p)),
        Err(e) => Err(e),
    }
}

/// Host and port to resolve, from the parts of a URL.
pub fn address_of(a: Option<(Option<String>, Option<u16>)>) -> (r: Result<(String, u16), UrlError>)
    ensures
        address_view(r) == real_address(
            match a {
                Some((h, p)) => Some((opt_view(h), p)),
                None => None,
            },
        ),
{
    match a {
        None => Err(UrlError::BadUrl),
        Some((None, _)) => Err(UrlError::NoHost),
        Some((Some(h), p)) => match p {
            Some(n) => Ok((h, n)),
            None => Ok((h, DEFAULT_PORT)),
        },
    }
}

/// Host and port to resolve for the server of this URL.
pub fn url_host_and_port(url: &str) -> (r: Result<(String, u16), UrlError>)
    ensures
        address_view(r) == real_address(url_authority(url@)),
{
    address_of(parse_authority(url))
}

/// What to dial.
#[derive(Debug)]
pub struct DialPlan {
    /// The URL to connect to.
    pub url: String,
    /// Under a masquerade: the host and port that the connection really goes
    /// to.
    pub server: Option<(String, u16)>,
}

/// A plan, as text.
pub ghost struct PlanView {
    pub url: Seq<char>,
    pub server: Option<(Seq<char>, u16)>,
}

impl DialPlan {
    pub open spec fn view(self) -> PlanView {
        PlanView {
            url: self.url@,
            server: match self.server {
                Some((h, p)) => Some((h@, p)),
                None => None,
            },
        }
    }
}

/// The URL that a replacement gave.
pub open spec fn rewritten(u: Option<Option<Seq<char>>>) -> Result<Seq<char>, UrlError> {
    match u {
        None => Err(UrlError::BadUrl),
        Some(None) => Err(UrlError::BadSni),
        Some(Some(t)) => Ok(t),
    }
}

/// The URL that a replacement gave.
pub fn rewritten_url(u: Option<Option<String>>) -> (r: Result<String, UrlError>)
    ensures
        rewritten(
            match u {
                Some(t) => Some(opt_view(t)),
                None => None,
            },
        ) == match r {
            Ok(t) => Ok::<Seq<char>, UrlError>(t@),
            Err(e) => Err(e),
        },
{
    match u {
        None => Err(UrlError::BadUrl),
        Some(None) => Err(UrlError::BadSni),
        Some(Some(t)) => Ok(t),
    }
}

/// The plan under a masquerade: `real_first` says which of two faults is
/// reported when there are both.
pub open spec fn masked_plan(
    server: Result<(Seq<char>, u16), UrlError>,
    url: Result<Seq<char>, UrlError>,
    real_first: bool,
) -> Result<PlanView, UrlError> {
    match (server, url) {
        (Ok((h, p)), Ok(t)) => Ok(PlanView { url: t, server: Some((h, p)) }),
        (Err(e), Ok(_)) => Err(e),
        (Ok(_), Err(e)) => Err(e),
        (Err(e), Err(f)) => Err(
            if real_first {
                e
            } else {
                f
            },
        ),
    }
}

/// A plan or a fault, as text.
pub open spec fn plan_view(r: Result<DialPlan, UrlError>) -> Result<PlanView, UrlError> {
    match r {
        Ok(p) => Ok(p@),
        Err(e) => Err(e),
    }
}

/// The plan for the pooled connections: the masquerade name stands with the
/// default port.
pub fn pool_plan(url: &str, sni: &Option<String>) -> (r: Result<DialPlan, UrlError>)
    requires
        maskable(url@, opt_view(*sni)),
    ensures
        plan_view(r) == match *sni {
            Some(s) => masked_plan(
                real_address(url_authority(url@)),
                rewritten(url_with_host_alone(url@, s@)),
                true,
            ),
            None => Ok::<PlanView, UrlError>(PlanView { url: url@, server: None }),
        },
{
    match sni {
        Some(s) => match url_host_and_port(url) {
            Err(e) => Err(e),
            Ok((h, p)) => match rewritten_url(replace_host_and_port(url, s.as_str())) {
                Err(e) => Err(e),
                Ok(t) => Ok(DialPlan { url: t, server: Some((h, p)) }),
            },
        },
        None => Ok(DialPlan { url: url.to_owned(), server: None }),
    }
}

/// The plan for the fallback: the masquerade name stands with the port of the
/// URL.
pub fn fallback_plan(url: &str, sni: &Option<String>) -> (r: Result<DialPlan, UrlError>)
    requires
        maskable(url@, opt_view(*sni)),
    ensures
        plan_view(r) == match *sni {
            Some(s) => masked_plan(
                real_address(url_authority(url@)),
                rewritten(url_with_host(url@, s@)),
                false,
            ),
            None => Ok::<PlanView, UrlError>(PlanView { url: url@, server: None }),
        },
{
    match sni {
        Some(s) => match rewritten_url(replace_host(url, s.as_str())) {
            Err(e) => Err(e),
            Ok(t) => match url_host_and_port(url) {
                Err(e) => Err(e),
                Ok((h, p)) => Ok(DialPlan { url: t, server: Some((h, p)) }),
            },
        },
        None => Ok(DialPlan { url: url.to_owned(), server: None }),
    }
}

/// The server that is dialed is the host of the URL, at its port, or at 443
/// where it has none; a URL without a host is refused.
pub proof fn law_address_of_the_server(h: Seq<char>, p: u16, port: Option<u16>)
    ensures
        real_address(Some((Some(h), Some(p)))) == Ok::<(Seq<char>, u16), UrlError>((h, p)),
        real_address(Some((Some(h), None))) == Ok::<(Seq<char>, u16), UrlError>((h, 443)),
        real_address(Some((None, port))) == Err::<(Seq<char>, u16), UrlError>(UrlError::NoHost),
        real_address(None) == Err::<(Seq<char>, u16), UrlError>(UrlError::BadUrl),
{
}

/// A masquerade puts the other name into the URL and dials the real server; it
/// stands where both can be had, and reports what is wrong where not.
pub proof fn law_masquerade_keeps_the_server(
    server: Result<(Seq<char>, u16), UrlError>,
    u: Option<Option<Seq<char>>>,
    real_first: bool,
)
    ensures
        ({
            let r = masked_plan(server, rewritten(u), real_first);
            &&& r is Ok <==> server is Ok && u is Some && u->0 is Some
            &&& r matches Ok(p) ==> p.url == u->0->0 && p.server == Some(server->Ok_0)
            &&& server is Ok && u is None ==> r == Err::<PlanView, UrlError>(UrlError::BadUrl)
            &&& server is Ok && u == Some(None::<Seq<char>>) ==> r == Err::<PlanView, UrlError>(
                UrlError::BadSni,
            )
            &&& server is Err && (real_first || rewritten(u) is Ok) ==> r == Err::<
                PlanView,
                UrlError,
            >(server->Err_0)
            &&& server is Err && u is None && !real_first ==> r == Err::<PlanView, UrlError>(
                UrlError::BadUrl,
            )
        }),
{
}

} // verus!
