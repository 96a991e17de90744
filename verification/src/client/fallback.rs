//! Fallback outbound: one duplex channel whose two directions carry the frame
//! protocol, over a long-lived POST or a WebSocket.

use vstd::prelude::*;

use super::masquerade::{
    fallback_plan, maskable, masked_plan, real_address, rewritten, url_authority, url_with_host,
    DialPlan, PlanView, UrlError,
};
use super::outbound::is_websocket;
use crate::config::{is_ws_url, ClientConfig};
use crate::proto::crypto::{derive_static_key, static_key_spec};
use crate::proto::mux::MuxClient;
use crate::proto::USER_AGENT;
use crate::text;

verus! {

/// How long a connection attempt may take, in seconds.
pub const CONNECT_TIMEOUT_SECS: u64 = 30;

/// How often a WebSocket is pinged, in seconds, so that intermediaries keep it
/// open.
pub const WS_PING_SECS: u64 = 30;

/// Frames that wait for the channel, at most.
pub const CHANNEL_CAP: usize = 256;

/// What the fallback connects to, and as whom.
pub struct HttpOutbound {
    pub plan: DialPlan,
    /// A WebSocket in place of a POST.
    pub ws: bool,
    pub static_key: [u8; 32],
    pub uid: String,
}

/// The plan for a URL, with or without a masquerade.
pub open spec fn fallback_plan_spec(url: Seq<char>, sni: Option<Seq<char>>) -> Result<
    PlanView,
    UrlError,
> {
    match sni {
        Some(s) => masked_plan(
            real_address(url_authority(url)),
            rewritten(url_with_host(url, s)),
            false,
        ),
        None => Ok(PlanView { url, server: None }),
    }
}

/// What to do after an attempt to open a session on the channel.
#[derive(Debug, Clone, Copy, PartialEq, Eq, Structural)]
pub enum Retry {
    Done,
    /// The channel lives: report the failure.
    Fail,
    /// The channel died: connect again and try once more.
    Reconnect,
}

impl HttpOutbound {
    pub fn new(cfg: &ClientConfig, url: &str) -> (r: Result<HttpOutbound, UrlError>)
        requires
            maskable(url@, crate::config::opt_view(cfg.sni)),
        ensures
            match r {
                Ok(h) => {
                    &&& fallback_plan_spec(url@, crate::config::opt_view(cfg.sni)) == Ok::<
                        PlanView,
                        UrlError,
                    >(h.plan@)
                    &&& h.ws == is_ws_url(url@)
                    &&& h.static_key@ == static_key_spec(cfg.password@, cfg.uid@)
                    &&& h.uid@ == cfg.uid@
                },
                Err(e) => fallback_plan_spec(url@, crate::config::opt_view(cfg.sni)) == Err::<
                    PlanView,
                    UrlError,
                >(e),
            },
    {
        match fallback_plan(url, &cfg.sni) {
            Err(e) => Err(e),
            Ok(plan) => Ok(
                HttpOutbound {
                    plan,
                    ws: is_websocket(url),
                    static_key: derive_static_key(cfg.password.as_str(), cfg.uid.as_str()),
                    uid: text::own(cfg.uid.as_str()),
                },
            ),
        }
    }

    pub fn describe(&self) -> (r: &'static str)
        ensures
            r@ == if self.ws {
                "WebSocket fallback"@
            } else {
                "HTTPS POST fallback"@
            },
    {
        if self.ws {
            "WebSocket fallback"
        } else {
            "HTTPS POST fallback"
        }
    }
}

/// Whether a channel has to be connected before it can be used.
pub fn needs_connect(current: Option<&MuxClient>) -> (r: bool)
    ensures
        r == !(current matches Some(m) && !m.closed),
{
    match current {
        Some(m) => m.is_closed(),
        None => true,
    }
}

/// What to do after the first attempt to open a session: a failure on a dead
/// channel is worth a second attempt on a fresh one.
pub fn after_attempt(failed: bool, closed: bool) -> (r: Retry)
    ensures
        r == if !failed {
            Retry::Done
        } else if closed {
            Retry::Reconnect
        } else {
            Retry::Fail
        },
{
    if !failed {
        Retry::Done
    } else if closed {
        Retry::Reconnect
    } else {
        Retry::Fail
    }
}

/// The type says that the body is a web page.
pub open spec fn is_html(content_type: Seq<char>) -> bool {
    content_type.len() >= 9 && text::same_ignoring_case(content_type.take(9), "text/html"@)
}

/// Whether the answer to the POST opens the channel. An error, or the web page
/// that the server disguises itself with, means that it did not accept the
/// credentials.
pub fn accepts_channel(status: u16, content_type: &str) -> (r: bool)
    ensures
        r == (200 <= status <= 299 && !is_html(content_type@)),
{
    let c = text::chars_of(content_type);
    let html = if c.len() >= 9 {
        let head = text::part(c.as_slice(), 0, 9);
        assert(head@ =~= content_type@.take(9));
        text::equal_ignoring_case(head, "text/html")
    } else {
        false
    };
    200 <= status && status <= 299 && !html
}

/// The value of the Authorization header for a token.
pub fn authorization(bearer: &str) -> (r: String)
    ensures
        r@ == "Bearer "@ + bearer@,
{
    let mut out = text::own("Bearer ");
    out.append(bearer);
    out
}

/// The headers of the POST that opens the channel.
pub fn post_headers(bearer: &str) -> (r: Vec<(String, String)>)
    ensures
        r@.len() == 5,
        r@[0].0@ == "authorization"@ && r@[0].1@ == "Bearer "@ + bearer@,
        r@[1].0@ == "content-type"@ && r@[1].1@ == "application/octet-stream"@,
        r@[2].0@ == "cache-control"@ && r@[2].1@ == "no-store"@,
        r@[3].0@ == "user-agent"@ && r@[3].1@ == USER_AGENT@,
        r@[4].0@ == "accept"@ && r@[4].1@ == "*/*"@,
{
    let mut v: Vec<(String, String)> = Vec::new();
    v.push((text::own("authorization"), authorization(bearer)));
    v.push((text::own("content-type"), text::own("application/octet-stream")));
    v.push((text::own("cache-control"), text::own("no-store")));
    v.push((text::own("user-agent"), text::own(USER_AGENT)));
    v.push((text::own("accept"), text::own("*/*")));
    v
}

/// A content type is a web page's where it begins with `text/html`, in any case;
/// what follows does not count.
pub proof fn law_pages_by_their_type(t: Seq<char>, rest: Seq<char>)
    requires
        t.len() == 9,
    ensures
        is_html("text/html"@ + rest),
        is_html("TEXT/HTML"@ + rest),
        is_html(t + rest) <==> is_html(t),
        text::lower(t[5]) != 'h' ==> !is_html(t + rest),
        forall|s: Seq<char>| s.len() < 9 ==> !#[trigger] is_html(s),
{
    reveal_strlit("text/html");
    reveal_strlit("TEXT/HTML");
    let a = "text/html"@ + rest;
    let b = "TEXT/HTML"@ + rest;
    assert(a.take(9) =~= "text/html"@);
    assert(b.take(9) =~= "TEXT/HTML"@);
    assert((t + rest).take(9) =~= t);
    assert(t.take(9) =~= t);
    let h = "text/html"@;
    assert(text::lower('T') == 't' && text::lower('E') == 'e' && text::lower('X') == 'x');
    assert(text::lower('H') == 'h' && text::lower('M') == 'm' && text::lower('L') == 'l');
    assert forall|i: int| 0 <= i < 9 implies text::lower(#[trigger] b.take(9)[i]) == text::lower(
        h[i],
    ) by {}
    if is_html(t + rest) {
        assert(text::lower(t[5]) == text::lower(h[5]));
    }
}

/// Without a masquerade the URL is dialed as it stands; with one, the URL has
/// the other name and the server is the one that the URL named, at 443 where it
/// named no port.
pub proof fn law_fallback_plan(
    url: Seq<char>,
    sni: Seq<char>,
    h: Seq<char>,
    port: Option<u16>,
    masked: Seq<char>,
)
    ensures
        fallback_plan_spec(url, None) == Ok::<PlanView, UrlError>((PlanView { url, server: None })),
        url_authority(url) == Some((Some(h), port)) && url_with_host(url, sni) == Some(
            Some(masked),
        ) ==> fallback_plan_spec(url, Some(sni)) == Ok::<PlanView, UrlError>(
            (PlanView {
                url: masked,
                server: Some(
                    (
                        h,
                        match port {
                            Some(q) => q,
                            None => 443u16,
                        },
                    ),
                ),
            }),
        ),
        url_authority(url) is None || url_authority(url) == Some((None::<Seq<char>>, port))
            || url_with_host(url, sni) is None || url_with_host(url, sni)->0 is None
            ==> fallback_plan_spec(url, Some(sni)) is Err,
{
}

/// A dial may take half a minute, a WebSocket is kept alive every half minute,
/// and 256 frames may wait to be sent.
pub proof fn law_times_and_sizes()
    ensures
        CONNECT_TIMEOUT_SECS == 30,
        WS_PING_SECS == 30,
        CHANNEL_CAP == 256,
{
}

} // verus!
