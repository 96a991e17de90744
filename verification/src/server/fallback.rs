//! HTTPS fallback: the channel behind the disguise site, and the plain HTTP
//! front with its redirects and ACME challenges.

use vstd::prelude::*;

use crate::text;

verus! {

/// How long the first frame of a channel is waited for, in seconds.
pub const AUTH_WAIT_SECS: u64 = 10;

// ---------------------------------------------------------------------------
// Redirects
// ---------------------------------------------------------------------------
/// Characters of a host with an optional port.
pub open spec fn host_char(c: char) -> bool {
    text::is_alnum(c) || c == '.' || c == '-' || c == ':' || c == '[' || c == ']'
}

/// The host can stand in a redirect.
pub open spec fn plain_host(h: Seq<char>) -> bool {
    0 < h.len() <= 253 && forall|i: int| 0 <= i < h.len() ==> host_char(#[trigger] h[i])
}

/// Where a plain HTTP request is sent: the same host (with its port) and path
/// over HTTPS. A hostile or missing host becomes `localhost`, and a path that
/// is not absolute the root.
pub open spec fn redirect_spec(host: Seq<char>, path: Seq<char>) -> Seq<char> {
    let h = text::trim(host);
    "https://"@ + (if plain_host(h) {
        h
    } else {
        "localhost"@
    }) + (if path.len() > 0 && path[0] == '/' {
        path
    } else {
        "/"@
    })
}

fn is_plain_host(h: &[char]) -> (r: bool)
    ensures
        r == plain_host(h@),
{
    if h.len() == 0 || h.len() > 253 {
        return false;
    }
    let mut i: usize = 0;
    while i < h.len()
        invariant
            i <= h.len(),
            forall|j: int| 0 <= j < i ==> host_char(#[trigger] h@[j]),
        decreases h.len() - i,
    {
        let c = h[i];
        if !(text::char_is_alnum(c) || c == '.' || c == '-' || c == ':' || c == '[' || c == ']') {
            return false;
        }
        i += 1;
    }
    true
}

/// Target for the redirect to HTTPS. `host` comes from the Host header.
pub fn build_redirect_target(host: &str, path: &str) -> (r: String)
    ensures
        r@ == redirect_spec(host@, path@),
{
    let hv = text::chars_of(host);
    let h = text::trim_chars(hv.as_slice());
    let mut out = text::own("https://");
    if is_plain_host(h) {
        let s = text::string_of(h);
        out.append(s.as_str());
    } else {
        out.append("localhost");
    }
    let pv = text::chars_of(path);
    if pv.len() > 0 && pv[0] == '/' {
        out.append(path);
    } else {
        out.append("/");
    }
    out
}

/// A redirect leaves the front only for HTTPS, and its host has nothing in it
/// that could end the header line it stands in.
pub proof fn law_redirect_host_is_plain(host: Seq<char>, path: Seq<char>)
    ensures
        ({
            let h = text::trim(host);
            let shown = if plain_host(h) {
                h
            } else {
                "localhost"@
            };
            &&& text::starts_with(redirect_spec(host, path), "https://"@ + shown)
            &&& plain_host(shown)
        }),
{
    reveal_strlit("localhost");
    let h = text::trim(host);
    let shown = if plain_host(h) {
        h
    } else {
        "localhost"@
    };
    let p = "https://"@ + shown;
    assert(redirect_spec(host, path).take(p.len() as int) =~= p);
}

// ---------------------------------------------------------------------------
// ACME challenges
// ---------------------------------------------------------------------------
/// Challenge tokens: letters, digits, `-` and `_`.
pub open spec fn safe_token(t: Seq<char>) -> bool {
    0 < t.len() <= 255 && forall|i: int|
        0 <= i < t.len() ==> text::is_alnum(#[trigger] t[i]) || t[i] == '-' || t[i] == '_'
}

/// Whether a token can be used as a file name: it has no dots or slashes, so
/// that it cannot lead out of the challenge directory.
pub fn is_safe_acme_token(token: &str) -> (r: bool)
    ensures
        r == safe_token(token@),
{
    let v = text::chars_of(token);
    if v.len() == 0 || v.len() > 255 {
        return false;
    }
    let mut i: usize = 0;
    while i < v.len()
        invariant
            i <= v.len(),
            v@ == token@,
            forall|j: int|
                0 <= j < i ==> text::is_alnum(#[trigger] token@[j]) || token@[j] == '-' || token@[j]
                    == '_',
        decreases v.len() - i,
    {
        let c = v[i];
        if !(text::char_is_alnum(c) || c == '-' || c == '_') {
            return false;
        }
        i += 1;
    }
    true
}

/// A safe token holds no path separator and no dot.
pub proof fn law_safe_token_stays_in_its_directory(t: Seq<char>)
    requires
        safe_token(t),
    ensures
        !t.contains('/'),
        !t.contains('\\'),
        !t.contains('.'),
{
}

/// What a challenge request is answered with.
#[derive(Debug, Clone, Copy, PartialEq, Eq, Structural)]
pub enum AcmeAnswer {
    /// The file of that name in the challenge directory, when it can be read;
    /// the redirect otherwise.
    File,
    /// The redirect that every other path gets.
    Redirect,
}

pub fn acme_answer(has_dir: bool, token: &str) -> (r: AcmeAnswer)
    ensures
        r == if has_dir && safe_token(token@) {
            AcmeAnswer::File
        } else {
            AcmeAnswer::Redirect
        },
{
    if has_dir && is_safe_acme_token(token) {
        AcmeAnswer::File
    } else {
        AcmeAnswer::Redirect
    }
}

/// A redirect leads to the same host and path over https: hosts of letters,
/// digits, dots, dashes, colons and brackets are kept, others become localhost,
/// and what is no path becomes the root.
pub proof fn law_where_redirects_lead(host: Seq<char>, path: Seq<char>)
    requires
        0 < host.len() <= 253,
        forall|i: int|
            0 <= i < host.len() ==> 48 <= (#[trigger] host[i]) as u32 <= 58 || 65 <= host[i] as u32
                <= 91 || 97 <= host[i] as u32 <= 122 || host[i] == '.' || host[i] == '-' || host[i]
                == ']',
    ensures
        path.len() > 0 && path[0] == '/' ==> redirect_spec(host, path) == "https://"@ + host + path,
        path.len() == 0 || path[0] != '/' ==> redirect_spec(host, path) == "https://"@ + host
            + "/"@,
        redirect_spec(Seq::empty(), "/"@) == "https://"@ + "localhost"@ + "/"@,
{
    reveal_strlit("/");
    assert forall|i: int| 0 <= i < host.len() implies host_char(#[trigger] host[i])
        && !text::is_space(host[i]) by {
        lemma_host_char(host[i]);
    }
    assert(text::solid(host));
    text::lemma_trim_solid(host);
    text::lemma_trim_solid(Seq::empty());
}

proof fn lemma_host_char(c: char)
    requires
        48 <= c as u32 <= 58 || 65 <= c as u32 <= 91 || 97 <= c as u32 <= 122 || c == '.' || c == '-'
            || c == ']',
    ensures
        host_char(c),
        !text::is_space(c),
{
    text::law_ascii_classes(c);
}

/// A host with any other character in it is not redirected to.
pub proof fn law_other_hosts_are_not_redirected_to(host: Seq<char>, path: Seq<char>, i: int)
    requires
        0 <= i < host.len(),
        text::solid(host),
        !(48 <= host[i] as u32 <= 58 || 65 <= host[i] as u32 <= 91 || 97 <= host[i] as u32 <= 122
            || host[i] == '.' || host[i] == '-' || host[i] == ']') || host.len() > 253,
        path.len() > 0 && path[0] == '/',
    ensures
        redirect_spec(host, path) == "https://"@ + "localhost"@ + path,
{
    text::lemma_trim_solid(host);
    lemma_other_char(host[i]);
}

proof fn lemma_other_char(c: char)
    ensures
        host_char(c) ==> 48 <= c as u32 <= 58 || 65 <= c as u32 <= 91 || 97 <= c as u32 <= 122 || c
            == '.' || c == '-' || c == ']',
{
    text::law_ascii_classes(c);
}

/// A challenge token has 1 to 255 letters, digits, dashes and underscores.
pub proof fn law_tokens_of_challenges(t: Seq<char>)
    ensures
        safe_token(t) <==> 1 <= t.len() <= 255 && forall|i: int|
            0 <= i < t.len() ==> 48 <= (#[trigger] t[i]) as u32 <= 57 || 65 <= t[i] as u32 <= 90
                || 97 <= t[i] as u32 <= 122 || t[i] == '-' || t[i] == '_',
{
    assert forall|i: int| 0 <= i < t.len() implies (text::is_alnum(#[trigger] t[i]) <==> 48
        <= t[i] as u32 <= 57 || 65 <= t[i] as u32 <= 90 || 97 <= t[i] as u32 <= 122) by {
        text::law_ascii_classes(t[i]);
    }
}

/// A new channel may take ten seconds to authenticate.
pub proof fn law_time_to_authenticate()
    ensures
        AUTH_WAIT_SECS == 10,
{
}

} // verus!
