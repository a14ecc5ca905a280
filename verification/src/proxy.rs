//! The dispatch pipeline: classify each inbound request, look the cache
//! up, classify fetched responses, record them, and prepare the header
//! sets that the forwarding and upgrade paths need.

use vstd::prelude::*;
use vstd::string::{StrSliceExecFns, StringSliceAdditionalSpecFns};
use crate::cache::{
    CacheStore, CachedResponse, ResponseView, StoreView, insert_entry, lookup_key, set_404_step,
};
use crate::path_matcher::{chars_vec, find_char, find_seg, occurs_at, seg_matches_at, view_opt_str};
use crate::CreateProxyConfig;

verus! {

/// The proxy's shared state: the cache store and the configuration.
pub struct ProxyState {
    pub cache: CacheStore,
    pub config: CreateProxyConfig,
}

impl ProxyState {
    pub fn new(cache: CacheStore, config: CreateProxyConfig) -> (r: ProxyState)
        ensures
            r.cache == cache,
            r.config == config,
    {
        ProxyState { cache, config }
    }
}

/// Case-insensitive equality of ASCII letters; every other character
/// matches only itself.
pub open spec fn char_eq_ci(a: char, b: char) -> bool {
    let x = a as u32;
    let y = b as u32;
    x == y || (65 <= x <= 90 && y == x + 32) || (65 <= y <= 90 && x == y + 32)
}

/// Case-insensitive equality of two character sequences.
pub open spec fn chars_eq_ci(a: Seq<char>, b: Seq<char>) -> bool {
    a.len() == b.len() && forall|i: int| 0 <= i < a.len() ==> char_eq_ci(a[i], #[trigger] b[i])
}

/// `needle` occurs in `hay`, compared case-insensitively, at index `i`.
pub open spec fn ci_occurs_at(hay: Seq<char>, i: int, needle: Seq<char>) -> bool {
    0 <= i && i + needle.len() <= hay.len() && chars_eq_ci(hay.subrange(i, i + needle.len()), needle)
}

/// `needle` occurs somewhere in `hay`, compared case-insensitively.
pub open spec fn contains_ci(hay: Seq<char>, needle: Seq<char>) -> bool {
    exists|i: int| ci_occurs_at(hay, i, needle)
}

fn char_eq_ci_exec(a: char, b: char) -> (r: bool)
    ensures
        r == char_eq_ci(a, b),
{
    let x = a as u32;
    let y = b as u32;
    x == y || (65 <= x && x <= 90 && y == x + 32) || (65 <= y && y <= 90 && x == y + 32)
}

/// Case-insensitive equality of two strings.
pub fn str_eq_ci(a: &str, b: &str) -> (r: bool)
    ensures
        r == chars_eq_ci(a@, b@),
{
    let av = chars_vec(a);
    let bv = chars_vec(b);
    if av.len() != bv.len() {
        return false;
    }
    let mut i: usize = 0;
    while i < av.len()
        invariant
            i <= av.len(),
            av.len() == bv.len(),
            av@ == a@,
            bv@ == b@,
            forall|k: int| 0 <= k < i ==> char_eq_ci(a@[k], #[trigger] b@[k]),
        decreases av.len() - i,
    {
        if !char_eq_ci_exec(av[i], bv[i]) {
            return false;
        }
        i = i + 1;
    }
    true
}

/// Does `needle` occur in `hay`, compared case-insensitively?
fn contains_ci_exec(hay: &Vec<char>, needle: &Vec<char>) -> (r: bool)
    ensures
        r == contains_ci(hay@, needle@),
{
    let n = needle.len();
    if n == 0 {
        proof {
            assert(hay@.subrange(0, 0) =~= Seq::<char>::empty());
            assert(needle@ =~= Seq::<char>::empty());
            assert(ci_occurs_at(hay@, 0, needle@));
        }
        return true;
    }
    let mut i: usize = 0;
    while hay.len() - i >= n
        invariant
            i <= hay.len(),
            n == needle.len(),
            n > 0,
            forall|k: int| 0 <= k < i ==> !ci_occurs_at(hay@, k, needle@),
        decreases hay.len() - i,
    {
        let mut j: usize = 0;
        let mut hit = true;
        while j < n
            invariant
                j <= n,
                n == needle.len(),
                i + n <= hay.len(),
                hit ==> forall|k: int| 0 <= k < j ==> char_eq_ci(
                    hay@[i + k],
                    #[trigger] needle@[k],
                ),
                !hit ==> !ci_occurs_at(hay@, i as int, needle@),
            decreases n - j,
        {
            if !char_eq_ci_exec(hay[i + j], needle[j]) {
                proof {
                    if ci_occurs_at(hay@, i as int, needle@) {
                        assert(hay@.subrange(i as int, i + n as int)[j as int] == hay@[i + j]);
                    }
                }
                hit = false;
                j = n;
            } else {
                j = j + 1;
            }
        }
        if hit {
            proof {
                assert forall|k: int|
                    0 <= k < n implies char_eq_ci(
                    hay@.subrange(i as int, i + n as int)[k],
                    #[trigger] needle@[k],
                ) by {
                    assert(hay@.subrange(i as int, i + n as int)[k] == hay@[i + k]);
                }
                assert(ci_occurs_at(hay@, i as int, needle@));
            }
            return true;
        }
        i = i + 1;
    }
    proof {
        assert forall|k: int| !ci_occurs_at(hay@, k, needle@) by {
            if 0 <= k && k + needle@.len() <= hay@.len() {
                assert(k < i);
            }
        }
    }
    false
}

/// A request asks for a protocol upgrade when it carries an `Upgrade`
/// header, or a `Connection` header whose value contains the token
/// `upgrade` in any letter case.
pub open spec fn spec_is_upgrade(connection: Option<Seq<char>>, has_upgrade_header: bool) -> bool {
    has_upgrade_header || (connection is Some && contains_ci(
        connection.unwrap(),
        seq!['u', 'p', 'g', 'r', 'a', 'd', 'e'],
    ))
}

/// Check whether the request headers indicate a protocol upgrade, given
/// the `Connection` header's value (if readable as text) and whether an
/// `Upgrade` header is present.
pub fn is_upgrade_request(connection: Option<&str>, has_upgrade_header: bool) -> (r: bool)
    ensures
        r == spec_is_upgrade(view_opt_str(connection), has_upgrade_header),
{
    if has_upgrade_header {
        return true;
    }
    match connection {
        None => false,
        Some(value) => {
            proof {
                reveal_strlit("upgrade");
                assert("upgrade"@ =~= seq!['u', 'p', 'g', 'r', 'a', 'd', 'e']);
            }
            let hv = chars_vec(value);
            let needle = chars_vec("upgrade");
            contains_ci_exec(&hv, &needle)
        },
    }
}

/// Where the dispatch pipeline routes a request.
#[derive(Clone, Copy, PartialEq, Eq, Structural, Debug)]
pub enum RouteDecision {
    /// Establish the upgrade tunnel
    Tunnel,
    /// An upgrade was requested but upgrades are disabled: reply 501
    UpgradeDisabled,
    /// Rejected by the GET-only policy: reply 405
    MethodNotAllowed,
    /// Proceed to cache lookup and origin fetch
    Forward,
}

/// The dispatch decision: upgrades are routed (or refused) before
/// anything else; then the GET-only policy gates the method; everything
/// else is forwarded.
pub open spec fn spec_dispatch(
    enable_upgrades: bool,
    get_only: bool,
    is_upgrade: bool,
    method: Seq<char>,
) -> RouteDecision {
    if is_upgrade {
        if enable_upgrades {
            RouteDecision::Tunnel
        } else {
            RouteDecision::UpgradeDisabled
        }
    } else if get_only && method != seq!['G', 'E', 'T'] {
        RouteDecision::MethodNotAllowed
    } else {
        RouteDecision::Forward
    }
}

/// Route a request: to the tunnel, to an error reply, or onward to the
/// cache and the origin.
pub fn dispatch_request(
    enable_upgrades: bool,
    get_only: bool,
    is_upgrade: bool,
    method: &str,
) -> (r: RouteDecision)
    ensures
        r == spec_dispatch(enable_upgrades, get_only, is_upgrade, method@),
{
    proof {
        reveal_strlit("GET");
        assert("GET"@ =~= seq!['G', 'E', 'T']);
    }
    if is_upgrade {
        if enable_upgrades {
            RouteDecision::Tunnel
        } else {
            RouteDecision::UpgradeDisabled
        }
    } else if get_only && !crate::path_matcher::str_eq(method, "GET") {
        RouteDecision::MethodNotAllowed
    } else {
        RouteDecision::Forward
    }
}

/// What a cache lookup returns: nothing for non-cacheable requests; else
/// the positive entry if present, else the negative entry if present.
pub open spec fn spec_lookup(sv: StoreView, should_cache: bool, k: Seq<char>) -> Option<
    ResponseView,
> {
    if !should_cache {
        None
    } else if lookup_key(sv.entries, k) is Some {
        lookup_key(sv.entries, k)
    } else {
        lookup_key(sv.entries_404, k)
    }
}

/// Look a request up in the cache: the positive map first, then the
/// negative map; nothing is consulted when the request is not cacheable.
pub fn lookup_cached(store: &CacheStore, should_cache: bool, key: &str) -> (r: Option<
    CachedResponse,
>)
    ensures
        match r {
            Option::Some(c) => spec_lookup(store@, should_cache, key@) == Some(c@),
            Option::None => spec_lookup(store@, should_cache, key@) is None,
        },
{
    if !should_cache {
        return None;
    }
    match store.get(key) {
        Option::Some(c) => Some(c),
        Option::None => store.get_404(key),
    }
}

/// `needle` occurs as a contiguous byte run in `hay` at index `i`.
pub open spec fn bytes_occur_at(hay: Seq<u8>, i: int, needle: Seq<u8>) -> bool {
    0 <= i && i + needle.len() <= hay.len() && hay.subrange(i, i + needle.len()) == needle
}

/// `needle` occurs somewhere in `hay`.
pub open spec fn contains_bytes(hay: Seq<u8>, needle: Seq<u8>) -> bool {
    exists|i: int| bytes_occur_at(hay, i, needle)
}

/// The marker whose presence in a page's body flags it as a 404 page.
pub open spec fn spec_marker() -> Seq<u8> {
    "<meta name=\"phantom-404\" content=\"true\">".spec_bytes()
}

/// The phantom-404 marker, as bytes.
fn marker_bytes() -> (r: Vec<u8>)
    ensures
        r@ == spec_marker(),
{
    "<meta name=\"phantom-404\" content=\"true\">".as_bytes_vec()
}

/// Does `needle` occur as a contiguous byte run in `hay`?
fn bytes_contains(hay: &Vec<u8>, needle: &Vec<u8>) -> (r: bool)
    ensures
        r == contains_bytes(hay@, needle@),
{
    let n = needle.len();
    if n == 0 {
        proof {
            assert(hay@.subrange(0, 0) =~= Seq::<u8>::empty());
            assert(needle@ =~= Seq::<u8>::empty());
            assert(bytes_occur_at(hay@, 0, needle@));
        }
        return true;
    }
    let mut i: usize = 0;
    while hay.len() - i >= n
        invariant
            i <= hay.len(),
            n == needle.len(),
            n > 0,
            forall|k: int| 0 <= k < i ==> !bytes_occur_at(hay@, k, needle@),
        decreases hay.len() - i,
    {
        let mut j: usize = 0;
        let mut hit = true;
        while j < n
            invariant
                j <= n,
                n == needle.len(),
                i + n <= hay.len(),
                hit ==> forall|k: int| 0 <= k < j ==> hay@[i + k] == #[trigger] needle@[k],
                !hit ==> !bytes_occur_at(hay@, i as int, needle@),
            decreases n - j,
        {
            if hay[i + j] != needle[j] {
                proof {
                    if bytes_occur_at(hay@, i as int, needle@) {
                        assert(hay@.subrange(i as int, i + n as int)[j as int] == hay@[i + j]);
                    }
                }
                hit = false;
                j = n;
            } else {
                j = j + 1;
            }
        }
        if hit {
            proof {
                assert(hay@.subrange(i as int, i + n as int) =~= needle@);
                assert(bytes_occur_at(hay@, i as int, needle@));
            }
            return true;
        }
        i = i + 1;
    }
    proof {
        assert forall|k: int| !bytes_occur_at(hay@, k, needle@) by {
            if 0 <= k && k + needle@.len() <= hay@.len() {
                assert(k < i);
            }
        }
    }
    false
}

/// A response counts as a 404 when its status is 404, or when the
/// meta-tag fallback is enabled and its body contains the phantom-404
/// marker.
pub open spec fn spec_is_negative(status: u16, body: Seq<u8>, use_404_meta: bool) -> bool {
    status == 404 || (use_404_meta && contains_bytes(body, spec_marker()))
}

/// Classify a fetched response as negative (a 404) or positive.
pub fn is_negative_response(status: u16, body: &Vec<u8>, use_404_meta: bool) -> (r: bool)
    ensures
        r == spec_is_negative(status, body@, use_404_meta),
{
    if status == 404 {
        return true;
    }
    if !use_404_meta {
        return false;
    }
    let marker = marker_bytes();
    bytes_contains(body, &marker)
}

/// How recording a fetched response changes the store: nothing for a
/// non-cacheable request; a negative response goes to the bounded 404
/// map when negative caching is enabled, and to the positive map
/// otherwise (the fallback when the capacity is zero); every other
/// response goes to the positive map.
pub open spec fn spec_record(
    sv: StoreView,
    should_cache: bool,
    k: Seq<char>,
    v: ResponseView,
    use_404_meta: bool,
) -> StoreView {
    if !should_cache {
        sv
    } else if spec_is_negative(v.status, v.body, use_404_meta) && sv.capacity_404 > 0 {
        StoreView { entries_404: set_404_step(sv.entries_404, k, v, sv.capacity_404), ..sv }
    } else {
        StoreView { entries: insert_entry(sv.entries, k, v), ..sv }
    }
}

/// Record a fetched response in the cache, according to the negative
/// classification and the configured capacities.
pub fn record_response(
    store: &mut CacheStore,
    should_cache: bool,
    key: String,
    response: CachedResponse,
    use_404_meta: bool,
)
    requires
        old(store).wf(),
    ensures
        final(store).wf(),
        final(store)@ == spec_record(old(store)@, should_cache, key@, response@, use_404_meta),
{
    if !should_cache {
        return;
    }
    let negative = is_negative_response(response.status, &response.body, use_404_meta);
    if negative && store.capacity_404() > 0 {
        store.set_404(key, response);
        proof {
            assert(store@ =~= spec_record(old(store)@, true, key@, response@, use_404_meta));
        }
    } else {
        store.set(key, response);
        proof {
            assert(store@ =~= spec_record(old(store)@, true, key@, response@, use_404_meta));
        }
    }
}

/// The URL a request is forwarded to: the configured origin base URL
/// followed by the request's path and query.
pub fn target_url(base: &str, path_and_query: &str) -> (r: String)
    ensures
        r@ == base@ + path_and_query@,
{
    let mut s = base.to_owned();
    vstd::string::StringExecFns::append(&mut s, path_and_query);
    s
}

/// A hop-by-hop header, not forwarded to the origin on the non-upgrade
/// path. `Host` is synthesized by the outbound client; the others tie to
/// the inbound connection.
pub open spec fn spec_is_hop_header(name: Seq<char>) -> bool {
    ||| chars_eq_ci(name, "host"@)
    ||| chars_eq_ci(name, "connection"@)
    ||| chars_eq_ci(name, "keep-alive"@)
    ||| chars_eq_ci(name, "transfer-encoding"@)
    ||| chars_eq_ci(name, "te"@)
    ||| chars_eq_ci(name, "trailer"@)
    ||| chars_eq_ci(name, "proxy-authorization"@)
    ||| chars_eq_ci(name, "proxy-authenticate"@)
    ||| chars_eq_ci(name, "upgrade"@)
}

/// Is this header name, in any letter case, hop-by-hop?
pub fn is_hop_header(name: &str) -> (r: bool)
    ensures
        r == spec_is_hop_header(name@),
{
    str_eq_ci(name, "host") || str_eq_ci(name, "connection") || str_eq_ci(name, "keep-alive")
        || str_eq_ci(name, "transfer-encoding") || str_eq_ci(name, "te") || str_eq_ci(
        name,
        "trailer",
    ) || str_eq_ci(name, "proxy-authorization") || str_eq_ci(name, "proxy-authenticate")
        || str_eq_ci(name, "upgrade")
}

/// The view of a header list.
pub open spec fn view_headers(v: Seq<(String, String)>) -> Seq<(Seq<char>, Seq<char>)> {
    v.map_values(|h: (String, String)| (h.0@, h.1@))
}

/// The headers that survive hop-by-hop stripping, in order.
pub open spec fn spec_strip_hop(hs: Seq<(Seq<char>, Seq<char>)>) -> Seq<(Seq<char>, Seq<char>)>
    decreases hs.len(),
{
    if hs.len() == 0 {
        hs
    } else if spec_is_hop_header(hs[0].0) {
        spec_strip_hop(hs.drop_first())
    } else {
        seq![hs[0]] + spec_strip_hop(hs.drop_first())
    }
}

/// Strip the hop-by-hop headers before forwarding a request to the
/// origin.
pub fn strip_hop_headers(headers: &Vec<(String, String)>) -> (r: Vec<(String, String)>)
    ensures
        view_headers(r@) == spec_strip_hop(view_headers(headers@)),
{
    let ghost orig = view_headers(headers@);
    let mut kept: Vec<(String, String)> = Vec::new();
    let mut i: usize = 0;
    proof {
        assert(orig.skip(0) =~= orig);
        assert(view_headers(kept@) + spec_strip_hop(orig.skip(0)) =~= spec_strip_hop(orig));
    }
    while i < headers.len()
        invariant
            i <= headers.len(),
            orig == view_headers(headers@),
            spec_strip_hop(orig) == view_headers(kept@) + spec_strip_hop(
                view_headers(headers@).skip(i as int),
            ),
        decreases headers.len() - i,
    {
        let ghost rest = view_headers(headers@).skip(i as int);
        proof {
            assert(rest[0] == view_headers(headers@)[i as int]);
            assert(rest.drop_first() =~= view_headers(headers@).skip(i + 1 as int));
        }
        if !is_hop_header(headers[i].0.as_str()) {
            let name = headers[i].0.clone();
            let value = headers[i].1.clone();
            let ghost before = view_headers(kept@);
            kept.push((name, value));
            proof {
                assert(view_headers(kept@) =~= before.push(
                    (headers@[i as int].0@, headers@[i as int].1@),
                ));
                assert(view_headers(kept@) + spec_strip_hop(rest.drop_first()) =~= before + (seq![
                    rest[0],
                ] + spec_strip_hop(rest.drop_first())));
            }
        }
        i = i + 1;
    }
    proof {
        assert(view_headers(headers@).skip(i as int).len() == 0);
        assert(spec_strip_hop(orig) =~= view_headers(kept@));
    }
    kept
}

/// A header copied onto the `101 Switching Protocols` reply: `Upgrade`,
/// `Connection`, and the WebSocket accept key.
pub open spec fn spec_is_upgrade_reply_header(name: Seq<char>) -> bool {
    ||| chars_eq_ci(name, "upgrade"@)
    ||| chars_eq_ci(name, "connection"@)
    ||| chars_eq_ci(name, "sec-websocket-accept"@)
}

/// The origin's handshake headers that the `101` reply to the client
/// carries over, in order.
pub open spec fn spec_select_upgrade(hs: Seq<(Seq<char>, Seq<char>)>) -> Seq<
    (Seq<char>, Seq<char>),
>
    decreases hs.len(),
{
    if hs.len() == 0 {
        hs
    } else if spec_is_upgrade_reply_header(hs[0].0) {
        seq![hs[0]] + spec_select_upgrade(hs.drop_first())
    } else {
        spec_select_upgrade(hs.drop_first())
    }
}

/// Select, from the origin's `101` reply, the headers to copy onto the
/// reply sent to the client.
pub fn select_upgrade_headers(headers: &Vec<(String, String)>) -> (r: Vec<(String, String)>)
    ensures
        view_headers(r@) == spec_select_upgrade(view_headers(headers@)),
{
    let ghost orig = view_headers(headers@);
    let mut kept: Vec<(String, String)> = Vec::new();
    let mut i: usize = 0;
    proof {
        assert(orig.skip(0) =~= orig);
        assert(view_headers(kept@) + spec_select_upgrade(orig.skip(0)) =~= spec_select_upgrade(
            orig,
        ));
    }
    while i < headers.len()
        invariant
            i <= headers.len(),
            orig == view_headers(headers@),
            spec_select_upgrade(orig) == view_headers(kept@) + spec_select_upgrade(
                view_headers(headers@).skip(i as int),
            ),
        decreases headers.len() - i,
    {
        let ghost rest = view_headers(headers@).skip(i as int);
        proof {
            assert(rest[0] == view_headers(headers@)[i as int]);
            assert(rest.drop_first() =~= view_headers(headers@).skip(i + 1 as int));
        }
        let keep = str_eq_ci(headers[i].0.as_str(), "upgrade") || str_eq_ci(
            headers[i].0.as_str(),
            "connection",
        ) || str_eq_ci(headers[i].0.as_str(), "sec-websocket-accept");
        if keep {
            let name = headers[i].0.clone();
            let value = headers[i].1.clone();
            let ghost before = view_headers(kept@);
            kept.push((name, value));
            proof {
                assert(view_headers(kept@) =~= before.push(
                    (headers@[i as int].0@, headers@[i as int].1@),
                ));
                assert(view_headers(kept@) + spec_select_upgrade(rest.drop_first()) =~= before + (
                seq![rest[0]] + spec_select_upgrade(rest.drop_first())));
            }
        }
        i = i + 1;
    }
    proof {
        assert(view_headers(headers@).skip(i as int).len() == 0);
        assert(spec_select_upgrade(orig) =~= view_headers(kept@));
    }
    kept
}

/// The separator between a URL's scheme and its authority.
pub open spec fn scheme_sep() -> Seq<char> {
    seq![':', '/', '/']
}

/// `i` is the first index where `://` occurs in `u`.
pub open spec fn first_sep_at(u: Seq<char>, i: int) -> bool {
    occurs_at(u, i, scheme_sep()) && (forall|k: int| 0 <= k < i ==> !occurs_at(u, k, scheme_sep()))
}

/// An ASCII decimal digit.
pub open spec fn is_digit(c: char) -> bool {
    48 <= c as u32 && c as u32 <= 57
}

/// The number the digit sequence denotes, most significant digit first.
pub open spec fn digits_value(s: Seq<char>) -> int
    decreases s.len(),
{
    if s.len() == 0 {
        0
    } else {
        digits_value(s.drop_last()) * 10 + (s.last() as u32 - 48)
    }
}

/// Every character is a decimal digit.
pub open spec fn all_digits(s: Seq<char>) -> bool {
    forall|i: int| 0 <= i < s.len() ==> is_digit(#[trigger] s[i])
}

/// A usable port: nonempty, all digits, and within the 16-bit range.
pub open spec fn valid_port(s: Seq<char>) -> bool {
    s.len() > 0 && all_digits(s) && digits_value(s) <= 65535
}

/// The index of the first `/` in `rest`, or its length if there is none:
/// the end of the URL's authority.
pub open spec fn first_slash(rest: Seq<char>) -> int {
    if exists|i: int|
        0 <= i < rest.len() && rest[i] == '/' && (forall|k: int| 0 <= k < i ==> rest[k] != '/') {
        choose|i: int|
            0 <= i < rest.len() && rest[i] == '/' && (forall|k: int| 0 <= k < i ==> rest[k] != '/')
    } else {
        rest.len() as int
    }
}

/// The index of the last `:` in the authority, if any: what separates the
/// host from an explicit port.
pub open spec fn last_colon(auth: Seq<char>) -> Option<int> {
    if exists|i: int|
        0 <= i < auth.len() && auth[i] == ':' && (forall|k: int|
            i < k < auth.len() ==> auth[k] != ':') {
        Some(
            choose|i: int|
                0 <= i < auth.len() && auth[i] == ':' && (forall|k: int|
                    i < k < auth.len() ==> auth[k] != ':'),
        )
    } else {
        None
    }
}

/// The origin endpoint a base URL names: the authority's host, and its
/// port when one is written, else 443 for `https` and 80 for any other
/// scheme. A URL without a scheme separator, with an empty host, or with
/// an unusable port yields nothing.
pub open spec fn spec_origin_host_port(u: Seq<char>) -> Option<(Seq<char>, u16)> {
    if exists|i: int| first_sep_at(u, i) {
        let i = choose|i: int| first_sep_at(u, i);
        let is_https = u.take(i) == "https"@;
        let rest = u.skip(i + 3);
        let auth = rest.take(first_slash(rest));
        match last_colon(auth) {
            Some(j) => {
                let host = auth.take(j);
                let digits = auth.skip(j + 1);
                if host.len() == 0 {
                    None
                } else if valid_port(digits) {
                    Some((host, digits_value(digits) as u16))
                } else {
                    None
                }
            },
            None => {
                if auth.len() == 0 {
                    None
                } else if is_https {
                    Some((auth, 443u16))
                } else {
                    Some((auth, 80u16))
                }
            },
        }
    } else {
        None
    }
}

proof fn lemma_digits_value_nonneg(s: Seq<char>)
    requires
        all_digits(s),
    ensures
        digits_value(s) >= 0,
    decreases s.len(),
{
    if s.len() > 0 {
        assert(all_digits(s.drop_last()));
        lemma_digits_value_nonneg(s.drop_last());
        assert(is_digit(s.last()));
    }
}

proof fn lemma_digits_take_le(s: Seq<char>, m: int)
    requires
        all_digits(s),
        0 <= m <= s.len(),
    ensures
        digits_value(s.take(m)) <= digits_value(s),
    decreases s.len() - m,
{
    assert(all_digits(s.take(m)));
    if m < s.len() {
        let t = s.take(m + 1);
        assert(t.drop_last() =~= s.take(m));
        assert(t.last() == s[m]);
        assert(is_digit(s[m]));
        lemma_digits_value_nonneg(s.take(m));
        assert(digits_value(t) == digits_value(s.take(m)) * 10 + (s[m] as u32 - 48));
        assert(digits_value(s.take(m)) <= digits_value(t));
        lemma_digits_take_le(s, m + 1);
        assert(s.take(s.len() as int) =~= s);
    } else {
        assert(s.take(m) =~= s);
    }
}

/// Parse a port field: the digits between `start` and `end` in `v`.
fn parse_port_digits(v: &Vec<char>, start: usize, end: usize) -> (r: Option<u16>)
    requires
        start <= end <= v.len(),
    ensures
        ({
            let digits = v@.subrange(start as int, end as int);
            match r {
                Option::Some(p) => valid_port(digits) && p as int == digits_value(digits),
                Option::None => !valid_port(digits),
            }
        }),
{
    let ghost digits = v@.subrange(start as int, end as int);
    if start == end {
        return None;
    }
    let mut acc: u32 = 0;
    let mut m: usize = start;
    while m < end
        invariant
            start <= m <= end <= v.len(),
            digits == v@.subrange(start as int, end as int),
            all_digits(digits.take(m - start)),
            acc as int == digits_value(digits.take(m - start)),
            acc <= 65535,
        decreases end - m,
    {
        let c = v[m];
        let x = c as u32;
        if x < 48 || x > 57 {
            proof {
                assert(digits[m - start] == v@[m as int]);
                assert(!is_digit(digits[m - start]));
                assert(!all_digits(digits));
            }
            return None;
        }
        let next = acc * 10 + (x - 48);
        proof {
            let t = digits.take(m - start + 1);
            assert(t.drop_last() =~= digits.take(m - start));
            assert(t.last() == digits[m - start]);
            assert(digits[m - start] == v@[m as int]);
            assert(is_digit(t.last()));
            assert(digits_value(t) == next as int);
            assert(all_digits(t));
        }
        if next > 65535 {
            proof {
                if all_digits(digits) {
                    lemma_digits_take_le(digits, m - start + 1);
                    assert(digits.take(digits.len() as int) =~= digits);
                    assert(digits_value(digits) > 65535);
                }
                assert(!valid_port(digits));
            }
            return None;
        }
        acc = next;
        m = m + 1;
    }
    proof {
        assert(digits.take(m - start) =~= digits);
        assert(valid_port(digits));
    }
    Some(acc as u16)
}

/// Parse the origin's host and port out of the configured base URL.
/// Yields nothing when the URL has no `scheme://` prefix, an empty host,
/// or an unusable port; the caller then treats the origin as unreachable.
#[verifier::rlimit(60)]
pub fn origin_host_port(base_url: &str) -> (r: Option<(String, u16)>)
    ensures
        match r {
            Option::Some(hp) => spec_origin_host_port(base_url@) == Some((hp.0@, hp.1)),
            Option::None => spec_origin_host_port(base_url@) is None,
        },
{
    let ghost u = base_url@;
    let v = chars_vec(base_url);
    let sepv = chars_vec("://");
    proof {
        reveal_strlit("://");
        assert("://"@ =~= scheme_sep());
        assert(sepv@.subrange(0, 3) =~= scheme_sep());
    }
    let sep_idx = match find_seg(&v, 0, &sepv, 0, 3) {
        Option::Some(i) => i,
        Option::None => {
            proof {
                assert forall|i: int| !first_sep_at(u, i) by {
                    assert(!occurs_at(u, i, sepv@.subrange(0, 3)));
                }
            }
            return None;
        },
    };
    proof {
        assert(first_sep_at(u, sep_idx as int));
        let ci = choose|i: int| first_sep_at(u, i);
        if ci < sep_idx as int {
            assert(!occurs_at(u, ci, sepv@.subrange(0, 3)));
        }
        if (sep_idx as int) < ci {
            assert(!occurs_at(u, sep_idx as int, scheme_sep()));
        }
        assert(ci == sep_idx as int);
    }
    let is_https: bool;
    let httpsv = chars_vec("https");
    proof {
        reveal_strlit("https");
    }
    if sep_idx == 5 {
        is_https = seg_matches_at(&v, 0, &httpsv, 0, 5);
        proof {
            assert(httpsv@.subrange(0, 5) =~= "https"@);
            assert(u.take(5) =~= u.subrange(0, 5));
            if is_https {
                assert(u.take(sep_idx as int) == "https"@);
            } else {
                assert(u.take(sep_idx as int) != "https"@);
            }
        }
    } else {
        is_https = false;
        proof {
            assert(u.take(sep_idx as int).len() != "https"@.len());
        }
    }
    let a0 = sep_idx + 3;
    let ghost rest = u.skip(a0 as int);
    proof {
        assert(a0 <= v.len());
    }
    let auth_end = match find_char(&v, a0, '/') {
        Option::Some(e) => {
            proof {
                assert forall|k: int| 0 <= k < e - a0 implies rest[k] != '/' by {
                    assert(u[a0 + k] != '/');
                }
                let fi = first_slash(rest);
                assert(rest[e - a0] == '/');
                let w = choose|i: int|
                    0 <= i < rest.len() && rest[i] == '/' && (forall|k: int|
                        0 <= k < i ==> rest[k] != '/');
                if w < e - a0 {
                    assert(rest[w] == u[a0 + w]);
                }
                assert(w == e - a0);
            }
            e
        },
        Option::None => {
            proof {
                assert forall|i: int|
                    !(0 <= i < rest.len() && rest[i] == '/' && (forall|k: int|
                        0 <= k < i ==> rest[k] != '/')) by {
                    if 0 <= i < rest.len() {
                        assert(rest[i] == u[a0 + i]);
                    }
                }
                assert(first_slash(rest) == rest.len() as int);
            }
            v.len()
        },
    };
    let ghost auth = rest.take(first_slash(rest));
    proof {
        assert(auth =~= u.subrange(a0 as int, auth_end as int));
    }
    let mut lc: Option<usize> = None;
    let mut k: usize = a0;
    while k < auth_end
        invariant
            a0 <= k <= auth_end <= v.len(),
            v@ == u,
            match lc {
                Option::Some(j) => a0 <= j < k && u[j as int] == ':' && (forall|m: int|
                    j < m < k ==> u[m] != ':'),
                Option::None => forall|m: int| a0 <= m < k ==> u[m] != ':',
            },
        decreases auth_end - k,
    {
        if v[k] == ':' {
            lc = Some(k);
        }
        k = k + 1;
    }
    proof {
        assert(auth.len() == auth_end - a0);
        match lc {
            Option::Some(j) => {
                let jl = j - a0;
                assert(auth[jl as int] == u[j as int]);
                assert forall|m: int| jl < m < auth.len() implies auth[m] != ':' by {
                    assert(auth[m] == u[a0 + m]);
                }
                let w = choose|i: int|
                    0 <= i < auth.len() && auth[i] == ':' && (forall|m: int|
                        i < m < auth.len() ==> auth[m] != ':');
                assert(auth[jl as int] == ':');
                if w < jl {
                    assert(auth[jl as int] != ':');
                }
                if jl < w {
                    assert(auth[w] == u[a0 + w]);
                    assert(auth[w] != ':');
                }
                assert(last_colon(auth) == Some(jl as int));
            },
            Option::None => {
                assert forall|i: int|
                    !(0 <= i < auth.len() && auth[i] == ':' && (forall|m: int|
                        i < m < auth.len() ==> auth[m] != ':')) by {
                    if 0 <= i < auth.len() {
                        assert(auth[i] == u[a0 + i]);
                    }
                }
                assert(last_colon(auth) is None);
            },
        }
    }
    match lc {
        Option::Some(j) => {
            let ghost jl = j - a0;
            if j == a0 {
                proof {
                    assert(auth.take(jl as int).len() == 0);
                }
                return None;
            }
            let host_str = base_url.substring_char(a0, j);
            proof {
                assert(host_str@ =~= auth.take(jl as int));
            }
            let ghost digits = auth.skip(jl + 1);
            proof {
                assert(digits =~= u.subrange(j + 1 as int, auth_end as int));
            }
            match parse_port_digits(&v, j + 1, auth_end) {
                Option::Some(port) => Some((host_str.to_owned(), port)),
                Option::None => None,
            }
        },
        Option::None => {
            if a0 == auth_end {
                proof {
                    assert(auth.len() == 0);
                }
                return None;
            }
            let host_str = base_url.substring_char(a0, auth_end);
            proof {
                assert(host_str@ =~= auth);
            }
            if is_https {
                Some((host_str.to_owned(), 443))
            } else {
                Some((host_str.to_owned(), 80))
            }
        },
    }
}


} // verus!
