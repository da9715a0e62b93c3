//! Optional `HTTPS_PROXY`/`HTTP_PROXY` support: the proxy address a setting
//! names, and the HTTP CONNECT exchange with the proxy.

use vstd::prelude::*;

use crate::text::{
    after_first, all_digits, before_first, decimal_text, decimal_value, digit_char, find_first,
    first_occurrence, is_digit, last_index_of, lemma_first_occurrence_unique,
    lemma_last_index_unique, occurs_at, parse_u16, prefix_before,
    spec_parse_u16, split_at_last, split_last, str_chars, string_from_chars, suffix_after,
    u16_to_decimal,
};

verus! {

/// The `(host, port)` a proxy setting names: any scheme (up to the first
/// `://`) and any path (from the first `/` on) dropped, then split at the
/// last `:`; the port must parse as a `u16` and the host must not be empty.
pub open spec fn spec_parse_proxy_addr(raw: Seq<char>) -> Option<(Seq<char>, u16)> {
    let host_port = before_first(after_first(raw, "://"@), '/');
    match split_at_last(host_port, ':') {
        None => None,
        Some((host, port)) => match spec_parse_u16(port) {
            None => None,
            Some(p) => if host.len() == 0 {
                None
            } else {
                Some((host, p))
            },
        },
    }
}

/// Strips an optional scheme and trailing path from a proxy URL, then
/// splits host from port. `None` for anything that doesn't parse.
pub fn parse_proxy_addr(raw: &str) -> (r: Option<(String, u16)>)
    ensures
        r is None <==> spec_parse_proxy_addr(raw@) is None,
        r matches Some((h, p)) ==> spec_parse_proxy_addr(raw@) == Some((h@, p)),
{
    let cs = str_chars(raw);
    let sep = [':', '/', '/'];
    proof {
        reveal_strlit("://");
        assert(sep@ == "://"@);
    }
    let without_scheme = suffix_after(&cs, &sep);
    let host_port = prefix_before(&without_scheme, '/');
    let (host, port) = match split_last(&host_port, ':') {
        Some(parts) => parts,
        None => return None,
    };
    let port = match parse_u16(port.as_slice()) {
        Some(p) => p,
        None => return None,
    };
    if host.len() == 0 {
        return None;
    }
    Some((string_from_chars(host.as_slice()), port))
}

/// The HTTP CONNECT request for `host:port`.
pub open spec fn spec_connect_request(host: Seq<char>, port: u16) -> Seq<char> {
    let target = host + ":"@ + decimal_text(port as nat);
    "CONNECT "@ + target + " HTTP/1.1\r\nHost: "@ + target + "\r\n\r\n"@
}

/// The proxy answered the CONNECT with status 200: its first line holds
/// `" 200 "`.
pub open spec fn spec_connect_succeeded(response: Seq<char>) -> bool {
    exists|i: int| occurs_at(before_first(response, '\n'), " 200 "@, i)
}

/// The HTTP CONNECT request asking the proxy for a tunnel to
/// `target_host:target_port`.
pub fn connect_request(target_host: &str, target_port: u16) -> (r: String)
    ensures
        r@ == spec_connect_request(target_host@, target_port),
{
    let port = u16_to_decimal(target_port);
    let mut r = String::from_str("CONNECT ");
    r.append(target_host);
    r.append(":");
    r.append(port.as_str());
    r.append(" HTTP/1.1\r\nHost: ");
    r.append(target_host);
    r.append(":");
    r.append(port.as_str());
    r.append("\r\n\r\n");
    r
}

/// Whether the proxy's response headers accept the CONNECT: the status line
/// (the first line) carries `" 200 "`. A trailing `\r` on that line cannot
/// change the answer, so it is not stripped.
pub fn connect_succeeded(response: &str) -> (ok: bool)
    ensures
        ok == spec_connect_succeeded(response@),
{
    let cs = str_chars(response);
    let status_line = prefix_before(&cs, '\n');
    let pat = [' ', '2', '0', '0', ' '];
    proof {
        reveal_strlit(" 200 ");
        assert(pat@ == " 200 "@);
    }
    match find_first(&status_line, &pat) {
        Some(_) => true,
        None => false,
    }
}

/// The bytes read so far end the response's headers: they end with the
/// blank line `\r\n\r\n`.
pub open spec fn spec_headers_complete(buf: Seq<u8>) -> bool {
    buf.len() >= 4 && buf.skip(buf.len() - 4) == seq![13u8, 10u8, 13u8, 10u8]
}

/// Whether the proxy's response, as read so far, has reached the blank
/// line that ends its headers.
pub fn headers_complete(buf: &Vec<u8>) -> (done: bool)
    ensures
        done == spec_headers_complete(buf@),
{
    let n = buf.len();
    if n < 4 {
        return false;
    }
    let done = buf[n - 4] == 13u8 && buf[n - 3] == 10u8 && buf[n - 2] == 13u8 && buf[n - 1] == 10u8;
    proof {
        let tail = buf@.skip(n - 4);
        if done {
            assert(tail =~= seq![13u8, 10u8, 13u8, 10u8]);
        } else if tail == seq![13u8, 10u8, 13u8, 10u8] {
            assert(tail[0] == buf@[n - 4]);
            assert(tail[1] == buf@[n - 3]);
            assert(tail[2] == buf@[n - 2]);
            assert(tail[3] == buf@[n - 1]);
        }
    }
    done
}

/// The decimal text of a number is a non-empty run of digits whose value is
/// that number.
proof fn lemma_decimal_text(n: nat)
    ensures
        decimal_text(n).len() > 0,
        all_digits(decimal_text(n)),
        decimal_value(decimal_text(n)) == n,
    decreases n,
{
    let t = decimal_text(n);
    if n < 10 {
        assert(t.drop_last() =~= Seq::<char>::empty());
        assert(decimal_value(Seq::<char>::empty()) == 0);
        assert(t.last() == digit_char(n));
        assert(digit_char(n) as int == '0' as int + n);
        assert(decimal_value(t) == decimal_value(t.drop_last()) * 10 + (t.last() as int - '0' as int));
    } else {
        lemma_decimal_text(n / 10);
        let u = decimal_text(n / 10);
        assert(t.drop_last() =~= u);
        assert(t.last() == digit_char(n % 10));
        assert(digit_char(n % 10) as int == '0' as int + n % 10);
        assert(decimal_value(t) == decimal_value(u) * 10 + (t.last() as int - '0' as int));
        assert(n == (n / 10) * 10 + n % 10) by (nonlinear_arith);
        assert forall|i: int| 0 <= i < t.len() implies is_digit(#[trigger] t[i]) by {
            if i < u.len() {
                assert(t[i] == u[i]);
            }
        }
    }
}

/// With no `c` in `s`, the part before the first `c` is all of `s`.
proof fn lemma_before_first_none(s: Seq<char>, c: char)
    requires
        forall|i: int| 0 <= i < s.len() ==> s[i] != c,
    ensures
        before_first(s, c) == s,
{
    if exists|i: int| first_occurrence(s, seq![c], i) {
        let i = choose|i: int| first_occurrence(s, seq![c], i);
        assert(s.subrange(i, i + 1)[0] == s[i]);
    }
}

/// The part before the first `c` ends where `c` first stands.
proof fn lemma_before_first_at(s: Seq<char>, c: char, k: int)
    requires
        0 <= k < s.len(),
        s[k] == c,
        forall|i: int| 0 <= i < k ==> s[i] != c,
    ensures
        before_first(s, c) == s.take(k),
{
    assert(s.subrange(k, k + 1) =~= seq![c]);
    assert forall|j: int| 0 <= j < k implies !#[trigger] occurs_at(s, seq![c], j) by {
        assert(s.subrange(j, j + 1)[0] == s[j]);
    }
    assert(first_occurrence(s, seq![c], k));
    let i = choose|i: int| first_occurrence(s, seq![c], i);
    lemma_first_occurrence_unique(s, seq![c], i, k);
}

/// `h:p` split at its last `:` gives back `h` and the digits of `p`.
proof fn lemma_split_host_port(h: Seq<char>, p: u16)
    ensures
        ({
            let d = decimal_text(p as nat);
            split_at_last(h + ":"@ + d, ':') == Some((h, d))
        }),
{
    reveal_strlit(":");
    let d = decimal_text(p as nat);
    lemma_decimal_text(p as nat);
    let s = h + ":"@ + d;
    let k = h.len() as int;
    assert(s[k] == ':');
    assert forall|j: int| k < j < s.len() implies #[trigger] s[j] != ':' by {
        assert(s[j] == d[j - k - 1]);
        assert(is_digit(d[j - k - 1]));
    }
    assert(last_index_of(s, ':', k));
    let i = choose|i: int| last_index_of(s, ':', i);
    lemma_last_index_unique(s, ':', i, k);
    assert(s.take(k) =~= h);
    assert(s.skip(k + 1) =~= d);
}

/// A host with no `/` joined to a port by `:` holds no `/`.
proof fn lemma_no_slash(h: Seq<char>, p: u16)
    requires
        forall|i: int| 0 <= i < h.len() ==> h[i] != '/',
    ensures
        forall|i: int|
            0 <= i < (h + ":"@ + decimal_text(p as nat)).len() ==> (h + ":"@ + decimal_text(
                p as nat,
            ))[i] != '/',
{
    reveal_strlit(":");
    lemma_decimal_text(p as nat);
    let d = decimal_text(p as nat);
    let s = h + ":"@ + d;
    assert forall|i: int| 0 <= i < s.len() implies s[i] != '/' by {
        if i > h.len() {
            assert(s[i] == d[i - h.len() - 1]);
            assert(is_digit(d[i - h.len() - 1]));
        } else if i < h.len() {
            assert(s[i] == h[i]);
        }
    }
}

/// A proxy setting written as `host:port`, with or without an `http://`
/// scheme and a trailing `/`, names that host and port, for any non-empty
/// host with no `/` in it. Whatever a setting names, its host is never
/// empty.
pub proof fn law_proxy_addr_round_trips(h: Seq<char>, p: u16, raw: Seq<char>)
    requires
        h.len() > 0,
        forall|i: int| 0 <= i < h.len() ==> h[i] != '/',
    ensures
        spec_parse_proxy_addr(h + ":"@ + decimal_text(p as nat)) == Some((h, p)),
        spec_parse_proxy_addr("http://"@ + h + ":"@ + decimal_text(p as nat) + "/"@) == Some((h, p)),
        spec_parse_proxy_addr(raw) matches Some((host, _)) ==> host.len() > 0,
{
    reveal_strlit("http://");
    reveal_strlit("://");
    reveal_strlit("/");
    let d = decimal_text(p as nat);
    lemma_decimal_text(p as nat);
    let hp = h + ":"@ + d;
    lemma_no_slash(h, p);
    lemma_split_host_port(h, p);
    assert(spec_parse_u16(d) == Some(p)) by {
        assert(is_digit(d[0]));
    }
    // Without a scheme: no `://` (it holds a `/`), and no `/`.
    assert forall|j: int| !#[trigger] occurs_at(hp, "://"@, j) by {
        if occurs_at(hp, "://"@, j) {
            assert(hp.subrange(j, j + 3)[1] == hp[j + 1]);
        }
    }
    assert(after_first(hp, "://"@) == hp);
    lemma_before_first_none(hp, '/');
    // With the scheme and a trailing `/`.
    let full = "http://"@ + hp + "/"@;
    assert(full =~= "http://"@ + h + ":"@ + d + "/"@);
    let k = 4int;
    assert(full.subrange(4, 7) =~= "://"@);
    assert forall|j: int| 0 <= j < k implies !#[trigger] occurs_at(full, "://"@, j) by {
        if occurs_at(full, "://"@, j) {
            assert(full.subrange(j, j + 3)[0] == full[j]);
        }
    }
    assert(first_occurrence(full, "://"@, k));
    let i = choose|i: int| first_occurrence(full, "://"@, i);
    lemma_first_occurrence_unique(full, "://"@, i, k);
    let rest = full.skip(7);
    assert(rest =~= hp + "/"@);
    assert(after_first(full, "://"@) == rest);
    assert forall|j: int| 0 <= j < hp.len() implies rest[j] != '/' by {
        assert(rest[j] == hp[j]);
    }
    lemma_before_first_at(rest, '/', hp.len() as int);
    assert(rest.take(hp.len() as int) =~= hp);
}

/// The part of `s` before the first `c` is `s` up to an index before which
/// no `c` stands, and at which `c` stands unless it is the end of `s`.
proof fn lemma_before_first_shape(s: Seq<char>, c: char) -> (k: int)
    ensures
        0 <= k <= s.len(),
        before_first(s, c) == s.take(k),
        forall|j: int| 0 <= j < k ==> s[j] != c,
        k < s.len() ==> s[k] == c,
{
    if exists|i: int| first_occurrence(s, seq![c], i) {
        let i = choose|i: int| first_occurrence(s, seq![c], i);
        assert(s.subrange(i, i + 1)[0] == s[i]);
        assert forall|j: int| 0 <= j < i implies s[j] != c by {
            if s[j] == c {
                assert(s.subrange(j, j + 1) =~= seq![c]);
                assert(occurs_at(s, seq![c], j));
            }
        }
        i
    } else {
        assert forall|j: int| 0 <= j < s.len() implies s[j] != c by {
            if s[j] == c {
                assert(s.subrange(j, j + 1) =~= seq![c]);
                assert(occurs_at(s, seq![c], j));
                lemma_first_of_some(s, seq![c], j);
            }
        }
        assert(s.take(s.len() as int) =~= s);
        s.len() as int
    }
}

/// Where a pattern occurs, it occurs first somewhere.
proof fn lemma_first_of_some(s: Seq<char>, pat: Seq<char>, j: int)
    requires
        occurs_at(s, pat, j),
    ensures
        exists|i: int| first_occurrence(s, pat, i),
    decreases j,
{
    if forall|k: int| 0 <= k < j ==> !#[trigger] occurs_at(s, pat, k) {
        assert(first_occurrence(s, pat, j));
    } else {
        let k = choose|k: int| 0 <= k < j && #[trigger] occurs_at(s, pat, k);
        lemma_first_of_some(s, pat, k);
    }
}

/// A proxy accepts the tunnel exactly when `" 200 "` stands somewhere in
/// its reply before the first line end — whatever the HTTP version or the
/// reason text.
pub proof fn law_connect_accepts_any_200_status_line(response: Seq<char>)
    ensures
        spec_connect_succeeded(response) <==> exists|i: int|
            0 <= i && i + 5 <= response.len() && #[trigger] response.subrange(i, i + 5) == " 200 "@
                && forall|j: int| 0 <= j < i + 5 ==> response[j] != '\n',
{
    reveal_strlit(" 200 ");
    let k = lemma_before_first_shape(response, '\n');
    let line = response.take(k);
    if spec_connect_succeeded(response) {
        let i = choose|i: int| occurs_at(line, " 200 "@, i);
        assert(line.subrange(i, i + 5) =~= response.subrange(i, i + 5));
        assert forall|j: int| 0 <= j < i + 5 implies response[j] != '\n' by {}
    }
    if exists|i: int|
        0 <= i && i + 5 <= response.len() && #[trigger] response.subrange(i, i + 5) == " 200 "@
            && forall|j: int| 0 <= j < i + 5 ==> response[j] != '\n' {
        let i = choose|i: int|
            0 <= i && i + 5 <= response.len() && #[trigger] response.subrange(i, i + 5) == " 200 "@
                && forall|j: int| 0 <= j < i + 5 ==> response[j] != '\n';
        if k < i + 5 {
            assert(response[k] == '\n');
        }
        assert(line.subrange(i, i + 5) =~= response.subrange(i, i + 5));
        assert(occurs_at(line, " 200 "@, i));
    }
}

} // verus!
