//! The rules of the feed driver loop: reconnect backoff, which proxy to
//! tunnel through, where a websocket URL's CONNECT target is, and when a
//! venue needs a client-side keep-alive ping.

use vstd::prelude::*;

use crate::exchange::Venue;
use crate::proxy::{parse_proxy_addr, spec_parse_proxy_addr};
use crate::text::{
    before_first, parse_u16, prefix_before, spec_parse_u16, split_at_last, split_last, str_chars,
    string_from_chars,
};

verus! {

/// A connection counts as stable once held open longer than this many
/// nanoseconds (30 s).
pub const STABILITY_WINDOW_NANOS: u64 = 30_000_000_000;

/// The longest reconnect delay, in seconds.
pub const MAX_DELAY_SECS: u64 = 30;

/// Exponential reconnect backoff: 1s, 2s, 4s, 8s, 16s, then capped at 30s.
pub struct Backoff {
    attempt: u32,
}

/// The delay, in seconds, before reconnect attempt number `attempt`:
/// 2^attempt seconds capped at 30.
pub open spec fn spec_delay(attempt: u32) -> u64 {
    if attempt == 0 {
        1
    } else if attempt == 1 {
        2
    } else if attempt == 2 {
        4
    } else if attempt == 3 {
        8
    } else if attempt == 4 {
        16
    } else {
        30
    }
}

impl Backoff {
    /// How many delays have been handed out since the last reset.
    pub closed spec fn attempt(&self) -> u32 {
        self.attempt
    }

    /// A backoff at its first attempt.
    pub fn new() -> (b: Backoff)
        ensures
            b.attempt() == 0,
    {
        Backoff { attempt: 0 }
    }

    /// 2^attempt seconds, capped at 30s, then advances to the next attempt
    /// (staying put at `u32::MAX`).
    pub fn next_delay(&mut self) -> (secs: u64)
        ensures
            secs == spec_delay(old(self).attempt()),
            final(self).attempt() == if old(self).attempt() == u32::MAX {
                u32::MAX
            } else {
                (old(self).attempt() + 1) as u32
            },
    {
        let a = self.attempt;
        let secs: u64 = if a < 64 {
            let s = 1u64 << a;
            assert(a == 0 ==> s == 1) by (bit_vector)
                requires
                    s == 1u64 << a,
            ;
            assert(a == 1 ==> s == 2) by (bit_vector)
                requires
                    s == 1u64 << a,
            ;
            assert(a == 2 ==> s == 4) by (bit_vector)
                requires
                    s == 1u64 << a,
            ;
            assert(a == 3 ==> s == 8) by (bit_vector)
                requires
                    s == 1u64 << a,
            ;
            assert(a == 4 ==> s == 16) by (bit_vector)
                requires
                    s == 1u64 << a,
            ;
            assert(5 <= a < 64 ==> s >= 32) by (bit_vector)
                requires
                    s == 1u64 << a,
            ;
            s
        } else {
            u64::MAX
        };
        let capped = if secs < MAX_DELAY_SECS {
            secs
        } else {
            MAX_DELAY_SECS
        };
        self.attempt = self.attempt.saturating_add(1);
        capped
    }

    /// Resets the backoff only once the connection made at `connected_at`
    /// had been open longer than the stability window by `now` (both in
    /// nanoseconds on one monotonic clock) — not on a mere connect, or a
    /// venue that connects then drops instantly would never back off.
    pub fn reset_if_stable(&mut self, connected_at: u64, now: u64)
        ensures
            final(self).attempt() == if elapsed(connected_at, now) > STABILITY_WINDOW_NANOS {
                0
            } else {
                old(self).attempt()
            },
    {
        let held = if now > connected_at {
            now - connected_at
        } else {
            0
        };
        if held > STABILITY_WINDOW_NANOS {
            self.attempt = 0;
        }
    }
}

/// Successive reconnect delays never shrink until a reset, are at least one
/// second, and never exceed the cap.
pub proof fn law_backoff_delays_grow_to_cap(a: u32, b: u32)
    requires
        a <= b,
    ensures
        1 <= spec_delay(a) <= spec_delay(b) <= MAX_DELAY_SECS,
{
}

/// The time from `earlier` to `later`, zero if `later` is not after it
/// (`Instant::duration_since`).
pub open spec fn elapsed(earlier: u64, later: u64) -> u64 {
    if later > earlier {
        (later - earlier) as u64
    } else {
        0
    }
}

/// `url` without a leading `wss://`.
pub open spec fn without_wss(url: Seq<char>) -> Seq<char> {
    if url.len() >= 6 && url.take(6) == "wss://"@ {
        url.skip(6)
    } else {
        url
    }
}

/// The `(host, port)` to tunnel to for a `wss://host[:port]/path` URL: the
/// authority's port if it parses, else 443.
pub open spec fn spec_connect_target(url: Seq<char>) -> (Seq<char>, u16) {
    let authority = before_first(without_wss(url), '/');
    match split_at_last(authority, ':') {
        Some((host, port)) => (
            host,
            match spec_parse_u16(port) {
                Some(p) => p,
                None => 443,
            },
        ),
        None => (authority, 443),
    }
}

/// Parses `(host, port)` out of a `wss://host[:port]/path` URL for the
/// proxy CONNECT tunnel; the port defaults to 443.
pub fn parse_connect_target(url: &str) -> (r: (String, u16))
    ensures
        (r.0@, r.1) == spec_connect_target(url@),
{
    let cs = str_chars(url);
    let prefix = ['w', 's', 's', ':', '/', '/'];
    proof {
        reveal_strlit("wss://");
    }
    let mut starts = cs.len() >= 6;
    let mut k: usize = 0;
    while starts && k < 6
        invariant
            0 <= k <= 6,
            starts ==> cs@.len() >= 6,
            starts == (cs@.len() >= 6 && forall|m: int| 0 <= m < k ==> cs@[m] == prefix@[m]),
        decreases 6 - k,
    {
        if cs[k] != prefix[k] {
            starts = false;
        }
        k = k + 1;
    }
    proof {
        if cs@.len() >= 6 {
            if starts {
                assert(cs@.take(6) =~= prefix@);
            } else {
                let m = choose|m: int| 0 <= m < k && cs@[m] != prefix@[m];
                assert(cs@.take(6)[m] != prefix@[m]);
            }
        }
        assert(prefix@ == "wss://"@);
    }
    let rest = if starts {
        let n = cs.len();
        crate::text::subrange_of(&cs, 6, n)
    } else {
        crate::text::subrange_of(&cs, 0, cs.len())
    };
    assert(rest@ == without_wss(url@)) by {
        if starts {
            assert(cs@.skip(6) =~= cs@.subrange(6, cs@.len() as int));
        } else {
            assert(cs@.subrange(0, cs@.len() as int) =~= cs@);
        }
    }
    let authority = prefix_before(&rest, '/');
    match split_last(&authority, ':') {
        Some((host, port)) => {
            let p = match parse_u16(port.as_slice()) {
                Some(p) => p,
                None => 443,
            };
            (string_from_chars(host.as_slice()), p)
        },
        None => (string_from_chars(authority.as_slice()), 443),
    }
}

/// The proxy a feed tunnels through, given the `HTTPS_PROXY` and
/// `HTTP_PROXY` settings (`None` when unset): `HTTPS_PROXY` when set, else
/// `HTTP_PROXY`; nothing if that value is empty or does not parse as
/// `host:port`.
pub open spec fn spec_proxy_addr(https: Option<Seq<char>>, http: Option<Seq<char>>) -> Option<
    (Seq<char>, u16),
> {
    let raw = match https {
        Some(v) => Some(v),
        None => http,
    };
    match raw {
        Some(v) => if v.len() == 0 {
            None
        } else {
            spec_parse_proxy_addr(v)
        },
        None => None,
    }
}

/// Picks the proxy to tunnel through from the `HTTPS_PROXY`/`HTTP_PROXY`
/// settings. A bad value means connecting directly rather than failing.
pub fn proxy_addr(https: Option<String>, http: Option<String>) -> (r: Option<(String, u16)>)
    ensures
        r is None <==> spec_proxy_addr(
            match https {
                Some(v) => Some(v@),
                None => None,
            },
            match http {
                Some(v) => Some(v@),
                None => None,
            },
        ) is None,
        r matches Some((h, p)) ==> spec_proxy_addr(
            match https {
                Some(v) => Some(v@),
                None => None,
            },
            match http {
                Some(v) => Some(v@),
                None => None,
            },
        ) == Some((h@, p)),
{
    let raw = match https {
        Some(v) => v,
        None => match http {
            Some(v) => v,
            None => return None,
        },
    };
    let cs = str_chars(raw.as_str());
    if cs.len() == 0 {
        return None;
    }
    parse_proxy_addr(raw.as_str())
}

/// How long a venue's connection may sit idle, in seconds, before the
/// client sends its own ping: Kraken drops connections idle for 60s, so it
/// gets one at 30s; the others answer the server's pings and need none.
pub fn idle_ping_secs(venue: Venue) -> (r: Option<u64>)
    ensures
        r == (if venue == Venue::Kraken {
            Some(30u64)
        } else {
            None::<u64>
        }),
{
    match venue {
        Venue::Kraken => Some(30),
        _ => None,
    }
}

} // verus!
