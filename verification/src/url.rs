//! The `ws://` / `wss://` URL parser: host, ip, port, path, TLS flag,
//! all zero-copy views of the input.
use vstd::prelude::*;
use vstd::string::StrSliceExecFns;

verus! {

/// A parsed WebSocket URL; the fields borrow the parsed text.
#[derive(Debug, PartialEq)]
pub struct WsUrl<'a> {
    pub host: &'a str,
    pub ip: &'a str,
    pub port: u16,
    pub path: &'a str,
    pub secure: bool,
}

/// A parsed WebSocket URL in mathematical form.
pub struct UrlModel {
    pub host: Seq<char>,
    pub ip: Seq<char>,
    pub port: u16,
    pub path: Seq<char>,
    pub secure: bool,
}

impl<'a> View for WsUrl<'a> {
    type V = UrlModel;

    open spec fn view(&self) -> UrlModel {
        UrlModel {
            host: self.host@,
            ip: self.ip@,
            port: self.port,
            path: self.path@,
            secure: self.secure,
        }
    }
}

/// The characters of `ws://`.
pub open spec fn ws_prefix() -> Seq<char> {
    seq!['w', 's', ':', '/', '/']
}

/// The characters of `wss://`.
pub open spec fn wss_prefix() -> Seq<char> {
    seq!['w', 's', 's', ':', '/', '/']
}

/// The position of the first occurrence of `c` in `s` at or after `i`, or
/// the length when there is none.
pub open spec fn find_char(s: Seq<char>, i: int, c: char) -> int
    recommends
        0 <= i <= s.len(),
    decreases s.len() - i,
{
    if i < 0 || i >= s.len() {
        s.len() as int
    } else if s[i] == c {
        i
    } else {
        find_char(s, i + 1, c)
    }
}

/// Whether every character of `s` is a decimal digit.
pub open spec fn all_digits(s: Seq<char>) -> bool {
    forall|i: int| 0 <= i < s.len() ==> 48 <= #[trigger] (s[i] as u32) <= 57
}

/// The decimal value of a digit string.
pub open spec fn dec_chars_val(s: Seq<char>) -> int
    decreases s.len(),
{
    if s.len() == 0 {
        0
    } else {
        dec_chars_val(s.drop_last()) * 10 + (s.last() as u32 - 48)
    }
}

/// A valid port: one or more digits whose value fits 16 bits.
pub open spec fn valid_port(s: Seq<char>) -> bool {
    s.len() > 0 && all_digits(s) && dec_chars_val(s) <= 65535
}

/// The URL grammar: a `ws://` or `wss://` scheme, a host up to the first
/// `/`, inside it an ip up to the first `:` and an optional port, and the
/// rest as path (empty normalises to `/`). A second `:` in the host fails
/// the parse; a host part after `:` that is not a valid port leaves the
/// scheme's default port.
pub open spec fn spec_parse_ws_url(s: Seq<char>) -> Option<UrlModel> {
    let is_ws = s.len() >= 5 && s.take(5) == ws_prefix();
    let is_wss = s.len() >= 6 && s.take(6) == wss_prefix();
    let secure = is_wss;
    let off: int = if is_ws {
        5
    } else {
        6
    };
    if !(is_ws || is_wss) {
        None
    } else {
        let he = find_char(s, off, '/');
        let host = s.subrange(off, he);
        let path = if he == s.len() {
            seq!['/']
        } else {
            s.subrange(he, s.len() as int)
        };
        let ci = find_char(host, 0, ':');
        let ip = host.take(ci);
        if ci < host.len() && find_char(host, ci + 1, ':') < host.len() {
            None
        } else {
            let rest = host.skip(ci + 1);
            let port: u16 = if ci == host.len() {
                if secure {
                    443
                } else {
                    80
                }
            } else if valid_port(rest) {
                dec_chars_val(rest) as u16
            } else {
                if secure {
                    443
                } else {
                    80
                }
            };
            Some(UrlModel { host, ip, port, path, secure })
        }
    }
}

/// The digit prefixes of a digit string never exceed the whole string's
/// value.
proof fn lemma_dec_chars_prefix(s: Seq<char>, k: int)
    requires
        all_digits(s),
        0 <= k <= s.len(),
    ensures
        0 <= dec_chars_val(s.take(k)) <= dec_chars_val(s),
        k < s.len() ==> dec_chars_val(s.take(k + 1)) == dec_chars_val(s.take(k)) * 10 + (s[k]
            as u32 - 48),
    decreases s.len(),
{
    if s.len() == 0 {
    } else {
        assert(s.drop_last() =~= s.take(s.len() - 1));
        assert(all_digits(s.drop_last()));
        lemma_dec_chars_prefix(s.drop_last(), if k <= s.len() - 1 {
            k
        } else {
            k - 1
        });
        if k == s.len() {
            assert(s.take(k) =~= s);
        } else {
            assert(s.take(k) =~= s.drop_last().take(k));
            if k < s.len() - 1 {
                assert(s.take(k + 1) =~= s.drop_last().take(k + 1));
                assert(s.drop_last()[k] == s[k]);
            } else {
                assert(s.take(k + 1) =~= s);
                assert(s.take(k + 1).drop_last() =~= s.take(k));
            }
            assert(dec_chars_val(s) == dec_chars_val(s.drop_last()) * 10 + (s.last() as u32 - 48));
            assert(dec_chars_val(s.drop_last()) <= dec_chars_val(s));
        }
    }
}

/// Parses the decimal value of the characters of `s`: their value when
/// they are one or more digits not above 65535, nothing otherwise.
fn parse_port(s: &str) -> (r: Option<u16>)
    ensures
        valid_port(s@) ==> r == Some((dec_chars_val(s@) as u16)),
        !valid_port(s@) ==> r is None,
{
    let n = s.unicode_len();
    if n == 0 {
        return None;
    }
    let mut acc: u32 = 0;
    let mut i: usize = 0;
    proof {
        assert(s@.take(0) =~= Seq::<char>::empty());
    }
    while i < n
        invariant
            0 <= i <= n,
            n == s@.len(),
            all_digits(s@.take(i as int)),
            acc == dec_chars_val(s@.take(i as int)),
            acc <= 65535,
        decreases n - i,
    {
        let c = s.get_char(i);
        let v = c as u32;
        if v < 48 || v > 57 {
            assert(!all_digits(s@));
            return None;
        }
        proof {
            assert(s@.take(i + 1).drop_last() =~= s@.take(i as int));
            assert(all_digits(s@.take(i + 1)));
        }
        let next = acc * 10 + (v - 48);
        if next > 65535 {
            proof {
                if all_digits(s@) {
                    lemma_dec_chars_prefix(s@, i + 1);
                    assert(dec_chars_val(s@.take(i + 1)) == next);
                    assert(dec_chars_val(s@) >= next > 65535);
                }
            }
            return None;
        }
        acc = next;
        i += 1;
    }
    proof {
        assert(s@.take(n as int) =~= s@);
    }
    Some(acc as u16)
}

impl WsUrl<'_> {
    /// Parses a WebSocket URL; `None` when the scheme is neither `ws` nor
    /// `wss` or the host carries a second `:`.
    pub fn from_str<'a>(ws_url: &'a str) -> (r: Option<WsUrl<'a>>)
        ensures
            r matches Some(u) ==> spec_parse_ws_url(ws_url@) == Some(u@),
            r is None ==> spec_parse_ws_url(ws_url@) is None,
    {
        let s = ws_url;
        let n = s.unicode_len();
        let ws_ok = n >= 5 && s.get_char(0) == 'w' && s.get_char(1) == 's' && s.get_char(2) == ':'
            && s.get_char(3) == '/' && s.get_char(4) == '/';
        let wss_ok = n >= 6 && s.get_char(0) == 'w' && s.get_char(1) == 's' && s.get_char(2) == 's'
            && s.get_char(3) == ':' && s.get_char(4) == '/' && s.get_char(5) == '/';
        proof {
            if n >= 5 {
                assert(s@.take(5) =~= ws_prefix() <==> (s@[0] == 'w' && s@[1] == 's' && s@[2]
                    == ':' && s@[3] == '/' && s@[4] == '/'));
            }
            if n >= 6 {
                assert(s@.take(6) =~= wss_prefix() <==> (s@[0] == 'w' && s@[1] == 's' && s@[2]
                    == 's' && s@[3] == ':' && s@[4] == '/' && s@[5] == '/'));
            }
            assert(ws_ok == (n >= 5 && s@.take(5) == ws_prefix()));
            assert(wss_ok == (n >= 6 && s@.take(6) == wss_prefix()));
        }
        let secure: bool;
        let off: usize;
        if ws_ok {
            secure = false;
            off = 5;
        } else if wss_ok {
            secure = true;
            off = 6;
        } else {
            return None;
        }
        let mut he: usize = off;
        while he < n && s.get_char(he) != '/'
            invariant
                off <= he <= n,
                n == s@.len(),
                find_char(s@, off as int, '/') == find_char(s@, he as int, '/'),
            decreases n - he,
        {
            he += 1;
        }
        proof {
            assert(find_char(s@, he as int, '/') == he);
        }
        let host = s.substring_char(off, he);
        let path = if he == n {
            proof {
                reveal_strlit("/");
            }
            "/"
        } else {
            s.substring_char(he, n)
        };
        proof {
            assert(he == n ==> path@ =~= seq!['/']);
        }
        let hn = host.unicode_len();
        let mut ci: usize = 0;
        while ci < hn && host.get_char(ci) != ':'
            invariant
                0 <= ci <= hn,
                hn == host@.len(),
                find_char(host@, 0, ':') == find_char(host@, ci as int, ':'),
            decreases hn - ci,
        {
            ci += 1;
        }
        proof {
            assert(find_char(host@, 0, ':') == ci);
        }
        let ip = host.substring_char(0, ci);
        proof {
            assert(ip@ =~= host@.take(ci as int));
        }
        let port: u16;
        if ci == hn {
            port = if secure {
                443
            } else {
                80
            };
        } else {
            let mut cj: usize = ci + 1;
            while cj < hn && host.get_char(cj) != ':'
                invariant
                    ci + 1 <= cj <= hn,
                    hn == host@.len(),
                    find_char(host@, ci + 1, ':') == find_char(host@, cj as int, ':'),
                decreases hn - cj,
            {
                cj += 1;
            }
            proof {
                assert(find_char(host@, ci + 1, ':') == cj);
            }
            if cj < hn {
                return None;
            }
            let rest = host.substring_char(ci + 1, hn);
            proof {
                assert(rest@ =~= host@.skip(ci + 1));
            }
            port = match parse_port(rest) {
                Some(p) => p,
                None => if secure {
                    443
                } else {
                    80
                },
            };
        }
        Some(WsUrl { host, ip, port, path, secure })
    }
}

/// A parsed WebSocket URL that owns its text.
#[derive(Debug, PartialEq)]
pub struct WsUrlOwned {
    pub host: String,
    pub ip: String,
    pub port: u16,
    pub path: String,
    pub secure: bool,
}

impl WsUrlOwned {
    /// An owning copy of a parsed URL.
    pub fn new(ws_url: &WsUrl<'_>) -> (r: WsUrlOwned)
        ensures
            r.host@ == ws_url@.host,
            r.ip@ == ws_url@.ip,
            r.port == ws_url@.port,
            r.path@ == ws_url@.path,
            r.secure == ws_url@.secure,
    {
        WsUrlOwned {
            host: ws_url.host.to_owned(),
            ip: ws_url.ip.to_owned(),
            port: ws_url.port,
            path: ws_url.path.to_owned(),
            secure: ws_url.secure,
        }
    }
}

} // verus!
