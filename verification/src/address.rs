//! The address the broker announces for its TCP listener.
use crate::render::{decimal, decimal_text};
use crate::rpc::{owned, TCP_ADDR};
use crate::signature::{chars_of, parse_i64, parse_int};
use vstd::prelude::*;
use vstd::string::StrSliceExecFns;

verus! {

/// What follows the last `:` of `s`, or all of `s` if it has none.
pub open spec fn after_last_colon(s: Seq<char>) -> Seq<char>
    decreases s.len(),
{
    if s.len() == 0 {
        s
    } else if s.last() == ':' {
        Seq::empty()
    } else {
        after_last_colon(s.drop_last()).push(s.last())
    }
}

/// The 16-bit unsigned integer a word writes: an optional `+` and decimal
/// digits, at most 65535.
pub open spec fn parse_port(s: Seq<char>) -> Option<int> {
    if s.len() > 0 && s[0] == '-' {
        None
    } else {
        match parse_int(s) {
            Some(v) => if 0 <= v <= 65535 {
                Some(v)
            } else {
                None
            },
            None => None,
        }
    }
}

/// The port of the broker's TCP address, or 5123 if it names none.
pub open spec fn broker_port() -> int {
    match parse_port(after_last_colon(TCP_ADDR@)) {
        Some(p) => p,
        None => 5123,
    }
}

/// The address to announce: the local IP with the broker's port, or the
/// listener's own address when the local IP is unknown.
pub open spec fn announced_address(ip: Option<Seq<char>>) -> Seq<char> {
    match ip {
        Some(ip) => ip + ":"@ + decimal(broker_port() as nat),
        None => TCP_ADDR@,
    }
}

/// Reads a port number.
pub fn parse_port_number(word: &str) -> (r: Option<u16>)
    ensures
        match r {
            Some(p) => parse_port(word@) == Some(p as int),
            None => parse_port(word@) is None,
        },
{
    let n = word.unicode_len();
    if n > 0 && word.get_char(0) == '-' {
        return None;
    }
    match parse_i64(word) {
        Some(v) => if 0 <= v && v <= 65535 {
            Some(v as u16)
        } else {
            None
        },
        None => None,
    }
}

/// The port of the broker's TCP address.
pub fn tcp_port() -> (p: u16)
    ensures
        p == broker_port(),
{
    let chars = chars_of(TCP_ADDR);
    let n = chars.len();
    let mut k: usize = n;
    proof {
        assert(chars@.take(n as int) =~= chars@);
        assert(after_last_colon(TCP_ADDR@) + chars@.subrange(n as int, n as int) =~= after_last_colon(TCP_ADDR@));
    }
    while k > 0
        invariant
            k <= n,
            n == chars@.len(),
            chars@ == TCP_ADDR@,
            after_last_colon(TCP_ADDR@) == after_last_colon(chars@.take(k as int)) + chars@.subrange(k as int, n as int),
        ensures
            k <= n,
            n == chars@.len(),
            chars@ == TCP_ADDR@,
            after_last_colon(TCP_ADDR@) == after_last_colon(chars@.take(k as int)) + chars@.subrange(k as int, n as int),
            k == 0 || chars@[k - 1] == ':',
        decreases k,
    {
        if chars[k - 1] == ':' {
            break;
        }
        proof {
            let t = chars@.take(k as int);
            assert(t.drop_last() =~= chars@.take(k - 1));
            assert(chars@.subrange(k - 1, n as int) =~= seq![chars@[k - 1]] + chars@.subrange(k as int, n as int));
            assert(after_last_colon(t) == after_last_colon(chars@.take(k - 1)).push(chars@[k - 1]));
            assert(after_last_colon(chars@.take(k - 1)).push(chars@[k - 1]) + chars@.subrange(k as int, n as int)
                =~= after_last_colon(chars@.take(k - 1)) + chars@.subrange(k - 1, n as int));
        }
        k = k - 1;
    }
    proof {
        if k > 0 {
            assert(chars@.take(k as int).last() == ':');
        }
        assert(after_last_colon(chars@.take(k as int)) =~= Seq::<char>::empty());
        assert(after_last_colon(TCP_ADDR@) =~= chars@.subrange(k as int, n as int));
    }
    let rest = TCP_ADDR.substring_char(k, n);
    match parse_port_number(rest) {
        Some(p) => p,
        None => 5123,
    }
}

/// Asks the operating system, through `local_ip_address::local_ip`, for
/// this machine's local IP address and formats it with `IpAddr`'s
/// `Display`; `None` when the call fails. Nothing is promised of the
/// address, which depends on the machine.
#[verifier::external_body]
fn local_ip_text() -> Option<String> {
    match local_ip_address::local_ip() {
        Ok(ip) => Some(ip.to_string()),
        Err(_) => None,
    }
}

/// The address to announce for a local IP address, if one is known.
pub fn local_ip_port(ip: Option<String>) -> (addr: String)
    ensures
        addr@ == announced_address(
            match ip {
                Some(s) => Some(s@),
                None => None,
            },
        ),
{
    match ip {
        Some(ip) => {
            let port = decimal_text(tcp_port() as u64);
            ip.concat(":").concat(port.as_str())
        },
        None => owned(TCP_ADDR),
    }
}

/// The address the broker announces: this machine's local IP with the
/// broker's port, or the listener's own address when the local IP cannot be
/// found.
pub fn get_local_ip_port() -> (addr: String)
    ensures
        exists|ip: Option<Seq<char>>| addr@ == announced_address(ip),
{
    let ip = local_ip_text();
    let ghost v = match &ip {
        Some(s) => Some(s@),
        None => None,
    };
    let addr = local_ip_port(ip);
    proof {
        assert(addr@ == announced_address(v));
    }
    addr
}

/// The broker's `APP_MODE` setting.
#[derive(Debug, Clone, Copy, PartialEq, Eq)]
pub enum ListenMode {
    /// `debug`: the development setting.
    Debug,
    /// `release`: the production setting, also taken when none is given.
    Release,
    /// Any other value: treated as `release`, and worth a warning.
    Unknown,
}

/// The mode a setting names.
pub fn listen_mode(mode: &str) -> (m: ListenMode)
    ensures
        m == (if mode@ == "debug"@ {
            ListenMode::Debug
        } else if mode@ == "release"@ {
            ListenMode::Release
        } else {
            ListenMode::Unknown
        }),
{
    let mode = owned(mode);
    if mode == owned("debug") {
        ListenMode::Debug
    } else if mode == owned("release") {
        ListenMode::Release
    } else {
        ListenMode::Unknown
    }
}

/// The listeners the broker starts for a setting, and whether it warns that
/// the setting is unknown.
#[derive(Debug, Clone, Copy, PartialEq, Eq)]
pub struct ListenPlan {
    /// The TCP listener on the announced address.
    pub tcp: bool,
    /// The local listener: the Unix socket, or the named pipe on Windows.
    pub local: bool,
    /// Whether the setting is neither `debug` nor `release`.
    pub warn_unknown: bool,
}

/// What the broker listens on under setting `mode`: in every mode both on
/// TCP and on the local transport; an unknown setting is reported.
pub fn listen_plan(mode: &str) -> (p: ListenPlan)
    ensures
        p.tcp,
        p.local,
        p.warn_unknown == !(mode@ == "debug"@ || mode@ == "release"@),
{
    let m = listen_mode(mode);
    let warn_unknown = match m {
        ListenMode::Unknown => true,
        _ => false,
    };
    ListenPlan { tcp: true, local: true, warn_unknown }
}

} // verus!
