//! Runtime configuration of the gateway process.
//!
//! Loading values from the environment happens at the process edge; this
//! module holds the configuration itself and the address formatting the
//! listeners bind with.

use vstd::prelude::*;
use vstd::string::StringExecFns;
use vstd::string::StrSliceExecFns;

verus! {

/// Gateway configuration.
#[derive(Clone, Debug, PartialEq)]
pub struct Config {
    /// Host the HTTP server binds on.
    pub server_host: String,
    /// Port the HTTP server binds on.
    pub server_port: u16,
    /// Host the websocket listener binds on.
    pub ws_host: String,
    /// Port the websocket listener binds on.
    pub ws_port: u16,
    /// Log filter level.
    pub level: String,
    /// Session store connection string.
    pub redis_url: String,
    /// Key the session cookies are signed with.
    pub cookie_key: String,
}

/// The character for a single decimal digit.
pub open spec fn digit_char(d: nat) -> char {
    ((48 + d) as u8) as char
}

/// Decimal notation of a number, most significant digit first, no leading
/// zeros (a single zero for zero).
pub open spec fn spec_dec(n: nat) -> Seq<char>
    decreases n,
{
    if n < 10 {
        seq![digit_char(n)]
    } else {
        spec_dec(n / 10) + seq![digit_char(n % 10)]
    }
}

/// The one-character string for a digit.
fn digit_str(d: u64) -> (r: &'static str)
    requires
        d < 10,
    ensures
        r@ == seq![digit_char(d as nat)],
{
    proof {
        reveal_strlit("0");
        reveal_strlit("1");
        reveal_strlit("2");
        reveal_strlit("3");
        reveal_strlit("4");
        reveal_strlit("5");
        reveal_strlit("6");
        reveal_strlit("7");
        reveal_strlit("8");
        reveal_strlit("9");
    }
    let r = match d {
        0 => "0",
        1 => "1",
        2 => "2",
        3 => "3",
        4 => "4",
        5 => "5",
        6 => "6",
        7 => "7",
        8 => "8",
        _ => "9",
    };
    proof {
        assert(r@ =~= seq![digit_char(d as nat)]);
    }
    r
}

/// Decimal notation of `n`.
pub fn u64_dec(n: u64) -> (r: String)
    ensures
        r@ == spec_dec(n as nat),
{
    if n < 10 {
        return String::from_str(digit_str(n));
    }
    let mut cur: u64 = n;
    let mut res = String::new();
    while cur >= 10
        invariant
            spec_dec(n as nat) == spec_dec(cur as nat) + res@,
        decreases cur,
    {
        let d = cur % 10;
        cur = cur / 10;
        let mut piece = String::from_str(digit_str(d));
        piece.append(res.as_str());
        res = piece;
        proof {
            assert(spec_dec(n as nat) =~= spec_dec(cur as nat) + res@);
        }
    }
    let mut out = String::from_str(digit_str(cur));
    out.append(res.as_str());
    proof {
        assert(spec_dec(cur as nat) =~= seq![digit_char(cur as nat)]);
        assert(out@ =~= spec_dec(n as nat));
    }
    out
}

impl Config {
    /// `host:port` the HTTP server binds on.
    pub fn server_url(&self) -> (r: String)
        ensures
            r@ == self.server_host@ + seq![':'] + spec_dec(self.server_port as nat),
    {
        proof {
            reveal_strlit(":");
        }
        let port = u64_dec(self.server_port as u64);
        let r = self.server_host.clone().concat(":").concat(port.as_str());
        proof {
            assert(r@ =~= self.server_host@ + seq![':'] + spec_dec(self.server_port as nat));
        }
        r
    }

    /// `host:port` the websocket listener binds on.
    pub fn ws_url(&self) -> (r: String)
        ensures
            r@ == self.ws_host@ + seq![':'] + spec_dec(self.ws_port as nat),
    {
        proof {
            reveal_strlit(":");
        }
        let port = u64_dec(self.ws_port as u64);
        let r = self.ws_host.clone().concat(":").concat(port.as_str());
        proof {
            assert(r@ =~= self.ws_host@ + seq![':'] + spec_dec(self.ws_port as nat));
        }
        r
    }

    /// Override the HTTP server port.
    pub fn set_port(&mut self, port: u16)
        ensures
            *final(self) == (Config { server_port: port, ..*old(self) }),
    {
        self.server_port = port;
    }
}

} // verus!
