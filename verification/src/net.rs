//! Plain-text parsing at the gateway's network edge: request URLs for the
//! forwarding proxy and symbol normalisation for the public market-data
//! routes.

use crate::error::Error;
use crate::error::bad_request;
use crate::px::digits_val;
use crate::px::is_dec_digit;
use crate::px::lemma_digits_val_append;
use vstd::prelude::*;
use vstd::string::StrSliceExecFns;
use vstd::string::StringExecFns;

verus! {

/// Index of the first occurrence of `c` (meaningful only when one exists).
pub open spec fn first_idx(s: Seq<char>, c: char) -> int
    decreases s.len(),
{
    if s.len() == 0 {
        0
    } else if s[0] == c {
        0
    } else {
        1 + first_idx(s.subrange(1, s.len() as int), c)
    }
}

/// The string holds the character somewhere.
pub open spec fn has_char(s: Seq<char>, c: char) -> bool {
    exists|i: int| 0 <= i < s.len() && s[i] == c
}

/// The first occurrence is the position before which the character does not
/// stand.
proof fn lemma_first_idx_at(s: Seq<char>, c: char, j: int)
    requires
        0 <= j < s.len(),
        s[j] == c,
        forall|k: int| 0 <= k < j ==> s[k] != c,
    ensures
        first_idx(s, c) == j,
    decreases j,
{
    if j > 0 {
        let t = s.subrange(1, s.len() as int);
        lemma_first_idx_at(t, c, j - 1);
    }
}

/// The scheme every proxied URL must carry.
pub open spec fn spec_http_prefix() -> Seq<char> {
    seq!['h', 't', 't', 'p', ':', '/', '/']
}

/// `host:port` part of the URL: what stands between the scheme and the first
/// slash.
pub open spec fn spec_host_port(u: Seq<char>) -> Seq<char> {
    let rest = u.skip(7);
    if has_char(rest, '/') {
        rest.take(first_idx(rest, '/'))
    } else {
        rest
    }
}

/// Path part of the URL: from the first slash after the scheme on, or `/`
/// when there is none.
pub open spec fn spec_path(u: Seq<char>) -> Seq<char> {
    let rest = u.skip(7);
    if has_char(rest, '/') {
        rest.skip(first_idx(rest, '/'))
    } else {
        seq!['/']
    }
}

/// Host part of the URL: the host-port text up to its first colon.
pub open spec fn spec_host(u: Seq<char>) -> Seq<char> {
    let hp = spec_host_port(u);
    if has_char(hp, ':') {
        hp.take(first_idx(hp, ':'))
    } else {
        hp
    }
}

/// Port of the URL: the decimal number after the host's colon, defaulting to
/// 80; `None` when the port text is empty, not a number, or too large.
pub open spec fn spec_port(u: Seq<char>) -> Option<u16> {
    let hp = spec_host_port(u);
    if !has_char(hp, ':') {
        Some(80u16)
    } else {
        let txt = hp.skip(first_idx(hp, ':') + 1);
        if txt.len() >= 1 && (forall|i: int| 0 <= i < txt.len() ==> is_dec_digit(#[trigger] txt[i]))
            && digits_val(txt) <= 65535 {
            Some(digits_val(txt) as u16)
        } else {
            None
        }
    }
}

/// Split a proxied URL into host, port and path. Only `http://` URLs are
/// supported; the port defaults to 80 and must fit the port range.
pub fn parse_http_url(url: &str) -> (r: Result<(String, u16, String), Error>)
    ensures
        r is Ok <==> url@.len() >= 7 && url@.take(7) == spec_http_prefix() && spec_port(
            url@,
        ) is Some,
        r is Ok ==> ({
            let out = r->Ok_0;
            &&& out.0@ == spec_host(url@)
            &&& out.1 == spec_port(url@)->0
            &&& out.2@ == spec_path(url@)
        }),
        r is Err ==> r->Err_0 is BadRequestError,
{
    let n = url.unicode_len();
    if n < 7 {
        return Err(bad_request("Only http:// URLs are supported"));
    }
    let ok_prefix = url.get_char(0) as u32 == 104 && url.get_char(1) as u32 == 116 && url.get_char(
        2,
    ) as u32 == 116 && url.get_char(3) as u32 == 112 && url.get_char(4) as u32 == 58
        && url.get_char(5) as u32 == 47 && url.get_char(6) as u32 == 47;
    proof {
        if ok_prefix {
            assert(url@.take(7) =~= spec_http_prefix());
        } else {
            if url@.take(7) == spec_http_prefix() {
                assert(url@[0] == url@.take(7)[0]);
                assert(url@[1] == url@.take(7)[1]);
                assert(url@[2] == url@.take(7)[2]);
                assert(url@[3] == url@.take(7)[3]);
                assert(url@[4] == url@.take(7)[4]);
                assert(url@[5] == url@.take(7)[5]);
                assert(url@[6] == url@.take(7)[6]);
                assert(false);
            }
        }
    }
    if !ok_prefix {
        return Err(bad_request("Only http:// URLs are supported"));
    }
    let ghost rest = url@.skip(7);
    // find the first slash after the scheme
    let mut i: usize = 7;
    let mut slash: Option<usize> = None;
    while i < n
        invariant
            7 <= i <= n,
            n == url@.len(),
            rest == url@.skip(7),
            match slash {
                Some(j) => 7 <= j < n && i == n && url@[j as int] == '/' && (forall|k: int|
                    7 <= k < j ==> url@[k] != '/'),
                None => forall|k: int| 7 <= k < i ==> url@[k] != '/',
            },
        decreases n - i,
    {
        if url.get_char(i) as u32 == 47 {
            slash = Some(i);
            i = n;
        } else {
            i += 1;
        }
    }
    let hp_end: usize = match slash {
        Some(j) => j,
        None => n,
    };
    proof {
        match slash {
            Some(j) => {
                assert(rest[j - 7] == url@[j as int]);
                assert(forall|k: int| 0 <= k < j - 7 ==> rest[k] == url@[k + 7]);
                lemma_first_idx_at(rest, '/', j - 7);
                assert(rest[j - 7] == '/');
                assert(has_char(rest, '/'));
                assert(spec_host_port(url@) =~= url@.subrange(7, hp_end as int));
                assert(spec_path(url@) =~= url@.subrange(hp_end as int, n as int));
            },
            None => {
                assert(forall|k: int| 0 <= k < rest.len() ==> rest[k] == url@[k + 7]);
                assert(!has_char(rest, '/'));
                assert(spec_host_port(url@) =~= url@.subrange(7, hp_end as int));
            },
        }
    }
    let ghost hp = spec_host_port(url@);
    // find the first colon within the host-port text
    let mut i2: usize = 7;
    let mut colon: Option<usize> = None;
    while i2 < hp_end
        invariant
            7 <= i2 <= hp_end <= n,
            n == url@.len(),
            hp == url@.subrange(7, hp_end as int),
            match colon {
                Some(j) => 7 <= j < hp_end && i2 == hp_end && url@[j as int] == ':' && (forall|k: int|
                    7 <= k < j ==> url@[k] != ':'),
                None => forall|k: int| 7 <= k < i2 ==> url@[k] != ':',
            },
        decreases hp_end - i2,
    {
        if url.get_char(i2) as u32 == 58 {
            colon = Some(i2);
            i2 = hp_end;
        } else {
            i2 += 1;
        }
    }
    let host_end: usize = match colon {
        Some(j) => j,
        None => hp_end,
    };
    proof {
        assert(forall|k: int| 0 <= k < hp.len() ==> hp[k] == url@[k + 7]);
        match colon {
            Some(j) => {
                assert(hp[j - 7] == url@[j as int]);
                lemma_first_idx_at(hp, ':', j - 7);
                assert(has_char(hp, ':'));
                assert(spec_host(url@) =~= url@.subrange(7, host_end as int));
            },
            None => {
                assert(!has_char(hp, ':'));
                assert(spec_host(url@) =~= url@.subrange(7, host_end as int));
            },
        }
    }
    let host = url.substring_char(7, host_end).to_owned();
    // the port: digits after the colon, defaulting to 80
    let port: u16 = match colon {
        Some(j) => {
            let ghost txt = hp.skip(j - 7 + 1);
            proof {
                assert(txt =~= url@.subrange(j + 1, hp_end as int));
            }
            if j + 1 == hp_end {
                return Err(bad_request("Invalid port"));
            }
            let mut k: usize = j + 1;
            let mut val: u32 = 0;
            while k < hp_end
                invariant
                    j + 1 <= k <= hp_end <= n,
                    n == url@.len(),
                    hp == spec_host_port(url@),
                    has_char(hp, ':'),
                    first_idx(hp, ':') == j - 7,
                    7 <= j,
                    txt == hp.skip(j - 7 + 1),
                    txt == url@.subrange(j as int + 1, hp_end as int),
                    forall|t: int| j + 1 <= t < k ==> is_dec_digit(#[trigger] url@[t]),
                    val == digits_val(txt.take(k - (j + 1))),
                    val <= 65535,
                decreases hp_end - k,
            {
                let cu = url.get_char(k) as u32;
                proof {
                    assert(txt.take(k - j) =~= txt.take(k - (j + 1)).push(url@[k as int]));
                    crate::px::lemma_digits_val_push(txt.take(k - (j + 1)), url@[k as int]);
                }
                if cu < 48 || cu > 57 {
                    proof {
                        assert(txt[k - (j + 1)] == url@[k as int]);
                        assert(!is_dec_digit(txt[k - (j + 1)]));
                    }
                    return Err(bad_request("Invalid port"));
                }
                let v2 = val * 10 + (cu - 48);
                if v2 > 65535 {
                    proof {
                        assert(digits_val(txt.take(k - j)) == v2);
                        assert(txt =~= txt.take(k - j) + txt.skip(k - j));
                        lemma_digits_val_append(txt.take(k - j), txt.skip(k - j));
                        assert(digits_val(txt) > 65535);
                    }
                    return Err(bad_request("Invalid port"));
                }
                val = v2;
                k += 1;
            }
            proof {
                assert(txt.take(hp_end - (j + 1)) =~= txt);
            }
            val as u16
        },
        None => 80,
    };
    let path: String = match slash {
        Some(j) => url.substring_char(j, n).to_owned(),
        None => {
            proof {
                reveal_strlit("/");
                assert("/"@ =~= seq!['/']);
            }
            String::from_str("/")
        },
    };
    Ok((host, port, path))
}

/// The ASCII-uppercase image of one character.
pub open spec fn spec_to_ascii_upper(c: char) -> char {
    if 97 <= c as u32 && c as u32 <= 122 {
        ((c as u32 - 32) as u8) as char
    } else {
        c
    }
}

/// The uppercase letter for a lowercase ASCII letter, as a one-character
/// string.
fn upper_letter(c: char) -> (r: &'static str)
    requires
        97 <= c as u32 <= 122,
    ensures
        r@ == seq![spec_to_ascii_upper(c)],
{
    proof {
        reveal_strlit("A");
        reveal_strlit("B");
        reveal_strlit("C");
        reveal_strlit("D");
        reveal_strlit("E");
        reveal_strlit("F");
        reveal_strlit("G");
        reveal_strlit("H");
        reveal_strlit("I");
        reveal_strlit("J");
        reveal_strlit("K");
        reveal_strlit("L");
        reveal_strlit("M");
        reveal_strlit("N");
        reveal_strlit("O");
        reveal_strlit("P");
        reveal_strlit("Q");
        reveal_strlit("R");
        reveal_strlit("S");
        reveal_strlit("T");
        reveal_strlit("U");
        reveal_strlit("V");
        reveal_strlit("W");
        reveal_strlit("X");
        reveal_strlit("Y");
        reveal_strlit("Z");
    }
    let r = match c as u32 {
        97 => "A",
        98 => "B",
        99 => "C",
        100 => "D",
        101 => "E",
        102 => "F",
        103 => "G",
        104 => "H",
        105 => "I",
        106 => "J",
        107 => "K",
        108 => "L",
        109 => "M",
        110 => "N",
        111 => "O",
        112 => "P",
        113 => "Q",
        114 => "R",
        115 => "S",
        116 => "T",
        117 => "U",
        118 => "V",
        119 => "W",
        120 => "X",
        121 => "Y",
        _ => "Z",
    };
    proof {
        assert(r@ =~= seq![spec_to_ascii_upper(c)]);
    }
    r
}

/// Uppercase the ASCII letters of a string: each lowercase letter is mapped
/// to its uppercase equivalent, every other character is unchanged.
pub fn ascii_uppercase(s: &str) -> (r: String)
    ensures
        r@ == s@.map_values(|c: char| spec_to_ascii_upper(c)),
{
    let ghost u = s@.map_values(|c: char| spec_to_ascii_upper(c));
    let n = s.unicode_len();
    let mut out = String::new();
    let mut start: usize = 0;
    let mut i: usize = 0;
    while i < n
        invariant
            0 <= start <= i <= n,
            n == s@.len(),
            u == s@.map_values(|c: char| spec_to_ascii_upper(c)),
            forall|k: int| start <= k < i ==> !(97 <= (#[trigger] s@[k]) as u32 <= 122),
            out@ == u.take(start as int),
        decreases n - i,
    {
        let c = s.get_char(i);
        if 97 <= c as u32 && c as u32 <= 122 {
            let run = s.substring_char(start, i);
            out.append(run);
            out.append(upper_letter(c));
            proof {
                assert(s@.subrange(start as int, i as int) =~= u.subrange(
                    start as int,
                    i as int,
                ));
                assert(out@ =~= u.take(i + 1));
            }
            start = i + 1;
        }
        i += 1;
    }
    let tail = s.substring_char(start, n);
    out.append(tail);
    proof {
        assert(s@.subrange(start as int, n as int) =~= u.subrange(start as int, n as int));
        assert(out@ =~= u);
    }
    out
}

/// Normalise a route symbol to the venue's coin name: uppercase it and keep
/// what stands before the first dash.
pub fn coin_from_symbol(symbol: &str) -> (r: String)
    ensures
        ({
            let u = symbol@.map_values(|c: char| spec_to_ascii_upper(c));
            if has_char(u, '-') {
                r@ == u.take(first_idx(u, '-'))
            } else {
                r@ == u
            }
        }),
{
    let upper = ascii_uppercase(symbol);
    let ghost u = symbol@.map_values(|c: char| spec_to_ascii_upper(c));
    let n = upper.as_str().unicode_len();
    let mut i: usize = 0;
    let mut dash: Option<usize> = None;
    while i < n
        invariant
            0 <= i <= n,
            n == upper@.len(),
            upper@ == u,
            match dash {
                Some(j) => 0 <= j < n && i == n && u[j as int] == '-' && (forall|k: int|
                    0 <= k < j ==> u[k] != '-'),
                None => forall|k: int| 0 <= k < i ==> u[k] != '-',
            },
        decreases n - i,
    {
        if upper.as_str().get_char(i) as u32 == 45 {
            dash = Some(i);
            i = n;
        } else {
            i += 1;
        }
    }
    match dash {
        Some(j) => {
            proof {
                lemma_first_idx_at(u, '-', j as int);
            }
            upper.as_str().substring_char(0, j).to_owned()
        },
        None => {
            proof {
                assert(!has_char(u, '-'));
            }
            upper
        },
    }
}

} // verus!
