//! Small pieces of text the manager shows: decimal numbers, peer addresses and
//! capped status lines.
use vstd::prelude::*;

verus! {

/// The character of a decimal digit.
pub open spec fn digit_char(d: nat) -> char {
    (48 + d) as char
}

/// The decimal rendering of `n`, without leading zeros.
pub open spec fn decimal(n: nat) -> Seq<char>
    decreases n,
{
    if n < 10 {
        seq![digit_char(n)]
    } else {
        decimal(n / 10) + seq![digit_char(n % 10)]
    }
}

fn digit_str(d: u64) -> (s: &'static str)
    requires
        d < 10,
    ensures
        s@ == seq![digit_char(d as nat)],
{
    if d == 0 {
        proof {
            reveal_strlit("0");
        }
        "0"
    } else if d == 1 {
        proof {
            reveal_strlit("1");
        }
        "1"
    } else if d == 2 {
        proof {
            reveal_strlit("2");
        }
        "2"
    } else if d == 3 {
        proof {
            reveal_strlit("3");
        }
        "3"
    } else if d == 4 {
        proof {
            reveal_strlit("4");
        }
        "4"
    } else if d == 5 {
        proof {
            reveal_strlit("5");
        }
        "5"
    } else if d == 6 {
        proof {
            reveal_strlit("6");
        }
        "6"
    } else if d == 7 {
        proof {
            reveal_strlit("7");
        }
        "7"
    } else if d == 8 {
        proof {
            reveal_strlit("8");
        }
        "8"
    } else {
        proof {
            reveal_strlit("9");
        }
        "9"
    }
}

/// Appends the decimal rendering of `n`.
pub fn append_decimal(s: &mut String, n: u64)
    ensures
        final(s)@ == old(s)@ + decimal(n as nat),
    decreases n,
{
    if n >= 10 {
        append_decimal(s, n / 10);
    }
    let d = digit_str(n % 10);
    s.append(d);
    proof {
        if n >= 10 {
            assert(decimal(n as nat) == decimal((n / 10) as nat) + seq![digit_char((n % 10) as nat)]);
        }
    }
}

/// The longest status line shown, in characters.
pub const ACTIVITY_MESSAGE_MAX_LEN: usize = 28;

/// A status line cut to fit: one that is too long keeps its first characters
/// and ends in "...", for exactly the maximum length.
pub open spec fn spec_cap_message(m: Seq<char>) -> Seq<char> {
    if m.len() <= ACTIVITY_MESSAGE_MAX_LEN {
        m
    } else {
        m.subrange(0, ACTIVITY_MESSAGE_MAX_LEN - 3) + seq!['.', '.', '.']
    }
}

/// Cuts a status line to fit.
pub fn cap_activity_message(message: String) -> (capped: String)
    ensures
        capped@ == spec_cap_message(message@),
{
    let len = message.as_str().unicode_len();
    if len <= ACTIVITY_MESSAGE_MAX_LEN {
        return message;
    }
    let keep = ACTIVITY_MESSAGE_MAX_LEN - 3;
    let head = message.as_str().substring_char(0, keep);
    let mut out = String::from_str(head);
    proof {
        reveal_strlit("...");
    }
    out.append("...");
    out
}

/// The key a peer is known by: its IP, a colon and its port.
pub open spec fn spec_peer_addr(ip: Seq<char>, port: u16) -> Seq<char> {
    ip + seq![':'] + decimal(port as nat)
}

/// The key a peer is known by: its IP, a colon and its port.
pub fn peer_addr(ip: &str, port: u16) -> (addr: String)
    ensures
        addr@ == spec_peer_addr(ip@, port),
{
    let mut addr = String::from_str(ip);
    proof {
        reveal_strlit(":");
    }
    addr.append(":");
    append_decimal(&mut addr, port as u64);
    addr
}

} // verus!
