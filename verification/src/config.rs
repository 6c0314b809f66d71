//! Process configuration: the fixed ports, hosts and intervals of a node, and the
//! reading of the one argument that selects its command port.

use vstd::prelude::*;
use crate::text::{chars_of, decimal, digit, lemma_decimal_solid};

verus! {

/// UDP port on which every node listens for announcements.
pub const DISCOVERY_PORT: u16 = 9000;

/// Command port of a node that is started without an argument.
pub const DEFAULT_PORT: u16 = 8080;

/// Seconds between two announcements of a node.
pub const ANNOUNCE_INTERVAL_SECS: u64 = 10;

/// Seconds between two snapshots of the cache.
pub const SNAPSHOT_INTERVAL_SECS: u64 = 10;

/// Most bytes of one request or datagram that a node reads.
pub const MAX_MESSAGE_BYTES: usize = 1024;

/// Host under which a node announces itself.
pub const ANNOUNCE_HOST: &'static str = "127.0.0.1";

/// Host to which announcements are broadcast.
pub const BROADCAST_HOST: &'static str = "255.255.255.255";

/// Host on which a node binds its sockets.
pub const BIND_HOST: &'static str = "0.0.0.0";

/// The value of a decimal digit; `None` for any other character.
pub open spec fn digit_value(c: char) -> Option<nat> {
    let n = c as u32;
    if 0x30 <= n <= 0x39 {
        Some((n - 0x30) as nat)
    } else {
        None
    }
}

/// The number that a text of decimal digits writes; `None` when the text is empty
/// or holds anything but digits.
pub open spec fn numeral_value(s: Seq<char>) -> Option<nat>
    decreases s.len(),
{
    if s.len() == 0 {
        None
    } else {
        match digit_value(s.last()) {
            None => None,
            Some(d) => if s.len() == 1 {
                Some(d)
            } else {
                match numeral_value(s.drop_last()) {
                    Some(v) => Some(10 * v + d),
                    None => None,
                }
            },
        }
    }
}

/// The port that a text names: decimal digits, after an optional `+`, whose
/// number is at most 65535.
pub open spec fn port_of(text: Seq<char>) -> Option<u16> {
    let digits = if text.len() > 0 && text[0] == '+' {
        text.skip(1)
    } else {
        text
    };
    match numeral_value(digits) {
        Some(v) => if v <= 0xffff {
            Some(v as u16)
        } else {
            None
        },
        None => None,
    }
}

/// The command port that the argument of the process selects: the default when
/// there is no argument, else the port that the argument names, if it names one.
pub open spec fn selected_port(argument: Option<Seq<char>>) -> Option<u16> {
    match argument {
        None => Some(DEFAULT_PORT),
        Some(text) => port_of(text),
    }
}

/// Every beginning of a numeral is a numeral, of a number no larger.
pub proof fn lemma_numeral_beginnings(s: Seq<char>, k: int)
    requires
        0 < k <= s.len(),
        numeral_value(s).is_some(),
    ensures
        numeral_value(s.take(k)) matches Some(v) && v <= numeral_value(s).unwrap(),
    decreases s.len(),
{
    if k == s.len() {
        assert(s.take(k) =~= s);
    } else {
        lemma_numeral_beginnings(s.drop_last(), k);
        assert(s.drop_last().take(k) =~= s.take(k));
    }
}

/// The numeral of a number is read back as that number.
pub proof fn lemma_decimal_read_back(n: nat)
    ensures
        numeral_value(decimal(n)) == Some(n),
    decreases n,
{
    let d = if n < 10 {
        n
    } else {
        n % 10
    };
    assert(digit_value(digit(d)) == Some(d)) by {
        assert(digit(d) == seq!['0', '1', '2', '3', '4', '5', '6', '7', '8', '9'][d as int]);
    }
    if n >= 10 {
        lemma_decimal_read_back(n / 10);
        assert(decimal(n).drop_last() =~= decimal(n / 10));
        assert(decimal(n / 10).len() > 0) by {
            lemma_decimal_solid(n / 10);
        }
    }
}

/// A port written in decimal is read back as itself.
pub proof fn lemma_port_read_back(port: u16)
    ensures
        port_of(decimal(port as nat)) == Some(port),
{
    lemma_decimal_read_back(port as nat);
    let d = if port < 10 {
        port as nat
    } else {
        (port as nat) % 10
    };
    let text = decimal(port as nat);
    if port >= 10 {
        lemma_first_digit(port as nat);
    } else {
        assert(text[0] == digit(d));
        assert(digit(d) == seq!['0', '1', '2', '3', '4', '5', '6', '7', '8', '9'][d as int]);
    }
}

/// A numeral begins with a digit, not with a sign.
pub proof fn lemma_first_digit(n: nat)
    ensures
        decimal(n).len() > 0,
        decimal(n)[0] != '+',
    decreases n,
{
    if n < 10 {
        assert(digit(n) == seq!['0', '1', '2', '3', '4', '5', '6', '7', '8', '9'][n as int]);
    } else {
        lemma_first_digit(n / 10);
    }
}

/// Reads the port that `text` names.
pub fn parse_port(text: &str) -> (r: Option<u16>)
    ensures
        r == port_of(text@),
{
    let chars = chars_of(text);
    let n: usize = chars.len();
    let start: usize = if n > 0 && chars[0] == '+' {
        1
    } else {
        0
    };
    let ghost digits = text@.skip(start as int);
    assert(text@.skip(0) =~= text@);
    if start == n {
        return None;
    }
    let mut value: u32 = 0;
    let mut i: usize = start;
    while i < n
        invariant
            n == chars.len(),
            chars@ == text@,
            digits == text@.skip(start as int),
            digits == if text@.len() > 0 && text@[0] == '+' {
                text@.skip(1)
            } else {
                text@
            },
            start <= i <= n,
            start < n,
            value <= 0xffff,
            i > start ==> numeral_value(digits.take(i - start)) == Some(value as nat),
            i == start ==> value == 0,
        decreases n - i,
    {
        let c: u32 = chars[i] as u32;
        let ghost upto = digits.take(i + 1 - start);
        proof {
            assert(upto.last() == text@[i as int]);
            assert(upto.drop_last() =~= digits.take(i - start));
        }
        if c < 0x30 || c > 0x39 {
            proof {
                assert(numeral_value(upto).is_none());
                if numeral_value(digits).is_some() {
                    lemma_numeral_beginnings(digits, i + 1 - start);
                }
            }
            return None;
        }
        let next: u32 = value * 10 + (c - 0x30);
        assert(numeral_value(upto) == Some(next as nat));
        if next > 0xffff {
            proof {
                if numeral_value(digits).is_some() {
                    lemma_numeral_beginnings(digits, i + 1 - start);
                }
            }
            return None;
        }
        value = next;
        i += 1;
    }
    assert(digits.take(n - start) =~= digits);
    Some(value as u16)
}

/// Settles the command port of the process from its argument, if it has one.
pub fn node_port(argument: Option<&str>) -> (r: Option<u16>)
    ensures
        r == selected_port(
            match argument {
                Some(text) => Some(text@),
                None => None,
            },
        ),
{
    match argument {
        Some(text) => parse_port(text),
        None => Some(DEFAULT_PORT),
    }
}

} // verus!
