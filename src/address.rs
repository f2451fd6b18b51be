//! The server address that the user types: `host[:port]`.

use vstd::prelude::*;
use vstd::string::StringSliceAdditionalSpecFns;

verus! {

/// The value of a sequence of ASCII digits.
pub open spec fn decimal_value(d: Seq<u8>) -> nat
    decreases d.len(),
{
    if d.len() == 0 {
        0
    } else {
        decimal_value(d.drop_last()) * 10 + (d.last() - 48) as nat
    }
}

/// Whether every byte of `d` is an ASCII digit.
pub open spec fn all_digits(d: Seq<u8>) -> bool {
    forall|i: int| 0 <= i < d.len() ==> 48 <= #[trigger] d[i] <= 57
}

/// The port that `t` names: an optional `+`, then at least one ASCII digit, for
/// a value that fits in 16 bits.
pub open spec fn port_value(t: Seq<u8>) -> Option<u16> {
    let d = if t.len() > 0 && t[0] == 43 {
        t.skip(1)
    } else {
        t
    };
    if d.len() > 0 && all_digits(d) && decimal_value(d) <= u16::MAX {
        Some(decimal_value(d) as u16)
    } else {
        None
    }
}

/// Whether `i` is the last colon of `s`.
pub open spec fn is_last_colon(s: Seq<u8>, i: int) -> bool {
    &&& 0 <= i < s.len()
    &&& s[i] == 58
    &&& forall|j: int| i < j < s.len() ==> #[trigger] s[j] != 58
}

/// Where the host of `s` ends and which port `s` names. A port follows the last
/// colon where the text after it is a port and the host before it holds no
/// colon and no `]`; otherwise the whole text is the host, with the default
/// port.
pub open spec fn host_port(s: Seq<u8>, default_port: u16) -> (nat, u16) {
    if exists|i: int| is_last_colon(s, i) {
        let i = choose|i: int| is_last_colon(s, i);
        if port_value(s.skip(i + 1)) is Some && forall|j: int|
            0 <= j < i ==> #[trigger] s[j] != 58 && s[j] != 93 {
            (i as nat, port_value(s.skip(i + 1))->0)
        } else {
            (s.len(), default_port)
        }
    } else {
        (s.len(), default_port)
    }
}

/// The value of a prefix of digits is at most the value of the whole.
proof fn lemma_decimal_prefix(d: Seq<u8>, i: int)
    requires
        0 <= i <= d.len(),
        all_digits(d),
    ensures
        decimal_value(d.take(i)) <= decimal_value(d),
    decreases d.len(),
{
    if i < d.len() {
        assert(d.drop_last().take(i) =~= d.take(i));
        lemma_decimal_prefix(d.drop_last(), i);
    } else {
        assert(d.take(i) =~= d);
    }
}

/// The port that `t` names, the way the standard library parses a `u16`.
fn parse_port(t: &[u8]) -> (r: Option<u16>)
    ensures
        r == port_value(t@),
{
    let start: usize = if t.len() > 0 && t[0] == 43 {
        1
    } else {
        0
    };
    let ghost d = t@.skip(start as int);
    assert(d =~= (if t@.len() > 0 && t@[0] == 43 {
        t@.skip(1)
    } else {
        t@
    }));
    if start == t.len() {
        return None;
    }
    let mut acc: u32 = 0;
    let mut i: usize = start;
    while i < t.len()
        invariant
            start <= i <= t@.len(),
            d == t@.skip(start as int),
            d == (if t@.len() > 0 && t@[0] == 43 {
                t@.skip(1)
            } else {
                t@
            }),
            start < t@.len(),
            forall|j: int| 0 <= j < i - start ==> 48 <= #[trigger] d[j] <= 57,
            acc == decimal_value(d.take(i - start)),
            acc <= u16::MAX,
        decreases t@.len() - i,
    {
        let b = t[i];
        if b < 48 || b > 57 {
            assert(!all_digits(d)) by {
                assert(d[i - start] == b);
            }
            return None;
        }
        assert(d.take(i + 1 - start).drop_last() =~= d.take(i - start));
        let next = acc * 10 + (b - 48) as u32;
        if next > u16::MAX as u32 {
            proof {
                if all_digits(d) {
                    lemma_decimal_prefix(d, i + 1 - start);
                }
            }
            return None;
        }
        acc = next;
        i = i + 1;
    }
    assert(d.take(d.len() as int) =~= d);
    Some(acc as u16)
}

/// Splits `host[:port]`: the length of the host, in bytes, and the port.
pub fn split_host_port(input: &str, default_port: u16) -> (r: (usize, u16))
    ensures
        (r.0 as nat, r.1) == host_port(input.spec_bytes(), default_port),
{
    let s = input.as_bytes();
    let mut i: usize = s.len();
    while i > 0 && s[i - 1] != 58
        invariant
            i <= s@.len(),
            forall|j: int| i <= j < s@.len() ==> #[trigger] s@[j] != 58,
        decreases i,
    {
        i = i - 1;
    }
    if i == 0 {
        assert(!exists|k: int| is_last_colon(s@, k)) by {
            assert forall|k: int| !is_last_colon(s@, k) by {
                if 0 <= k < s@.len() {
                    assert(s@[k] != 58);
                }
            }
        }
        return (s.len(), default_port);
    }
    let c = i - 1;
    assert(is_last_colon(s@, c as int));
    proof {
        let k = choose|k: int| is_last_colon(s@, k);
        assert(k == c) by {
            if k < c {
                assert(s@[c as int] != 58);
            } else if k > c {
                assert(s@[k] != 58);
            }
        }
    }
    let tail = crate::codec::copy_range(s, c + 1, s.len());
    let port = match parse_port(tail.as_slice()) {
        Some(p) => p,
        None => return (s.len(), default_port),
    };
    let mut j: usize = 0;
    while j < c
        invariant
            c < s@.len(),
            j <= c,
            s@ == input.spec_bytes(),
            is_last_colon(s@, c as int),
            (choose|k: int| is_last_colon(s@, k)) == c,
            port_value(s@.skip(c + 1)) == Some(port),
            forall|k: int| 0 <= k < j ==> #[trigger] s@[k] != 58 && s@[k] != 93,
        decreases c - j,
    {
        if s[j] == 58 || s[j] == 93 {
            assert(!(s@[j as int] != 58 && s@[j as int] != 93));
            return (s.len(), default_port);
        }
        j = j + 1;
    }
    (c, port)
}

} // verus!
