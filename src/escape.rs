//! Quoting of byte strings inside a log record.
//!
//! This is the quoting of JSON strings: a quote and a backslash are preceded
//! by a backslash; backspace, form feed, line feed, carriage return and tab
//! are written `\b`, `\f`, `\n`, `\r` and `\t`; any other control byte
//! is written `\u00XX` with lower-case hex digits; every other byte stands
//! for itself. Decoding accepts exactly the text that encoding produces.
use vstd::prelude::*;

verus! {

pub const QUOTE: u8 = 34;

pub const BACKSLASH: u8 = 92;

pub open spec fn hex_digit(n: u8) -> u8 {
    if n < 10 {
        (48 + n) as u8
    } else {
        (87 + n) as u8
    }
}

pub open spec fn is_hex_digit(c: u8) -> bool {
    (48 <= c && c <= 57) || (97 <= c && c <= 102)
}

pub open spec fn hex_value(c: u8) -> u8 {
    if c <= 57 {
        (c - 48) as u8
    } else {
        (c - 87) as u8
    }
}

/// The letter of the two-byte escape of a control byte, or 0 where it has
/// none.
pub open spec fn short_escape(b: u8) -> u8 {
    if b == 8 {
        98
    } else if b == 9 {
        116
    } else if b == 10 {
        110
    } else if b == 12 {
        102
    } else if b == 13 {
        114
    } else {
        0
    }
}

/// The control byte that a two-byte escape letter stands for, or 0 where
/// the letter is none.
pub open spec fn short_unescape(c: u8) -> u8 {
    if c == 98 {
        8
    } else if c == 116 {
        9
    } else if c == 110 {
        10
    } else if c == 102 {
        12
    } else if c == 114 {
        13
    } else {
        0
    }
}

/// The byte that a `\u00XX` escape at the start of `t` stands for.
pub open spec fn hex_escape_value(t: Seq<u8>) -> u8 {
    ((t[4] - 48) * 16 + hex_value(t[5])) as u8
}

/// The quoted form of one byte.
pub open spec fn escape_byte(b: u8) -> Seq<u8> {
    if b == QUOTE || b == BACKSLASH {
        seq![BACKSLASH, b]
    } else if short_escape(b) != 0 {
        seq![BACKSLASH, short_escape(b)]
    } else if b < 32 {
        seq![BACKSLASH, 117u8, 48u8, 48u8, hex_digit(b / 16), hex_digit(b % 16)]
    } else {
        seq![b]
    }
}

/// The quoted form of a byte string, without the surrounding quotes.
pub open spec fn escape(s: Seq<u8>) -> Seq<u8>
    decreases s.len(),
{
    if s.len() == 0 {
        Seq::empty()
    } else {
        escape_byte(s[0]) + escape(s.drop_first())
    }
}

/// How many bytes the escaped unit at the start of `t` takes (0: none there).
pub open spec fn unit_len(t: Seq<u8>) -> int {
    if t.len() == 0 || t[0] == QUOTE {
        0
    } else if t[0] == BACKSLASH {
        if t.len() >= 2 && (t[1] == QUOTE || t[1] == BACKSLASH || short_unescape(t[1]) != 0) {
            2
        } else if t.len() >= 6 && t[1] == 117 && t[2] == 48 && t[3] == 48 && (t[4] == 48 || t[4]
            == 49) && is_hex_digit(t[5]) && short_escape(hex_escape_value(t)) == 0 {
            6
        } else {
            0
        }
    } else if t[0] < 32 {
        0
    } else {
        1
    }
}

/// The byte that the escaped unit at the start of `t` stands for.
pub open spec fn unit_byte(t: Seq<u8>) -> u8 {
    if t[0] == BACKSLASH {
        if t[1] == 117 {
            hex_escape_value(t)
        } else if t[1] == QUOTE || t[1] == BACKSLASH {
            t[1]
        } else {
            short_unescape(t[1])
        }
    } else {
        t[0]
    }
}

/// Reads a quoted body up to and including its closing quote: the bytes it
/// stands for and how many bytes of `t` were read.
#[verifier::opaque]
pub open spec fn unescape(t: Seq<u8>) -> Option<(Seq<u8>, int)>
    decreases t.len(),
{
    if t.len() == 0 {
        None
    } else if t[0] == QUOTE {
        Some((Seq::empty(), 1))
    } else {
        let k = unit_len(t);
        if 0 < k <= t.len() {
            match unescape(t.skip(k)) {
                Some((s, n)) => Some((seq![unit_byte(t)] + s, n + k)),
                None => None,
            }
        } else {
            None
        }
    }
}

proof fn lemma_unit_of_escape_byte(b: u8, rest: Seq<u8>)
    ensures
        unit_len(escape_byte(b) + rest) == escape_byte(b).len(),
        unit_byte(escape_byte(b) + rest) == b,
{
    let t = escape_byte(b) + rest;
    if b == QUOTE || b == BACKSLASH {
        assert(t[0] == BACKSLASH && t[1] == b);
    } else if short_escape(b) != 0 {
        assert(t[0] == BACKSLASH && t[1] == short_escape(b));
    } else if b < 32 {
        assert(t[0] == BACKSLASH && t[1] == 117 && t[2] == 48 && t[3] == 48);
        assert(t[4] == hex_digit(b / 16) && t[5] == hex_digit(b % 16));
        assert(b / 16 == 0 || b / 16 == 1);
        assert(hex_value(hex_digit(b % 16)) == b % 16);
        assert((t[4] - 48) * 16 + hex_value(t[5]) == b);
    } else {
        assert(t[0] == b);
    }
}

/// Decoding the quoted form of `s` followed by a closing quote gives `s` back.
pub proof fn lemma_unescape_escape(s: Seq<u8>, rest: Seq<u8>)
    ensures
        unescape(escape(s) + seq![QUOTE] + rest) == Some((s, escape(s).len() + 1 as int)),
    decreases s.len(),
{
    reveal(unescape);
    let t = escape(s) + seq![QUOTE] + rest;
    if s.len() == 0 {
        assert(t[0] == QUOTE);
    } else {
        let tail = escape(s.drop_first()) + seq![QUOTE] + rest;
        assert(t =~= escape_byte(s[0]) + tail);
        lemma_unit_of_escape_byte(s[0], tail);
        let k = escape_byte(s[0]).len() as int;
        assert(t[0] != QUOTE);
        assert(t.skip(k) =~= tail);
        lemma_unescape_escape(s.drop_first(), rest);
        assert(seq![s[0]] + s.drop_first() =~= s);
    }
}

/// Whatever decoding reads is the quoted form of what it returns.
pub proof fn lemma_unescape_sound(t: Seq<u8>)
    ensures
        unescape(t) matches Some((s, n)) ==> 0 < n <= t.len() && t.take(n) == escape(s) + seq![
            QUOTE,
        ],
    decreases t.len(),
{
    reveal(unescape);
    if t.len() > 0 && t[0] != QUOTE {
        let k = unit_len(t);
        if 0 < k <= t.len() {
            lemma_unescape_sound(t.skip(k));
            if let Some((s, n)) = unescape(t) {
                let (s1, n1) = unescape(t.skip(k)).unwrap();
                let b = unit_byte(t);
                assert(s == seq![b] + s1);
                assert(s.drop_first() =~= s1);
                assert(t.take(k) =~= escape_byte(b)) by {
                    if t[0] == BACKSLASH && t[1] == 117 {
                        assert(b == hex_escape_value(t));
                        let v = hex_value(t[5]);
                        assert(v < 16);
                        assert(b / 16 == t[4] - 48);
                        assert(b % 16 == v);
                        assert(hex_digit(v) == t[5]);
                    }
                }
                assert(t.take(n) =~= t.take(k) + t.skip(k).take(n1));
            }
        }
    }
}

proof fn lemma_escape_push(s: Seq<u8>, b: u8)
    ensures
        escape(s.push(b)) == escape(s) + escape_byte(b),
    decreases s.len(),
{
    if s.len() == 0 {
        assert(s.push(b).drop_first() =~= Seq::<u8>::empty());
        assert(escape(s.push(b)) =~= escape_byte(b) + escape(Seq::<u8>::empty()));
    } else {
        lemma_escape_push(s.drop_first(), b);
        assert(s.push(b).drop_first() =~= s.drop_first().push(b));
        assert(escape(s.push(b)) =~= escape(s) + escape_byte(b));
    }
}

fn short_escape_exec(b: u8) -> (r: u8)
    ensures
        r == short_escape(b),
{
    if b == 8 {
        98
    } else if b == 9 {
        116
    } else if b == 10 {
        110
    } else if b == 12 {
        102
    } else if b == 13 {
        114
    } else {
        0
    }
}

fn short_unescape_exec(c: u8) -> (r: u8)
    ensures
        r == short_unescape(c),
{
    if c == 98 {
        8
    } else if c == 116 {
        9
    } else if c == 110 {
        10
    } else if c == 102 {
        12
    } else if c == 114 {
        13
    } else {
        0
    }
}

fn hex_digit_exec(n: u8) -> (r: u8)
    requires
        n < 16,
    ensures
        r == hex_digit(n),
{
    if n < 10 {
        48 + n
    } else {
        87 + n
    }
}

/// Appends the quoted form of `s` (without quotes) to `out`.
pub fn push_escaped(out: &mut Vec<u8>, s: &[u8])
    ensures
        final(out)@ == old(out)@ + escape(s@),
{
    let mut i: usize = 0;
    while i < s.len()
        invariant
            i <= s@.len(),
            out@ == old(out)@ + escape(s@.take(i as int)),
        decreases s@.len() - i,
    {
        let b = s[i];
        proof {
            lemma_escape_push(s@.take(i as int), b);
            assert(s@.take(i as int).push(b) =~= s@.take(i + 1));
        }
        let short = short_escape_exec(b);
        if b == QUOTE || b == BACKSLASH {
            out.push(BACKSLASH);
            out.push(b);
        } else if short != 0 {
            out.push(BACKSLASH);
            out.push(short);
        } else if b < 32 {
            out.push(BACKSLASH);
            out.push(117u8);
            out.push(48u8);
            out.push(48u8);
            out.push(hex_digit_exec(b / 16));
            out.push(hex_digit_exec(b % 16));
        } else {
            out.push(b);
        }
        assert(out@ =~= old(out)@ + escape(s@.take(i + 1)));
        i = i + 1;
    }
    assert(s@.take(i as int) =~= s@);
}

/// Reads the quoted body that starts at `start`: the bytes it stands for and
/// the position just after its closing quote.
pub fn read_escaped(t: &[u8], start: usize) -> (r: Option<(Vec<u8>, usize)>)
    requires
        start <= t@.len(),
    ensures
        match unescape(t@.skip(start as int)) {
            Some((s, n)) => r matches Some((v, e)) && v@ == s && e == start + n,
            None => r is None,
        },
        r matches Some((v, e)) ==> start < e <= t@.len(),
{
    reveal(unescape);
    let mut out: Vec<u8> = Vec::new();
    let mut i: usize = start;
    while i < t.len()
        invariant
            start <= i <= t@.len(),
            unescape(t@.skip(start as int)) == match unescape(t@.skip(i as int)) {
                Some((s, n)) => Some((out@ + s, n + i - start)),
                None => None,
            },
        decreases t@.len() - i,
    {
        proof {
            reveal(unescape);
        }
        let ghost u = t@.skip(i as int);
        let b = t[i];
        assert(u[0] == b);
        if b == QUOTE {
            assert(out@ + Seq::<u8>::empty() =~= out@);
            return Some((out, i + 1));
        }
        let k: usize;
        let c: u8;
        if b == BACKSLASH {
            if i + 1 < t.len() && (t[i + 1] == QUOTE || t[i + 1] == BACKSLASH) {
                k = 2;
                c = t[i + 1];
            } else if i + 1 < t.len() && short_unescape_exec(t[i + 1]) != 0 {
                k = 2;
                c = short_unescape_exec(t[i + 1]);
            } else if t.len() - i > 5 && t[i + 1] == 117 && t[i + 2] == 48 && t[i + 3] == 48 && (t[i
                + 4] == 48 || t[i + 4] == 49) && ((48 <= t[i + 5] && t[i + 5] <= 57) || (97 <= t[i
                + 5] && t[i + 5] <= 102)) {
                let h = t[i + 5];
                let lo: u8 = if h <= 57 {
                    h - 48
                } else {
                    h - 87
                };
                let v: u8 = (t[i + 4] - 48) * 16 + lo;
                assert(v == hex_escape_value(u));
                if short_escape_exec(v) != 0 {
                    return None;
                }
                k = 6;
                c = v;
            } else {
                return None;
            }
        } else if b < 32 {
            return None;
        } else {
            k = 1;
            c = b;
        }
        assert(unit_len(u) == k && unit_byte(u) == c);
        assert(u.skip(k as int) =~= t@.skip(i + k));
        proof {
            let ghost o = out@;
            assert(forall|s: Seq<u8>| o + (seq![c] + s) =~= o.push(c) + s);
        }
        out.push(c);
        i = i + k;
    }
    None
}

} // verus!
