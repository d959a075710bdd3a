//! The hex dump that the relay prints of a datagram it rejects.
//!
//! Sixteen bytes to a line; each line starts with the offset of its first
//! byte in at least eight hex digits, and each byte follows as a space and two
//! hex digits. The text ends with a line feed.
use vstd::prelude::*;
use vstd::string::StringExecFns;

verus! {

/// The hex digit of `d`, for `d` below 16.
pub open spec fn hex_digit(d: int) -> char {
    if d == 0 {
        '0'
    } else if d == 1 {
        '1'
    } else if d == 2 {
        '2'
    } else if d == 3 {
        '3'
    } else if d == 4 {
        '4'
    } else if d == 5 {
        '5'
    } else if d == 6 {
        '6'
    } else if d == 7 {
        '7'
    } else if d == 8 {
        '8'
    } else if d == 9 {
        '9'
    } else if d == 10 {
        'a'
    } else if d == 11 {
        'b'
    } else if d == 12 {
        'c'
    } else if d == 13 {
        'd'
    } else if d == 14 {
        'e'
    } else {
        'f'
    }
}

/// The number `i` in hex, most significant digit first, with zeros in front
/// up to `width` digits.
pub open spec fn hex(i: nat, width: nat) -> Seq<char>
    decreases i, width,
{
    if i < 16 && width <= 1 {
        seq![hex_digit(i as int)]
    } else {
        let rest = if width == 0 {
            0
        } else {
            (width - 1) as nat
        };
        hex(i / 16, rest).push(hex_digit((i % 16) as int))
    }
}

/// What the dump shows for the byte at offset `i`: at the start of a line
/// the offset, after a line feed unless it is the first line; then a space
/// and the byte.
pub open spec fn entry(u: Seq<u8>, i: int) -> Seq<char> {
    let lead = if i % 16 != 0 {
        Seq::<char>::empty()
    } else if i == 0 {
        hex(0, 8)
    } else {
        seq!['\n'] + hex(i as nat, 8)
    };
    lead + seq![' '] + hex(u[i] as nat, 2)
}

/// The dump of the first `n` bytes of `u`, without the line feed at its end.
pub open spec fn entries(u: Seq<u8>, n: nat) -> Seq<char>
    decreases n,
{
    if n == 0 {
        Seq::<char>::empty()
    } else {
        entries(u, (n - 1) as nat) + entry(u, n - 1)
    }
}

/// The hex dump of `u`.
pub open spec fn dump(u: Seq<u8>) -> Seq<char> {
    entries(u, u.len()) + seq!['\n']
}

/// The hex digit of `d` as a string.
fn digit(d: usize) -> (s: &'static str)
    requires
        d < 16,
    ensures
        s@ == seq![hex_digit(d as int)],
{
    proof {
        reveal_strlit("0");
        reveal_strlit("1");
        reveal_strlit("2");
        reveal_strlit("3");
        reveal_strlit("4");
        reveal_strlit("5");
        reveal_strlit("6");
        reveal_strlit("7");
        reveal_strlit("8");
        reveal_strlit("9");
        reveal_strlit("a");
        reveal_strlit("b");
        reveal_strlit("c");
        reveal_strlit("d");
        reveal_strlit("e");
        reveal_strlit("f");
    }
    let s = if d == 0 {
        "0"
    } else if d == 1 {
        "1"
    } else if d == 2 {
        "2"
    } else if d == 3 {
        "3"
    } else if d == 4 {
        "4"
    } else if d == 5 {
        "5"
    } else if d == 6 {
        "6"
    } else if d == 7 {
        "7"
    } else if d == 8 {
        "8"
    } else if d == 9 {
        "9"
    } else if d == 10 {
        "a"
    } else if d == 11 {
        "b"
    } else if d == 12 {
        "c"
    } else if d == 13 {
        "d"
    } else if d == 14 {
        "e"
    } else {
        "f"
    };
    assert(s@ =~= seq![hex_digit(d as int)]);
    s
}

/// Appends `i` in hex to `out`, with zeros in front up to `width` digits.
fn put_hex(out: &mut String, i: usize, width: usize)
    ensures
        final(out)@ == old(out)@ + hex(i as nat, width as nat),
    decreases i, width,
{
    if i < 16 && width <= 1 {
        out.append(digit(i));
    } else {
        let rest = if width == 0 {
            0
        } else {
            width - 1
        };
        put_hex(out, i / 16, rest);
        out.append(digit(i % 16));
        assert(out@ =~= old(out)@ + hex(i as nat, width as nat));
    }
}

/// The hex dump of `u`.
pub fn hex_dump(u: &[u8]) -> (text: String)
    ensures
        text@ == dump(u@),
{
    proof {
        reveal_strlit("\n");
        reveal_strlit(" ");
    }
    let m = u.len();
    let mut text = String::new();
    for i in 0..m
        invariant
            m == u@.len(),
            text@ == entries(u@, i as nat),
            "\n"@ == seq!['\n'],
            " "@ == seq![' '],
    {
        let ghost before = text@;
        if i % 16 == 0 {
            if i != 0 {
                text.append("\n");
            }
            put_hex(&mut text, i, 8);
        }
        text.append(" ");
        put_hex(&mut text, u[i] as usize, 2);
        assert(text@ =~= before + entry(u@, i as int));
    }
    text.append("\n");
    text
}

} // verus!
