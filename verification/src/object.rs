//! Addressing of blocks inside stored objects.

use vstd::prelude::*;
use vstd::string::*;

verus! {

/// The character that stands for a single decimal digit.
pub open spec fn digit_char(d: nat) -> char
    recommends
        d < 10,
{
    if d == 0 {
        '0'
    } else if d == 1 {
        '1'
    } else if d == 2 {
        '2'
    } else if d == 3 {
        '3'
    } else if d == 4 {
        '4'
    } else if d == 5 {
        '5'
    } else if d == 6 {
        '6'
    } else if d == 7 {
        '7'
    } else if d == 8 {
        '8'
    } else {
        '9'
    }
}

/// The decimal numeral of `n`, most significant digit first, without leading
/// zeros (`0` itself is written `"0"`).
pub open spec fn decimal(n: nat) -> Seq<char>
    decreases n,
{
    if n < 10 {
        seq![digit_char(n)]
    } else {
        decimal(n / 10).push(digit_char(n % 10))
    }
}

/// The text of an HTTP range header value for `size` bytes from `offset`.
pub open spec fn range_specifier(offset: nat, size: nat) -> Seq<char> {
    seq!['b', 'y', 't', 'e', 's', '='] + decimal(offset) + seq!['-'] + decimal(offset + size)
}

fn digit_str(d: usize) -> (s: &'static str)
    requires
        d < 10,
    ensures
        s@ == seq![digit_char(d as nat)],
{
    proof {
        reveal_strlit("0");
        reveal_strlit("1");
        reveal_strlit("2");
        reveal_strlit("3");
        reveal_strlit("4");
        reveal_strlit("5");
        reveal_strlit("6");
        reveal_strlit("7");
        reveal_strlit("8");
        reveal_strlit("9");
    }
    let s = if d == 0 {
        "0"
    } else if d == 1 {
        "1"
    } else if d == 2 {
        "2"
    } else if d == 3 {
        "3"
    } else if d == 4 {
        "4"
    } else if d == 5 {
        "5"
    } else if d == 6 {
        "6"
    } else if d == 7 {
        "7"
    } else if d == 8 {
        "8"
    } else {
        "9"
    };
    assert(s@ =~= seq![digit_char(d as nat)]);
    s
}

fn push_decimal(out: &mut String, n: usize)
    ensures
        final(out)@ == old(out)@ + decimal(n as nat),
    decreases n,
{
    if n >= 10 {
        push_decimal(out, n / 10);
    }
    out.append(digit_str(n % 10));
    assert(out@ =~= old(out)@ + decimal(n as nat));
}

/// Where a block lies inside an object: `size` bytes starting at `offset`.
#[derive(Debug, Copy, Clone)]
pub struct BlockLocation {
    pub offset: usize,
    pub size: usize,
}

/// What the store knows of an object without reading it.
pub struct ObjectMetadata {
    pub total_size: usize,
}

impl BlockLocation {
    /// The HTTP range specifier of the block: `bytes=`, the offset, a hyphen
    /// and the sum of offset and size, both as decimal numerals.
    pub fn byte_range_specifier(&self) -> (r: Option<String>)
        requires
            self.offset + self.size <= usize::MAX,
        ensures
            r matches Some(s) && s@ == range_specifier(self.offset as nat, self.size as nat),
    {
        proof {
            reveal_strlit("bytes=");
            reveal_strlit("-");
        }
        let mut s = String::from_str("bytes=");
        assert(s@ =~= seq!['b', 'y', 't', 'e', 's', '=']);
        push_decimal(&mut s, self.offset);
        s.append("-");
        assert("-"@ =~= seq!['-']);
        push_decimal(&mut s, self.offset + self.size);
        Some(s)
    }
}

} // verus!
