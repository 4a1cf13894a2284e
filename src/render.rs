//! Rendering a resolved constant as a declaration.
use vstd::prelude::*;

use crate::model::{EnumKey, EnumValue, EnumsError, ErrorModel};

verus! {

/// The length of the namespace prefix (such as `GL_`) that stripping removes.
pub const PREFIX_LEN: usize = 3;

/// The upper-case hex digit of `d` (below 16).
pub open spec fn hex_digit(d: nat) -> char {
    if d < 10 {
        (('0' as nat) + d) as char
    } else {
        (('A' as nat) + d - 10) as char
    }
}

/// `n` in upper-case hex without leading zeros (`0` for zero).
pub open spec fn hex_text(n: nat) -> Seq<char>
    decreases n,
{
    if n < 16 {
        seq![hex_digit(n)]
    } else {
        hex_text(n / 16).push(hex_digit(n % 16))
    }
}

/// `n` in upper-case hex, padded with leading zeros to eight digits.
pub open spec fn hex_text8(n: nat) -> Seq<char> {
    let h = hex_text(n);
    if h.len() < 8 {
        Seq::new((8 - h.len()) as nat, |i: int| '0') + h
    } else {
        h
    }
}

/// The name as shown: without its prefix when stripping is asked for.
pub open spec fn shown_name(name: Seq<char>, strip: bool) -> Seq<char> {
    if strip {
        name.skip(PREFIX_LEN as int)
    } else {
        name
    }
}

/// The declaration of a constant named `name` with value `v`.
pub open spec fn declaration(name: Seq<char>, v: EnumValue) -> Seq<char> {
    match v {
        EnumValue::Enum(n) => "pub const "@ + name + ": GLenum = 0x"@ + hex_text(n as nat) + ";"@,
        EnumValue::Bitmask(m) => "pub const "@ + name + ": GLbitfield = 0x"@ + hex_text8(m as nat) + ";"@,
        EnumValue::ULL(u) => "pub const "@ + name + ": u64 = 0x"@ + hex_text(u as nat) + ";"@,
    }
}

fn hex_digit_str(d: u64) -> (r: &'static str)
    requires
        d < 16,
    ensures
        r@ == seq![hex_digit(d as nat)],
{
    match d {
        0 => {
            proof { reveal_strlit("0"); }
            "0"
        },
        1 => {
            proof { reveal_strlit("1"); }
            "1"
        },
        2 => {
            proof { reveal_strlit("2"); }
            "2"
        },
        3 => {
            proof { reveal_strlit("3"); }
            "3"
        },
        4 => {
            proof { reveal_strlit("4"); }
            "4"
        },
        5 => {
            proof { reveal_strlit("5"); }
            "5"
        },
        6 => {
            proof { reveal_strlit("6"); }
            "6"
        },
        7 => {
            proof { reveal_strlit("7"); }
            "7"
        },
        8 => {
            proof { reveal_strlit("8"); }
            "8"
        },
        9 => {
            proof { reveal_strlit("9"); }
            "9"
        },
        10 => {
            proof { reveal_strlit("A"); }
            "A"
        },
        11 => {
            proof { reveal_strlit("B"); }
            "B"
        },
        12 => {
            proof { reveal_strlit("C"); }
            "C"
        },
        13 => {
            proof { reveal_strlit("D"); }
            "D"
        },
        14 => {
            proof { reveal_strlit("E"); }
            "E"
        },
        15 => {
            proof { reveal_strlit("F"); }
            "F"
        },
        _ => {
            proof { reveal_strlit("F"); }
            "F"
        },
    }
}

fn push_hex(out: &mut String, n: u64)
    ensures
        final(out)@ == old(out)@ + hex_text(n as nat),
    decreases n,
{
    if n >= 16 {
        push_hex(out, n / 16);
    }
    out.append(hex_digit_str(n % 16));
    proof {
        if n >= 16 {
            assert(old(out)@ + hex_text(n as nat) =~= old(out)@ + hex_text((n / 16) as nat) + seq![hex_digit((n % 16) as nat)]);
        } else {
            assert(n % 16 == n);
        }
    }
}

fn push_hex8(out: &mut String, n: u32)
    ensures
        final(out)@ == old(out)@ + hex_text8(n as nat),
{
    let mut h = String::new();
    push_hex(&mut h, n as u64);
    assert(h@ =~= hex_text(n as nat));
    let len = h.as_str().unicode_len();
    if len < 8 {
        let ghost start = out@;
        let mut k: usize = 0;
        while k < 8 - len
            invariant
                len < 8,
                k <= 8 - len,
                out@ == start + Seq::new(k as nat, |i: int| '0'),
            decreases 8 - len - k,
        {
            proof { reveal_strlit("0"); }
            out.append("0");
            k = k + 1;
            assert(out@ =~= start + Seq::new(k as nat, |i: int| '0'));
        }
    }
    out.append(h.as_str());
    assert(out@ =~= old(out)@ + hex_text8(n as nat));
}

/// A key and its value, to be rendered as a declaration.
pub struct EnumDisplay<'a> {
    pub key: &'a EnumKey,
    pub value: &'a EnumValue,
}

impl<'a> EnumDisplay<'a> {
    /// The declaration of the constant, with its name's prefix removed when
    /// `strip_prefix` is set. An `Enum` shows its value in hex, a `Bitmask`
    /// in eight hex digits, a `ULL` in hex with a 64-bit type.
    pub fn render(&self, strip_prefix: bool) -> (r: Result<String, EnumsError>)
        ensures
            strip_prefix && self.key.name@.len() < PREFIX_LEN ==> r is Err
                && r->Err_0@ == ErrorModel::NameTooShortForPrefix(self.key.name@),
            !(strip_prefix && self.key.name@.len() < PREFIX_LEN) ==> r is Ok
                && r->Ok_0@ == declaration(shown_name(self.key.name@, strip_prefix), *self.value),
    {
        let full = self.key.name.as_str();
        let len = full.unicode_len();
        let shown = if strip_prefix {
            if len < PREFIX_LEN {
                return Err(EnumsError::NameTooShortForPrefix { name: self.key.name.clone() });
            }
            full.substring_char(PREFIX_LEN, len)
        } else {
            full
        };
        assert(shown@ == shown_name(self.key.name@, strip_prefix));
        let mut out = String::from_str("pub const ");
        out.append(shown);
        match self.value {
            EnumValue::Enum(n) => {
                out.append(": GLenum = 0x");
                push_hex(&mut out, *n as u64);
            },
            EnumValue::Bitmask(m) => {
                out.append(": GLbitfield = 0x");
                push_hex8(&mut out, *m);
            },
            EnumValue::ULL(u) => {
                out.append(": u64 = 0x");
                push_hex(&mut out, *u);
            },
        }
        out.append(";");
        Ok(out)
    }
}

} // verus!
