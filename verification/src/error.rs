use vstd::prelude::*;
use vstd::string::StrSliceExecFns;
use vstd::string::StringExecFns;

verus! {

/// An error returned while decoding an LZVN stream.
#[derive(Debug, Clone, Copy, PartialEq, Eq, Structural)]
pub enum Error {
    /// The compressed input ended before an opcode could be fully read.
    TruncatedInput {
        /// Input offset where the truncation was detected.
        position: usize,
    },
    /// Decoding would write past the end of the output buffer.
    OutputTooSmall {
        /// Bytes written before the overflow.
        written: usize,
        /// Total output capacity.
        capacity: usize,
    },
    /// An opcode byte is not a defined LZVN instruction.
    InvalidOpcode {
        /// Input offset of the bad opcode.
        position: usize,
        /// The offending opcode byte.
        opcode: u8,
    },
    /// A match back-reference distance is zero or points before the output start.
    InvalidMatchDistance {
        /// The requested back-reference distance.
        distance: usize,
        /// Output bytes available to reference.
        available: usize,
    },
}

/// The character of the hexadecimal digit `d` (lower case).
pub open spec fn hex_digit(d: nat) -> char {
    if d < 10 {
        (48 + d) as char
    } else {
        (87 + d) as char
    }
}

/// The decimal notation of `n`, without leading zeros.
pub open spec fn decimal(n: nat) -> Seq<char>
    decreases n,
{
    if n < 10 {
        seq![hex_digit(n)]
    } else {
        decimal(n / 10).push(hex_digit(n % 10))
    }
}

/// The byte `b` as two lower-case hexadecimal digits.
pub open spec fn hex_byte(b: u8) -> Seq<char> {
    seq![hex_digit((b / 16) as nat), hex_digit((b % 16) as nat)]
}

/// The text that describes the error `e`.
pub open spec fn message(e: Error) -> Seq<char> {
    match e {
        Error::TruncatedInput { position } => "lzvn: input truncated at offset "@ + decimal(
            position as nat,
        ),
        Error::OutputTooSmall { written, capacity } => "lzvn: output buffer too small ("@
            + decimal(written as nat) + "/"@ + decimal(capacity as nat) + ")"@,
        Error::InvalidOpcode { position, opcode } => "lzvn: invalid opcode 0x"@ + hex_byte(opcode)
            + " at offset "@ + decimal(position as nat),
        Error::InvalidMatchDistance { distance, available } => "lzvn: invalid match distance "@
            + decimal(distance as nat) + " (available "@ + decimal(available as nat) + ")"@,
    }
}

/// Appends the hexadecimal digit `d` to `s`.
fn push_hex_digit(s: &mut String, d: usize)
    requires
        d < 16,
    ensures
        final(s)@ == old(s)@.push(hex_digit(d as nat)),
{
    let digits = "0123456789abcdef";
    proof {
        reveal_strlit("0123456789abcdef");
    }
    assert(digits.is_ascii());
    let one = digits.substring_ascii(d, d + 1);
    assert(one@ =~= seq![hex_digit(d as nat)]);
    s.append(one);
}

/// Appends the decimal notation of `n` to `s`.
fn push_decimal(s: &mut String, n: usize)
    ensures
        final(s)@ == old(s)@ + decimal(n as nat),
    decreases n,
{
    let ghost s0 = s@;
    if n >= 10 {
        push_decimal(s, n / 10);
    }
    push_hex_digit(s, n % 10);
    assert(s@ =~= s0 + decimal(n as nat));
}

/// The result of a decoding.
pub type Result<T> = core::result::Result<T, Error>;

impl Error {
    /// The text that describes this error, as its `Display` form would read.
    pub fn to_string(&self) -> (s: String)
        ensures
            s@ == message(*self),
    {
        match *self {
            Error::TruncatedInput { position } => {
                let mut s = String::from_str("lzvn: input truncated at offset ");
                push_decimal(&mut s, position);
                s
            },
            Error::OutputTooSmall { written, capacity } => {
                let mut s = String::from_str("lzvn: output buffer too small (");
                push_decimal(&mut s, written);
                s.append("/");
                push_decimal(&mut s, capacity);
                s.append(")");
                s
            },
            Error::InvalidOpcode { position, opcode } => {
                let mut s = String::from_str("lzvn: invalid opcode 0x");
                push_hex_digit(&mut s, (opcode / 16) as usize);
                push_hex_digit(&mut s, (opcode % 16) as usize);
                assert(s@ =~= "lzvn: invalid opcode 0x"@ + hex_byte(opcode));
                s.append(" at offset ");
                push_decimal(&mut s, position);
                s
            },
            Error::InvalidMatchDistance { distance, available } => {
                let mut s = String::from_str("lzvn: invalid match distance ");
                push_decimal(&mut s, distance);
                s.append(" (available ");
                push_decimal(&mut s, available);
                s.append(")");
                s
            },
        }
    }
}

} // verus!
