//! The mathematical model of LZVN decoding.
//!
//! A decoder state is the input cursor, the bytes produced so far and the
//! distance of the last match. One opcode moves the decoder from one state to
//! the next, or halts it with a result. Decoding a block runs those steps from
//! the start of the input until one halts.
use crate::error::Error;
use vstd::prelude::*;

verus! {

/// What a decoder knows between two opcodes.
pub struct DecodeState {
    /// Offset of the next opcode in the input.
    pub ip: nat,
    /// Every byte decoded so far, in order.
    pub out: Seq<u8>,
    /// Distance of the most recent match (0 before the first one).
    pub prev: nat,
}

/// The effect of one opcode.
pub enum Step {
    /// Decoding goes on from this state.
    Continue(DecodeState),
    /// Decoding stops with this result, in this state: the input cursor where
    /// it stopped, every byte written and the last match distance.
    Halt(Result<usize, Error>, DecodeState),
}

/// The instruction families of the LZVN opcode table.
pub enum OpcodeKind {
    /// `0x06`: end of stream.
    EndOfStream,
    /// `0x0e`, `0x16`: padding.
    Nop,
    /// `0xe0`: literal run, length `16 +` the next byte.
    LargeLiteral,
    /// `0xe1 ..= 0xef`: literal run, length in the low nibble.
    SmallLiteral,
    /// `0xf0`: match at the previous distance, length `16 +` the next byte.
    LargeMatch,
    /// `0xf1..=0xff`: match at the previous distance, length in the low nibble.
    SmallMatch,
    /// `0xa0..=0xbf`: literals and a match with a 14-bit distance in two more bytes.
    MediumDistance,
    /// Literals and a match at the previous distance.
    PreviousDistance,
    /// Literals and a match with a little-endian 16-bit distance in two more bytes.
    LargeDistance,
    /// Opcodes the format leaves undefined.
    Reserved,
    /// Literals and a match with an 11-bit distance split over the opcode and one more byte.
    SmallDistance,
}

/// The family an opcode byte belongs to.
pub open spec fn opcode_kind(opcode: u8) -> OpcodeKind {
    if opcode == 0x06 {
        OpcodeKind::EndOfStream
    } else if opcode == 0x0e || opcode == 0x16 {
        OpcodeKind::Nop
    } else if opcode == 0xe0 {
        OpcodeKind::LargeLiteral
    } else if 0xe1 <= opcode <= 0xef {
        OpcodeKind::SmallLiteral
    } else if opcode == 0xf0 {
        OpcodeKind::LargeMatch
    } else if 0xf1 <= opcode {
        OpcodeKind::SmallMatch
    } else if 0xa0 <= opcode <= 0xbf {
        OpcodeKind::MediumDistance
    } else if 0x70 <= opcode <= 0x7f || 0xd0 <= opcode <= 0xdf {
        OpcodeKind::Reserved
    } else {
        match opcode {
            0x46 | 0x4e | 0x56 | 0x5e | 0x66 | 0x6e | 0x86 | 0x8e | 0x96 | 0x9e | 0xc6 | 0xce => {
                OpcodeKind::PreviousDistance
            },
            0x07 | 0x0f | 0x17 | 0x1f | 0x27 | 0x2f | 0x37 | 0x3f | 0x47 | 0x4f | 0x57 | 0x5f
            | 0x67 | 0x6f | 0x87 | 0x8f | 0x97 | 0x9f | 0xc7 | 0xcf => OpcodeKind::LargeDistance,
            0x1e | 0x26 | 0x2e | 0x36 | 0x3e => OpcodeKind::Reserved,
            _ => OpcodeKind::SmallDistance,
        }
    }
}

/// Number of literal bytes announced by the two top bits of a distance opcode.
pub open spec fn literal_count(opcode: u8) -> nat {
    (opcode / 64) as nat
}

/// Match length announced by bits 3..6 of a distance opcode.
pub open spec fn match_length(opcode: u8) -> nat {
    ((opcode / 8) % 8 + 3) as nat
}

/// The bytes of a match: `len` bytes that repeat, with period `distance`, the
/// output from `distance` bytes back; so a match may overlap its own output.
pub open spec fn match_bytes(out: Seq<u8>, distance: nat, len: nat) -> Seq<u8> {
    Seq::new(len, |k: int| out[out.len() - distance + k % (distance as int)])
}

/// A truncation detected at input offset `position`.
pub open spec fn truncated(position: nat) -> Error {
    Error::TruncatedInput { position: position as usize }
}

/// The error for a write of more bytes than the buffer has left.
pub open spec fn too_small(out: Seq<u8>, cap: nat) -> Error {
    Error::OutputTooSmall { written: out.len() as usize, capacity: cap as usize }
}

/// Stops with `e` in the state `st`.
pub open spec fn fail(e: Error, st: DecodeState) -> Step {
    Step::Halt(Err(e), st)
}

/// An opcode of `opcode_len` bytes followed by `len` literal bytes.
pub open spec fn literal_step(
    src: Seq<u8>,
    cap: nat,
    st: DecodeState,
    opcode_len: nat,
    len: nat,
) -> Step {
    let start = st.ip + opcode_len;
    if start + len > src.len() {
        fail(truncated(st.ip), st)
    } else if st.out.len() + len > cap {
        fail(too_small(st.out, cap), st)
    } else {
        Step::Continue(
            DecodeState {
                ip: start + len,
                out: st.out + src.subrange(start as int, (start + len) as int),
                prev: st.prev,
            },
        )
    }
}

/// Appends a match of `len` bytes at `distance` to the output of `at`, going
/// on at `next_ip`; or halts in the state `at` on a bad distance.
pub open spec fn match_into(at: DecodeState, next_ip: nat, distance: nat, len: nat) -> Step {
    let out = at.out;
    if distance == 0 || distance > out.len() {
        fail(
            Error::InvalidMatchDistance { distance: distance as usize, available: out.len() as usize },
            at,
        )
    } else {
        Step::Continue(
            DecodeState { ip: next_ip, out: out + match_bytes(out, distance, len), prev: distance },
        )
    }
}

/// An opcode of `opcode_len` bytes that copies a match and no literals.
pub open spec fn match_step(
    src: Seq<u8>,
    cap: nat,
    st: DecodeState,
    opcode_len: nat,
    len: nat,
    distance: nat,
) -> Step {
    if st.ip + opcode_len > src.len() {
        fail(truncated(st.ip), st)
    } else if st.out.len() + len > cap {
        fail(too_small(st.out, cap), st)
    } else {
        match_into(st, st.ip + opcode_len, distance, len)
    }
}

/// An opcode of `opcode_len` bytes followed by `lit` literal bytes, then a match.
/// The literals are written before the distance is checked.
pub open spec fn literal_match_step(
    src: Seq<u8>,
    cap: nat,
    st: DecodeState,
    opcode_len: nat,
    lit: nat,
    mlen: nat,
    distance: nat,
) -> Step {
    let start = st.ip + opcode_len;
    if start + lit > src.len() {
        fail(truncated(st.ip), st)
    } else if st.out.len() + lit + mlen > cap {
        fail(too_small(st.out, cap), st)
    } else {
        let out = st.out + src.subrange(start as int, (start + lit) as int);
        match_into(DecodeState { ip: start + lit, out, prev: st.prev }, start + lit, distance, mlen)
    }
}

/// Executes the opcode at `st.ip` of `src`, the output buffer holding `cap` bytes.
#[verifier::opaque]
pub open spec fn step(src: Seq<u8>, cap: nat, st: DecodeState) -> Step {
    let ip = st.ip as int;
    if ip >= src.len() {
        fail(truncated(st.ip), st)
    } else {
        let opcode = src[ip];
        match opcode_kind(opcode) {
            OpcodeKind::EndOfStream => Step::Halt(Ok(st.out.len() as usize), st),
            OpcodeKind::Nop => Step::Continue(DecodeState { ip: st.ip + 1, ..st }),
            OpcodeKind::LargeLiteral => {
                if ip + 1 >= src.len() {
                    fail(truncated((ip + 1) as nat), st)
                } else {
                    literal_step(src, cap, st, 2, (src[ip + 1] + 16) as nat)
                }
            },
            OpcodeKind::SmallLiteral => literal_step(src, cap, st, 1, (opcode % 16) as nat),
            OpcodeKind::LargeMatch => {
                if ip + 1 >= src.len() {
                    fail(truncated((ip + 1) as nat), st)
                } else {
                    match_step(src, cap, st, 2, (src[ip + 1] + 16) as nat, st.prev)
                }
            },
            OpcodeKind::SmallMatch => match_step(src, cap, st, 1, (opcode % 16) as nat, st.prev),
            OpcodeKind::MediumDistance => {
                if ip + 1 >= src.len() {
                    fail(truncated((ip + 1) as nat), st)
                } else if ip + 2 >= src.len() {
                    fail(truncated((ip + 2) as nat), st)
                } else {
                    let b1 = src[ip + 1];
                    let b2 = src[ip + 2];
                    literal_match_step(
                        src,
                        cap,
                        st,
                        3,
                        ((opcode / 8) % 4) as nat,
                        ((opcode % 8) * 4 + b1 % 4 + 3) as nat,
                        (b1 / 4 + b2 * 64) as nat,
                    )
                }
            },
            OpcodeKind::PreviousDistance => {
                literal_match_step(
                    src,
                    cap,
                    st,
                    1,
                    literal_count(opcode),
                    match_length(opcode),
                    st.prev,
                )
            },
            OpcodeKind::LargeDistance => {
                if ip + 1 >= src.len() {
                    fail(truncated((ip + 1) as nat), st)
                } else if ip + 2 >= src.len() {
                    fail(truncated((ip + 2) as nat), st)
                } else {
                    literal_match_step(
                        src,
                        cap,
                        st,
                        3,
                        literal_count(opcode),
                        match_length(opcode),
                        (src[ip + 1] + src[ip + 2] * 256) as nat,
                    )
                }
            },
            OpcodeKind::Reserved => fail(
                Error::InvalidOpcode { position: ip as usize, opcode },
                st,
            ),
            OpcodeKind::SmallDistance => {
                if ip + 1 >= src.len() {
                    fail(truncated((ip + 1) as nat), st)
                } else {
                    literal_match_step(
                        src,
                        cap,
                        st,
                        2,
                        literal_count(opcode),
                        match_length(opcode),
                        ((opcode % 8) * 256 + src[ip + 1]) as nat,
                    )
                }
            },
        }
    }
}

/// A step that goes on always moves the input cursor forward, and never past the input.
pub proof fn lemma_step_advances(src: Seq<u8>, cap: nat, st: DecodeState)
    ensures
        step(src, cap, st) matches Step::Continue(next) ==> st.ip < next.ip <= src.len(),
{
    reveal(step);
}

/// Runs the decoder from `st` until an opcode halts it: the result, and the
/// state it halts in.
pub open spec fn run_from(src: Seq<u8>, cap: nat, st: DecodeState) -> (Result<usize, Error>, DecodeState)
    decreases src.len() - st.ip,
{
    match step(src, cap, st) {
        Step::Continue(next) => {
            proof {
                lemma_step_advances(src, cap, st);
            }
            run_from(src, cap, next)
        },
        Step::Halt(result, halted) => (result, halted),
    }
}

/// The state before the first opcode.
pub open spec fn initial_state() -> DecodeState {
    DecodeState { ip: 0, out: Seq::empty(), prev: 0 }
}

/// Decoding of the block `src` into a buffer of `cap` bytes: the result, and
/// the bytes written to the front of the buffer (all of them, also on error).
pub open spec fn lzvn_decode(src: Seq<u8>, cap: nat) -> (Result<usize, Error>, Seq<u8>) {
    let (result, halted) = run_from(src, cap, initial_state());
    (result, halted.out)
}

/// What holds of a state that decoding can reach: the output fits the buffer.
pub open spec fn reachable(src: Seq<u8>, cap: nat, st: DecodeState) -> bool {
    &&& st.ip <= src.len()
    &&& st.out.len() <= cap
    &&& st.prev <= usize::MAX
}

/// The step `s` from the reachable state `st` reaches a reachable state whose
/// output extends the old one, or halts with an output that does; a successful
/// halt reports the output's length.
pub open spec fn extends(src: Seq<u8>, cap: nat, st: DecodeState, s: Step) -> bool {
    match s {
        Step::Continue(next) => {
            &&& reachable(src, cap, next)
            &&& st.out.len() <= next.out.len()
            &&& next.out.take(st.out.len() as int) == st.out
        },
        Step::Halt(result, halted) => {
            &&& reachable(src, cap, halted)
            &&& st.out.len() <= halted.out.len()
            &&& halted.out.take(st.out.len() as int) == st.out
            &&& result matches Ok(n) ==> n == halted.out.len() && halted == st
        },
    }
}

proof fn lemma_match_into_extends(
    src: Seq<u8>,
    cap: nat,
    st: DecodeState,
    at: DecodeState,
    next_ip: nat,
    distance: nat,
    len: nat,
)
    requires
        reachable(src, cap, st),
        reachable(src, cap, at),
        distance <= usize::MAX,
        next_ip <= src.len(),
        at.out.len() + len <= cap,
        st.out.len() <= at.out.len(),
        at.out.take(st.out.len() as int) == st.out,
    ensures
        extends(src, cap, st, match_into(at, next_ip, distance, len)),
{
    let out = at.out;
    let all = out + match_bytes(out, distance, len);
    assert(all.take(st.out.len() as int) =~= out.take(st.out.len() as int));
}

proof fn lemma_literal_step_extends(
    src: Seq<u8>,
    cap: nat,
    st: DecodeState,
    opcode_len: nat,
    len: nat,
)
    requires
        reachable(src, cap, st),
    ensures
        extends(src, cap, st, literal_step(src, cap, st, opcode_len, len)),
{
    assert(st.out.take(st.out.len() as int) =~= st.out);
    let start = st.ip + opcode_len;
    if start + len <= src.len() && st.out.len() + len <= cap {
        let out = st.out + src.subrange(start as int, (start + len) as int);
        assert(out.take(st.out.len() as int) =~= st.out);
    }
}

proof fn lemma_match_step_extends(
    src: Seq<u8>,
    cap: nat,
    st: DecodeState,
    opcode_len: nat,
    len: nat,
    distance: nat,
)
    requires
        reachable(src, cap, st),
        distance <= usize::MAX,
    ensures
        extends(src, cap, st, match_step(src, cap, st, opcode_len, len, distance)),
{
    assert(st.out.take(st.out.len() as int) =~= st.out);
    if st.ip + opcode_len <= src.len() && st.out.len() + len <= cap {
        lemma_match_into_extends(src, cap, st, st, st.ip + opcode_len, distance, len);
    }
}

proof fn lemma_literal_match_step_extends(
    src: Seq<u8>,
    cap: nat,
    st: DecodeState,
    opcode_len: nat,
    lit: nat,
    mlen: nat,
    distance: nat,
)
    requires
        reachable(src, cap, st),
        distance <= usize::MAX,
    ensures
        extends(src, cap, st, literal_match_step(src, cap, st, opcode_len, lit, mlen, distance)),
{
    assert(st.out.take(st.out.len() as int) =~= st.out);
    let start = st.ip + opcode_len;
    if start + lit <= src.len() && st.out.len() + lit + mlen <= cap {
        let out = st.out + src.subrange(start as int, (start + lit) as int);
        assert(out.take(st.out.len() as int) =~= st.out);
        lemma_match_into_extends(
            src,
            cap,
            st,
            DecodeState { ip: start + lit, out, prev: st.prev },
            start + lit,
            distance,
            mlen,
        );
    }
}

/// One step from a reachable state extends the output (see [`extends`]).
pub proof fn lemma_step_extends(src: Seq<u8>, cap: nat, st: DecodeState)
    requires
        reachable(src, cap, st),
        cap <= usize::MAX,
    ensures
        extends(src, cap, st, step(src, cap, st)),
{
    reveal(step);
    assert(st.out.take(st.out.len() as int) =~= st.out);
    let ip = st.ip as int;
    if ip < src.len() {
        let opcode = src[ip];
        if ip + 1 < src.len() {
            let b1 = src[ip + 1];
            lemma_literal_step_extends(src, cap, st, 2, (b1 + 16) as nat);
            lemma_match_step_extends(src, cap, st, 2, (b1 + 16) as nat, st.prev);
            lemma_literal_match_step_extends(
                src,
                cap,
                st,
                2,
                literal_count(opcode),
                match_length(opcode),
                ((opcode % 8) * 256 + b1) as nat,
            );
            if ip + 2 < src.len() {
                let b2 = src[ip + 2];
                lemma_literal_match_step_extends(
                    src,
                    cap,
                    st,
                    3,
                    ((opcode / 8) % 4) as nat,
                    ((opcode % 8) * 4 + b1 % 4 + 3) as nat,
                    (b1 / 4 + b2 * 64) as nat,
                );
                lemma_literal_match_step_extends(
                    src,
                    cap,
                    st,
                    3,
                    literal_count(opcode),
                    match_length(opcode),
                    (b1 + b2 * 256) as nat,
                );
            }
        }
        lemma_literal_step_extends(src, cap, st, 1, (opcode % 16) as nat);
        lemma_match_step_extends(src, cap, st, 1, (opcode % 16) as nat, st.prev);
        lemma_literal_match_step_extends(
            src,
            cap,
            st,
            1,
            literal_count(opcode),
            match_length(opcode),
            st.prev,
        );
    }
}

/// Running from a reachable state halts in a reachable state whose output
/// extends the output so far; a successful run reports the output's length.
pub proof fn lemma_run_extends(src: Seq<u8>, cap: nat, st: DecodeState)
    requires
        reachable(src, cap, st),
        cap <= usize::MAX,
    ensures
        ({
            let (result, halted) = run_from(src, cap, st);
            &&& reachable(src, cap, halted)
            &&& st.out.len() <= halted.out.len()
            &&& halted.out.take(st.out.len() as int) == st.out
            &&& result matches Ok(n) ==> n == halted.out.len()
        }),
    decreases src.len() - st.ip,
{
    lemma_step_extends(src, cap, st);
    lemma_step_advances(src, cap, st);
    match step(src, cap, st) {
        Step::Continue(next) => {
            lemma_run_extends(src, cap, next);
            let out = run_from(src, cap, next).1.out;
            assert(out.take(st.out.len() as int) =~= out.take(next.out.len() as int).take(
                st.out.len() as int,
            ));
        },
        Step::Halt(_, _) => {},
    }
}

} // verus!
