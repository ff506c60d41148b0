//! What each family of LZVN opcodes does, stated over the bytes of the input
//! and of the output: which bytes it reads, how many literals it copies, and
//! how long a match it copies from how far back.
use crate::error::Error;
use crate::spec::{match_bytes, step, DecodeState, Step};
use vstd::prelude::*;

verus! {

/// The families of the format whose match distance, length and literal count
/// follow from the opcode's bits: opcodes below `0xd0` outside `0x70..=0x7f`
/// and `0xa0..=0xbf`.
pub open spec fn distance_family(o: u8) -> bool {
    o < 0x70 || (0x80 <= o && o < 0xa0) || (0xc0 <= o && o < 0xd0)
}

/// From `st`, the state `next` follows an opcode whose operands end at input
/// offset `at`, that copies the `lit` input bytes at `at` to the output and
/// then a match of `mlen` bytes, each equal to the output byte `d` places
/// before it (so a match may overlap its own bytes), and remembers `d`.
pub open spec fn appends(
    src: Seq<u8>,
    st: DecodeState,
    next: DecodeState,
    at: int,
    lit: int,
    mlen: int,
    d: int,
) -> bool {
    let n = st.out.len() as int;
    &&& next.ip == at + lit
    &&& next.prev == d
    &&& next.out.len() == n + lit + mlen
    &&& next.out.take(n) == st.out
    &&& forall|k: int| 0 <= k < lit ==> #[trigger] next.out[n + k] == src[at + k]
    &&& forall|k: int|
        n + lit <= k < n + lit + mlen ==> #[trigger] next.out[k] == next.out[k - d]
}

/// The match bytes at distance `d` repeat the output `d` places back.
proof fn lemma_match_repeats(out: Seq<u8>, d: nat, len: nat)
    requires
        0 < d <= out.len(),
    ensures
        forall|k: int|
            out.len() <= k < out.len() + len ==> #[trigger] (out + match_bytes(out, d, len))[k]
                == (out + match_bytes(out, d, len))[k - d],
{
    let all = out + match_bytes(out, d, len);
    let n = out.len() as int;
    assert forall|k: int| n <= k < n + len implies #[trigger] all[k] == all[k - d] by {
        let j = k - n;
        if j < d {
            vstd::arithmetic::div_mod::lemma_small_mod(j as nat, d);
        } else {
            vstd::arithmetic::div_mod::lemma_mod_sub_multiples_vanish(j, d as int);
            vstd::arithmetic::div_mod::lemma_mod_bound(j - d, d as int);
        }
        vstd::arithmetic::div_mod::lemma_mod_bound(j, d as int);
    }
}

/// An opcode whose operand bytes are present, that reads the input up to
/// offset `end` and writes `room` bytes: when the input ends before `end` it
/// stops at once with `TruncatedInput` at the opcode's offset, and when the
/// buffer lacks `room` bytes with `OutputTooSmall`, nothing written either way.
pub open spec fn short_law(src: Seq<u8>, cap: nat, st: DecodeState, end: int, room: int) -> bool {
    let n = st.out.len() as int;
    &&& end > src.len() ==> step(src, cap, st) == Step::Halt(
        Err(Error::TruncatedInput { position: st.ip as usize }),
        st,
    )
    &&& end <= src.len() && n + room > cap ==> step(src, cap, st) == Step::Halt(
        Err(Error::OutputTooSmall { written: n as usize, capacity: cap as usize }),
        st,
    )
}

/// A literal-and-match opcode with operands ending at `at`, `lit` literals, a
/// match of `mlen` at `d`: it goes on as [`appends`] says when input, room and
/// distance allow; with a bad distance it stops after writing the literals.
pub open spec fn literal_match_law(
    src: Seq<u8>,
    cap: nat,
    st: DecodeState,
    at: int,
    lit: int,
    mlen: int,
    d: int,
) -> bool {
    let n = st.out.len() as int;
    &&& short_law(src, cap, st, at + lit, lit + mlen)
    &&& at + lit <= src.len() && n + lit + mlen <= cap ==> if 0 < d <= n + lit {
        &&& step(src, cap, st) matches Step::Continue(next)
        &&& appends(src, st, next, at, lit, mlen, d)
    } else {
        &&& step(src, cap, st) matches Step::Halt(Err(e), halted)
        &&& e == Error::InvalidMatchDistance { distance: d as usize, available: (n + lit) as usize }
        &&& halted.ip == at + lit
        &&& halted.prev == st.prev
        &&& halted.out == st.out + src.subrange(at, at + lit)
    }
}

proof fn lemma_literal_match_cases(
    src: Seq<u8>,
    cap: nat,
    st: DecodeState,
    at: int,
    lit: int,
    mlen: int,
    d: int,
)
    requires
        st.ip < at,
        0 <= lit,
        0 <= mlen,
        0 <= d <= usize::MAX,
        st.out.len() + lit <= usize::MAX,
        short_law(src, cap, st, at + lit, lit + mlen),
        ({
            let n = st.out.len() as int;
            at + lit <= src.len() && n + lit + mlen <= cap ==> {
                let out1 = st.out + src.subrange(at, at + lit);
                step(src, cap, st) == if 0 < d <= out1.len() {
                    Step::Continue(
                        DecodeState {
                            ip: (at + lit) as nat,
                            out: out1 + match_bytes(out1, d as nat, mlen as nat),
                            prev: d as nat,
                        },
                    )
                } else {
                    Step::Halt(
                        Err(
                            Error::InvalidMatchDistance {
                                distance: d as usize,
                                available: out1.len() as usize,
                            },
                        ),
                        DecodeState { ip: (at + lit) as nat, out: out1, prev: st.prev },
                    )
                }
            }
        }),
    ensures
        literal_match_law(src, cap, st, at, lit, mlen, d),
{
    let n = st.out.len() as int;
    if at + lit <= src.len() && n + lit + mlen <= cap {
        let out1 = st.out + src.subrange(at, at + lit);
        if 0 < d <= n + lit {
            lemma_match_repeats(out1, d as nat, mlen as nat);
            let next = step(src, cap, st)->Continue_0;
            assert(next.out.take(n) =~= st.out);
            assert forall|k: int| 0 <= k < lit implies #[trigger] next.out[n + k] == src[at + k] by {
                assert(next.out[n + k] == out1[n + k]);
            }
        }
    }
}

/// Small-distance opcodes (the low three bits 0 to 5 in [`distance_family`]):
/// one operand byte `b1`, then `o / 64` literals, then a match of
/// `(o / 8) % 8 + 3` bytes at distance `(o % 8) * 256 + b1`.
pub proof fn lemma_small_distance_opcode(src: Seq<u8>, cap: nat, st: DecodeState)
    requires
        st.ip + 1 < src.len(),
        distance_family(src[st.ip as int]),
        src[st.ip as int] % 8 < 6,
        st.out.len() + 3 <= usize::MAX,
    ensures
        ({
            let o = src[st.ip as int];
            let b1 = src[(st.ip + 1) as int];
            literal_match_law(
                src,
                cap,
                st,
                (st.ip + 2) as int,
                (o / 64) as int,
                ((o / 8) % 8 + 3) as int,
                ((o % 8) * 256 + b1) as int,
            )
        }),
{
    reveal(step);
    let o = src[st.ip as int];
    let b1 = src[(st.ip + 1) as int];
    lemma_literal_match_cases(src, cap, st, (st.ip + 2) as int, (o / 64) as int, ((o / 8) % 8 + 3) as int, ((o % 8) * 256 + b1) as int);
}

/// Large-distance opcodes (the low three bits 7 in [`distance_family`]): two
/// operand bytes `b1`, `b2`, then `o / 64` literals, then a match of
/// `(o / 8) % 8 + 3` bytes at the little-endian distance `b1 + 256 * b2`.
pub proof fn lemma_large_distance_opcode(src: Seq<u8>, cap: nat, st: DecodeState)
    requires
        st.ip + 2 < src.len(),
        distance_family(src[st.ip as int]),
        src[st.ip as int] % 8 == 7,
        st.out.len() + 3 <= usize::MAX,
    ensures
        ({
            let o = src[st.ip as int];
            let b1 = src[(st.ip + 1) as int];
            let b2 = src[(st.ip + 2) as int];
            literal_match_law(src, cap, st, (st.ip + 3) as int, (o / 64) as int, ((o / 8) % 8 + 3) as int, (b1 + 256 * b2) as int)
        }),
{
    reveal(step);
    let o = src[st.ip as int];
    let b1 = src[(st.ip + 1) as int];
    let b2 = src[(st.ip + 2) as int];
    lemma_literal_match_cases(src, cap, st, (st.ip + 3) as int, (o / 64) as int, ((o / 8) % 8 + 3) as int, (b1 + 256 * b2) as int);
}

/// Previous-distance opcodes (the low three bits 6 in [`distance_family`],
/// from `0x46` on): no operand, `o / 64` literals, then a match of
/// `(o / 8) % 8 + 3` bytes at the distance of the previous match.
pub proof fn lemma_previous_distance_opcode(src: Seq<u8>, cap: nat, st: DecodeState)
    requires
        st.ip < src.len(),
        distance_family(src[st.ip as int]),
        src[st.ip as int] % 8 == 6,
        src[st.ip as int] >= 0x40,
        st.prev <= usize::MAX,
        st.out.len() + 3 <= usize::MAX,
    ensures
        ({
            let o = src[st.ip as int];
            literal_match_law(src, cap, st, (st.ip + 1) as int, (o / 64) as int, ((o / 8) % 8 + 3) as int, st.prev as int)
        }),
{
    reveal(step);
    let o = src[st.ip as int];
    lemma_literal_match_cases(src, cap, st, (st.ip + 1) as int, (o / 64) as int, ((o / 8) % 8 + 3) as int, st.prev as int);
}

/// Medium-distance opcodes `0xa0..=0xbf`: two operand bytes `b1`, `b2`, then
/// `(o / 8) % 4` literals, then a match of `(o % 8) * 4 + b1 % 4 + 3` bytes at
/// distance `b1 / 4 + 64 * b2`.
pub proof fn lemma_medium_distance_opcode(src: Seq<u8>, cap: nat, st: DecodeState)
    requires
        st.ip + 2 < src.len(),
        0xa0 <= src[st.ip as int] <= 0xbf,
        st.out.len() + 3 <= usize::MAX,
    ensures
        ({
            let o = src[st.ip as int];
            let b1 = src[(st.ip + 1) as int];
            let b2 = src[(st.ip + 2) as int];
            literal_match_law(
                src,
                cap,
                st,
                (st.ip + 3) as int,
                ((o / 8) % 4) as int,
                ((o % 8) * 4 + b1 % 4 + 3) as int,
                (b1 / 4 + 64 * b2) as int,
            )
        }),
{
    reveal(step);
    let o = src[st.ip as int];
    let b1 = src[(st.ip + 1) as int];
    let b2 = src[(st.ip + 2) as int];
    lemma_literal_match_cases(
        src,
        cap,
        st,
        (st.ip + 3) as int,
        ((o / 8) % 4) as int,
        ((o % 8) * 4 + b1 % 4 + 3) as int,
        (b1 / 4 + 64 * b2) as int,
    );
}

/// A match-only opcode whose operands end at `at`, copying `mlen` bytes at
/// distance `d`: it goes on as [`appends`] says (with no literals) when input,
/// room and distance allow; with a bad distance it stops where it stood.
pub open spec fn match_law(src: Seq<u8>, cap: nat, st: DecodeState, at: int, mlen: int, d: int) -> bool {
    let n = st.out.len() as int;
    &&& short_law(src, cap, st, at, mlen)
    &&& at <= src.len() && n + mlen <= cap ==> if 0 < d <= n {
        &&& step(src, cap, st) matches Step::Continue(next)
        &&& appends(src, st, next, at, 0, mlen, d)
    } else {
        step(src, cap, st) == Step::Halt(
            Err(Error::InvalidMatchDistance { distance: d as usize, available: n as usize }),
            st,
        )
    }
}

proof fn lemma_match_cases(src: Seq<u8>, cap: nat, st: DecodeState, at: int, mlen: int, d: int)
    requires
        st.ip < at,
        0 <= mlen,
        0 <= d <= usize::MAX,
        st.out.len() <= usize::MAX,
        short_law(src, cap, st, at, mlen),
        ({
            let n = st.out.len() as int;
            at <= src.len() && n + mlen <= cap ==> step(src, cap, st) == if 0 < d <= n {
                Step::Continue(
                    DecodeState {
                        ip: at as nat,
                        out: st.out + match_bytes(st.out, d as nat, mlen as nat),
                        prev: d as nat,
                    },
                )
            } else {
                Step::Halt(
                    Err(
                        Error::InvalidMatchDistance {
                            distance: d as usize,
                            available: st.out.len() as usize,
                        },
                    ),
                    st,
                )
            }
        }),
    ensures
        match_law(src, cap, st, at, mlen, d),
{
    let n = st.out.len() as int;
    if at <= src.len() && n + mlen <= cap && 0 < d <= n {
        lemma_match_repeats(st.out, d as nat, mlen as nat);
        let next = step(src, cap, st)->Continue_0;
        assert(next.out.take(n) =~= st.out);
    }
}

/// The large match opcode `0xf0`: one operand byte `b1`, then a match of
/// `b1 + 16` bytes at the previous distance.
pub proof fn lemma_large_match_opcode(src: Seq<u8>, cap: nat, st: DecodeState)
    requires
        st.ip + 1 < src.len(),
        src[st.ip as int] == 0xf0,
        st.prev <= usize::MAX,
        st.out.len() <= usize::MAX,
    ensures
        match_law(
            src,
            cap,
            st,
            (st.ip + 2) as int,
            (src[(st.ip + 1) as int] + 16) as int,
            st.prev as int,
        ),
{
    reveal(step);
    lemma_match_cases(
        src,
        cap,
        st,
        (st.ip + 2) as int,
        (src[(st.ip + 1) as int] + 16) as int,
        st.prev as int,
    );
}

/// Small match opcodes `0xf1..=0xff`: no operand, a match of `o - 0xf0`
/// bytes at the previous distance.
pub proof fn lemma_small_match_opcode(src: Seq<u8>, cap: nat, st: DecodeState)
    requires
        st.ip < src.len(),
        src[st.ip as int] > 0xf0,
        st.prev <= usize::MAX,
        st.out.len() <= usize::MAX,
    ensures
        match_law(
            src,
            cap,
            st,
            (st.ip + 1) as int,
            (src[st.ip as int] - 0xf0) as int,
            st.prev as int,
        ),
{
    reveal(step);
    lemma_match_cases(
        src,
        cap,
        st,
        (st.ip + 1) as int,
        (src[st.ip as int] - 0xf0) as int,
        st.prev as int,
    );
}

/// A literal run whose operands end at `at`, of `lit` bytes: when input and
/// room allow, it copies the `lit` input bytes at `at` to the output and keeps
/// the previous distance.
pub open spec fn literal_law(src: Seq<u8>, cap: nat, st: DecodeState, at: int, lit: int) -> bool {
    let n = st.out.len() as int;
    &&& short_law(src, cap, st, at + lit, lit)
    &&& at + lit <= src.len() && n + lit <= cap ==> {
        &&& step(src, cap, st) matches Step::Continue(next)
        &&& next.ip == at + lit
        &&& next.prev == st.prev
        &&& next.out.len() == n + lit
        &&& next.out.take(n) == st.out
        &&& forall|k: int| 0 <= k < lit ==> #[trigger] next.out[n + k] == src[at + k]
    }
}

/// The large literal opcode `0xe0`: one operand byte `b1`, then `b1 + 16`
/// literals.
pub proof fn lemma_large_literal_opcode(src: Seq<u8>, cap: nat, st: DecodeState)
    requires
        st.ip + 1 < src.len(),
        src[st.ip as int] == 0xe0,
    ensures
        literal_law(src, cap, st, (st.ip + 2) as int, (src[(st.ip + 1) as int] + 16) as int),
{
    reveal(step);
    let n = st.out.len() as int;
    let at = (st.ip + 2) as int;
    let lit = (src[(st.ip + 1) as int] + 16) as int;
    if at + lit <= src.len() && n + lit <= cap {
        let next = step(src, cap, st)->Continue_0;
        assert(next.out.take(n) =~= st.out);
        assert forall|k: int| 0 <= k < lit implies #[trigger] next.out[n + k] == src[at + k] by {}
    }
}

/// Small literal opcodes `0xe1..=0xef`: no operand, `o - 0xe0` literals.
pub proof fn lemma_small_literal_opcode(src: Seq<u8>, cap: nat, st: DecodeState)
    requires
        st.ip < src.len(),
        0xe1 <= src[st.ip as int] <= 0xef,
    ensures
        literal_law(src, cap, st, (st.ip + 1) as int, (src[st.ip as int] - 0xe0) as int),
{
    reveal(step);
    let n = st.out.len() as int;
    let at = (st.ip + 1) as int;
    let lit = (src[st.ip as int] - 0xe0) as int;
    if at + lit <= src.len() && n + lit <= cap {
        let next = step(src, cap, st)->Continue_0;
        assert(next.out.take(n) =~= st.out);
        assert forall|k: int| 0 <= k < lit implies #[trigger] next.out[n + k] == src[at + k] by {}
    }
}

/// The padding opcodes `0x0e` and `0x16` only move the input cursor one byte on.
pub proof fn lemma_padding_opcode(src: Seq<u8>, cap: nat, st: DecodeState)
    requires
        st.ip < src.len(),
        src[st.ip as int] == 0x0e || src[st.ip as int] == 0x16,
    ensures
        step(src, cap, st) == Step::Continue(DecodeState { ip: st.ip + 1, ..st }),
{
    reveal(step);
}

/// The number of operand bytes that follow the opcode `o`: one for `0xe0`,
/// `0xf0` and the small-distance opcodes, two for the medium- and
/// large-distance ones, none for the rest.
pub open spec fn operand_count(o: u8) -> int {
    if o == 0xe0 || o == 0xf0 || (distance_family(o) && o % 8 < 6) {
        1
    } else if (0xa0 <= o && o <= 0xbf) || (distance_family(o) && o % 8 == 7) {
        2
    } else {
        0
    }
}

/// An opcode whose operand bytes run past the end of the input stops decoding
/// with `TruncatedInput` at the offset of the first missing byte, which is the
/// end of the input, writing nothing.
pub proof fn lemma_missing_operand(src: Seq<u8>, cap: nat, st: DecodeState)
    requires
        st.ip < src.len(),
        st.ip + operand_count(src[st.ip as int]) >= src.len(),
        operand_count(src[st.ip as int]) > 0,
        src.len() <= usize::MAX,
    ensures
        step(src, cap, st) == Step::Halt(
            Err(Error::TruncatedInput { position: src.len() as usize }),
            st,
        ),
{
    reveal(step);
}

/// The undefined opcodes `0x1e`, `0x26`, `0x2e`, `0x36`, `0x3e`, `0x70..=0x7f`
/// and `0xd0..=0xdf` stop decoding with `InvalidOpcode`, naming the opcode and
/// its offset, writing nothing.
pub proof fn lemma_undefined_opcode(src: Seq<u8>, cap: nat, st: DecodeState)
    requires
        st.ip < src.len(),
        ({
            let o = src[st.ip as int];
            ||| o == 0x1e || o == 0x26 || o == 0x2e || o == 0x36 || o == 0x3e
            ||| 0x70 <= o <= 0x7f
            ||| 0xd0 <= o <= 0xdf
        }),
    ensures
        step(src, cap, st) == Step::Halt(
            Err(
                Error::InvalidOpcode { position: st.ip as usize, opcode: src[st.ip as int] },
            ),
            st,
        ),
{
    reveal(step);
}

/// The end-of-stream opcode `0x06` stops decoding successfully, reporting
/// the bytes written so far and reading nothing after it.
pub proof fn lemma_end_of_stream_opcode(src: Seq<u8>, cap: nat, st: DecodeState)
    requires
        st.ip < src.len(),
        src[st.ip as int] == 0x06,
    ensures
        step(src, cap, st) == Step::Halt(Ok(st.out.len() as usize), st),
{
    reveal(step);
}

} // verus!
