//! Properties of LZVN decoding as a whole, proved over the model in `spec`.
use crate::error::Error;
use crate::spec::{
    initial_state, lemma_run_extends, lemma_step_advances, lemma_step_extends, literal_count,
    literal_match_step, literal_step, lzvn_decode, match_length, opcode_kind, OpcodeKind, match_step, reachable, run_from,
    step, DecodeState, Step,
};
use vstd::prelude::*;

verus! {

/// The step `s` halts because the input ran out.
pub open spec fn ran_out(s: Step) -> bool {
    s matches Step::Halt(Err(Error::TruncatedInput { .. }), _)
}

proof fn lemma_literal_step_tail(
    src: Seq<u8>,
    extra: Seq<u8>,
    cap: nat,
    st: DecodeState,
    opcode_len: nat,
    len: nat,
)
    ensures
        !ran_out(literal_step(src, cap, st, opcode_len, len)) ==> literal_step(src + extra, cap, st, opcode_len, len) == literal_step(
            src,
            cap,
            st,
            opcode_len,
            len,
        ),
{
    let start = st.ip + opcode_len;
    if start + len <= src.len() {
        assert((src + extra).subrange(start as int, (start + len) as int) =~= src.subrange(
            start as int,
            (start + len) as int,
        ));
    }
}

proof fn lemma_literal_match_step_tail(
    src: Seq<u8>,
    extra: Seq<u8>,
    cap: nat,
    st: DecodeState,
    opcode_len: nat,
    lit: nat,
    mlen: nat,
    distance: nat,
)
    ensures
        !ran_out(literal_match_step(src, cap, st, opcode_len, lit, mlen, distance))
            ==> literal_match_step(src + extra, cap, st, opcode_len, lit, mlen, distance)
            == literal_match_step(src, cap, st, opcode_len, lit, mlen, distance),
{
    let start = st.ip + opcode_len;
    if start + lit <= src.len() {
        assert((src + extra).subrange(start as int, (start + lit) as int) =~= src.subrange(
            start as int,
            (start + lit) as int,
        ));
    }
}

/// A step that does not run out of input does the same on any longer input
/// with the same beginning.
proof fn lemma_step_tail(src: Seq<u8>, extra: Seq<u8>, cap: nat, st: DecodeState)
    requires
        !ran_out(step(src, cap, st)),
    ensures
        step(src + extra, cap, st) == step(src, cap, st),
{
    reveal(step);
    let long = src + extra;
    let ip = st.ip as int;
    if ip < src.len() {
        let opcode = src[ip];
        assert(long[ip] == opcode);
        lemma_literal_step_tail(src, extra, cap, st, 1, (opcode % 16) as nat);
        lemma_literal_match_step_tail(
            src,
            extra,
            cap,
            st,
            1,
            literal_count(opcode),
            match_length(opcode),
            st.prev,
        );
        if ip + 1 < src.len() {
            let b1 = src[ip + 1];
            assert(long[ip + 1] == b1);
            lemma_literal_step_tail(src, extra, cap, st, 2, (b1 + 16) as nat);
            lemma_literal_match_step_tail(
                src,
                extra,
                cap,
                st,
                2,
                literal_count(opcode),
                match_length(opcode),
                ((opcode % 8) * 256 + b1) as nat,
            );
            if ip + 2 < src.len() {
                let b2 = src[ip + 2];
                assert(long[ip + 2] == b2);
                lemma_literal_match_step_tail(
                    src,
                    extra,
                    cap,
                    st,
                    3,
                    ((opcode / 8) % 4) as nat,
                    ((opcode % 8) * 4 + b1 % 4 + 3) as nat,
                    (b1 / 4 + b2 * 64) as nat,
                );
                lemma_literal_match_step_tail(
                    src,
                    extra,
                    cap,
                    st,
                    3,
                    literal_count(opcode),
                    match_length(opcode),
                    (b1 + b2 * 256) as nat,
                );
            }
        }
    }
}

/// Length tolerance from any state: bytes appended to the input change neither
/// the result nor the state decoding halts in, unless it had stopped because
/// the input ran out.
pub proof fn lemma_run_tail(src: Seq<u8>, extra: Seq<u8>, cap: nat, st: DecodeState)
    requires
        !(run_from(src, cap, st).0 matches Err(Error::TruncatedInput { .. })),
    ensures
        run_from(src + extra, cap, st) == run_from(src, cap, st),
    decreases src.len() - st.ip,
{
    lemma_step_advances(src, cap, st);
    lemma_step_tail(src, extra, cap, st);
    match step(src, cap, st) {
        Step::Continue(next) => {
            lemma_run_tail(src, extra, cap, next);
        },
        Step::Halt(_, _) => {},
    }
}

/// Length tolerance: decoding stops at the end-of-stream opcode, so bytes
/// appended after a block change nothing: neither the result nor any byte
/// written. More generally, appending bytes changes nothing unless decoding
/// had stopped because the input ran out.
pub proof fn lemma_trailing_bytes_ignored(src: Seq<u8>, extra: Seq<u8>, cap: nat)
    requires
        !(lzvn_decode(src, cap).0 matches Err(Error::TruncatedInput { .. })),
    ensures
        lzvn_decode(src + extra, cap) == lzvn_decode(src, cap),
{
    lemma_run_tail(src, extra, cap, initial_state());
}

/// Under the buffer size `cap2`, the step `s` taken under another size does
/// the same, or, where the bytes it writes would not fit, stops for want of room.
pub open spec fn same_or_too_small(s: Step, s2: Step, st: DecodeState, cap2: nat) -> bool {
    match s {
        Step::Continue(next) => if next.out.len() <= cap2 {
            s2 == s
        } else {
            s2 == Step::Halt(
                Err(Error::OutputTooSmall { written: st.out.len() as usize, capacity: cap2 as usize }),
                st,
            )
        },
        Step::Halt(Ok(_), _) => s2 == s,
        Step::Halt(Err(_), _) => true,
    }
}

proof fn lemma_step_buffer(src: Seq<u8>, cap: nat, cap2: nat, st: DecodeState)
    requires
        reachable(src, cap, st),
        st.out.len() <= cap2,
    ensures
        same_or_too_small(step(src, cap, st), step(src, cap2, st), st, cap2),
{
    reveal(step);
}

proof fn lemma_run_buffer(src: Seq<u8>, cap: nat, cap2: nat, st: DecodeState)
    requires
        reachable(src, cap, st),
        st.out.len() <= cap2,
        cap <= usize::MAX,
        run_from(src, cap, st).0 is Ok,
    ensures
        ({
            let (result, halted) = run_from(src, cap, st);
            if halted.out.len() <= cap2 {
                run_from(src, cap2, st) == (result, halted)
            } else {
                run_from(src, cap2, st).0 == Err::<usize, Error>(
                    Error::OutputTooSmall {
                        written: run_from(src, cap2, st).1.out.len() as usize,
                        capacity: cap2 as usize,
                    },
                )
            }
        }),
    decreases src.len() - st.ip,
{
    lemma_step_advances(src, cap, st);
    lemma_step_extends(src, cap, st);
    lemma_step_buffer(src, cap, cap2, st);
    match step(src, cap, st) {
        Step::Continue(next) => {
            lemma_run_extends(src, cap, next);
            assert(run_from(src, cap, st) == run_from(src, cap, next));
            if next.out.len() <= cap2 {
                assert(step(src, cap2, st) == Step::Continue(next));
                assert(run_from(src, cap2, st) == run_from(src, cap2, next));
                lemma_run_buffer(src, cap, cap2, next);
            } else {
                assert(run_from(src, cap2, st) == (
                    Err::<usize, Error>(
                        Error::OutputTooSmall {
                            written: st.out.len() as usize,
                            capacity: cap2 as usize,
                        },
                    ),
                    st,
                ));
            }
        },
        Step::Halt(r, out) => {
            assert(step(src, cap2, st) == step(src, cap, st));
            assert(run_from(src, cap2, st) == (r, out));
        },
    }
}

/// The size of the output buffer decides only whether decoding succeeds: a
/// buffer that holds the decoded output gives the same result and the same
/// bytes as any other, and one that is too small makes decoding stop with
/// `OutputTooSmall`, reporting that buffer's size.
pub proof fn lemma_buffer_size(src: Seq<u8>, cap: nat, cap2: nat)
    requires
        lzvn_decode(src, cap).0 is Ok,
        cap <= usize::MAX,
    ensures
        lzvn_decode(src, cap).1.len() <= cap2 ==> lzvn_decode(src, cap2) == lzvn_decode(src, cap),
        lzvn_decode(src, cap).1.len() > cap2 ==> lzvn_decode(src, cap2).0 == Err::<usize, Error>(
            Error::OutputTooSmall {
                written: lzvn_decode(src, cap2).1.len() as usize,
                capacity: cap2 as usize,
            },
        ),
{
    lemma_run_buffer(src, cap, cap2, initial_state());
}

/// The fields of `result`, an error that stopped decoding of `src` into a
/// buffer of `cap` bytes in the state `halted`, describe the failure: a
/// truncation lies within the input; an invalid opcode is an undefined one and
/// the byte at the input cursor where decoding stopped; an undersized buffer
/// reports the buffer's size and the bytes written; a bad match distance is
/// zero or longer than the bytes written.
pub open spec fn describes(
    src: Seq<u8>,
    cap: nat,
    result: Result<usize, Error>,
    halted: DecodeState,
) -> bool {
    match result {
        Err(Error::TruncatedInput { position }) => position <= src.len(),
        Err(Error::InvalidOpcode { position, opcode }) => {
            &&& position == halted.ip
            &&& position < src.len()
            &&& src[position as int] == opcode
            &&& opcode_kind(opcode) is Reserved
        },
        Err(Error::OutputTooSmall { written, capacity }) => {
            &&& capacity == cap
            &&& written == halted.out.len()
        },
        Err(Error::InvalidMatchDistance { distance, available }) => {
            &&& distance == 0 || distance > available
            &&& available == halted.out.len()
        },
        Ok(_) => true,
    }
}

/// The step `s` halts, if at all, with an error that describes the failure.
pub open spec fn halts_described(src: Seq<u8>, cap: nat, s: Step) -> bool {
    s matches Step::Halt(result, halted) ==> describes(src, cap, result, halted)
}

proof fn lemma_helpers_describe(
    src: Seq<u8>,
    cap: nat,
    st: DecodeState,
    opcode_len: nat,
    lit: nat,
    mlen: nat,
    distance: nat,
)
    requires
        reachable(src, cap, st),
        cap <= usize::MAX,
        src.len() <= usize::MAX,
        distance <= usize::MAX,
    ensures
        halts_described(src, cap, literal_step(src, cap, st, opcode_len, lit)),
        halts_described(src, cap, match_step(src, cap, st, opcode_len, mlen, distance)),
        halts_described(
            src,
            cap,
            literal_match_step(src, cap, st, opcode_len, lit, mlen, distance),
        ),
{
}

proof fn lemma_step_describes(src: Seq<u8>, cap: nat, st: DecodeState)
    requires
        reachable(src, cap, st),
        cap <= usize::MAX,
        src.len() <= usize::MAX,
    ensures
        halts_described(src, cap, step(src, cap, st)),
{
    reveal(step);
    let ip = st.ip as int;
    if ip < src.len() {
        let opcode = src[ip];
        lemma_helpers_describe(
            src,
            cap,
            st,
            1,
            (opcode % 16) as nat,
            (opcode % 16) as nat,
            st.prev,
        );
        lemma_helpers_describe(
            src,
            cap,
            st,
            1,
            literal_count(opcode),
            match_length(opcode),
            st.prev,
        );
        if ip + 1 < src.len() {
            let b1 = src[ip + 1];
            lemma_helpers_describe(src, cap, st, 2, (b1 + 16) as nat, (b1 + 16) as nat, st.prev);
            lemma_helpers_describe(
                src,
                cap,
                st,
                2,
                literal_count(opcode),
                match_length(opcode),
                ((opcode % 8) * 256 + b1) as nat,
            );
            if ip + 2 < src.len() {
                let b2 = src[ip + 2];
                lemma_helpers_describe(
                    src,
                    cap,
                    st,
                    3,
                    ((opcode / 8) % 4) as nat,
                    ((opcode % 8) * 4 + b1 % 4 + 3) as nat,
                    (b1 / 4 + b2 * 64) as nat,
                );
                lemma_helpers_describe(
                    src,
                    cap,
                    st,
                    3,
                    literal_count(opcode),
                    match_length(opcode),
                    (b1 + b2 * 256) as nat,
                );
            }
        }
    }
}

/// Decoding from any reachable state stops, if with an error, with one that
/// describes the failure (see [`describes`]).
pub proof fn lemma_run_describes(src: Seq<u8>, cap: nat, st: DecodeState)
    requires
        reachable(src, cap, st),
        cap <= usize::MAX,
        src.len() <= usize::MAX,
    ensures
        describes(src, cap, run_from(src, cap, st).0, run_from(src, cap, st).1),
    decreases src.len() - st.ip,
{
    lemma_step_advances(src, cap, st);
    lemma_step_extends(src, cap, st);
    lemma_step_describes(src, cap, st);
    if let Step::Continue(next) = step(src, cap, st) {
        lemma_run_describes(src, cap, next);
    }
}

/// Every error names what went wrong: a truncation lies within the input, an
/// invalid opcode is an undefined opcode, the byte at the offset it reports,
/// where decoding stopped; an undersized buffer reports the buffer's size and
/// the bytes written before the failure; a bad match distance is zero or
/// longer than the output written so far.
pub proof fn lemma_errors_describe_failure(src: Seq<u8>, cap: nat)
    requires
        cap <= usize::MAX,
        src.len() <= usize::MAX,
    ensures
        describes(
            src,
            cap,
            run_from(src, cap, initial_state()).0,
            run_from(src, cap, initial_state()).1,
        ),
{
    lemma_run_describes(src, cap, initial_state());
}

/// Decoding that reaches the end-of-stream opcode stops there, successfully,
/// in the state it reached, whatever follows the opcode.
pub proof fn lemma_end_of_stream_stops(src: Seq<u8>, cap: nat, st: DecodeState)
    requires
        st.ip < src.len(),
        src[st.ip as int] == 0x06,
    ensures
        run_from(src, cap, st) == (Ok::<usize, Error>(st.out.len() as usize), st),
{
    reveal(step);
}

/// Decoding that reaches an undefined opcode stops there with `InvalidOpcode`,
/// naming that opcode and its offset, in the state it reached.
pub proof fn lemma_undefined_opcode_stops(src: Seq<u8>, cap: nat, st: DecodeState)
    requires
        st.ip < src.len(),
        opcode_kind(src[st.ip as int]) is Reserved,
    ensures
        run_from(src, cap, st) == (
            Err::<usize, Error>(
                Error::InvalidOpcode { position: st.ip as usize, opcode: src[st.ip as int] },
            ),
            st,
        ),
{
    reveal(step);
}

} // verus!
