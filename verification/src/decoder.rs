//! The executable decoder, proved against the model in `spec`.
use crate::error::Error;
use crate::laws::{describes, lemma_run_describes};
use crate::spec::{
    initial_state, lemma_run_extends, lemma_step_advances, literal_match_step, literal_step,
    lzvn_decode, match_bytes, match_step, reachable, run_from, step, truncated, DecodeState, Step,
};
use vstd::prelude::*;

verus! {

/// Copies `len` bytes of `src` from offset `from` to offset `at` of `dst`.
fn copy_from_src(dst: &mut [u8], at: usize, src: &[u8], from: usize, len: usize)
    requires
        at + len <= old(dst)@.len(),
        from + len <= src@.len(),
        at + len <= usize::MAX,
        from + len <= usize::MAX,
    ensures
        final(dst)@ == old(dst)@.take(at as int) + src@.subrange(from as int, (from + len) as int)
            + old(dst)@.skip((at + len) as int),
{
    let ghost before = dst@;
    let mut k: usize = 0;
    while k < len
        invariant
            k <= len,
            at + len <= before.len(),
            from + len <= src@.len(),
            at + len <= usize::MAX,
            from + len <= usize::MAX,
            dst@.len() == before.len(),
            forall|j: int| 0 <= j < at ==> dst@[j] == before[j],
            forall|j: int| at <= j < at + k ==> dst@[j] == src@[from + (j - at)],
            forall|j: int| at + k <= j < before.len() ==> dst@[j] == before[j],
        decreases len - k,
    {
        dst[at + k] = src[from + k];
        k = k + 1;
    }
    assert(dst@ =~= before.take(at as int) + src@.subrange(from as int, (from + len) as int)
        + before.skip((at + len) as int));
}

/// Bytes that `a` and `b` share from `j` on, and `b` and `c` from `i <= j`
/// on, `a` and `c` share from `j` on.
proof fn lemma_skip_agrees(a: Seq<u8>, b: Seq<u8>, c: Seq<u8>, i: int, j: int)
    requires
        0 <= i <= j <= a.len(),
        a.len() == b.len(),
        b.len() == c.len(),
        a.skip(j) == b.skip(j),
        b.skip(i) == c.skip(i),
    ensures
        a.skip(j) == c.skip(j),
{
    assert forall|k: int| 0 <= k < a.len() - j implies a.skip(j)[k] == c.skip(j)[k] by {
        assert(a.skip(j)[k] == b.skip(j)[k]);
        assert(b.skip(i)[j - i + k] == c.skip(i)[j - i + k]);
    }
    assert(a.skip(j) =~= c.skip(j));
}

/// The cursors of a decoding in progress over the input `src`, writing to a
/// buffer of `cap` bytes.
struct Decoder<'a> {
    src: &'a [u8],
    cap: usize,
    ip: usize,
    op: usize,
    prev_distance: usize,
}

impl<'a> Decoder<'a> {
    /// The model state of this decoder, `dst` being the output buffer.
    spec fn state(self, dst: Seq<u8>) -> DecodeState {
        DecodeState { ip: self.ip as nat, out: dst.take(self.op as int), prev: self.prev_distance as nat }
    }

    /// The cursors lie within the input and the output buffer `dst`.
    spec fn wf(self, dst: Seq<u8>) -> bool {
        &&& self.cap == dst.len()
        &&& self.ip <= self.src@.len()
        &&& self.src@.len() <= usize::MAX
        &&& self.op <= dst.len()
    }

    /// Going from `self` over `dst` to `after` over `after_dst`, with result `r`,
    /// does what the model step `s` says.
    spec fn follows(
        self,
        dst: Seq<u8>,
        after: Decoder,
        after_dst: Seq<u8>,
        r: Result<(), Error>,
        s: Step,
    ) -> bool {
        &&& after.src == self.src
        &&& after.cap == self.cap
        &&& after_dst.len() == dst.len()
        &&& after.wf(after_dst)
        &&& self.op <= after.op
        &&& after_dst.skip(after.op as int) == dst.skip(after.op as int)
        &&& match s {
            Step::Continue(next) => r is Ok && after.state(after_dst) == next,
            Step::Halt(Err(e), halted) => {
                &&& r == Err::<(), Error>(e)
                &&& after.op == halted.out.len()
                &&& after.state(after_dst) == halted
            },
            Step::Halt(Ok(_), _) => false,
        }
    }

    /// The input byte at `position`.
    fn byte(&self, position: usize) -> (r: Result<u8, Error>)
        ensures
            position < self.src@.len() ==> r == Ok::<u8, Error>(self.src@[position as int]),
            position >= self.src@.len() ==> r == Err::<u8, Error>(truncated(position as nat)),
    {
        if position < self.src.len() {
            Ok(self.src[position])
        } else {
            Err(Error::TruncatedInput { position })
        }
    }

    /// Checks that `needed` input bytes remain from the input cursor.
    fn need_input(&self, needed: usize) -> (r: Result<(), Error>)
        requires
            self.ip <= self.src@.len(),
        ensures
            r == (if self.ip + needed > self.src@.len() {
                Err::<(), Error>(truncated(self.ip as nat))
            } else {
                Ok(())
            }),
    {
        if self.src.len().saturating_sub(self.ip) < needed {
            return Err(Error::TruncatedInput { position: self.ip });
        }
        Ok(())
    }

    /// Checks that `needed` bytes of room remain after the output cursor.
    fn need_output(&self, needed: usize) -> (r: Result<(), Error>)
        requires
            self.op <= self.cap,
        ensures
            r == (if self.op + needed > self.cap {
                Err::<(), Error>(Error::OutputTooSmall { written: self.op, capacity: self.cap })
            } else {
                Ok(())
            }),
    {
        if self.cap.saturating_sub(self.op) < needed {
            return Err(Error::OutputTooSmall { written: self.op, capacity: self.cap });
        }
        Ok(())
    }

    /// An opcode of `opcode_len` bytes followed by `len` literals.
    fn literal(&mut self, dst: &mut [u8], opcode_len: usize, len: usize) -> (r: Result<(), Error>)
        requires
            old(self).wf(old(dst)@),
            opcode_len + len <= usize::MAX,
        ensures
            old(self).follows(
                old(dst)@,
                *final(self),
                final(dst)@,
                r,
                literal_step(
                    old(self).src@,
                    old(self).cap as nat,
                    old(self).state(old(dst)@),
                    opcode_len as nat,
                    len as nat,
                ),
            ),
    {
        let ghost d0 = dst@;
        match self.need_input(opcode_len + len) {
            Ok(()) => {},
            Err(e) => return Err(e),
        }
        match self.need_output(len) {
            Ok(()) => {},
            Err(e) => return Err(e),
        }
        let start = self.ip + opcode_len;
        copy_from_src(dst, self.op, self.src, start, len);
        self.ip = start + len;
        self.op = self.op + len;
        assert(dst@.take(self.op as int) =~= d0.take(old(self).op as int) + self.src@.subrange(
            start as int,
            (start + len) as int,
        ));
        assert(dst@.skip(self.op as int) =~= d0.skip(self.op as int));
        Ok(())
    }

    /// Copies a `len`-byte match `distance` bytes behind the output cursor,
    /// byte by byte so that an overlapping copy repeats the pattern.
    fn copy_match(&mut self, dst: &mut [u8], len: usize, distance: usize) -> (r: Result<(), Error>)
        requires
            old(self).wf(old(dst)@),
        ensures
            final(self).src == old(self).src,
            final(self).cap == old(self).cap,
            final(self).ip == old(self).ip,
            distance == 0 || distance > old(self).op ==> {
                &&& r == Err::<(), Error>(
                    Error::InvalidMatchDistance { distance, available: old(self).op },
                )
                &&& *final(self) == *old(self)
                &&& final(dst)@ == old(dst)@
            },
            !(distance == 0 || distance > old(self).op) && old(self).op + len > old(self).cap ==> {
                &&& r == Err::<(), Error>(
                    Error::OutputTooSmall { written: old(self).op, capacity: old(self).cap },
                )
                &&& *final(self) == *old(self)
                &&& final(dst)@ == old(dst)@
            },
            !(distance == 0 || distance > old(self).op) && old(self).op + len <= old(self).cap ==> {
                let out = old(dst)@.take(old(self).op as int);
                &&& r is Ok
                &&& final(self).op == old(self).op + len
                &&& final(self).prev_distance == distance
                &&& final(dst)@ == out + match_bytes(out, distance as nat, len as nat) + old(
                    dst,
                )@.skip(old(self).op + len)
            },
    {
        if distance == 0 || distance > self.op {
            return Err(Error::InvalidMatchDistance { distance, available: self.op });
        }
        match self.need_output(len) {
            Ok(()) => {},
            Err(e) => return Err(e),
        }
        let ghost before = dst@;
        let ghost out = before.take(self.op as int);
        let op = self.op;
        let start = op - distance;
        let mut i: usize = 0;
        while i < len
            invariant
                i <= len,
                op + len <= before.len(),
                0 < distance <= op,
                start == op - distance,
                out == before.take(op as int),
                dst@.len() == before.len(),
                forall|j: int| 0 <= j < op ==> dst@[j] == before[j],
                forall|j: int|
                    op <= j < op + i ==> dst@[j] == before[start + (j - op) % (distance as int)],
                forall|j: int| op + i <= j < before.len() ==> dst@[j] == before[j],
            decreases len - i,
        {
            proof {
                if i < distance {
                    vstd::arithmetic::div_mod::lemma_small_mod(i as nat, distance as nat);
                } else {
                    vstd::arithmetic::div_mod::lemma_mod_sub_multiples_vanish(
                        i as int,
                        distance as int,
                    );
                    assert(0 <= (i - distance) % (distance as int) < distance) by {
                        vstd::arithmetic::div_mod::lemma_mod_bound(
                            (i - distance) as int,
                            distance as int,
                        );
                    }
                }
            }
            let b = dst[start + i];
            dst[op + i] = b;
            i = i + 1;
        }
        self.op = op + len;
        self.prev_distance = distance;
        assert(dst@ =~= out + match_bytes(out, distance as nat, len as nat) + before.skip(
            (op + len) as int,
        )) by {
            assert forall|j: int| op <= j < op + len implies #[trigger] dst@[j] == match_bytes(
                out,
                distance as nat,
                len as nat,
            )[j - op] by {
                vstd::arithmetic::div_mod::lemma_mod_bound(j - op, distance as int);
            }
        }
        Ok(())
    }

    /// An opcode of `opcode_len` bytes that copies a `len`-byte match at `distance`.
    fn match_only(&mut self, dst: &mut [u8], opcode_len: usize, len: usize, distance: usize) -> (r:
        Result<(), Error>)
        requires
            old(self).wf(old(dst)@),
        ensures
            old(self).follows(
                old(dst)@,
                *final(self),
                final(dst)@,
                r,
                match_step(
                    old(self).src@,
                    old(self).cap as nat,
                    old(self).state(old(dst)@),
                    opcode_len as nat,
                    len as nat,
                    distance as nat,
                ),
            ),
    {
        let ghost d0 = dst@;
        match self.need_input(opcode_len) {
            Ok(()) => {},
            Err(e) => return Err(e),
        }
        match self.need_output(len) {
            Ok(()) => {},
            Err(e) => return Err(e),
        }
        match self.copy_match(dst, len, distance) {
            Ok(()) => {},
            Err(e) => return Err(e),
        }
        self.ip = self.ip + opcode_len;
        proof {
            let out = d0.take(old(self).op as int);
            assert(dst@.take(self.op as int) =~= out + match_bytes(out, distance as nat, len as nat));
            assert(dst@.skip(self.op as int) =~= d0.skip(self.op as int));
        }
        Ok(())
    }

    /// An opcode of `opcode_len` bytes followed by `lit` literals, then a
    /// `mlen`-byte match at `distance`.
    fn literal_and_match(
        &mut self,
        dst: &mut [u8],
        opcode_len: usize,
        lit: usize,
        mlen: usize,
        distance: usize,
    ) -> (r: Result<(), Error>)
        requires
            old(self).wf(old(dst)@),
            opcode_len + lit <= usize::MAX,
            lit + mlen <= usize::MAX,
        ensures
            old(self).follows(
                old(dst)@,
                *final(self),
                final(dst)@,
                r,
                literal_match_step(
                    old(self).src@,
                    old(self).cap as nat,
                    old(self).state(old(dst)@),
                    opcode_len as nat,
                    lit as nat,
                    mlen as nat,
                    distance as nat,
                ),
            ),
    {
        let ghost d0 = dst@;
        match self.need_input(opcode_len + lit) {
            Ok(()) => {},
            Err(e) => return Err(e),
        }
        match self.need_output(lit + mlen) {
            Ok(()) => {},
            Err(e) => return Err(e),
        }
        let start = self.ip + opcode_len;
        copy_from_src(dst, self.op, self.src, start, lit);
        self.ip = start + lit;
        self.op = self.op + lit;
        let ghost d1 = dst@;
        let ghost out1 = d0.take(old(self).op as int) + self.src@.subrange(
            start as int,
            (start + lit) as int,
        );
        assert(d1.take(self.op as int) =~= out1);
        assert(d1.skip(self.op as int) =~= d0.skip(self.op as int));
        match self.copy_match(dst, mlen, distance) {
            Ok(()) => {},
            Err(e) => return Err(e),
        }
        proof {
            assert(dst@.take(self.op as int) =~= out1 + match_bytes(
                out1,
                distance as nat,
                mlen as nat,
            ));
            assert(dst@.skip(self.op as int) =~= d0.skip(self.op as int));
        }
        Ok(())
    }

    /// Executes the opcode at the input cursor: `Ok(Some(n))` at the end of
    /// the stream, `n` bytes having been written; `Ok(None)` when decoding goes on.
    #[verifier::rlimit(50)]
    fn decode_opcode(&mut self, dst: &mut [u8]) -> (r: Result<Option<usize>, Error>)
        requires
            old(self).wf(old(dst)@),
        ensures
            ({
                let s = step(old(self).src@, old(self).cap as nat, old(self).state(old(dst)@));
                let unit = match r {
                    Ok(_) => Ok::<(), Error>(()),
                    Err(e) => Err(e),
                };
                match s {
                    Step::Halt(Ok(n), halted) => {
                        &&& r == Ok::<Option<usize>, Error>(Some(n))
                        &&& n == old(self).op
                        &&& *final(self) == *old(self)
                        &&& final(dst)@ == old(dst)@
                        &&& halted == old(self).state(old(dst)@)
                    },
                    _ => {
                        &&& r is Err || r == Ok::<Option<usize>, Error>(None)
                        &&& old(self).follows(old(dst)@, *final(self), final(dst)@, unit, s)
                    },
                }
            }),
    {
        let ghost st = self.state(dst@);
        proof {
            reveal(step);
        }
        if self.ip >= self.src.len() {
            return Err(Error::TruncatedInput { position: self.ip });
        }
        let opcode = self.src[self.ip];
        let r: Result<(), Error> = match opcode {
            0x06 => {
                return Ok(Some(self.op));
            },
            0x0e | 0x16 => {
                self.ip = self.ip + 1;
                Ok(())
            },
            0xe0 => match self.byte(self.ip + 1) {
                Ok(b) => self.literal(dst, 2, b as usize + 16),
                Err(e) => Err(e),
            },
            o if 0xe1 <= o && o <= 0xef => self.literal(dst, 1, (opcode % 16) as usize),
            0xf0 => match self.byte(self.ip + 1) {
                Ok(b) => self.match_only(dst, 2, b as usize + 16, self.prev_distance),
                Err(e) => Err(e),
            },
            o if 0xf1 <= o => self.match_only(dst, 1, (opcode % 16) as usize, self.prev_distance),
            o if 0xa0 <= o && o <= 0xbf => match self.byte(self.ip + 1) {
                Ok(b1) => match self.byte(self.ip + 2) {
                    Ok(b2) => {
                        let lit = ((opcode / 8) % 4) as usize;
                        let mlen = (opcode % 8) as usize * 4 + (b1 % 4) as usize + 3;
                        let dist = (b1 / 4) as usize + b2 as usize * 64;
                        self.literal_and_match(dst, 3, lit, mlen, dist)
                    },
                    Err(e) => Err(e),
                },
                Err(e) => Err(e),
            },
            0x46 | 0x4e | 0x56 | 0x5e | 0x66 | 0x6e | 0x86 | 0x8e | 0x96 | 0x9e | 0xc6 | 0xce => {
                let lit = (opcode / 64) as usize;
                let mlen = ((opcode / 8) % 8) as usize + 3;
                self.literal_and_match(dst, 1, lit, mlen, self.prev_distance)
            },
            0x07 | 0x0f | 0x17 | 0x1f | 0x27 | 0x2f | 0x37 | 0x3f | 0x47 | 0x4f | 0x57 | 0x5f
            | 0x67 | 0x6f | 0x87 | 0x8f | 0x97 | 0x9f | 0xc7 | 0xcf => match self.byte(self.ip + 1) {
                Ok(b1) => match self.byte(self.ip + 2) {
                    Ok(b2) => {
                        let lit = (opcode / 64) as usize;
                        let mlen = ((opcode / 8) % 8) as usize + 3;
                        let dist = b1 as usize + b2 as usize * 256;
                        self.literal_and_match(dst, 3, lit, mlen, dist)
                    },
                    Err(e) => Err(e),
                },
                Err(e) => Err(e),
            },
            0x1e | 0x26 | 0x2e | 0x36 | 0x3e => Err(
                Error::InvalidOpcode { position: self.ip, opcode },
            ),
            o if (0x70 <= o && o <= 0x7f) || (0xd0 <= o && o <= 0xdf) => Err(
                Error::InvalidOpcode { position: self.ip, opcode },
            ),
            _ => match self.byte(self.ip + 1) {
                Ok(b1) => {
                    let lit = (opcode / 64) as usize;
                    let mlen = ((opcode / 8) % 8) as usize + 3;
                    let dist = (opcode % 8) as usize * 256 + b1 as usize;
                    self.literal_and_match(dst, 2, lit, mlen, dist)
                },
                Err(e) => Err(e),
            },
        };
        match r {
            Ok(()) => Ok(None),
            Err(e) => Err(e),
        }
    }

    /// Decodes opcodes until the end-of-stream opcode or an error, returning
    /// the number of bytes written.
    fn run(&mut self, dst: &mut [u8]) -> (r: Result<usize, Error>)
        requires
            old(self).wf(old(dst)@),
        ensures
            ({
                let (result, halted) = run_from(
                    old(self).src@,
                    old(self).cap as nat,
                    old(self).state(old(dst)@),
                );
                &&& r == result
                &&& final(self).src == old(self).src
                &&& final(self).cap == old(self).cap
                &&& final(self).wf(final(dst)@)
                &&& final(self).state(final(dst)@) == halted
                &&& final(self).op == halted.out.len()
                &&& old(self).op <= final(self).op
                &&& final(dst)@ == halted.out + old(dst)@.skip(halted.out.len() as int)
                &&& final(dst)@.take(old(self).op as int) == old(dst)@.take(old(self).op as int)
                &&& r matches Ok(n) ==> n == final(self).op
                &&& describes(old(self).src@, old(self).cap as nat, result, halted)
            }),
    {
        let ghost src = self.src@;
        let ghost cap = self.cap as nat;
        let ghost d0 = dst@;
        let ghost target = run_from(src, cap, self.state(dst@));
        proof {
            lemma_run_extends(src, cap, self.state(dst@));
            lemma_run_describes(src, cap, self.state(dst@));
            assert(self.state(dst@).out.len() == self.op);
        }
        loop
            invariant
                src == old(self).src@,
                cap == old(self).cap,
                d0 == old(dst)@,
                target == run_from(src, cap, old(self).state(d0)),
                old(self).state(d0).out == d0.take(old(self).op as int),
                old(self).op <= d0.len(),
                reachable(src, cap, target.1),
                old(self).op <= target.1.out.len(),
                target.1.out.take(old(self).op as int) == d0.take(old(self).op as int),
                target.0 matches Ok(n) ==> n == target.1.out.len(),
                describes(src, cap, target.0, target.1),
                self.src@ == src,
                self.cap == cap,
                self.wf(dst@),
                dst@.len() == d0.len(),
                dst@.skip(self.op as int) == d0.skip(self.op as int),
                run_from(src, cap, self.state(dst@)) == target,
            decreases src.len() - self.ip,
        {
            let ghost st = self.state(dst@);
            let ghost before = *self;
            let ghost before_dst = dst@;
            let r = self.decode_opcode(dst);
            proof {
                lemma_step_advances(src, cap, st);
            }
            match r {
                Ok(None) => {
                    proof {
                        lemma_skip_agrees(dst@, before_dst, d0, before.op as int, self.op as int);
                    }
                },
                Ok(Some(n)) => {
                    assert(step(src, cap, st) == Step::Halt(Ok(n), st));
                    assert(run_from(src, cap, st) == (Ok::<usize, Error>(n), st));
                    assert(dst@ =~= dst@.take(self.op as int) + d0.skip(self.op as int));
                    assert(dst@.take(old(self).op as int) =~= target.1.out.take(old(self).op as int));
                    return Ok(n);
                },
                Err(e) => {
                    proof {
                        lemma_skip_agrees(dst@, before_dst, d0, before.op as int, self.op as int);
                    }
                    assert(step(src, cap, st) == Step::Halt(Err(e), self.state(dst@)));
                    assert(run_from(src, cap, st) == (Err::<usize, Error>(e), self.state(dst@)));
                    assert(dst@ =~= dst@.take(self.op as int) + d0.skip(self.op as int));
                    assert(dst@.take(old(self).op as int) =~= target.1.out.take(old(self).op as int));
                    return Err(e);
                },
            }
        }
    }
}

/// Decodes the raw LZVN block `src` into `dst`, returning the number of bytes
/// written.
///
/// `dst` must be large enough to hold the entire decoded output. Decoding stops
/// at the end-of-stream opcode (`0x06`); any bytes after it are ignored, so a
/// `decmpfs` resource-fork block can be passed verbatim, trailing padding and all.
///
/// The result and every byte written are those of the model [`lzvn_decode`];
/// the bytes of `dst` past the written ones keep their old values, also when
/// decoding fails part way, and an error's fields describe the failure (see
/// [`describes`]).
pub fn decode_into(src: &[u8], dst: &mut [u8]) -> (r: crate::error::Result<usize>)
    ensures
        ({
            let (result, out) = lzvn_decode(src@, old(dst)@.len());
            &&& r == result
            &&& final(dst)@ == out + old(dst)@.skip(out.len() as int)
            &&& out.len() <= old(dst)@.len()
            &&& r matches Ok(n) ==> n == out.len() && final(dst)@.take(n as int) == out
            &&& describes(
                src@,
                old(dst)@.len(),
                result,
                run_from(src@, old(dst)@.len(), initial_state()).1,
            )
        }),
{
    let src_len = src.len();
    assert(src@.len() == src_len);
    let cap = dst.len();
    let mut decoder = Decoder { src, cap, ip: 0, op: 0, prev_distance: 0 };
    proof {
        assert(decoder.state(dst@) == initial_state()) by {
            assert(dst@.take(0) =~= Seq::<u8>::empty());
        }
        lemma_run_extends(src@, cap as nat, initial_state());
    }
    let r = decoder.run(dst);
    proof {
        let out = lzvn_decode(src@, cap as nat).1;
        assert(final(dst)@.take(out.len() as int) =~= out);
    }
    r
}

/// Decodes the raw LZVN block `src` into a buffer of exactly `decoded_len`
/// bytes (the uncompressed size, known from the `decmpfs` header or the LZFSE
/// block header), and returns the decoded data.
pub fn decode(src: &[u8], decoded_len: usize) -> (r: crate::error::Result<Vec<u8>>)
    ensures
        ({
            let (result, out) = lzvn_decode(src@, decoded_len as nat);
            match result {
                Ok(_) => r matches Ok(v) && v@ == out,
                Err(e) => r == Err::<Vec<u8>, Error>(e),
            }
        }),
{
    let mut dst: Vec<u8> = Vec::new();
    let mut k: usize = 0;
    while k < decoded_len
        invariant
            k <= decoded_len,
            dst@.len() == k,
        decreases decoded_len - k,
    {
        dst.push(0u8);
        k = k + 1;
    }
    let n = match decode_into(src, dst.as_mut_slice()) {
        Ok(n) => n,
        Err(e) => return Err(e),
    };
    dst.truncate(n);
    Ok(dst)
}

} // verus!
