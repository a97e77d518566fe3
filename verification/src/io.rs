//! Input and output: the error type, seeking, and the standard streams.

use vstd::prelude::*;
use vstd::utf8::{valid_utf8, decode_utf8};
use crate::os_str::{string_from_utf8_lossy, utf8_lossy};

verus! {

/// Raw operating-system error code (`errno` on Unix).
pub type RawError = i32;

/// What went wrong in an I/O operation.
#[derive(Debug, Clone, Copy, PartialEq, Eq, Structural)]
pub enum Repr {
    UnexpectedEof,
    WriteZero,
    Utf8,
    Os(RawError),
}

/// The error of any I/O operation.
#[derive(Debug, Clone, Copy, PartialEq, Eq, Structural)]
pub struct Error {
    pub(crate) repr: Repr,
}

impl View for Error {
    type V = Repr;

    closed spec fn view(&self) -> Repr {
        self.repr
    }
}

/// Result type of I/O operations.
pub type Result<T> = core::result::Result<T, Error>;

impl Error {
    /// An error that carries the given OS error code.
    pub fn from_raw_os_error(code: RawError) -> (r: Error)
        ensures
            r@ == Repr::Os(code),
    {
        Error { repr: Repr::Os(code) }
    }

    /// The text the error is displayed with; an OS error shows `os_text`, the
    /// operating system's message for its code.
    pub fn message(&self, os_text: &str) -> (r: String)
        ensures
            r@ == (match self@ {
                Repr::UnexpectedEof => "unexpected eof"@,
                Repr::WriteZero => "write zero"@,
                Repr::Utf8 => "stream did not contain valid UTF-8"@,
                Repr::Os(_) => os_text@,
            }),
    {
        match self.repr {
            Repr::UnexpectedEof => "unexpected eof".to_owned(),
            Repr::WriteZero => "write zero".to_owned(),
            Repr::Utf8 => "stream did not contain valid UTF-8".to_owned(),
            Repr::Os(_) => os_text.to_owned(),
        }
    }

    /// What went wrong.
    pub fn repr(&self) -> (r: Repr)
        ensures
            r == self@,
    {
        self.repr
    }

    /// The OS error code, if this is an OS error.
    pub fn raw_os_error(&self) -> (r: Option<RawError>)
        ensures
            r == (match self@ {
                Repr::Os(code) => Some(code),
                _ => None::<RawError>,
            }),
    {
        match self.repr {
            Repr::Os(err) => Some(err),
            _ => None,
        }
    }
}

/// An error made from an OS error code gives that code back.
pub proof fn law_os_error_round_trip(e: Error, code: RawError)
    requires
        e@ == Repr::Os(code),
    ensures
        (match e@ {
            Repr::Os(c) => Some(c),
            _ => None::<RawError>,
        }) == Some(code),
{
}

/// Error of `core::str::from_utf8`.
#[verifier::external_type_specification]
#[verifier::external_body]
pub struct ExUtf8Error(core::str::Utf8Error);

impl From<core::str::Utf8Error> for Error {
    fn from(_f: core::str::Utf8Error) -> (r: Error)
        ensures
            r@ == Repr::Utf8,
    {
        Error { repr: Repr::Utf8 }
    }
}

impl vstd::std_specs::convert::FromSpecImpl<core::str::Utf8Error> for Error {
    open spec fn obeys_from_spec() -> bool {
        true
    }

    closed spec fn from_spec(v: core::str::Utf8Error) -> Error {
        Error { repr: Repr::Utf8 }
    }
}

/// The index of the first zero in `s`, if any.
pub open spec fn first_zero(s: Seq<u8>) -> Option<int> {
    if exists|i: int| 0 <= i < s.len() && s[i] == 0 {
        Some(choose|i: int| 0 <= i < s.len() && s[i] == 0 && forall|j: int| 0 <= j < i ==> s[j] != 0)
    } else {
        None
    }
}

/// The first zero of `s` is at `k` when `s[k]` is zero and no earlier byte is.
pub proof fn lemma_first_zero(s: Seq<u8>, k: int)
    requires
        0 <= k < s.len(),
        s[k] == 0,
        forall|j: int| 0 <= j < k ==> s[j] != 0,
    ensures
        first_zero(s) == Some(k),
{
    let z = first_zero(s)->Some_0;
    assert(0 <= z < s.len() && s[z] == 0 && forall|j: int| 0 <= j < z ==> s[j] != 0);
    if z < k {
        assert(s[z] != 0);
    }
    if k < z {
        assert(s[k] != 0);
    }
}

/// The message that a C library wrote into `buf` (as `strerror_r` does): the
/// bytes before the first zero, decoded as UTF-8 with invalid sequences
/// replaced.
pub fn c_message(buf: &[u8]) -> (r: String)
    requires
        exists|i: int| 0 <= i < buf@.len() && buf@[i] == 0,
    ensures
        r@ == utf8_lossy(buf@.subrange(0, first_zero(buf@)->Some_0)),
        ({
            let z = first_zero(buf@)->Some_0;
            valid_utf8(buf@.subrange(0, z)) ==> r@ == decode_utf8(buf@.subrange(0, z))
        }),
{
    let mut zero: usize = 0;
    while zero < buf.len() && buf[zero] != 0
        invariant
            0 <= zero <= buf@.len(),
            forall|j: int| 0 <= j < zero ==> buf@[j] != 0,
            exists|i: int| 0 <= i < buf@.len() && buf@[i] == 0,
        decreases buf@.len() - zero,
    {
        zero = zero + 1;
    }
    proof {
        if zero == buf@.len() {
            let i = choose|i: int| 0 <= i < buf@.len() && buf@[i] == 0;
            assert(buf@[i] != 0);
        }
        lemma_first_zero(buf@, zero as int);
    }
    let prefix = vstd::slice::slice_subrange(buf, 0, zero);
    string_from_utf8_lossy(prefix)
}

/// What a loop that must move a whole buffer does with the result of one
/// read or write: go on past `n > 0` bytes, fail with `stall` when no byte
/// moved, or end with the call's error.
pub fn transfer_step(res: Result<usize>, stall: Repr) -> (r: Result<usize>)
    ensures
        match res {
            Ok(n) => if n == 0 {
                r is Err && r->Err_0@ == stall
            } else {
                r == Ok::<usize, Error>(n)
            },
            Err(e) => r == Err::<usize, Error>(e),
        },
{
    match res {
        Ok(n) => {
            if n == 0 {
                Err(Error { repr: stall })
            } else {
                Ok(n)
            }
        },
        Err(e) => Err(e),
    }
}

/// What `read_to_end` does with the result of one read: append `n > 0`
/// bytes (`Some(n)`), stop at the end of the source (`None`), or end with the
/// read's error.
pub fn chunk_step(res: Result<usize>) -> (r: Result<Option<usize>>)
    ensures
        r == (match res {
            Ok(n) => if n == 0 {
                Ok::<Option<usize>, Error>(None)
            } else {
                Ok(Some(n))
            },
            Err(e) => Err(e),
        }),
{
    match res {
        Ok(n) => {
            if n == 0 {
                Ok(None)
            } else {
                Ok(Some(n))
            }
        },
        Err(e) => Err(e),
    }
}

/// The result of a seek made only for its effect: `Ok(())` when it
/// succeeded, its error otherwise.
pub fn seek_done(res: Result<u64>) -> (r: Result<()>)
    ensures
        r == (match res {
            Ok(_) => Ok::<(), Error>(()),
            Err(e) => Err(e),
        }),
{
    match res {
        Ok(_) => Ok(()),
        Err(e) => Err(e),
    }
}

/// The result of `stream_len` once the length `len` is known: `len` when
/// moving the cursor back succeeded, that seek's error otherwise.
pub fn stream_len_result(len: u64, restore: Result<u64>) -> (r: Result<u64>)
    ensures
        r == (match restore {
            Ok(_) => Ok::<u64, Error>(len),
            Err(e) => Err(e),
        }),
{
    match restore {
        Ok(_) => Ok(len),
        Err(e) => Err(e),
    }
}

/// A source of bytes.
///
/// `read` is implemented by the source; what it reads is not stated, only
/// that it reports no more bytes than the buffer holds. Each source names, by
/// `read_call`, what one call of its `read` does, so that the calls the
/// provided methods make can be told apart from calls they did not make.
pub trait Read: Sized {
    /// Whether one call of `read` on the source `pre`, given a buffer holding
    /// `buf`, may return `r`, leave the source `post` and the buffer holding
    /// `filled`.
    open spec fn read_call(pre: Self, buf: Seq<u8>, r: Result<usize>, post: Self, filled: Seq<u8>) -> bool {
        true
    }

    /// Reads some bytes into the front of `buf`, returning how many.
    fn read(&mut self, buf: &mut [u8]) -> (r: Result<usize>)
        ensures
            r is Ok ==> r->Ok_0 <= old(buf)@.len(),
            final(buf)@.len() == old(buf)@.len(),
            Self::read_call(*old(self), old(buf)@, r, *final(self), final(buf)@),
    ;

    /// Reads until `buf` is full; a read of no bytes before that is the error
    /// `UnexpectedEof`. An empty buffer is full without reading.
    ///
    /// The calls made are those of a [`read_exact_run`] from the source and
    /// the buffer as they were to the source and the buffer as they are left,
    /// ending in the result.
    fn read_exact(&mut self, buf: &mut [u8]) -> (r: Result<()>)
        ensures
            old(buf)@.len() == 0 ==> r is Ok,
            exists|results: Seq<Result<usize>>, states: Seq<Self>, outs: Seq<Seq<u8>>|
                #![trigger results.len(), states.len(), outs.len()]
                read_exact_run(
                    (|a: Self, b: Seq<u8>, c: Result<usize>, d: Self, e: Seq<u8>| Self::read_call(a, b, c, d, e)),
                    old(buf)@,
                    0,
                    *old(self),
                    results,
                    states,
                    outs,
                    *final(self),
                    final(buf)@,
                    r,
                ),
    {
        let ghost call = |a: Self, b: Seq<u8>, c: Result<usize>, d: Self, e: Seq<u8>| Self::read_call(a, b, c, d, e);
        let ghost mut results: Seq<Result<usize>> = Seq::empty();
        let ghost mut states: Seq<Self> = Seq::empty();
        let ghost mut outs: Seq<Seq<u8>> = Seq::empty();
        let mut pos: usize = 0;
        while pos < buf.len()
            invariant
                call == (|a: Self, b: Seq<u8>, c: Result<usize>, d: Self, e: Seq<u8>| Self::read_call(a, b, c, d, e)),
                pos <= buf@.len(),
                buf@.len() == old(buf)@.len(),
                read_prefix(call, old(buf)@, 0, *old(self), results, states, outs, *self, buf@, pos as int),
            decreases buf@.len() - pos,
        {
            let ghost cur = *self;
            let ghost before = buf@;
            let ghost mut out: Seq<u8> = Seq::empty();
            let read = {
                let (_head, tail) = buf.split_at_mut(pos);
                assert(tail@ == before.subrange(pos as int, before.len() as int));
                let res = self.read(tail);
                proof {
                    out = tail@;
                }
                assert(Self::read_call(cur, before.subrange(pos as int, before.len() as int), res, *self, out));
                res
            };
            assert(buf@.subrange(pos as int, buf@.len() as int) =~= out);
            proof {
                assert(before.subrange(0, pos as int) + out =~= buf@);
                assert(call(cur, before.subrange(pos as int, before.len() as int), read, *self, out));
            }
            let nr = match transfer_step(read, Repr::UnexpectedEof) {
                Ok(n) => n,
                Err(e) => {
                    proof {
                        let ghost tr = seq![read];
                        let ghost ts = seq![*self];
                        let ghost to = seq![out];
                        assert(read_exact_run(call, before, pos as int, cur, tr, ts, to, *self, buf@, Err(e)));
                        lemma_read_compose(
                            call,
                            old(buf)@,
                            0,
                            *old(self),
                            results,
                            states,
                            outs,
                            cur,
                            before,
                            pos as int,
                            tr,
                            ts,
                            to,
                            *self,
                            buf@,
                            Err(e),
                        );
                        assert((results + tr).len() == (states + ts).len());
                        assert((outs + to).len() == (states + ts).len());
                    }
                    return Err(e);
                },
            };
            proof {
                lemma_read_extend(
                    call,
                    old(buf)@,
                    0,
                    *old(self),
                    results,
                    states,
                    outs,
                    cur,
                    before,
                    pos as int,
                    nr,
                    *self,
                    out,
                );
                results = results.push(Ok(nr));
                states = states.push(*self);
                outs = outs.push(out);
            }
            pos = pos + nr;
        }
        proof {
            assert(read_exact_run(
                call,
                buf@,
                pos as int,
                *self,
                Seq::empty(),
                Seq::empty(),
                Seq::empty(),
                *self,
                buf@,
                Ok(()),
            ));
            lemma_read_compose(
                call,
                old(buf)@,
                0,
                *old(self),
                results,
                states,
                outs,
                *self,
                buf@,
                pos as int,
                Seq::empty(),
                Seq::empty(),
                Seq::empty(),
                *self,
                buf@,
                Ok(()),
            );
            assert(results + Seq::<Result<usize>>::empty() =~= results);
            assert(states + Seq::<Self>::empty() =~= states);
            assert(outs + Seq::<Seq<u8>>::empty() =~= outs);
            assert(results.len() == states.len() || results.len() != outs.len());
        }
        Ok(())
    }

    /// Reads until a read gives no bytes, appending everything read to `buf`.
    /// `buf` is first lengthened with zero bytes to its capacity (512 bytes at
    /// least when it had none), and each read is given the part past what has
    /// been read so far; when that part is used up, the capacity is doubled.
    /// The bytes `buf` held stay in front. At the end `buf` is cut back to the
    /// bytes read. After an error it is left as it stood: lengthened to its
    /// capacity, the bytes past those read being zeros or what the reads wrote
    /// there.
    fn read_to_end(&mut self, buf: &mut Vec<u8>) -> (r: Result<()>)
        ensures
            final(buf)@.len() >= old(buf)@.len(),
            final(buf)@.subrange(0, old(buf)@.len() as int) == old(buf)@,
            exists|
                padded: Seq<u8>,
                results: Seq<Result<usize>>,
                states: Seq<Self>,
                outs: Seq<Seq<u8>>,
                given: Seq<Seq<u8>>,
            |
                #![trigger padded.len(), results.len(), states.len(), outs.len(), given.len()]
                zero_padded(old(buf)@, padded) && read_to_end_run(
                    (|a: Self, b: Seq<u8>, c: Result<usize>, d: Self, e: Seq<u8>| Self::read_call(a, b, c, d, e)),
                    padded,
                    old(buf)@.len() as int,
                    *old(self),
                    results,
                    states,
                    outs,
                    given,
                    *final(self),
                    final(buf)@,
                    r,
                ),
    {
        let ghost call = |a: Self, b: Seq<u8>, c: Result<usize>, d: Self, e: Seq<u8>| Self::read_call(a, b, c, d, e);
        let ghost mut results: Seq<Result<usize>> = Seq::empty();
        let ghost mut states: Seq<Self> = Seq::empty();
        let ghost mut outs: Seq<Seq<u8>> = Seq::empty();
        let ghost mut given: Seq<Seq<u8>> = Seq::empty();
        let mut init = buf.len();
        if byte_capacity(buf) == 0 {
            buf.reserve(512);
        }
        let cap = byte_capacity(buf);
        buf.resize(cap, 0u8);
        let ghost padded = buf@;
        proof {
            lemma_resize_pads(old(buf)@, padded, cap as int);
        }
        loop
            invariant
                call == (|a: Self, b: Seq<u8>, c: Result<usize>, d: Self, e: Seq<u8>| Self::read_call(a, b, c, d, e)),
                old(buf)@.len() <= init <= buf@.len(),
                buf@.subrange(0, old(buf)@.len() as int) == old(buf)@,
                zero_padded(old(buf)@, padded),
                end_prefix(
                    call,
                    padded,
                    old(buf)@.len() as int,
                    *old(self),
                    results,
                    states,
                    outs,
                    given,
                    *self,
                    buf@,
                    init as int,
                ),
            decreases usize::MAX - init,
        {
            let ghost cur = *self;
            let ghost at_head = buf@;
            if init == buf.len() {
                let cap = byte_capacity(buf);
                buf.resize(cap * 2, 0u8);
                proof {
                    lemma_resize_pads(at_head, buf@, cap * 2);
                }
            }
            let ghost before = buf@;
            let ghost mut out: Seq<u8> = Seq::empty();
            let read = {
                let (_head, tail) = buf.as_mut_slice().split_at_mut(init);
                let res = self.read(tail);
                proof {
                    out = tail@;
                }
                res
            };
            proof {
                assert(buf@ =~= before.subrange(0, init as int) + out);
                assert(call(cur, before.subrange(init as int, before.len() as int), read, *self, out));
                assert(buf@.subrange(0, old(buf)@.len() as int) =~= before.subrange(
                    0,
                    old(buf)@.len() as int,
                ));
            }
            match chunk_step(read) {
                Ok(Some(n)) => {
                    proof {
                        lemma_end_extend(
                            call,
                            padded,
                            old(buf)@.len() as int,
                            *old(self),
                            results,
                            states,
                            outs,
                            given,
                            cur,
                            at_head,
                            init as int,
                            before,
                            n,
                            *self,
                            out,
                        );
                        results = results.push(Ok(n));
                        states = states.push(*self);
                        outs = outs.push(out);
                        given = given.push(before);
                    }
                    init = init + n;
                },
                Ok(None) => {
                    let ghost filled = buf@;
                    buf.truncate(init);
                    proof {
                        assert(buf@.subrange(0, old(buf)@.len() as int) =~= old(buf)@);
                        let ghost tr = seq![read];
                        let ghost ts = seq![*self];
                        let ghost to = seq![out];
                        let ghost tg = seq![before];
                        assert(read_to_end_run(call, at_head, init as int, cur, tr, ts, to, tg, *self, buf@, Ok(())));
                        lemma_end_compose(
                            call,
                            padded,
                            old(buf)@.len() as int,
                            *old(self),
                            results,
                            states,
                            outs,
                            given,
                            cur,
                            at_head,
                            init as int,
                            tr,
                            ts,
                            to,
                            tg,
                            *self,
                            buf@,
                            Ok(()),
                        );
                        assert((results + tr).len() == (states + ts).len());
                        assert((outs + to).len() == (given + tg).len());
                        assert(padded.len() == padded.len());
                    }
                    return Ok(());
                },
                Err(e) => {
                    proof {
                        let ghost tr = seq![read];
                        let ghost ts = seq![*self];
                        let ghost to = seq![out];
                        let ghost tg = seq![before];
                        assert(read_to_end_run(call, at_head, init as int, cur, tr, ts, to, tg, *self, buf@, Err(e)));
                        lemma_end_compose(
                            call,
                            padded,
                            old(buf)@.len() as int,
                            *old(self),
                            results,
                            states,
                            outs,
                            given,
                            cur,
                            at_head,
                            init as int,
                            tr,
                            ts,
                            to,
                            tg,
                            *self,
                            buf@,
                            Err(e),
                        );
                        assert((results + tr).len() == (states + ts).len());
                        assert((outs + to).len() == (given + tg).len());
                        assert(padded.len() == padded.len());
                    }
                    return Err(e);
                },
            }
        }
    }
}

/// `Vec::capacity` of std: how many bytes `v` has room for. std documents
/// that the capacity is never below the length, and that an allocation of more
/// than `isize::MAX` bytes is refused, so a byte vector never has a larger one.
#[verifier::external_body]
fn byte_capacity(v: &Vec<u8>) -> (r: usize)
    ensures
        v@.len() <= r <= isize::MAX,
{
    v.capacity()
}

/// A sink of bytes.
///
/// `write` is implemented by the sink; what it writes is not stated, only that
/// it reports no more bytes than it was given. Each sink names, by
/// `write_call`, what one call of its `write` does, so that the calls the
/// provided methods make can be told apart from calls they did not make.
pub trait Write: Sized {
    /// Whether one call of `write` on the sink `pre`, given the bytes `buf`,
    /// may return `r` and leave the sink `post`.
    open spec fn write_call(pre: Self, buf: Seq<u8>, r: Result<usize>, post: Self) -> bool {
        true
    }

    /// Writes some bytes from the front of `buf`, returning how many.
    fn write(&mut self, buf: &[u8]) -> (r: Result<usize>)
        ensures
            r is Ok ==> r->Ok_0 <= buf@.len(),
            Self::write_call(*old(self), buf@, r, *final(self)),
    ;

    /// Writes all of `buf`; a write of no bytes before that is the error
    /// `WriteZero`. An empty buffer is written without writing.
    ///
    /// The calls made are those of a [`write_all_run`] from the sink as it was
    /// to the sink as it is left, ending in the result.
    fn write_all(&mut self, buf: &[u8]) -> (r: Result<()>)
        ensures
            buf@.len() == 0 ==> r is Ok,
            exists|results: Seq<Result<usize>>, states: Seq<Self>|
                #![trigger results.len(), states.len()]
                write_all_run(
                    (|a: Self, b: Seq<u8>, c: Result<usize>, d: Self| Self::write_call(a, b, c, d)),
                    buf@,
                    0,
                    *old(self),
                    results,
                    states,
                    *final(self),
                    r,
                ),
    {
        let ghost call = |a: Self, b: Seq<u8>, c: Result<usize>, d: Self| Self::write_call(a, b, c, d);
        let mut rest: &[u8] = buf;
        let ghost mut off: int = 0;
        let ghost mut results: Seq<Result<usize>> = Seq::empty();
        let ghost mut states: Seq<Self> = Seq::empty();
        while rest.len() > 0
            invariant
                call == (|a: Self, b: Seq<u8>, c: Result<usize>, d: Self| Self::write_call(a, b, c, d)),
                0 <= off <= buf@.len(),
                rest@ == buf@.subrange(off, buf@.len() as int),
                write_prefix(call, buf@, 0, *old(self), results, states, *self, off),
            decreases rest@.len(),
        {
            let ghost cur = *self;
            let written = self.write(rest);
            assert(Self::write_call(cur, rest@, written, *self));
            assert(call(cur, rest@, written, *self));
            let nw = match transfer_step(written, Repr::WriteZero) {
                Ok(n) => n,
                Err(e) => {
                    proof {
                        let ghost tr = seq![written];
                        let ghost ts = seq![*self];
                        assert(tr.drop_first() =~= Seq::<Result<usize>>::empty());
                        assert(write_all_run(call, buf@, off, cur, tr, ts, *self, Err(e)));
                        lemma_write_compose(call, buf@, 0, *old(self), results, states, cur, off, tr, ts, *self, Err(e));
                        assert((results + tr).len() == (states + ts).len());
                    }
                    return Err(e);
                },
            };
            proof {
                lemma_write_extend(call, buf@, 0, *old(self), results, states, cur, off, nw, *self);
                results = results.push(Ok(nw));
                states = states.push(*self);
                off = off + nw;
            }
            rest = vstd::slice::slice_subrange(rest, nw, rest.len());
        }
        proof {
            assert(write_all_run(call, buf@, off, *self, Seq::empty(), Seq::empty(), *self, Ok(())));
            lemma_write_compose(call, buf@, 0, *old(self), results, states, *self, off, Seq::empty(), Seq::empty(), *self, Ok(()));
            assert(results + Seq::<Result<usize>>::empty() =~= results);
            assert(states + Seq::<Self>::empty() =~= states);
            assert(results.len() == states.len() || results.len() != states.len());
        }
        Ok(())
    }
}

/// A run of `read_exact` over a buffer holding `buf`, from byte `off` on,
/// starting at the source `pre`: the `i`-th call is given the part of the
/// buffer from where the previous calls stopped, returns `results[i]`, leaves
/// the source `states[i]` and that part holding `outs[i]`. A read of `n > 0`
/// bytes goes on past them; the run ends with `Ok(())` exactly when the buffer
/// is full, with a call's error when it fails, and with `UnexpectedEof` when a
/// call reads nothing. `post` is the source and `fin` the buffer at the end.
pub open spec fn read_exact_run<S>(
    call: spec_fn(S, Seq<u8>, Result<usize>, S, Seq<u8>) -> bool,
    buf: Seq<u8>,
    off: int,
    pre: S,
    results: Seq<Result<usize>>,
    states: Seq<S>,
    outs: Seq<Seq<u8>>,
    post: S,
    fin: Seq<u8>,
    r: Result<()>,
) -> bool
    decreases results.len(),
{
    if results.len() == 0 {
        &&& off == buf.len()
        &&& states.len() == 0
        &&& outs.len() == 0
        &&& post == pre
        &&& fin == buf
        &&& r == Ok::<(), Error>(())
    } else {
        let next = buf.subrange(0, off) + outs[0];
        &&& 0 <= off < buf.len()
        &&& states.len() == results.len()
        &&& outs.len() == results.len()
        &&& call(pre, buf.subrange(off, buf.len() as int), results[0], states[0], outs[0])
        &&& outs[0].len() == buf.len() - off
        &&& match results[0] {
            Err(e) => results.len() == 1 && post == states[0] && fin == next && r == Err::<(), Error>(e),
            Ok(n) => if n == 0 {
                &&& results.len() == 1
                &&& post == states[0]
                &&& fin == next
                &&& r is Err
                &&& r->Err_0@ == Repr::UnexpectedEof
            } else {
                read_exact_run(
                    call,
                    next,
                    off + n,
                    states[0],
                    results.drop_first(),
                    states.drop_first(),
                    outs.drop_first(),
                    post,
                    fin,
                    r,
                )
            },
        }
    }
}

/// The calls of a run of `read_exact` that read `n > 0` bytes each, going
/// from the source `pre` and a buffer holding `buf` at byte `start` to the
/// source `cur` and a buffer holding `cur_buf` at byte `off`.
pub open spec fn read_prefix<S>(
    call: spec_fn(S, Seq<u8>, Result<usize>, S, Seq<u8>) -> bool,
    buf: Seq<u8>,
    start: int,
    pre: S,
    results: Seq<Result<usize>>,
    states: Seq<S>,
    outs: Seq<Seq<u8>>,
    cur: S,
    cur_buf: Seq<u8>,
    off: int,
) -> bool
    decreases results.len(),
{
    if results.len() == 0 {
        &&& off == start
        &&& states.len() == 0
        &&& outs.len() == 0
        &&& cur == pre
        &&& cur_buf == buf
    } else {
        &&& 0 <= start < buf.len()
        &&& states.len() == results.len()
        &&& outs.len() == results.len()
        &&& call(pre, buf.subrange(start, buf.len() as int), results[0], states[0], outs[0])
        &&& outs[0].len() == buf.len() - start
        &&& results[0] matches Ok(n) && n > 0
        &&& read_prefix(
            call,
            buf.subrange(0, start) + outs[0],
            start + results[0]->Ok_0,
            states[0],
            results.drop_first(),
            states.drop_first(),
            outs.drop_first(),
            cur,
            cur_buf,
            off,
        )
    }
}

/// A prefix of reads followed by one more read of `n > 0` bytes is a longer
/// prefix.
proof fn lemma_read_extend<S>(
    call: spec_fn(S, Seq<u8>, Result<usize>, S, Seq<u8>) -> bool,
    buf: Seq<u8>,
    start: int,
    pre: S,
    results: Seq<Result<usize>>,
    states: Seq<S>,
    outs: Seq<Seq<u8>>,
    cur: S,
    cur_buf: Seq<u8>,
    off: int,
    n: usize,
    next: S,
    out: Seq<u8>,
)
    requires
        read_prefix(call, buf, start, pre, results, states, outs, cur, cur_buf, off),
        0 <= off < cur_buf.len(),
        n > 0,
        out.len() == cur_buf.len() - off,
        call(cur, cur_buf.subrange(off, cur_buf.len() as int), Ok(n), next, out),
    ensures
        read_prefix(
            call,
            buf,
            start,
            pre,
            results.push(Ok(n)),
            states.push(next),
            outs.push(out),
            next,
            cur_buf.subrange(0, off) + out,
            off + n,
        ),
    decreases results.len(),
{
    if results.len() == 0 {
        assert(results.push(Ok(n)).drop_first() =~= Seq::<Result<usize>>::empty());
        assert(states.push(next).drop_first() =~= Seq::<S>::empty());
        assert(outs.push(out).drop_first() =~= Seq::<Seq<u8>>::empty());
        assert(read_prefix(
            call,
            cur_buf.subrange(0, off) + out,
            off + n,
            next,
            Seq::empty(),
            Seq::empty(),
            Seq::empty(),
            next,
            cur_buf.subrange(0, off) + out,
            off + n,
        ));
    } else {
        assert(results.push(Ok(n))[0] == results[0]);
        assert(states.push(next)[0] == states[0]);
        assert(outs.push(out)[0] == outs[0]);
        lemma_read_extend(
            call,
            buf.subrange(0, start) + outs[0],
            start + results[0]->Ok_0,
            states[0],
            results.drop_first(),
            states.drop_first(),
            outs.drop_first(),
            cur,
            cur_buf,
            off,
            n,
            next,
            out,
        );
        assert(results.push(Ok(n)).drop_first() =~= results.drop_first().push(Ok(n)));
        assert(states.push(next).drop_first() =~= states.drop_first().push(next));
        assert(outs.push(out).drop_first() =~= outs.drop_first().push(out));
    }
}

/// A prefix of reads followed by a run from where it stopped is a run.
proof fn lemma_read_compose<S>(
    call: spec_fn(S, Seq<u8>, Result<usize>, S, Seq<u8>) -> bool,
    buf: Seq<u8>,
    start: int,
    pre: S,
    results: Seq<Result<usize>>,
    states: Seq<S>,
    outs: Seq<Seq<u8>>,
    cur: S,
    cur_buf: Seq<u8>,
    off: int,
    tail_results: Seq<Result<usize>>,
    tail_states: Seq<S>,
    tail_outs: Seq<Seq<u8>>,
    post: S,
    fin: Seq<u8>,
    r: Result<()>,
)
    requires
        read_prefix(call, buf, start, pre, results, states, outs, cur, cur_buf, off),
        read_exact_run(call, cur_buf, off, cur, tail_results, tail_states, tail_outs, post, fin, r),
    ensures
        read_exact_run(
            call,
            buf,
            start,
            pre,
            results + tail_results,
            states + tail_states,
            outs + tail_outs,
            post,
            fin,
            r,
        ),
    decreases results.len(),
{
    if results.len() == 0 {
        assert(results + tail_results =~= tail_results);
        assert(states + tail_states =~= tail_states);
        assert(outs + tail_outs =~= tail_outs);
    } else {
        lemma_read_compose(
            call,
            buf.subrange(0, start) + outs[0],
            start + results[0]->Ok_0,
            states[0],
            results.drop_first(),
            states.drop_first(),
            outs.drop_first(),
            cur,
            cur_buf,
            off,
            tail_results,
            tail_states,
            tail_outs,
            post,
            fin,
            r,
        );
        assert((results + tail_results).drop_first() =~= results.drop_first() + tail_results);
        assert((states + tail_states).drop_first() =~= states.drop_first() + tail_states);
        assert((outs + tail_outs).drop_first() =~= outs.drop_first() + tail_outs);
        assert((results + tail_results)[0] == results[0]);
        assert((states + tail_states)[0] == states[0]);
        assert((outs + tail_outs)[0] == outs[0]);
    }
}

/// `padded` is `buf` lengthened with zero bytes.
pub open spec fn zero_padded(buf: Seq<u8>, padded: Seq<u8>) -> bool {
    &&& padded.len() >= buf.len()
    &&& padded.subrange(0, buf.len() as int) == buf
    &&& forall|i: int| buf.len() <= i < padded.len() ==> padded[i] == 0
}

/// A run of `read_to_end` over a buffer holding `buf` of which the first
/// `init` bytes are taken: when no byte is left past them the buffer is first
/// lengthened with zero bytes, and the `i`-th call is given, in the buffer
/// `given[i]`, the part past the bytes taken; it returns `results[i]`, leaves
/// the source `states[i]` and that part holding `outs[i]`. A read of `n > 0`
/// bytes takes them and goes on; a read of no bytes ends the run with
/// `Ok(())`, the buffer cut back to the bytes taken; a failing read ends it
/// with its error, the buffer left as the read left it. `post` is the source
/// and `fin` the buffer at the end.
pub open spec fn read_to_end_run<S>(
    call: spec_fn(S, Seq<u8>, Result<usize>, S, Seq<u8>) -> bool,
    buf: Seq<u8>,
    init: int,
    pre: S,
    results: Seq<Result<usize>>,
    states: Seq<S>,
    outs: Seq<Seq<u8>>,
    given: Seq<Seq<u8>>,
    post: S,
    fin: Seq<u8>,
    r: Result<()>,
) -> bool
    decreases results.len(),
{
    if results.len() == 0 {
        false
    } else {
        let g = given[0];
        let next = g.subrange(0, init) + outs[0];
        &&& 0 <= init <= buf.len()
        &&& states.len() == results.len()
        &&& outs.len() == results.len()
        &&& given.len() == results.len()
        &&& if init == buf.len() {
            zero_padded(buf, g)
        } else {
            g == buf
        }
        &&& call(pre, g.subrange(init, g.len() as int), results[0], states[0], outs[0])
        &&& outs[0].len() == g.len() - init
        &&& match results[0] {
            Err(e) => results.len() == 1 && post == states[0] && fin == next && r == Err::<(), Error>(e),
            Ok(n) => if n == 0 {
                &&& results.len() == 1
                &&& post == states[0]
                &&& fin == next.subrange(0, init)
                &&& r == Ok::<(), Error>(())
            } else {
                read_to_end_run(
                    call,
                    next,
                    init + n,
                    states[0],
                    results.drop_first(),
                    states.drop_first(),
                    outs.drop_first(),
                    given.drop_first(),
                    post,
                    fin,
                    r,
                )
            },
        }
    }
}

/// The calls of a run of `read_to_end` that read `n > 0` bytes each, going
/// from the source `pre` and a buffer holding `buf` with `init` bytes taken
/// to the source `cur` and a buffer holding `cur_buf` with `cur_init` taken.
pub open spec fn end_prefix<S>(
    call: spec_fn(S, Seq<u8>, Result<usize>, S, Seq<u8>) -> bool,
    buf: Seq<u8>,
    init: int,
    pre: S,
    results: Seq<Result<usize>>,
    states: Seq<S>,
    outs: Seq<Seq<u8>>,
    given: Seq<Seq<u8>>,
    cur: S,
    cur_buf: Seq<u8>,
    cur_init: int,
) -> bool
    decreases results.len(),
{
    if results.len() == 0 {
        &&& states.len() == 0
        &&& outs.len() == 0
        &&& given.len() == 0
        &&& cur == pre
        &&& cur_buf == buf
        &&& cur_init == init
    } else {
        let g = given[0];
        &&& 0 <= init <= buf.len()
        &&& states.len() == results.len()
        &&& outs.len() == results.len()
        &&& given.len() == results.len()
        &&& if init == buf.len() {
            zero_padded(buf, g)
        } else {
            g == buf
        }
        &&& call(pre, g.subrange(init, g.len() as int), results[0], states[0], outs[0])
        &&& outs[0].len() == g.len() - init
        &&& results[0] matches Ok(n) && n > 0
        &&& end_prefix(
            call,
            g.subrange(0, init) + outs[0],
            init + results[0]->Ok_0,
            states[0],
            results.drop_first(),
            states.drop_first(),
            outs.drop_first(),
            given.drop_first(),
            cur,
            cur_buf,
            cur_init,
        )
    }
}

/// Lengthening a byte vector holding `buf` to `len` with zero bytes, as
/// `resize` does, gives `buf` lengthened with zero bytes.
proof fn lemma_resize_pads(buf: Seq<u8>, padded: Seq<u8>, len: int)
    requires
        len <= buf.len() ==> padded == buf.subrange(0, len),
        len > buf.len() ==> {
            &&& padded.len() == len
            &&& padded.subrange(0, buf.len() as int) == buf
            &&& forall|i| #![all_triggers] buf.len() <= i < len ==> cloned::<u8>(0u8, padded[i])
        },
        len >= buf.len(),
    ensures
        zero_padded(buf, padded),
{
    if len <= buf.len() {
        assert(padded.subrange(0, buf.len() as int) =~= buf);
    } else {
        assert forall|i: int| buf.len() <= i < padded.len() implies padded[i] == 0 by {
            assert(cloned::<u8>(0u8, padded[i]));
        }
    }
}

/// A prefix of reads followed by one more read of `n > 0` bytes is a longer
/// prefix.
proof fn lemma_end_extend<S>(
    call: spec_fn(S, Seq<u8>, Result<usize>, S, Seq<u8>) -> bool,
    buf: Seq<u8>,
    init: int,
    pre: S,
    results: Seq<Result<usize>>,
    states: Seq<S>,
    outs: Seq<Seq<u8>>,
    given: Seq<Seq<u8>>,
    cur: S,
    cur_buf: Seq<u8>,
    cur_init: int,
    g: Seq<u8>,
    n: usize,
    next: S,
    out: Seq<u8>,
)
    requires
        end_prefix(call, buf, init, pre, results, states, outs, given, cur, cur_buf, cur_init),
        0 <= cur_init <= cur_buf.len(),
        if cur_init == cur_buf.len() {
            zero_padded(cur_buf, g)
        } else {
            g == cur_buf
        },
        n > 0,
        out.len() == g.len() - cur_init,
        call(cur, g.subrange(cur_init, g.len() as int), Ok(n), next, out),
    ensures
        end_prefix(
            call,
            buf,
            init,
            pre,
            results.push(Ok(n)),
            states.push(next),
            outs.push(out),
            given.push(g),
            next,
            g.subrange(0, cur_init) + out,
            cur_init + n,
        ),
    decreases results.len(),
{
    if results.len() == 0 {
        assert(results.push(Ok(n)).drop_first() =~= Seq::<Result<usize>>::empty());
        assert(states.push(next).drop_first() =~= Seq::<S>::empty());
        assert(outs.push(out).drop_first() =~= Seq::<Seq<u8>>::empty());
        assert(given.push(g).drop_first() =~= Seq::<Seq<u8>>::empty());
        assert(end_prefix(
            call,
            g.subrange(0, cur_init) + out,
            cur_init + n,
            next,
            Seq::empty(),
            Seq::empty(),
            Seq::empty(),
            Seq::empty(),
            next,
            g.subrange(0, cur_init) + out,
            cur_init + n,
        ));
    } else {
        assert(results.push(Ok(n))[0] == results[0]);
        assert(states.push(next)[0] == states[0]);
        assert(outs.push(out)[0] == outs[0]);
        assert(given.push(g)[0] == given[0]);
        lemma_end_extend(
            call,
            given[0].subrange(0, init) + outs[0],
            init + results[0]->Ok_0,
            states[0],
            results.drop_first(),
            states.drop_first(),
            outs.drop_first(),
            given.drop_first(),
            cur,
            cur_buf,
            cur_init,
            g,
            n,
            next,
            out,
        );
        assert(results.push(Ok(n)).drop_first() =~= results.drop_first().push(Ok(n)));
        assert(states.push(next).drop_first() =~= states.drop_first().push(next));
        assert(outs.push(out).drop_first() =~= outs.drop_first().push(out));
        assert(given.push(g).drop_first() =~= given.drop_first().push(g));
    }
}

/// A prefix of reads followed by a run from where it stopped is a run.
proof fn lemma_end_compose<S>(
    call: spec_fn(S, Seq<u8>, Result<usize>, S, Seq<u8>) -> bool,
    buf: Seq<u8>,
    init: int,
    pre: S,
    results: Seq<Result<usize>>,
    states: Seq<S>,
    outs: Seq<Seq<u8>>,
    given: Seq<Seq<u8>>,
    cur: S,
    cur_buf: Seq<u8>,
    cur_init: int,
    tail_results: Seq<Result<usize>>,
    tail_states: Seq<S>,
    tail_outs: Seq<Seq<u8>>,
    tail_given: Seq<Seq<u8>>,
    post: S,
    fin: Seq<u8>,
    r: Result<()>,
)
    requires
        end_prefix(call, buf, init, pre, results, states, outs, given, cur, cur_buf, cur_init),
        read_to_end_run(call, cur_buf, cur_init, cur, tail_results, tail_states, tail_outs, tail_given, post, fin, r),
    ensures
        read_to_end_run(
            call,
            buf,
            init,
            pre,
            results + tail_results,
            states + tail_states,
            outs + tail_outs,
            given + tail_given,
            post,
            fin,
            r,
        ),
    decreases results.len(),
{
    if results.len() == 0 {
        assert(results + tail_results =~= tail_results);
        assert(states + tail_states =~= tail_states);
        assert(outs + tail_outs =~= tail_outs);
        assert(given + tail_given =~= tail_given);
    } else {
        lemma_end_compose(
            call,
            given[0].subrange(0, init) + outs[0],
            init + results[0]->Ok_0,
            states[0],
            results.drop_first(),
            states.drop_first(),
            outs.drop_first(),
            given.drop_first(),
            cur,
            cur_buf,
            cur_init,
            tail_results,
            tail_states,
            tail_outs,
            tail_given,
            post,
            fin,
            r,
        );
        assert((results + tail_results).drop_first() =~= results.drop_first() + tail_results);
        assert((states + tail_states).drop_first() =~= states.drop_first() + tail_states);
        assert((outs + tail_outs).drop_first() =~= outs.drop_first() + tail_outs);
        assert((given + tail_given).drop_first() =~= given.drop_first() + tail_given);
        assert((results + tail_results)[0] == results[0]);
        assert((states + tail_states)[0] == states[0]);
        assert((outs + tail_outs)[0] == outs[0]);
        assert((given + tail_given)[0] == given[0]);
    }
}

/// A run of `write_all` over `buf` from byte `off` on, starting at the sink
/// `pre`: the `i`-th call is given the bytes from where the previous calls
/// stopped, returns `results[i]` and leaves the sink `states[i]`. A write of
/// `n > 0` bytes goes on past them; the run ends with `Ok(())` exactly when
/// the bytes are used up, with a call's error when it fails, and with
/// `WriteZero` when a call writes nothing. `post` is the sink left at the end.
pub open spec fn write_all_run<S>(
    call: spec_fn(S, Seq<u8>, Result<usize>, S) -> bool,
    buf: Seq<u8>,
    off: int,
    pre: S,
    results: Seq<Result<usize>>,
    states: Seq<S>,
    post: S,
    r: Result<()>,
) -> bool
    decreases results.len(),
{
    if results.len() == 0 {
        &&& off == buf.len()
        &&& states.len() == 0
        &&& post == pre
        &&& r == Ok::<(), Error>(())
    } else {
        &&& 0 <= off < buf.len()
        &&& states.len() == results.len()
        &&& call(pre, buf.subrange(off, buf.len() as int), results[0], states[0])
        &&& match results[0] {
            Err(e) => results.len() == 1 && post == states[0] && r == Err::<(), Error>(e),
            Ok(n) => if n == 0 {
                results.len() == 1 && post == states[0] && r is Err && r->Err_0@ == Repr::WriteZero
            } else {
                write_all_run(call, buf, off + n, states[0], results.drop_first(), states.drop_first(), post, r)
            },
        }
    }
}

/// The calls of a run of `write_all` that wrote `n > 0` bytes each, going
/// from the sink `pre` at byte `start` to the sink `cur` at byte `off`.
pub open spec fn write_prefix<S>(
    call: spec_fn(S, Seq<u8>, Result<usize>, S) -> bool,
    buf: Seq<u8>,
    start: int,
    pre: S,
    results: Seq<Result<usize>>,
    states: Seq<S>,
    cur: S,
    off: int,
) -> bool
    decreases results.len(),
{
    if results.len() == 0 {
        &&& off == start
        &&& states.len() == 0
        &&& cur == pre
    } else {
        &&& 0 <= start < buf.len()
        &&& states.len() == results.len()
        &&& call(pre, buf.subrange(start, buf.len() as int), results[0], states[0])
        &&& results[0] matches Ok(n) && n > 0
        &&& write_prefix(call, buf, start + results[0]->Ok_0, states[0], results.drop_first(), states.drop_first(), cur, off)
    }
}

/// A prefix of writes followed by one more write of `n > 0` bytes is a
/// longer prefix.
proof fn lemma_write_extend<S>(
    call: spec_fn(S, Seq<u8>, Result<usize>, S) -> bool,
    buf: Seq<u8>,
    start: int,
    pre: S,
    results: Seq<Result<usize>>,
    states: Seq<S>,
    cur: S,
    off: int,
    n: usize,
    next: S,
)
    requires
        write_prefix(call, buf, start, pre, results, states, cur, off),
        0 <= off < buf.len(),
        n > 0,
        call(cur, buf.subrange(off, buf.len() as int), Ok(n), next),
    ensures
        write_prefix(call, buf, start, pre, results.push(Ok(n)), states.push(next), next, off + n),
    decreases results.len(),
{
    if results.len() == 0 {
        assert(results.push(Ok(n)).drop_first() =~= Seq::<Result<usize>>::empty());
        assert(states.push(next).drop_first() =~= Seq::<S>::empty());
        assert(write_prefix(call, buf, off + n, next, Seq::empty(), Seq::empty(), next, off + n));
    } else {
        assert(results.push(Ok(n))[0] == results[0]);
        assert(states.push(next)[0] == states[0]);
        lemma_write_extend(
            call,
            buf,
            start + results[0]->Ok_0,
            states[0],
            results.drop_first(),
            states.drop_first(),
            cur,
            off,
            n,
            next,
        );
        assert(results.push(Ok(n)).drop_first() =~= results.drop_first().push(Ok(n)));
        assert(states.push(next).drop_first() =~= states.drop_first().push(next));
    }
}

/// A prefix of writes followed by a run from where it stopped is a run.
proof fn lemma_write_compose<S>(
    call: spec_fn(S, Seq<u8>, Result<usize>, S) -> bool,
    buf: Seq<u8>,
    start: int,
    pre: S,
    results: Seq<Result<usize>>,
    states: Seq<S>,
    cur: S,
    off: int,
    tail_results: Seq<Result<usize>>,
    tail_states: Seq<S>,
    post: S,
    r: Result<()>,
)
    requires
        write_prefix(call, buf, start, pre, results, states, cur, off),
        write_all_run(call, buf, off, cur, tail_results, tail_states, post, r),
    ensures
        write_all_run(call, buf, start, pre, results + tail_results, states + tail_states, post, r),
    decreases results.len(),
{
    if results.len() == 0 {
        assert(results + tail_results =~= tail_results);
        assert(states + tail_states =~= tail_states);
    } else {
        lemma_write_compose(
            call,
            buf,
            start + results[0]->Ok_0,
            states[0],
            results.drop_first(),
            states.drop_first(),
            cur,
            off,
            tail_results,
            tail_states,
            post,
            r,
        );
        assert((results + tail_results).drop_first() =~= results.drop_first() + tail_results);
        assert((states + tail_states).drop_first() =~= states.drop_first() + tail_states);
        assert((results + tail_results)[0] == results[0]);
        assert((states + tail_states)[0] == states[0]);
    }
}

/// The bytes that the successful calls among `results` report.
pub open spec fn reported_total(results: Seq<Result<usize>>) -> int
    decreases results.len(),
{
    if results.len() == 0 {
        0
    } else {
        (match results[0] {
            Ok(n) => n as int,
            Err(_) => 0,
        }) + reported_total(results.drop_first())
    }
}

/// `write_all` succeeds exactly when every write it made succeeded and
/// together they wrote the whole buffer; a write that fails is the last one
/// made and its error is the result; a write of no bytes is the last one made
/// and gives `WriteZero`; every write before the last wrote some bytes; and
/// no write is made exactly when there is nothing to write.
pub proof fn law_write_all_outcome<S>(
    call: spec_fn(S, Seq<u8>, Result<usize>, S) -> bool,
    buf: Seq<u8>,
    off: int,
    pre: S,
    results: Seq<Result<usize>>,
    states: Seq<S>,
    post: S,
    r: Result<()>,
)
    requires
        write_all_run(call, buf, off, pre, results, states, post, r),
    ensures
        r is Ok <==> ((forall|i: int| 0 <= i < results.len() ==> #[trigger] results[i] is Ok)
            && reported_total(results) == buf.len() - off),
        forall|i: int|
            0 <= i < results.len() && #[trigger] results[i] is Err ==> i == results.len() - 1 && r
                == Err::<(), Error>(results[i]->Err_0),
        forall|i: int|
            0 <= i < results.len() - 1 ==> #[trigger] results[i] is Ok && results[i]->Ok_0 > 0,
        results.len() > 0 && results.last() == Ok::<usize, Error>(0) ==> r is Err && r->Err_0@
            == Repr::WriteZero,
        results.len() == 0 <==> off == buf.len(),
        0 <= off <= buf.len(),
    decreases results.len(),
{
    if results.len() > 0 {
        match results[0] {
            Err(e) => {
                assert(results.drop_first().len() == 0);
                assert(!(results[0] is Ok));
            },
            Ok(n) => {
                assert(reported_total(results) == n + reported_total(results.drop_first()));
                if n == 0 {
                    assert(results.drop_first().len() == 0);
                    assert(reported_total(results.drop_first()) == 0);
                } else {
                    let tail = results.drop_first();
                    law_write_all_outcome(call, buf, off + n, states[0], tail, states.drop_first(), post, r);
                    assert forall|i: int| 0 <= i < results.len() && #[trigger] results[i] is Err implies i
                        == results.len() - 1 && r == Err::<(), Error>(results[i]->Err_0) by {
                        assert(results[i] == tail[i - 1]);
                    }
                    assert forall|i: int| 0 <= i < results.len() - 1 implies #[trigger] results[i] is Ok
                        && results[i]->Ok_0 > 0 by {
                        if i > 0 {
                            assert(results[i] == tail[i - 1]);
                        }
                    }
                    if forall|i: int| 0 <= i < tail.len() ==> #[trigger] tail[i] is Ok {
                        assert forall|i: int| 0 <= i < results.len() implies #[trigger] results[i] is Ok by {
                            if i > 0 {
                                assert(results[i] == tail[i - 1]);
                            }
                        }
                    }
                    if forall|i: int| 0 <= i < results.len() ==> #[trigger] results[i] is Ok {
                        assert forall|i: int| 0 <= i < tail.len() implies #[trigger] tail[i] is Ok by {
                            assert(results[i + 1] == tail[i]);
                        }
                    }
                    if tail.len() > 0 {
                        assert(results.last() == tail.last());
                    }
                }
            },
        }
    }
}

/// `read_exact` succeeds exactly when every read it made succeeded and
/// together they filled the buffer; a read that fails is the last one made and
/// its error is the result; a read of no bytes is the last one made and gives
/// `UnexpectedEof`; every read before the last read some bytes; no read is
/// made exactly when the buffer is already full; and the buffer keeps its
/// length and the bytes before where the reading started.
pub proof fn law_read_exact_outcome<S>(
    call: spec_fn(S, Seq<u8>, Result<usize>, S, Seq<u8>) -> bool,
    buf: Seq<u8>,
    off: int,
    pre: S,
    results: Seq<Result<usize>>,
    states: Seq<S>,
    outs: Seq<Seq<u8>>,
    post: S,
    fin: Seq<u8>,
    r: Result<()>,
)
    requires
        read_exact_run(call, buf, off, pre, results, states, outs, post, fin, r),
    ensures
        r is Ok <==> ((forall|i: int| 0 <= i < results.len() ==> #[trigger] results[i] is Ok)
            && reported_total(results) == buf.len() - off),
        forall|i: int|
            0 <= i < results.len() && #[trigger] results[i] is Err ==> i == results.len() - 1 && r
                == Err::<(), Error>(results[i]->Err_0),
        forall|i: int|
            0 <= i < results.len() - 1 ==> #[trigger] results[i] is Ok && results[i]->Ok_0 > 0,
        results.len() > 0 && results.last() == Ok::<usize, Error>(0) ==> r is Err && r->Err_0@
            == Repr::UnexpectedEof,
        results.len() == 0 <==> off == buf.len(),
        0 <= off <= buf.len(),
        fin.len() == buf.len(),
        0 <= off <= buf.len() ==> fin.subrange(0, off) == buf.subrange(0, off),
    decreases results.len(),
{
    if results.len() > 0 {
        let next = buf.subrange(0, off) + outs[0];
        assert(next.subrange(0, off) =~= buf.subrange(0, off));
        match results[0] {
            Err(e) => {
                assert(results.drop_first().len() == 0);
                assert(!(results[0] is Ok));
            },
            Ok(n) => {
                assert(reported_total(results) == n + reported_total(results.drop_first()));
                if n == 0 {
                    assert(results.drop_first().len() == 0);
                    assert(reported_total(results.drop_first()) == 0);
                } else {
                    let tail = results.drop_first();
                    law_read_exact_outcome(
                        call,
                        next,
                        off + n,
                        states[0],
                        tail,
                        states.drop_first(),
                        outs.drop_first(),
                        post,
                        fin,
                        r,
                    );
                    assert(fin.subrange(0, off) =~= fin.subrange(0, off + n).subrange(0, off));
                    assert(next.subrange(0, off + n).subrange(0, off) =~= buf.subrange(0, off));
                    assert(fin.subrange(0, off) =~= buf.subrange(0, off));
                    assert forall|i: int| 0 <= i < results.len() && #[trigger] results[i] is Err implies i
                        == results.len() - 1 && r == Err::<(), Error>(results[i]->Err_0) by {
                        assert(results[i] == tail[i - 1]);
                    }
                    assert forall|i: int| 0 <= i < results.len() - 1 implies #[trigger] results[i] is Ok
                        && results[i]->Ok_0 > 0 by {
                        if i > 0 {
                            assert(results[i] == tail[i - 1]);
                        }
                    }
                    if forall|i: int| 0 <= i < tail.len() ==> #[trigger] tail[i] is Ok {
                        assert forall|i: int| 0 <= i < results.len() implies #[trigger] results[i] is Ok by {
                            if i > 0 {
                                assert(results[i] == tail[i - 1]);
                            }
                        }
                    }
                    if forall|i: int| 0 <= i < results.len() ==> #[trigger] results[i] is Ok {
                        assert forall|i: int| 0 <= i < tail.len() implies #[trigger] tail[i] is Ok by {
                            assert(results[i + 1] == tail[i]);
                        }
                    }
                    if tail.len() > 0 {
                        assert(results.last() == tail.last());
                    }
                }
            },
        }
    }
}

/// `read_to_end` makes at least one read and succeeds exactly when every
/// read it made succeeded, which is when the last read gave no bytes; a read
/// that fails is the last one made and its error is the result; every read
/// before the last read some bytes. The bytes taken before it started stay in
/// front, and on success the buffer holds them and exactly the bytes the reads
/// reported, no more.
pub proof fn law_read_to_end_outcome<S>(
    call: spec_fn(S, Seq<u8>, Result<usize>, S, Seq<u8>) -> bool,
    buf: Seq<u8>,
    init: int,
    pre: S,
    results: Seq<Result<usize>>,
    states: Seq<S>,
    outs: Seq<Seq<u8>>,
    given: Seq<Seq<u8>>,
    post: S,
    fin: Seq<u8>,
    r: Result<()>,
)
    requires
        read_to_end_run(call, buf, init, pre, results, states, outs, given, post, fin, r),
    ensures
        results.len() > 0,
        r is Ok <==> (forall|i: int| 0 <= i < results.len() ==> #[trigger] results[i] is Ok),
        r is Ok ==> results.last() == Ok::<usize, Error>(0),
        forall|i: int|
            0 <= i < results.len() && #[trigger] results[i] is Err ==> i == results.len() - 1 && r
                == Err::<(), Error>(results[i]->Err_0),
        forall|i: int|
            0 <= i < results.len() - 1 ==> #[trigger] results[i] is Ok && results[i]->Ok_0 > 0,
        0 <= init <= buf.len(),
        fin.len() >= init,
        fin.subrange(0, init) == buf.subrange(0, init),
        r is Ok ==> fin.len() == init + reported_total(results),
    decreases results.len(),
{
    let g = given[0];
    let next = g.subrange(0, init) + outs[0];
    assert(next.subrange(0, init) =~= buf.subrange(0, init)) by {
        if init == buf.len() {
            assert(g.subrange(0, init) =~= buf);
        }
    }
    match results[0] {
        Err(e) => {
            assert(results.drop_first().len() == 0);
            assert(!(results[0] is Ok));
            assert(fin.subrange(0, init) =~= next.subrange(0, init));
        },
        Ok(n) => {
            assert(reported_total(results) == n + reported_total(results.drop_first()));
            if n == 0 {
                assert(results.drop_first().len() == 0);
                assert(reported_total(results.drop_first()) == 0);
                assert(fin =~= next.subrange(0, init));
            } else {
                let tail = results.drop_first();
                law_read_to_end_outcome(
                    call,
                    next,
                    init + n,
                    states[0],
                    tail,
                    states.drop_first(),
                    outs.drop_first(),
                    given.drop_first(),
                    post,
                    fin,
                    r,
                );
                assert(fin.subrange(0, init) =~= fin.subrange(0, init + n).subrange(0, init));
                assert(next.subrange(0, init + n).subrange(0, init) =~= next.subrange(0, init));
                assert(fin.subrange(0, init) =~= buf.subrange(0, init));
                assert forall|i: int| 0 <= i < results.len() && #[trigger] results[i] is Err implies i
                    == results.len() - 1 && r == Err::<(), Error>(results[i]->Err_0) by {
                    assert(results[i] == tail[i - 1]);
                }
                assert forall|i: int| 0 <= i < results.len() - 1 implies #[trigger] results[i] is Ok
                    && results[i]->Ok_0 > 0 by {
                    if i > 0 {
                        assert(results[i] == tail[i - 1]);
                    }
                }
                if forall|i: int| 0 <= i < tail.len() ==> #[trigger] tail[i] is Ok {
                    assert forall|i: int| 0 <= i < results.len() implies #[trigger] results[i] is Ok by {
                        if i > 0 {
                            assert(results[i] == tail[i - 1]);
                        }
                    }
                }
                if forall|i: int| 0 <= i < results.len() ==> #[trigger] results[i] is Ok {
                    assert forall|i: int| 0 <= i < tail.len() implies #[trigger] tail[i] is Ok by {
                        assert(results[i + 1] == tail[i]);
                    }
                }
                assert(results.last() == tail.last());
            }
        },
    }
}

/// Where a seek is measured from.
#[derive(Debug, Clone, Copy, PartialEq, Eq, Structural)]
pub enum SeekFrom {
    Start(u64),
    Current(i64),
    End(i64),
}

impl SeekFrom {
    /// The offset and the `whence` code (0 start, 1 current, 2 end) that
    /// `lseek` takes; a start offset above `i64::MAX` wraps, as a cast does.
    pub fn to_flags(&self) -> (r: (i64, i32))
        ensures
            r == (match *self {
                SeekFrom::Start(off) => (off as i64, 0i32),
                SeekFrom::Current(off) => (off, 1i32),
                SeekFrom::End(off) => (off, 2i32),
            }),
    {
        match *self {
            SeekFrom::Start(off) => (off as i64, 0),
            SeekFrom::Current(off) => (off, 1),
            SeekFrom::End(off) => (off, 2),
        }
    }
}

/// A stream with a cursor that can be moved.
///
/// `seek` is implemented by the stream; where it moves the cursor is not
/// stated. Each stream names, by `seek_call`, what one call of its `seek`
/// does, so that the provided methods state which seeks they make, in which
/// order, and what they make of the results.
pub trait Seek: Sized {
    /// Whether one call of `seek` on the stream `pre`, given `pos`, may return
    /// `r` and leave the stream `post`.
    open spec fn seek_call(pre: Self, pos: SeekFrom, r: Result<u64>, post: Self) -> bool {
        true
    }

    /// Moves the cursor, returning its new position from the start.
    fn seek(&mut self, pos: SeekFrom) -> (r: Result<u64>)
        ensures
            Self::seek_call(*old(self), pos, r, *final(self)),
    ;

    /// Moves the cursor to the start: one seek to `Start(0)`, whose error is
    /// the result.
    fn rewind(&mut self) -> (r: Result<()>)
        ensures
            exists|res: Result<u64>|
                #[trigger] Self::seek_call(*old(self), SeekFrom::Start(0), res, *final(self)) && r
                    == (match res {
                    Ok(_) => Ok::<(), Error>(()),
                    Err(e) => Err(e),
                }),
    {
        let res = self.seek(SeekFrom::Start(0));
        seek_done(res)
    }

    /// The length of the stream; the cursor is moved back to where it was.
    /// The seeks are to `Current(0)`, giving the position, to `End(0)`,
    /// giving the length, and back to the position; the first that fails
    /// ends it with its error.
    fn stream_len(&mut self) -> (r: Result<u64>)
        ensures
            exists|r1: Result<u64>, s1: Self|
                #[trigger] Self::seek_call(*old(self), SeekFrom::Current(0), r1, s1) && match r1 {
                    Err(e) => *final(self) == s1 && r == Err::<u64, Error>(e),
                    Ok(pos) => exists|r2: Result<u64>, s2: Self|
                        #[trigger] Self::seek_call(s1, SeekFrom::End(0), r2, s2) && match r2 {
                            Err(e) => *final(self) == s2 && r == Err::<u64, Error>(e),
                            Ok(len) => exists|r3: Result<u64>|
                                #[trigger] Self::seek_call(s2, SeekFrom::Start(pos), r3, *final(self))
                                    && r == (match r3 {
                                    Ok(_) => Ok::<u64, Error>(len),
                                    Err(e) => Err(e),
                                }),
                        },
                },
    {
        let ghost s0 = *self;
        let first = self.seek(SeekFrom::Current(0));
        let ghost s1 = *self;
        let pos = match first {
            Ok(p) => p,
            Err(e) => return Err(e),
        };
        let second = self.seek(SeekFrom::End(0));
        let ghost s2 = *self;
        let len = match second {
            Ok(l) => l,
            Err(e) => {
                assert(Self::seek_call(s0, SeekFrom::Current(0), first, s1));
                return Err(e);
            },
        };
        let restore = self.seek(SeekFrom::Start(pos));
        proof {
            assert(Self::seek_call(s0, SeekFrom::Current(0), first, s1));
            assert(Self::seek_call(s1, SeekFrom::End(0), second, s2));
            assert(Self::seek_call(s2, SeekFrom::Start(pos), restore, *self));
        }
        stream_len_result(len, restore)
    }

    /// The current position of the cursor: one seek to `Current(0)`.
    fn stream_position(&mut self) -> (r: Result<u64>)
        ensures
            Self::seek_call(*old(self), SeekFrom::Current(0), r, *final(self)),
    {
        self.seek(SeekFrom::Current(0))
    }

    /// Moves the cursor by `offset` from where it is: one seek to
    /// `Current(offset)`, whose error is the result.
    fn seek_relative(&mut self, offset: i64) -> (r: Result<()>)
        ensures
            exists|res: Result<u64>|
                #[trigger] Self::seek_call(*old(self), SeekFrom::Current(offset), res, *final(self))
                    && r == (match res {
                    Ok(_) => Ok::<(), Error>(()),
                    Err(e) => Err(e),
                }),
    {
        let res = self.seek(SeekFrom::Current(offset));
        seek_done(res)
    }
}

/// Descriptor of the standard input.
pub const STDIN: i32 = 0;
/// Descriptor of the standard output.
pub const STDOUT: i32 = 1;
/// Descriptor of the standard error.
pub const STDERR: i32 = 2;

/// A handle to a standard stream of the process, returned by [`stdin`],
/// [`stdout`] or [`stderr`].
#[derive(Debug, Clone, Copy, PartialEq, Eq, Structural)]
pub struct Stdio(i32);

impl View for Stdio {
    type V = i32;

    /// The file descriptor of the stream.
    closed spec fn view(&self) -> i32 {
        self.0
    }
}

impl Stdio {
    /// The file descriptor of the stream.
    pub fn descriptor(&self) -> (r: i32)
        ensures
            r == self@,
    {
        self.0
    }
}

/// A handle to the standard input of the process.
pub fn stdin() -> (r: Stdio)
    ensures
        r@ == STDIN,
{
    Stdio(STDIN)
}

/// A handle to the standard output of the process.
pub fn stdout() -> (r: Stdio)
    ensures
        r@ == STDOUT,
{
    Stdio(STDOUT)
}

/// A handle to the standard error of the process.
pub fn stderr() -> (r: Stdio)
    ensures
        r@ == STDERR,
{
    Stdio(STDERR)
}

} // verus!
