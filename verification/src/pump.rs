//! The directional pump and the aggregation of a whole run.
//!
//! A pump owns the undecoded bytes of one direction. Fed a chunk, it turns
//! every whole frame at the front of its buffer into one re-encoded message
//! for the other peer, in arrival order, and keeps the tail for the next
//! chunk. The run as a whole is clean exactly when both pumps drained to
//! end-of-input without fault and the subprocess exited successfully.

use vstd::prelude::*;
use crate::frame::{drain, decode_spec, SpecStep, concat_frames, frame_bytes,
    lemma_decode_consumes};
use crate::msg::{decode_call, encode_call, inject_call, inject_rel, fault_of, parse_of, ser_of,
    Call, CallStep, DecodeFault};
use crate::rules::Rule;

verus! {

proof fn lemma_concat_frames_snoc(bs: Seq<Seq<u8>>, x: Seq<u8>)
    ensures
        concat_frames(bs.push(x)) == concat_frames(bs) + frame_bytes(x),
    decreases bs.len(),
{
    if bs.len() == 0 {
        assert(bs.push(x).drop_first() =~= Seq::<Seq<u8>>::empty());
        assert(bs.push(x).first() == x);
        assert(concat_frames(Seq::<Seq<u8>>::empty()) == Seq::<u8>::empty());
        assert(concat_frames(bs.push(x)) =~= concat_frames(bs) + frame_bytes(x));
    } else {
        assert(bs.push(x).drop_first() =~= bs.drop_first().push(x));
        assert(bs.push(x).first() == bs.first());
        lemma_concat_frames_snoc(bs.drop_first(), x);
        assert(concat_frames(bs.push(x)) =~= concat_frames(bs) + frame_bytes(x));
    }
}

/// Every body among the drained frames parses as a message.
pub open spec fn all_parse(bodies: Seq<Seq<u8>>) -> bool {
    forall|i: int| 0 <= i < bodies.len() ==> (#[trigger] parse_of(bodies[i])) is Some
}

/// The serialized bodies of a sequence of messages, in order.
pub open spec fn ser_map(cs: Seq<Call>) -> Seq<Seq<u8>> {
    Seq::new(cs.len(), |i: int| ser_of(cs[i]))
}

/// The bodies a pump without rules re-emits for the drained bodies: each one
/// parsed and serialized again, in order.
pub open spec fn reemit_plain(bodies: Seq<Seq<u8>>) -> Seq<Seq<u8>> {
    Seq::new(bodies.len(), |i: int| ser_of(parse_of(bodies[i])->0))
}

/// One directional pump: the bytes received from its source but not yet
/// decoded into a whole message.
pub struct Pump {
    pub buf: Vec<u8>,
}

impl Pump {
    /// A pump with an empty buffer.
    pub fn new() -> (r: Pump)
        ensures
            r.buf@.len() == 0,
    {
        Pump { buf: Vec::new() }
    }

    /// Feeds one chunk of raw bytes and drains every whole message now
    /// present, in arrival order.
    ///
    /// With `rules` given (the editor-to-subprocess direction) each message
    /// passes through the injector first; without, it is re-encoded with the
    /// identical content. One whole frame is emitted per drained message, in
    /// order. A malformed frame, or a body the JSON parser refuses, is fatal
    /// for the pump.
    pub fn pump_bytes(&mut self, input: &[u8], rules: Option<&Vec<Rule>>) -> (r: Result<
        Vec<u8>,
        DecodeFault,
    >)
        requires
            old(self).buf@.len() + input@.len() + 16 <= usize::MAX,
        ensures
            ({
                let d = drain(old(self).buf@ + input@);
                match r {
                    Ok(out) => {
                        &&& d.stop is Incomplete
                        &&& all_parse(d.bodies)
                        &&& final(self).buf@ == d.rest
                        &&& (rules is None ==> out@ == concat_frames(reemit_plain(d.bodies)))
                        &&& (rules matches Some(rl) ==> exists|cs: Seq<Call>|
                            cs.len() == d.bodies.len() && (forall|i: int|
                                0 <= i < cs.len() ==> inject_rel(
                                    parse_of(d.bodies[i])->0,
                                    #[trigger] cs[i],
                                    crate::rules::rules_view(rl@),
                                )) && out@ == concat_frames(ser_map(cs)))
                    },
                    Err(f) => {
                        &&& (!all_parse(d.bodies) ==> f == DecodeFault::MessageFormat && (
                        exists|k: int|
                            0 <= k < d.bodies.len() && parse_of(#[trigger] d.bodies[k]) is None
                                && (forall|i: int|
                                0 <= i < k ==> (#[trigger] parse_of(d.bodies[i])) is Some)
                                && drain(final(self).buf@).bodies == d.bodies.skip(k + 1)
                                && drain(final(self).buf@).rest == d.rest && drain(
                                final(self).buf@,
                            ).stop == d.stop))
                        &&& (all_parse(d.bodies) ==> (d.stop matches SpecStep::Malformed { kind }
                            && f == fault_of(kind)) && final(self).buf@ == d.rest)
                    },
                }
            }),
            !all_parse(drain(old(self).buf@ + input@).bodies) || !(drain(
                old(self).buf@ + input@,
            ).stop is Incomplete) ==> r is Err,
    {
        let ghost g = old(self).buf@ + input@;
        self.buf.extend_from_slice(input);
        let ghost d = drain(g);
        proof {
            assert(self.buf@ =~= g);
        }
        let mut out: Vec<u8> = Vec::new();
        let ghost mut cs: Seq<Call> = Seq::empty();
        loop
            invariant
                g == old(self).buf@ + input@,
                d == drain(g),
                self.buf@.len() + 16 <= usize::MAX,
                cs.len() <= d.bodies.len(),
                drain(self.buf@).bodies =~= d.bodies.skip(cs.len() as int),
                drain(self.buf@).rest == d.rest,
                drain(self.buf@).stop == d.stop,
                forall|i: int| 0 <= i < cs.len() ==> (#[trigger] parse_of(d.bodies[i])) is Some,
                forall|i: int|
                    #![trigger cs[i]]
                    0 <= i < cs.len() ==> (match rules {
                        Some(rl) => inject_rel(
                            parse_of(d.bodies[i])->0,
                            cs[i],
                            crate::rules::rules_view(rl@),
                        ),
                        None => cs[i] == parse_of(d.bodies[i])->0,
                    }),
                out@ == concat_frames(ser_map(cs)),
            decreases self.buf@.len(),
        {
            let ghost prev = self.buf@;
            let step = decode_call(&mut self.buf);
            proof {
                lemma_decode_consumes(prev);
            }
            match step {
                CallStep::NeedData => {
                    proof {
                        assert(drain(prev).bodies.len() == 0);
                        assert(cs.len() == d.bodies.len());
                        if rules is None {
                            assert(ser_map(cs) =~= reemit_plain(d.bodies));
                        }
                    }
                    return Ok(out);
                },
                CallStep::Bad(f) => {
                    proof {
                        match decode_spec(prev) {
                            SpecStep::Complete { body, rest } => {
                                assert(drain(prev).bodies[0] == body);
                                assert(d.bodies[cs.len() as int] == body);
                                assert(parse_of(body) is None);
                                assert(!all_parse(d.bodies));
                                assert(self.buf@ == rest);
                                assert(d.bodies.skip(cs.len() as int).drop_first() =~= d.bodies
                                    .skip(cs.len() + 1int));
                                assert(drain(self.buf@).bodies =~= d.bodies.skip(cs.len() + 1int));
                                assert(drain(self.buf@).bodies == d.bodies.skip(cs.len() + 1int));
                            },
                            SpecStep::Malformed { kind } => {
                                assert(drain(prev).bodies.len() == 0);
                                assert(cs.len() == d.bodies.len());
                                assert(d.stop == (SpecStep::Malformed { kind }));
                                assert(self.buf@ == prev && prev == d.rest);
                            },
                            SpecStep::Incomplete => {
                                assert(false);
                            },
                        }
                    }
                    return Err(f);
                },
                CallStep::Item(call) => {
                    let ghost body0 = match decode_spec(prev) {
                        SpecStep::Complete { body, .. } => body,
                        _ => arbitrary(),
                    };
                    proof {
                        assert(decode_spec(prev) is Complete);
                        assert(drain(prev).bodies[0] == body0);
                        assert(d.bodies[cs.len() as int] == body0);
                        assert(parse_of(body0) == Some(call));
                        assert(d.bodies.skip(cs.len() as int).drop_first() =~= d.bodies.skip(
                            cs.len() + 1int,
                        ));
                    }
                    let mut call = call;
                    let ghost before = call;
                    match rules {
                        Some(rl) => {
                            let _ = inject_call(&mut call, rl);
                            proof {
                                assert(inject_rel(before, call, crate::rules::rules_view(rl@)));
                            }
                        },
                        None => {},
                    }
                    let fr = encode_call(&call);
                    out.extend_from_slice(fr.as_slice());
                    proof {
                        assert(ser_map(cs.push(call)) =~= ser_map(cs).push(ser_of(call)));
                        lemma_concat_frames_snoc(ser_map(cs), ser_of(call));
                        cs = cs.push(call);
                    }
                },
            }
        }
    }
}

/// A fault that ends one directional pump.
#[derive(PartialEq, Eq, Structural, Clone, Copy, Debug)]
pub enum PumpFault {
    /// Decoding its incoming bytes failed.
    Codec(DecodeFault),
    /// Reading its source or writing its sink failed.
    Transport,
}

/// What ended a whole proxy run short of success.
#[derive(PartialEq, Eq, Structural, Clone, Copy, Debug)]
pub enum RunError {
    /// The first pump fault observed.
    Pump(PumpFault),
    /// Both streams drained cleanly, but the subprocess exited with a
    /// nonzero status.
    SubprocessFailed,
}

/// Latches the first pump fault: a fault already held is kept, else the
/// incoming one (if any) is taken.
pub fn note_fault(first: Option<PumpFault>, incoming: Option<PumpFault>) -> (r: Option<PumpFault>)
    ensures
        first is Some ==> r == first,
        first is None ==> r == incoming,
{
    match first {
        Some(f) => Some(f),
        None => incoming,
    }
}

/// Aggregates a finished run from the first pump fault observed (if any) and
/// the subprocess's exit verdict.
///
/// A run is clean exactly when no pump faulted and the subprocess exited
/// successfully; a nonzero exit is surfaced as its own error kind even when
/// both streams drained cleanly.
pub fn conclude(first_fault: Option<PumpFault>, exit_ok: bool) -> (r: Result<(), RunError>)
    ensures
        r is Ok <==> (first_fault is None && exit_ok),
        first_fault matches Some(f) ==> r == Err::<(), RunError>(RunError::Pump(f)),
        first_fault is None && !exit_ok ==> r == Err::<(), RunError>(RunError::SubprocessFailed),
{
    match first_fault {
        Some(f) => Err(RunError::Pump(f)),
        None => if exit_ok {
            Ok(())
        } else {
            Err(RunError::SubprocessFailed)
        },
    }
}

} // verus!
