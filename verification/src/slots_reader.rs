//! Reading the slots of an epoch whose bytes come piece by piece.

use crate::codec::{
    ends_early, lemma_carry_coin, lemma_carry_u16, parse_coin, parse_u16, put_bytes, Cursor,
};
use crate::coin::Coin;
use crate::error::SerializingError;
use crate::slots_codec::{
    lemma_carry_slot_list, lemma_parse_slot_list_error, parse_slot, parse_slot_list, parse_slots,
};
use crate::validators::{Slot, Slots};
use vstd::prelude::*;

verus! {

/// What comes next in the bytes of the slots.
#[derive(Clone, Copy, Debug, PartialEq, Eq, Structural)]
enum Stage {
    Count,
    Slots,
    Fine,
    Done,
}

/// How far the slots have been read: what comes next, how many slots are left, and
/// what has been read.
struct Progress {
    stage: Stage,
    left: u16,
    slots: Seq<Slot>,
    fine: Coin,
}

/// How late a stage comes.
spec fn rank(stage: Stage) -> int {
    match stage {
        Stage::Count => 0,
        Stage::Slots => 1,
        Stage::Fine => 2,
        Stage::Done => 3,
    }
}

/// Nothing is there before the number of slots is, and a list that is being read has
/// slots left.
spec fn orderly(p: Progress) -> bool {
    &&& p.stage == Stage::Count ==> p.slots.len() == 0
    &&& p.stage == Stage::Slots ==> p.left > 0
}

/// Reading `seen` from its front leads to this progress and leaves `rest`.
#[verifier::opaque]
spec fn reached(p: Progress, seen: Seq<u8>, rest: Seq<u8>) -> bool {
    if p.stage == Stage::Count {
        rest == seen
    } else {
        match parse_u16(seen) {
            Err(_) => false,
            Ok((n, s1)) => if p.stage == Stage::Slots {
                p.slots.len() + p.left == n && parse_slot_list(s1, p.slots.len()) == Ok::<
                    (Seq<Slot>, Seq<u8>),
                    SerializingError,
                >((p.slots, rest))
            } else {
                match parse_slot_list(s1, n as nat) {
                    Err(_) => false,
                    Ok((slots, s2)) => slots == p.slots && if p.stage == Stage::Fine {
                        rest == s2
                    } else {
                        parse_coin(s2) == Ok::<(Coin, Seq<u8>), SerializingError>((p.fine, rest))
                    },
                }
            },
        }
    }
}

/// Why what comes next cannot be read from `rest`.
#[verifier::opaque]
spec fn next_error(stage: Stage, rest: Seq<u8>) -> Option<SerializingError> {
    match stage {
        Stage::Count => match parse_u16(rest) {
            Err(e) => Some(e),
            Ok(_) => None,
        },
        Stage::Slots => match parse_slot(rest) {
            Err(e) => Some(e),
            Ok(_) => None,
        },
        Stage::Fine => match parse_coin(rest) {
            Err(e) => Some(e),
            Ok(_) => None,
        },
        Stage::Done => None,
    }
}

/// More bytes do not undo progress.
proof fn lemma_carry_reached(p: Progress, seen: Seq<u8>, rest: Seq<u8>, t: Seq<u8>)
    requires
        reached(p, seen, rest),
    ensures
        reached(p, seen + t, rest + t),
{
    reveal(reached);
    lemma_carry_u16(seen, t);
    if p.stage != Stage::Count {
        let (n, s1) = parse_u16(seen)->Ok_0;
        lemma_carry_slot_list(s1, p.slots.len(), t);
        lemma_carry_slot_list(s1, n as nat, t);
        if p.stage == Stage::Done {
            lemma_carry_coin(parse_slot_list(s1, n as nat)->Ok_0.1, t);
        }
    }
}

/// Where what comes next cannot be read, the slots cannot.
proof fn lemma_stuck(p: Progress, seen: Seq<u8>, rest: Seq<u8>, e: SerializingError)
    requires
        reached(p, seen, rest),
        orderly(p),
        next_error(p.stage, rest) == Some(e),
    ensures
        parse_slots(seen) matches Err(f) && f == e,
{
    reveal(reached);
    reveal(next_error);
    if p.stage == Stage::Slots {
        let (n, s1) = parse_u16(seen)->Ok_0;
        let k = (p.slots.len() + 1) as nat;
        assert(parse_slot_list(s1, k) is Err);
        lemma_parse_slot_list_error(s1, k, n as nat);
    }
}

/// Once the number of slots is read, they come next, if there are any.
proof fn lemma_count_read(p: Progress, seen: Seq<u8>, rest: Seq<u8>)
    requires
        reached(p, seen, rest),
        orderly(p),
        p.stage == Stage::Count,
        parse_u16(rest) is Ok,
    ensures
        ({
            let (left, behind) = parse_u16(rest)->Ok_0;
            let stage = if left > 0 {
                Stage::Slots
            } else {
                Stage::Fine
            };
            reached(Progress { stage, left, ..p }, seen, behind)
        }),
{
    reveal(reached);
    assert(p.slots =~= Seq::empty());
}

/// Once a slot is read, the next one comes, if there are any left.
proof fn lemma_slot_read(p: Progress, seen: Seq<u8>, rest: Seq<u8>)
    requires
        reached(p, seen, rest),
        orderly(p),
        p.stage == Stage::Slots,
        parse_slot(rest) is Ok,
    ensures
        ({
            let (slot, behind) = parse_slot(rest)->Ok_0;
            let left = (p.left - 1) as u16;
            let stage = if left > 0 {
                Stage::Slots
            } else {
                Stage::Fine
            };
            reached(Progress { stage, left, slots: p.slots.push(slot), ..p }, seen, behind)
        }),
{
    reveal(reached);
}

/// Once the fine is read, the slots are there.
proof fn lemma_fine_read(p: Progress, seen: Seq<u8>, rest: Seq<u8>)
    requires
        reached(p, seen, rest),
        p.stage == Stage::Fine,
        parse_coin(rest) is Ok,
    ensures
        reached(
            Progress { stage: Stage::Done, fine: parse_coin(rest)->Ok_0.0, ..p },
            seen,
            parse_coin(rest)->Ok_0.1,
        ),
{
    reveal(reached);
}

/// Once everything is read, the slots are there.
proof fn lemma_all_read(p: Progress, seen: Seq<u8>, rest: Seq<u8>)
    requires
        reached(p, seen, rest),
        p.stage == Stage::Done,
    ensures
        parse_slots(seen) == Ok::<((Seq<Slot>, Coin), Seq<u8>), SerializingError>(
            ((p.slots, p.fine), rest),
        ),
{
    reveal(reached);
}

/// What has been read so far.
struct Partial {
    stage: Stage,
    left: u16,
    slots: Vec<Slot>,
    fine: Coin,
}

impl Partial {
    /// How far this is.
    spec fn progress(self) -> Progress {
        Progress { stage: self.stage, left: self.left, slots: self.slots@, fine: self.fine }
    }

    /// Reads what comes next.
    fn step(&mut self, c: &mut Cursor, Ghost(seen): Ghost<Seq<u8>>) -> (r: Result<
        (),
        SerializingError,
    >)
        requires
            orderly(old(self).progress()),
            old(self).stage != Stage::Done,
            old(c).wf(),
            reached(old(self).progress(), seen, old(c).rest()),
        ensures
            final(c).wf(),
            final(c).input() == old(c).input(),
            match r {
                Ok(()) => {
                    &&& orderly(final(self).progress())
                    &&& reached(final(self).progress(), seen, final(c).rest())
                    &&& rank(final(self).stage) > rank(old(self).stage) || (final(self).stage
                        == old(self).stage && final(self).left < old(self).left)
                },
                Err(e) => {
                    &&& *final(self) == *old(self)
                    &&& next_error(old(self).stage, old(c).rest()) == Some(e)
                    &&& e == SerializingError::UnexpectedEnd ==> final(c).missing() > 0
                        && forall|t: Seq<u8>|
                        t.len() < final(c).missing() ==> #[trigger] next_error(
                            old(self).stage,
                            old(c).rest() + t,
                        ) == Some(SerializingError::UnexpectedEnd)
                },
            },
    {
        let ghost p = self.progress();
        let ghost rest = c.rest();
        proof {
            reveal(next_error);
        }
        match self.stage {
            Stage::Count => match c.read_u16() {
                Ok(n) => {
                    proof {
                        lemma_count_read(p, seen, rest);
                    }
                    self.left = n;
                    self.stage = if n > 0 {
                        Stage::Slots
                    } else {
                        Stage::Fine
                    };
                    Ok(())
                },
                Err(e) => Err(e),
            },
            Stage::Slots => match Slot::deserialize(c) {
                Ok(slot) => {
                    proof {
                        lemma_slot_read(p, seen, rest);
                    }
                    self.slots.push(slot);
                    self.left = self.left - 1;
                    if self.left == 0 {
                        self.stage = Stage::Fine;
                    }
                    Ok(())
                },
                Err(e) => Err(e),
            },
            Stage::Fine => match c.read_coin() {
                Ok(fine) => {
                    proof {
                        lemma_fine_read(p, seen, rest);
                    }
                    self.fine = fine;
                    self.stage = Stage::Done;
                    Ok(())
                },
                Err(e) => Err(e),
            },
            Stage::Done => Ok(()),
        }
    }
}

/// A reader that is handed the bytes of the slots piece by piece.
pub struct SlotsReader {
    partial: Partial,
    pending: Vec<u8>,
    wanted: usize,
    seen: Ghost<Seq<u8>>,
}

impl SlotsReader {
    #[verifier::type_invariant]
    spec fn in_step(self) -> bool {
        &&& orderly(self.partial.progress())
        &&& reached(self.partial.progress(), self.seen@, self.pending@)
        &&& self.pending@.len() <= self.seen@.len()
        &&& self.pending@ == self.seen@.skip(self.seen@.len() - self.pending@.len())
        &&& self.wanted == 0 <==> self.partial.stage == Stage::Done
        &&& forall|t: Seq<u8>|
            t.len() < self.wanted ==> ends_early(#[trigger] parse_slots(self.seen@ + t))
    }

    /// All bytes that the reader was handed.
    pub closed spec fn seen(self) -> Seq<u8> {
        self.seen@
    }

    /// A reader at the beginning of the slots.
    pub fn new() -> (reader: SlotsReader)
        ensures
            reader.seen() == Seq::<u8>::empty(),
    {
        let partial = Partial {
            stage: Stage::Count,
            left: 0,
            slots: Vec::new(),
            fine: Coin::zero(),
        };
        proof {
            reveal(reached);
            assert forall|t: Seq<u8>| t.len() < 2 implies ends_early(
                #[trigger] parse_slots(Seq::<u8>::empty() + t),
            ) by {
                assert(Seq::<u8>::empty() + t =~= t);
            }
            assert(Seq::<u8>::empty().skip(0) =~= Seq::empty());
        }
        SlotsReader { partial, pending: Vec::new(), wanted: 2, seen: Ghost(Seq::empty()) }
    }

    /// How many bytes are still to come before anything more can be said of the slots.
    /// None, if the slots are there.
    pub fn wanted(&self) -> (n: usize)
        ensures
            n == 0 <==> parse_slots(self.seen()) is Ok,
            n > 0 <==> ends_early(parse_slots(self.seen())),
            forall|t: Seq<u8>|
                t.len() < n ==> ends_early(#[trigger] parse_slots(self.seen() + t)),
    {
        proof {
            use_type_invariant(self);
            let none = Seq::<u8>::empty();
            assert(self.seen@ + none =~= self.seen@);
            if self.wanted > 0 {
                assert(ends_early(parse_slots(self.seen@ + none)));
            } else {
                lemma_all_read(self.partial.progress(), self.seen@, self.pending@);
            }
        }
        self.wanted
    }

    /// Hands the reader more bytes. An error other than an early end is reported as
    /// soon as the bytes show it.
    pub fn feed(self, bytes: &[u8]) -> (r: Result<SlotsReader, SerializingError>)
        ensures
            match r {
                Ok(next) => {
                    &&& next.seen() == self.seen() + bytes@
                    &&& parse_slots(next.seen()) is Ok || ends_early(parse_slots(next.seen()))
                },
                Err(e) => {
                    &&& e != SerializingError::UnexpectedEnd
                    &&& parse_slots(self.seen() + bytes@) matches Err(f) && f == e
                },
            },
    {
        proof {
            use_type_invariant(&self);
        }
        let ghost seen = self.seen@ + bytes@;
        let mut buf: Vec<u8> = self.pending;
        let mut partial = self.partial;
        put_bytes(&mut buf, bytes);
        proof {
            lemma_carry_reached(partial.progress(), self.seen@, self.pending@, bytes@);
            assert(buf@ =~= seen.skip(seen.len() - buf@.len()));
        }
        let mut c = Cursor::new(buf.as_slice());
        let mut start: usize = 0;
        let mut wanted: usize = 0;
        assert(buf@.skip(0) =~= buf@);
        while partial.stage != Stage::Done
            invariant_except_break
                wanted == 0,
                c.rest() == buf@.skip(start as int),
            invariant
                seen == self.seen() + bytes@,
                c.wf(),
                c.input() == buf@,
                start <= buf@.len(),
                orderly(partial.progress()),
                reached(partial.progress(), seen, buf@.skip(start as int)),
            ensures
                wanted == 0 <==> partial.stage == Stage::Done,
                forall|t: Seq<u8>|
                    t.len() < wanted ==> ends_early(#[trigger] parse_slots(seen + t)),
            decreases 3 - rank(partial.stage), partial.left,
        {
            let ghost p = partial.progress();
            let ghost rest = c.rest();
            match partial.step(&mut c, Ghost(seen)) {
                Ok(()) => {
                    start = c.consumed();
                },
                Err(e) => {
                    proof {
                        lemma_stuck(p, seen, rest, e);
                    }
                    match e {
                        SerializingError::UnexpectedEnd => {
                            wanted = c.lacked();
                            assert forall|t: Seq<u8>| t.len() < wanted implies ends_early(
                                #[trigger] parse_slots(seen + t),
                            ) by {
                                assert(next_error(p.stage, rest + t) is Some);
                                lemma_carry_reached(p, seen, rest, t);
                                lemma_stuck(p, seen + t, rest + t, e);
                            }
                            break;
                        },
                        _ => {
                            return Err(e);
                        },
                    }
                },
            }
        }
        let mut pending: Vec<u8> = Vec::new();
        let mut i: usize = start;
        while i < buf.len()
            invariant
                start <= i <= buf@.len(),
                pending@ == buf@.subrange(start as int, i as int),
            decreases buf@.len() - i,
        {
            pending.push(buf[i]);
            i = i + 1;
            assert(pending@ =~= buf@.subrange(start as int, i as int));
        }
        proof {
            assert(pending@ =~= buf@.skip(start as int));
            assert(pending@ =~= seen.skip(seen.len() - pending@.len()));
            let none = Seq::<u8>::empty();
            assert(seen + none =~= seen);
            if wanted > 0 {
                assert(ends_early(parse_slots(seen + none)));
            } else {
                lemma_all_read(partial.progress(), seen, pending@);
            }
        }
        Ok(SlotsReader { partial, pending, wanted, seen: Ghost(seen) })
    }

    /// The slots with the fine, and how many of the bytes stand behind them.
    pub fn finish(self) -> (r: Result<(Slots, usize), SerializingError>)
        ensures
            match parse_slots(self.seen()) {
                Ok(((slots, fine), rest)) => {
                    &&& r matches Ok((s, n))
                    &&& s@ == slots
                    &&& s.fine() == fine
                    &&& n == rest.len()
                    &&& n <= self.seen().len()
                    &&& rest == self.seen().skip(self.seen().len() - n)
                },
                Err(e) => r matches Err(f) && f == e,
            },
    {
        proof {
            use_type_invariant(&self);
            let none = Seq::<u8>::empty();
            assert(self.seen@ + none =~= self.seen@);
            if self.wanted > 0 {
                assert(ends_early(parse_slots(self.seen@ + none)));
            } else {
                lemma_all_read(self.partial.progress(), self.seen@, self.pending@);
            }
        }
        if self.wanted > 0 {
            return Err(SerializingError::UnexpectedEnd);
        }
        let behind: usize = self.pending.len();
        Ok((Slots::new(self.partial.slots, self.partial.fine), behind))
    }
}

impl Slots {
    /// Reads slots and the fine from the front of `bytes`, and says how many of
    /// them it took.
    pub fn deserialize(bytes: &[u8]) -> (r: Result<(Slots, usize), SerializingError>)
        ensures
            match parse_slots(bytes@) {
                Ok(((slots, fine), rest)) => {
                    &&& r matches Ok((s, n))
                    &&& s@ == slots
                    &&& s.fine() == fine
                    &&& n <= bytes@.len()
                    &&& rest == bytes@.skip(n as int)
                },
                Err(e) => r matches Err(f) && f == e,
            },
    {
        let reader = SlotsReader::new();
        assert(reader.seen() + bytes@ =~= bytes@);
        let reader = match reader.feed(bytes) {
            Ok(reader) => reader,
            Err(e) => {
                return Err(e);
            },
        };
        match reader.finish() {
            Ok((slots, behind)) => Ok((slots, bytes.len() - behind)),
            Err(e) => Err(e),
        }
    }
}

} // verus!
