//! The wire formats of slots and validators.

use crate::bls::LazyPublicKey;
use crate::codec::{
    be_bytes, carried, ends_early, lemma_address_of, lemma_be_bytes_len, lemma_carry_address,
    lemma_carry_bytes, lemma_carry_coin, lemma_carry_opt_address, lemma_carry_u16, lemma_parse_bytes_written, lemma_parse_opt_address_written,
    lemma_parse_uint_written, lemma_pow256, opt_address_bytes, parse_address, parse_bytes,
    parse_coin, parse_opt_address, parse_u16, put_bytes, put_opt_address, put_uint, Cursor, Parsed,
};
use crate::coin::{check_writable, writable, Coin, MAX_SAFE_VALUE};
use crate::error::SerializingError;
use crate::stake::lemma_parse_coin_written;
use crate::validators::{Slot, Slots, Validator};
use vstd::prelude::*;

verus! {

/// The lazy key with these bytes.
pub open spec fn lazy_key_of(s: Seq<u8>) -> LazyPublicKey {
    choose|k: LazyPublicKey| k.compressed@ == s
}

/// A lazy key is the key of its bytes.
pub proof fn lemma_lazy_key_of(k: LazyPublicKey)
    ensures
        lazy_key_of(k.compressed@) == k,
{
    let l = lazy_key_of(k.compressed@);
    assert(l.compressed@ == k.compressed@);
    assert forall|i: int| 0 <= i < 96 implies l.compressed[i] == k.compressed[i] by {
        assert(l.compressed@[i] == k.compressed@[i]);
    }
    assert(l.compressed =~= k.compressed);
}

/// 96 bytes that are kept as a key without a look at the curve.
pub open spec fn parse_lazy_key(s: Seq<u8>) -> Parsed<LazyPublicKey> {
    match parse_bytes(s, 96) {
        Ok((b, rest)) => Ok((lazy_key_of(b), rest)),
        Err(e) => Err(e),
    }
}

/// Bytes behind the input do not change what is read of it.
pub proof fn lemma_carry_lazy_key(s: Seq<u8>, t: Seq<u8>)
    ensures
        carried(parse_lazy_key(s), parse_lazy_key(s + t), t),
{
    lemma_carry_bytes(s, 96, t);
}

/// Reads a lazy key.
pub fn read_lazy_key(c: &mut Cursor) -> (r: Result<LazyPublicKey, SerializingError>)
    requires
        old(c).wf(),
    ensures
        final(c).wf(),
        final(c).input() == old(c).input(),
        ends_early(parse_lazy_key(old(c).rest())) ==> final(c).missing() > 0 && forall|t: Seq<u8>|
            t.len() < final(c).missing() ==> ends_early(
                #[trigger] parse_lazy_key(old(c).rest() + t),
            ),
        match parse_lazy_key(old(c).rest()) {
            Ok((v, rest)) => r == Ok::<LazyPublicKey, SerializingError>(v) && final(c).rest()
                == rest,
            Err(e) => r == Err::<LazyPublicKey, SerializingError>(e),
        },
{
    match c.read_array::<96>() {
        Ok(compressed) => {
            let k = LazyPublicKey { compressed };
            proof {
                lemma_lazy_key_of(k);
            }
            Ok(k)
        },
        Err(e) => Err(e),
    }
}

/// The bytes of a slot.
pub open spec fn slot_bytes(s: Slot) -> Seq<u8> {
    s.public_key.compressed@ + opt_address_bytes(s.reward_address_opt) + s.staker_address.bytes@
}

/// A slot at the front of `s`.
pub open spec fn parse_slot(s: Seq<u8>) -> Parsed<Slot> {
    match parse_lazy_key(s) {
        Err(e) => Err(e),
        Ok((public_key, s1)) => match parse_opt_address(s1) {
            Err(e) => Err(e),
            Ok((reward_address_opt, s2)) => match parse_address(s2) {
                Err(e) => Err(e),
                Ok((staker_address, s3)) => Ok(
                    (Slot { public_key, reward_address_opt, staker_address }, s3),
                ),
            },
        },
    }
}

/// The bytes of several slots, one behind the other.
pub open spec fn slot_list_bytes(slots: Seq<Slot>) -> Seq<u8>
    decreases slots.len(),
{
    if slots.len() == 0 {
        Seq::empty()
    } else {
        slot_list_bytes(slots.drop_last()) + slot_bytes(slots.last())
    }
}

/// `n` slots at the front of `s`.
pub open spec fn parse_slot_list(s: Seq<u8>, n: nat) -> Parsed<Seq<Slot>>
    decreases n,
{
    if n == 0 {
        Ok((Seq::empty(), s))
    } else {
        match parse_slot_list(s, (n - 1) as nat) {
            Err(e) => Err(e),
            Ok((slots, s1)) => match parse_slot(s1) {
                Err(e) => Err(e),
                Ok((slot, s2)) => Ok((slots.push(slot), s2)),
            },
        }
    }
}

/// The bytes of the slots of an epoch: their number, the slots, the fine.
pub open spec fn slots_bytes(slots: Seq<Slot>, fine: Coin) -> Seq<u8> {
    be_bytes(slots.len(), 2) + slot_list_bytes(slots) + be_bytes(fine.lunas as nat, 8)
}

/// The slots of an epoch and the fine, at the front of `s`.
pub open spec fn parse_slots(s: Seq<u8>) -> Parsed<(Seq<Slot>, Coin)> {
    match parse_u16(s) {
        Err(e) => Err(e),
        Ok((n, s1)) => match parse_slot_list(s1, n as nat) {
            Err(e) => Err(e),
            Ok((slots, s2)) => match parse_coin(s2) {
                Err(e) => Err(e),
                Ok((fine, s3)) => Ok(((slots, fine), s3)),
            },
        },
    }
}

/// The bytes of a validator.
pub open spec fn validator_bytes(v: Validator) -> Seq<u8> {
    v.public_key.compressed@ + be_bytes(v.num_slots as nat, 2)
}

/// A validator at the front of `s`.
pub open spec fn parse_validator(s: Seq<u8>) -> Parsed<Validator> {
    match parse_lazy_key(s) {
        Err(e) => Err(e),
        Ok((public_key, s1)) => match parse_u16(s1) {
            Err(e) => Err(e),
            Ok((num_slots, s2)) => Ok((Validator { public_key, num_slots }, s2)),
        },
    }
}

/// Bytes behind the input do not change what is read of it.
pub proof fn lemma_carry_slot(s: Seq<u8>, t: Seq<u8>)
    ensures
        carried(parse_slot(s), parse_slot(s + t), t),
{
    lemma_carry_lazy_key(s, t);
    if let Ok((_, s1)) = parse_lazy_key(s) {
        lemma_carry_opt_address(s1, t);
        if let Ok((_, s2)) = parse_opt_address(s1) {
            lemma_carry_address(s2, t);
        }
    }
}

/// Bytes behind the input do not change what is read of it.
pub proof fn lemma_carry_slot_list(s: Seq<u8>, n: nat, t: Seq<u8>)
    ensures
        carried(parse_slot_list(s, n), parse_slot_list(s + t, n), t),
    decreases n,
{
    if n > 0 {
        lemma_carry_slot_list(s, (n - 1) as nat, t);
        if let Ok((_, s1)) = parse_slot_list(s, (n - 1) as nat) {
            lemma_carry_slot(s1, t);
        }
    }
}

/// Bytes behind the input do not change what is read of it.
pub proof fn lemma_carry_slots(s: Seq<u8>, t: Seq<u8>)
    ensures
        carried(parse_slots(s), parse_slots(s + t), t),
{
    lemma_carry_u16(s, t);
    if let Ok((n, s1)) = parse_u16(s) {
        lemma_carry_slot_list(s1, n as nat, t);
        if let Ok((_, s2)) = parse_slot_list(s1, n as nat) {
            lemma_carry_coin(s2, t);
        }
    }
}

/// Bytes behind the input do not change what is read of it.
pub proof fn lemma_carry_validator(s: Seq<u8>, t: Seq<u8>)
    ensures
        carried(parse_validator(s), parse_validator(s + t), t),
{
    lemma_carry_lazy_key(s, t);
    if let Ok((_, s1)) = parse_lazy_key(s) {
        lemma_carry_u16(s1, t);
    }
}

/// Where reading some slots fails, reading more of them fails alike.
pub proof fn lemma_parse_slot_list_error(s: Seq<u8>, m: nat, n: nat)
    requires
        m <= n,
        parse_slot_list(s, m) is Err,
    ensures
        parse_slot_list(s, n) == parse_slot_list(s, m),
    decreases n,
{
    if m < n {
        lemma_parse_slot_list_error(s, m, (n - 1) as nat);
    }
}

impl Slot {
    /// Appends the bytes of the slot.
    pub fn serialize(&self, out: &mut Vec<u8>)
        ensures
            final(out)@ == old(out)@ + slot_bytes(*self),
    {
        put_bytes(out, &self.public_key.compressed);
        put_opt_address(out, &self.reward_address_opt);
        put_bytes(out, &self.staker_address.bytes);
        assert(out@ =~= old(out)@ + slot_bytes(*self));
    }

    /// The number of bytes that `serialize` appends.
    pub fn serialized_size(&self) -> (n: usize)
        ensures
            n == slot_bytes(*self).len(),
            n <= 137,
    {
        match self.reward_address_opt {
            Some(_) => 137,
            None => 117,
        }
    }

    /// Reads a slot.
    pub fn deserialize(c: &mut Cursor) -> (r: Result<Slot, SerializingError>)
        requires
            old(c).wf(),
        ensures
            final(c).wf(),
            final(c).input() == old(c).input(),
            ends_early(parse_slot(old(c).rest())) ==> final(c).missing() > 0 && forall|t: Seq<u8>|
                t.len() < final(c).missing() ==> ends_early(
                    #[trigger] parse_slot(old(c).rest() + t),
                ),
            match parse_slot(old(c).rest()) {
                Ok((v, rest)) => r == Ok::<Slot, SerializingError>(v) && final(c).rest() == rest,
                Err(e) => r == Err::<Slot, SerializingError>(e),
            },
    {
        let ghost s = c.rest();
        let public_key = match read_lazy_key(c) {
            Ok(v) => v,
            Err(e) => {
                return Err(e);
            },
        };
        let ghost s1 = c.rest();
        let reward_address_opt = match c.read_opt_address() {
            Ok(v) => v,
            Err(e) => {
                assert forall|t: Seq<u8>|
                    e == SerializingError::UnexpectedEnd && t.len()
                        < c.missing() implies ends_early(
                    #[trigger] parse_slot(s + t),
                ) by {
                    lemma_carry_lazy_key(s, t);
                }
                return Err(e);
            },
        };
        match c.read_address() {
            Ok(staker_address) => Ok(Slot { public_key, reward_address_opt, staker_address }),
            Err(e) => {
                assert forall|t: Seq<u8>|
                    e == SerializingError::UnexpectedEnd && t.len()
                        < c.missing() implies ends_early(
                    #[trigger] parse_slot(s + t),
                ) by {
                    lemma_carry_lazy_key(s, t);
                    lemma_carry_opt_address(s1, t);
                }
                Err(e)
            },
        }
    }
}

impl Slots {
    /// The bytes of the slots and the fine, unless the fine cannot be written.
    pub fn serialize(&self) -> (r: Result<Vec<u8>, SerializingError>)
        requires
            self@.len() <= u16::MAX,
        ensures
            match r {
                Ok(out) => writable(self.fine()) is Ok && out@ == slots_bytes(self@, self.fine()),
                Err(e) => writable(self.fine()) == Err::<(), SerializingError>(e),
            },
    {
        match check_writable(self.slash_fine()) {
            Ok(()) => {},
            Err(e) => {
                return Err(e);
            },
        }
        let mut out: Vec<u8> = Vec::new();
        let n: usize = self.len();
        put_uint(&mut out, n as u64, 2);
        let ghost head = out@;
        let mut i: usize = 0;
        while i < n
            invariant
                i <= n,
                n == self@.len(),
                out@ == head + slot_list_bytes(self@.take(i as int)),
            decreases n - i,
        {
            self.get(i).serialize(&mut out);
            assert(self@.take(i + 1).drop_last() =~= self@.take(i as int));
            assert(out@ =~= head + slot_list_bytes(self@.take(i + 1)));
            i = i + 1;
        }
        assert(self@.take(i as int) =~= self@);
        put_uint(&mut out, self.slash_fine().lunas, 8);
        assert(out@ =~= slots_bytes(self@, self.fine()));
        Ok(out)
    }

    /// The number of bytes that `serialize` returns.
    pub fn serialized_size(&self) -> (size: usize)
        requires
            self@.len() <= u16::MAX,
        ensures
            size == slots_bytes(self@, self.fine()).len(),
    {
        proof {
            lemma_be_bytes_len(self@.len(), 2);
            lemma_be_bytes_len(self.fine().lunas as nat, 8);
        }
        let n: usize = self.len();
        let mut size: usize = 2 + 8;
        let mut i: usize = 0;
        while i < n
            invariant
                i <= n <= u16::MAX,
                n == self@.len(),
                size == 10 + slot_list_bytes(self@.take(i as int)).len(),
                size <= 10 + 137 * i,
            decreases n - i,
        {
            assert(self@.take(i + 1).drop_last() =~= self@.take(i as int));
            let slot_size: usize = self.get(i).serialized_size();
            size = size + slot_size;
            i = i + 1;
        }
        assert(self@.take(i as int) =~= self@);
        size
    }
}

impl Validator {
    /// Appends the bytes of the validator.
    pub fn serialize(&self, out: &mut Vec<u8>)
        ensures
            final(out)@ == old(out)@ + validator_bytes(*self),
    {
        put_bytes(out, &self.public_key.compressed);
        put_uint(out, self.num_slots as u64, 2);
        assert(out@ =~= old(out)@ + validator_bytes(*self));
    }

    /// The number of bytes that `serialize` appends.
    pub fn serialized_size(&self) -> (n: usize)
        ensures
            n == validator_bytes(*self).len(),
    {
        proof {
            lemma_be_bytes_len(self.num_slots as nat, 2);
        }
        98
    }

    /// Reads a validator.
    pub fn deserialize(c: &mut Cursor) -> (r: Result<Validator, SerializingError>)
        requires
            old(c).wf(),
        ensures
            final(c).wf(),
            final(c).input() == old(c).input(),
            ends_early(parse_validator(old(c).rest())) ==> final(c).missing() > 0 && forall|t: Seq<u8>|
                t.len() < final(c).missing() ==> ends_early(
                    #[trigger] parse_validator(old(c).rest() + t),
                ),
            match parse_validator(old(c).rest()) {
                Ok((v, rest)) => r == Ok::<Validator, SerializingError>(v) && final(c).rest()
                    == rest,
                Err(e) => r == Err::<Validator, SerializingError>(e),
            },
    {
        let ghost s = c.rest();
        let public_key = match read_lazy_key(c) {
            Ok(v) => v,
            Err(e) => {
                return Err(e);
            },
        };
        match c.read_u16() {
            Ok(num_slots) => Ok(Validator { public_key, num_slots }),
            Err(e) => {
                assert forall|t: Seq<u8>|
                    e == SerializingError::UnexpectedEnd && t.len()
                        < c.missing() implies ends_early(
                    #[trigger] parse_validator(s + t),
                ) by {
                    lemma_carry_lazy_key(s, t);
                }
                Err(e)
            },
        }
    }
}

/// Reading a two-byte number gives back the one written.
proof fn lemma_parse_u16_written(v: u16, tail: Seq<u8>)
    ensures
        parse_u16(be_bytes(v as nat, 2) + tail) == Ok::<(u16, Seq<u8>), SerializingError>(
            (v, tail),
        ),
{
    lemma_pow256();
    lemma_parse_uint_written(v as nat, 2, tail);
}

/// Reading a lazy key gives back the one written.
proof fn lemma_parse_lazy_key_written(k: LazyPublicKey, tail: Seq<u8>)
    ensures
        parse_lazy_key(k.compressed@ + tail) == Ok::<(LazyPublicKey, Seq<u8>), SerializingError>(
            (k, tail),
        ),
{
    lemma_parse_bytes_written(k.compressed@, tail);
    lemma_lazy_key_of(k);
}

/// Reading a slot gives back the one written, whatever stands behind it.
pub proof fn law_slot_round_trip(s: Slot, tail: Seq<u8>)
    ensures
        parse_slot(slot_bytes(s) + tail) == Ok::<(Slot, Seq<u8>), SerializingError>((s, tail)),
{
    let t2 = s.staker_address.bytes@ + tail;
    let t1 = opt_address_bytes(s.reward_address_opt) + t2;
    assert(slot_bytes(s) + tail =~= s.public_key.compressed@ + t1);
    lemma_parse_lazy_key_written(s.public_key, t1);
    lemma_parse_opt_address_written(s.reward_address_opt, t2);
    lemma_parse_bytes_written(s.staker_address.bytes@, tail);
    lemma_address_of(s.staker_address);
}

/// Reading a validator gives back the one written, whatever stands behind it.
pub proof fn law_validator_round_trip(v: Validator, tail: Seq<u8>)
    ensures
        parse_validator(validator_bytes(v) + tail) == Ok::<(Validator, Seq<u8>), SerializingError>(
            (v, tail),
        ),
{
    let t1 = be_bytes(v.num_slots as nat, 2) + tail;
    assert(validator_bytes(v) + tail =~= v.public_key.compressed@ + t1);
    lemma_parse_lazy_key_written(v.public_key, t1);
    lemma_parse_u16_written(v.num_slots, tail);
}

/// Reading several slots gives back those written.
proof fn lemma_parse_slot_list_written(slots: Seq<Slot>, tail: Seq<u8>)
    ensures
        parse_slot_list(slot_list_bytes(slots) + tail, slots.len()) == Ok::<
            (Seq<Slot>, Seq<u8>),
            SerializingError,
        >((slots, tail)),
    decreases slots.len(),
{
    if slots.len() == 0 {
        assert(slot_list_bytes(slots) + tail =~= tail);
        assert(slots =~= Seq::empty());
    } else {
        let front = slots.drop_last();
        let t = slot_bytes(slots.last()) + tail;
        lemma_parse_slot_list_written(front, t);
        assert(slot_list_bytes(slots) + tail =~= slot_list_bytes(front) + t);
        law_slot_round_trip(slots.last(), tail);
        assert(front.push(slots.last()) =~= slots);
    }
}

/// Reading the slots of an epoch gives back those written and the fine, whatever
/// stands behind them.
pub proof fn law_slots_round_trip(slots: Seq<Slot>, fine: Coin, tail: Seq<u8>)
    requires
        slots.len() <= u16::MAX,
        fine.lunas <= MAX_SAFE_VALUE,
    ensures
        parse_slots(slots_bytes(slots, fine) + tail) == Ok::<
            ((Seq<Slot>, Coin), Seq<u8>),
            SerializingError,
        >(((slots, fine), tail)),
{
    let t2 = be_bytes(fine.lunas as nat, 8) + tail;
    let t1 = slot_list_bytes(slots) + t2;
    assert(slots_bytes(slots, fine) + tail =~= be_bytes(slots.len(), 2) + t1);
    lemma_parse_u16_written(slots.len() as u16, t1);
    lemma_parse_slot_list_written(slots, t2);
    lemma_parse_coin_written(fine, tail);
}

/// What was written of the slots of an epoch is not accepted, as these slots or
/// others, where its end is cut off.
pub proof fn law_slots_cut(slots: Seq<Slot>, fine: Coin, k: int)
    requires
        slots.len() <= u16::MAX,
        fine.lunas <= MAX_SAFE_VALUE,
        0 <= k < slots_bytes(slots, fine).len(),
    ensures
        ends_early(parse_slots(slots_bytes(slots, fine).take(k))),
{
    let b = slots_bytes(slots, fine);
    law_slots_round_trip(slots, fine, Seq::empty());
    assert(b + Seq::<u8>::empty() =~= b);
    assert(b.take(k) + b.skip(k) =~= b);
    lemma_carry_slots(b.take(k), b.skip(k));
}

/// What was written of a validator is not accepted where its end is cut off.
pub proof fn law_validator_cut(v: Validator, k: int)
    requires
        0 <= k < validator_bytes(v).len(),
    ensures
        ends_early(parse_validator(validator_bytes(v).take(k))),
{
    let b = validator_bytes(v);
    law_validator_round_trip(v, Seq::empty());
    assert(b + Seq::<u8>::empty() =~= b);
    assert(b.take(k) + b.skip(k) =~= b);
    lemma_carry_validator(b.take(k), b.skip(k));
}

} // verus!
