//! The stakes that the contract holds and the receipts that undo changes to them.

use crate::address::Address;
use crate::bls::{is_g2_point, lemma_carry_key, lemma_key_bytes, lemma_key_of, parse_key, read_key, BlsPublicKey};
use crate::codec::{
    be_bytes, carried, ends_early, lemma_be_bytes_len, lemma_carry_address, lemma_carry_coin,
    lemma_carry_opt_address, lemma_carry_u32, lemma_carry_u8, lemma_parse_bytes_written, lemma_parse_opt_address_written, lemma_parse_uint_written,
    lemma_pow256, opt_address_bytes, parse_address, parse_coin, parse_opt_address, parse_u32,
    parse_u8, put_bytes, put_opt_address, put_uint, Cursor, Parsed,
};
use crate::coin::{check_writable, writable, Coin, MAX_SAFE_VALUE};
use crate::error::SerializingError;
use crate::sorted_map::{KeyOrder, SortKey};
use std::cmp::Ordering;
use vstd::prelude::*;

verus! {

/// Stake that is considered when validators are selected.
#[derive(Clone, Copy, Debug)]
pub struct ActiveStake {
    pub staker_address: Address,
    pub balance: Coin,
    pub validator_key: BlsPublicKey,
    pub reward_address: Option<Address>,
}

/// What an active stake is told apart and ranked by.
#[derive(Clone, Copy, Debug, PartialEq, Eq)]
pub struct StakeKey {
    pub balance: Coin,
    pub address: Address,
}

impl SortKey for StakeKey {
    /// Higher balances come first; equal balances go by address.
    open spec fn before(self, other: Self) -> bool {
        self.balance.lunas > other.balance.lunas || (self.balance == other.balance
            && self.address.before(other.address))
    }

    proof fn before_irreflexive(a: Self) {
        Address::before_irreflexive(a.address);
    }

    proof fn before_transitive(a: Self, b: Self, c: Self) {
        if a.balance == b.balance && b.balance == c.balance {
            Address::before_transitive(a.address, b.address, c.address);
        }
    }

    proof fn before_total(a: Self, b: Self) {
        Address::before_total(a.address, b.address);
    }

    fn order(&self, other: &Self) -> (o: KeyOrder) {
        if self.balance.lunas > other.balance.lunas {
            KeyOrder::Less
        } else if self.balance.lunas < other.balance.lunas {
            KeyOrder::Greater
        } else {
            self.address.order(&other.address)
        }
    }
}

impl ActiveStake {
    /// The rank of the stake.
    pub open spec fn key(self) -> StakeKey {
        StakeKey { balance: self.balance, address: self.staker_address }
    }

    /// The rank of the stake.
    pub fn sort_key(&self) -> (k: StakeKey)
        ensures
            k == self.key(),
    {
        StakeKey { balance: self.balance, address: self.staker_address }
    }

    /// The order of two stakes: highest to lowest balance, then by address.
    pub fn cmp(&self, other: &ActiveStake) -> (o: Ordering)
        ensures
            o == ordering_of(self.key(), other.key()),
    {
        proof {
            StakeKey::before_irreflexive(self.key());
            if self.key().before(other.key()) && other.key().before(self.key()) {
                StakeKey::before_transitive(self.key(), other.key(), self.key());
            }
        }
        match self.sort_key().order(&other.sort_key()) {
            KeyOrder::Less => Ordering::Less,
            KeyOrder::Equal => Ordering::Equal,
            KeyOrder::Greater => Ordering::Greater,
        }
    }
}

impl PartialEq for ActiveStake {
    fn eq(&self, other: &ActiveStake) -> (b: bool) {
        self.balance.lunas == other.balance.lunas && self.staker_address.same(
            &other.staker_address,
        )
    }
}

impl vstd::std_specs::cmp::PartialEqSpecImpl for ActiveStake {
    open spec fn obeys_eq_spec() -> bool {
        true
    }

    open spec fn eq_spec(&self, other: &ActiveStake) -> bool {
        self.balance.lunas == other.balance.lunas && self.staker_address == other.staker_address
    }
}

impl Eq for ActiveStake {

}

/// The order of two keys as the standard library writes it.
pub open spec fn ordering_of<K: SortKey>(a: K, b: K) -> Ordering {
    if a == b {
        Ordering::Equal
    } else if a.before(b) {
        Ordering::Less
    } else {
        Ordering::Greater
    }
}

impl PartialOrd for ActiveStake {
    fn partial_cmp(&self, other: &ActiveStake) -> (o: Option<Ordering>) {
        Some(self.cmp(other))
    }
}

impl vstd::std_specs::cmp::PartialOrdSpecImpl for ActiveStake {
    open spec fn obeys_partial_cmp_spec() -> bool {
        true
    }

    open spec fn partial_cmp_spec(&self, other: &ActiveStake) -> Option<Ordering> {
        Some(ordering_of(self.key(), other.key()))
    }
}

/// The order of stakes is total, and agrees with their equality: exactly one of
/// less, equal and greater holds, the two stakes swapped swap less and greater,
/// less chains, and a higher balance comes first.
pub proof fn law_stake_order(a: ActiveStake, b: ActiveStake, c: ActiveStake)
    ensures
        ordering_of(a.key(), b.key()) == Ordering::Equal <==> a.balance == b.balance
            && a.staker_address == b.staker_address,
        ordering_of(a.key(), b.key()) == Ordering::Less <==> ordering_of(b.key(), a.key())
            == Ordering::Greater,
        ordering_of(a.key(), b.key()) == Ordering::Less && ordering_of(b.key(), c.key())
            == Ordering::Less ==> ordering_of(a.key(), c.key()) == Ordering::Less,
        a.balance.lunas > b.balance.lunas ==> ordering_of(a.key(), b.key()) == Ordering::Less,
{
    StakeKey::before_irreflexive(a.key());
    StakeKey::before_total(a.key(), b.key());
    if a.key().before(b.key()) {
        if b.key().before(a.key()) {
            StakeKey::before_transitive(a.key(), b.key(), a.key());
        }
        if b.key().before(c.key()) {
            StakeKey::before_transitive(a.key(), b.key(), c.key());
        }
    }
}

/// Stake that is not considered when validators are selected.
#[derive(Clone, Copy, Debug, PartialEq, Eq)]
pub struct InactiveStake {
    pub balance: Coin,
    pub retire_time: u32,
}

/// What undoes a change to an active stake.
#[derive(Clone, Copy, Debug, PartialEq, Eq)]
pub struct ActiveStakeReceipt {
    pub validator_key: BlsPublicKey,
    pub reward_address: Option<Address>,
}

/// What undoes a change to an inactive stake.
#[derive(Clone, Copy, Debug, PartialEq, Eq)]
pub struct InactiveStakeReceipt {
    pub retire_time: u32,
}

/// The bytes of an active stake.
pub open spec fn active_stake_bytes(s: ActiveStake) -> Seq<u8> {
    s.staker_address.bytes@ + be_bytes(s.balance.lunas as nat, 8) + s.validator_key@
        + opt_address_bytes(s.reward_address)
}

/// An active stake at the front of `s`.
pub open spec fn parse_active_stake(s: Seq<u8>) -> Parsed<ActiveStake> {
    match parse_address(s) {
        Err(e) => Err(e),
        Ok((staker_address, s1)) => match parse_coin(s1) {
            Err(e) => Err(e),
            Ok((balance, s2)) => match parse_key(s2) {
                Err(e) => Err(e),
                Ok((validator_key, s3)) => match parse_opt_address(s3) {
                    Err(e) => Err(e),
                    Ok((reward_address, s4)) => Ok(
                        (
                            ActiveStake { staker_address, balance, validator_key, reward_address },
                            s4,
                        ),
                    ),
                },
            },
        },
    }
}

/// The bytes of an inactive stake.
pub open spec fn inactive_stake_bytes(s: InactiveStake) -> Seq<u8> {
    be_bytes(s.balance.lunas as nat, 8) + be_bytes(s.retire_time as nat, 4)
}

/// An inactive stake at the front of `s`.
pub open spec fn parse_inactive_stake(s: Seq<u8>) -> Parsed<InactiveStake> {
    match parse_coin(s) {
        Err(e) => Err(e),
        Ok((balance, s1)) => match parse_u32(s1) {
            Err(e) => Err(e),
            Ok((retire_time, s2)) => Ok((InactiveStake { balance, retire_time }, s2)),
        },
    }
}

/// The bytes of an inactive stake that may be missing: a tag, then the stake.
pub open spec fn opt_inactive_stake_bytes(s: Option<InactiveStake>) -> Seq<u8> {
    match s {
        Some(s) => seq![1u8] + inactive_stake_bytes(s),
        None => seq![0u8],
    }
}

/// A tag byte, and an inactive stake behind it where the tag is 1.
pub open spec fn parse_opt_inactive_stake(s: Seq<u8>) -> Parsed<Option<InactiveStake>> {
    match parse_u8(s) {
        Err(e) => Err(e),
        Ok((tag, rest)) => if tag == 0 {
            Ok((None, rest))
        } else if tag == 1 {
            match parse_inactive_stake(rest) {
                Err(e) => Err(e),
                Ok((stake, rest1)) => Ok((Some(stake), rest1)),
            }
        } else {
            Err(SerializingError::InvalidValue)
        },
    }
}

/// The bytes of a receipt for an active stake.
pub open spec fn active_receipt_bytes(r: ActiveStakeReceipt) -> Seq<u8> {
    r.validator_key@ + opt_address_bytes(r.reward_address)
}

/// A receipt for an active stake at the front of `s`.
pub open spec fn parse_active_receipt(s: Seq<u8>) -> Parsed<ActiveStakeReceipt> {
    match parse_key(s) {
        Err(e) => Err(e),
        Ok((validator_key, s1)) => match parse_opt_address(s1) {
            Err(e) => Err(e),
            Ok((reward_address, s2)) => Ok(
                (ActiveStakeReceipt { validator_key, reward_address }, s2),
            ),
        },
    }
}

/// The bytes of a receipt for an inactive stake.
pub open spec fn inactive_receipt_bytes(r: InactiveStakeReceipt) -> Seq<u8> {
    be_bytes(r.retire_time as nat, 4)
}

/// A receipt for an inactive stake at the front of `s`.
pub open spec fn parse_inactive_receipt(s: Seq<u8>) -> Parsed<InactiveStakeReceipt> {
    match parse_u32(s) {
        Err(e) => Err(e),
        Ok((retire_time, s1)) => Ok((InactiveStakeReceipt { retire_time }, s1)),
    }
}

impl ActiveStake {
    /// Appends the bytes of the stake, unless its balance cannot be written; the key
    /// is a point of the curve.
    pub fn serialize(&self, out: &mut Vec<u8>) -> (r: Result<(), SerializingError>)
        ensures
            r == writable(self.balance),
            r is Ok ==> final(out)@ == old(out)@ + active_stake_bytes(*self),
            r is Err ==> final(out)@ == old(out)@,
            is_g2_point(self.validator_key@),
    {
        let key = self.validator_key.as_bytes();
        match check_writable(self.balance) {
            Ok(()) => {},
            Err(e) => {
                return Err(e);
            },
        }
        put_bytes(out, &self.staker_address.bytes);
        put_uint(out, self.balance.lunas, 8);
        put_bytes(out, key);
        put_opt_address(out, &self.reward_address);
        assert(out@ =~= old(out)@ + active_stake_bytes(*self));
        Ok(())
    }

    /// Reads a stake.
    pub fn deserialize(c: &mut Cursor) -> (r: Result<ActiveStake, SerializingError>)
        requires
            old(c).wf(),
        ensures
            final(c).wf(),
            final(c).input() == old(c).input(),
            ends_early(parse_active_stake(old(c).rest())) ==> final(c).missing() > 0 && forall|t: Seq<u8>|
                t.len() < final(c).missing() ==> ends_early(
                    #[trigger] parse_active_stake(old(c).rest() + t),
                ),
            match parse_active_stake(old(c).rest()) {
                Ok((v, rest)) => r == Ok::<ActiveStake, SerializingError>(v) && final(c).rest()
                    == rest,
                Err(e) => r == Err::<ActiveStake, SerializingError>(e),
            },
    {
        let ghost s = c.rest();
        let staker_address = match c.read_address() {
            Ok(v) => v,
            Err(e) => {
                return Err(e);
            },
        };
        let ghost s1 = c.rest();
        let balance = match c.read_coin() {
            Ok(v) => v,
            Err(e) => {
                assert forall|t: Seq<u8>|
                    e == SerializingError::UnexpectedEnd && t.len()
                        < c.missing() implies ends_early(
                    #[trigger] parse_active_stake(s + t),
                ) by {
                    lemma_carry_address(s, t);
                }
                return Err(e);
            },
        };
        let ghost s2 = c.rest();
        let validator_key = match read_key(c) {
            Ok(v) => v,
            Err(e) => {
                assert forall|t: Seq<u8>|
                    e == SerializingError::UnexpectedEnd && t.len()
                        < c.missing() implies ends_early(
                    #[trigger] parse_active_stake(s + t),
                ) by {
                    lemma_carry_address(s, t);
                    lemma_carry_coin(s1, t);
                }
                return Err(e);
            },
        };
        let reward_address = match c.read_opt_address() {
            Ok(v) => v,
            Err(e) => {
                assert forall|t: Seq<u8>|
                    e == SerializingError::UnexpectedEnd && t.len()
                        < c.missing() implies ends_early(
                    #[trigger] parse_active_stake(s + t),
                ) by {
                    lemma_carry_address(s, t);
                    lemma_carry_coin(s1, t);
                    lemma_carry_key(s2, t);
                }
                return Err(e);
            },
        };
        Ok(ActiveStake { staker_address, balance, validator_key, reward_address })
    }

    /// The number of bytes that `serialize` appends.
    pub fn serialized_size(&self) -> (n: usize)
        ensures
            n == active_stake_bytes(*self).len(),
    {
        proof {
            lemma_key_bytes(self.validator_key, self.validator_key);
            lemma_be_bytes_len(self.balance.lunas as nat, 8);
        }
        match self.reward_address {
            Some(_) => 145,
            None => 125,
        }
    }
}

impl InactiveStake {
    /// Appends the bytes of the stake, unless its balance cannot be written.
    pub fn serialize(&self, out: &mut Vec<u8>) -> (r: Result<(), SerializingError>)
        ensures
            r == writable(self.balance),
            r is Ok ==> final(out)@ == old(out)@ + inactive_stake_bytes(*self),
            r is Err ==> final(out)@ == old(out)@,
    {
        match check_writable(self.balance) {
            Ok(()) => {},
            Err(e) => {
                return Err(e);
            },
        }
        put_uint(out, self.balance.lunas, 8);
        put_uint(out, self.retire_time as u64, 4);
        assert(out@ =~= old(out)@ + inactive_stake_bytes(*self));
        Ok(())
    }

    /// Reads a stake.
    pub fn deserialize(c: &mut Cursor) -> (r: Result<InactiveStake, SerializingError>)
        requires
            old(c).wf(),
        ensures
            final(c).wf(),
            final(c).input() == old(c).input(),
            ends_early(parse_inactive_stake(old(c).rest())) ==> final(c).missing() > 0 && forall|t: Seq<u8>|
                t.len() < final(c).missing() ==> ends_early(
                    #[trigger] parse_inactive_stake(old(c).rest() + t),
                ),
            match parse_inactive_stake(old(c).rest()) {
                Ok((v, rest)) => r == Ok::<InactiveStake, SerializingError>(v) && final(c).rest()
                    == rest,
                Err(e) => r == Err::<InactiveStake, SerializingError>(e),
            },
    {
        let ghost s = c.rest();
        let balance = match c.read_coin() {
            Ok(v) => v,
            Err(e) => {
                return Err(e);
            },
        };
        match c.read_u32() {
            Ok(retire_time) => Ok(InactiveStake { balance, retire_time }),
            Err(e) => {
                assert forall|t: Seq<u8>|
                    e == SerializingError::UnexpectedEnd && t.len()
                        < c.missing() implies ends_early(
                    #[trigger] parse_inactive_stake(s + t),
                ) by {
                    lemma_carry_coin(s, t);
                }
                Err(e)
            },
        }
    }

    /// The number of bytes that `serialize` appends.
    pub fn serialized_size(&self) -> (n: usize)
        ensures
            n == inactive_stake_bytes(*self).len(),
    {
        proof {
            lemma_inactive_stake_size(*self);
        }
        12
    }

    /// The number of bytes that `serialize_opt` appends.
    pub fn serialized_size_opt(stake: &Option<InactiveStake>) -> (n: usize)
        ensures
            n == opt_inactive_stake_bytes(*stake).len(),
    {
        match stake {
            Some(s) => {
                proof {
                    lemma_inactive_stake_size(*s);
                }
                13
            },
            None => 1,
        }
    }

    /// Appends a tag, and the bytes of the stake if there is one, unless its balance
    /// cannot be written.
    pub fn serialize_opt(stake: &Option<InactiveStake>, out: &mut Vec<u8>) -> (r: Result<
        (),
        SerializingError,
    >)
        ensures
            r == match stake {
                Some(s) => writable(s.balance),
                None => Ok(()),
            },
            r is Ok ==> final(out)@ == old(out)@ + opt_inactive_stake_bytes(*stake),
            r is Err ==> final(out)@ == old(out)@,
    {
        match stake {
            Some(s) => {
                match check_writable(s.balance) {
                    Ok(()) => {},
                    Err(e) => {
                        return Err(e);
                    },
                }
                out.push(1u8);
                let r = s.serialize(out);
                assert(out@ =~= old(out)@ + opt_inactive_stake_bytes(*stake));
                r
            },
            None => {
                out.push(0u8);
                assert(out@ =~= old(out)@ + opt_inactive_stake_bytes(*stake));
                Ok(())
            },
        }
    }

    /// Reads a stake that may be missing.
    pub fn deserialize_opt(c: &mut Cursor) -> (r: Result<Option<InactiveStake>, SerializingError>)
        requires
            old(c).wf(),
        ensures
            final(c).wf(),
            final(c).input() == old(c).input(),
            ends_early(parse_opt_inactive_stake(old(c).rest())) ==> final(c).missing() > 0 && forall|t: Seq<u8>|
                t.len() < final(c).missing() ==> ends_early(
                    #[trigger] parse_opt_inactive_stake(old(c).rest() + t),
                ),
            match parse_opt_inactive_stake(old(c).rest()) {
                Ok((v, rest)) => r == Ok::<Option<InactiveStake>, SerializingError>(v)
                    && final(c).rest() == rest,
                Err(e) => r == Err::<Option<InactiveStake>, SerializingError>(e),
            },
    {
        let ghost s = c.rest();
        let tag: u8 = match c.read_u8() {
            Ok(tag) => tag,
            Err(e) => {
                return Err(e);
            },
        };
        if tag == 0 {
            Ok(None)
        } else if tag == 1 {
            match InactiveStake::deserialize(c) {
                Ok(stake) => Ok(Some(stake)),
                Err(e) => {
                    assert forall|t: Seq<u8>|
                        e == SerializingError::UnexpectedEnd && t.len()
                            < c.missing() implies ends_early(
                        #[trigger] parse_opt_inactive_stake(s + t),
                    ) by {
                        lemma_carry_u8(s, t);
                    }
                    Err(e)
                },
            }
        } else {
            Err(SerializingError::InvalidValue)
        }
    }
}

impl ActiveStakeReceipt {
    /// The bytes of the receipt; the key among them is a point of the curve.
    pub fn serialize_to_vec(&self) -> (out: Vec<u8>)
        ensures
            out@ == active_receipt_bytes(*self),
            is_g2_point(self.validator_key@),
    {
        let mut out: Vec<u8> = Vec::new();
        put_bytes(&mut out, self.validator_key.as_bytes());
        put_opt_address(&mut out, &self.reward_address);
        assert(out@ =~= active_receipt_bytes(*self));
        out
    }

    /// The number of bytes that `serialize_to_vec` returns.
    pub fn serialized_size(&self) -> (n: usize)
        ensures
            n == active_receipt_bytes(*self).len(),
    {
        proof {
            lemma_key_bytes(self.validator_key, self.validator_key);
        }
        match self.reward_address {
            Some(_) => 117,
            None => 97,
        }
    }

    /// Reads a receipt.
    pub fn read(c: &mut Cursor) -> (r: Result<ActiveStakeReceipt, SerializingError>)
        requires
            old(c).wf(),
        ensures
            final(c).wf(),
            final(c).input() == old(c).input(),
            ends_early(parse_active_receipt(old(c).rest())) ==> final(c).missing() > 0
                && forall|t: Seq<u8>|
                t.len() < final(c).missing() ==> ends_early(
                    #[trigger] parse_active_receipt(old(c).rest() + t),
                ),
            match parse_active_receipt(old(c).rest()) {
                Ok((v, rest)) => r == Ok::<ActiveStakeReceipt, SerializingError>(v)
                    && final(c).rest() == rest,
                Err(e) => r == Err::<ActiveStakeReceipt, SerializingError>(e),
            },
    {
        let ghost s = c.rest();
        let validator_key = match read_key(c) {
            Ok(v) => v,
            Err(e) => {
                return Err(e);
            },
        };
        match c.read_opt_address() {
            Ok(reward_address) => Ok(ActiveStakeReceipt { validator_key, reward_address }),
            Err(e) => {
                assert forall|t: Seq<u8>|
                    e == SerializingError::UnexpectedEnd && t.len()
                        < c.missing() implies ends_early(
                    #[trigger] parse_active_receipt(s + t),
                ) by {
                    lemma_carry_key(s, t);
                }
                Err(e)
            },
        }
    }

    /// Reads a receipt from the front of `bytes`.
    pub fn deserialize(bytes: &[u8]) -> (r: Result<ActiveStakeReceipt, SerializingError>)
        ensures
            match parse_active_receipt(bytes@) {
                Ok((v, _)) => r == Ok::<ActiveStakeReceipt, SerializingError>(v),
                Err(e) => r == Err::<ActiveStakeReceipt, SerializingError>(e),
            },
    {
        let mut c = Cursor::new(bytes);
        ActiveStakeReceipt::read(&mut c)
    }

    /// How many bytes are still to come where `bytes` are the beginning of a receipt,
    /// before anything more can be said of it. None, if the bytes hold a receipt or
    /// cannot become one.
    pub fn wanted(bytes: &[u8]) -> (n: usize)
        ensures
            n > 0 <==> ends_early(parse_active_receipt(bytes@)),
            forall|t: Seq<u8>|
                t.len() < n ==> ends_early(#[trigger] parse_active_receipt(bytes@ + t)),
    {
        let mut c = Cursor::new(bytes);
        match ActiveStakeReceipt::read(&mut c) {
            Err(SerializingError::UnexpectedEnd) => c.lacked(),
            _ => 0,
        }
    }
}

impl InactiveStakeReceipt {
    /// The bytes of the receipt.
    pub fn serialize_to_vec(&self) -> (out: Vec<u8>)
        ensures
            out@ == inactive_receipt_bytes(*self),
    {
        let mut out: Vec<u8> = Vec::new();
        put_uint(&mut out, self.retire_time as u64, 4);
        assert(out@ =~= inactive_receipt_bytes(*self));
        out
    }

    /// The number of bytes that `serialize_to_vec` returns.
    pub fn serialized_size(&self) -> (n: usize)
        ensures
            n == inactive_receipt_bytes(*self).len(),
    {
        proof {
            lemma_be_bytes_len(self.retire_time as nat, 4);
        }
        4
    }

    /// Reads a receipt from the front of `bytes`.
    pub fn deserialize(bytes: &[u8]) -> (r: Result<InactiveStakeReceipt, SerializingError>)
        ensures
            match parse_inactive_receipt(bytes@) {
                Ok((v, _)) => r == Ok::<InactiveStakeReceipt, SerializingError>(v),
                Err(e) => r == Err::<InactiveStakeReceipt, SerializingError>(e),
            },
    {
        let mut c = Cursor::new(bytes);
        match c.read_u32() {
            Ok(retire_time) => Ok(InactiveStakeReceipt { retire_time }),
            Err(e) => Err(e),
        }
    }
}

/// Bytes behind the input do not change what is read of it.
pub proof fn lemma_carry_active_stake(s: Seq<u8>, t: Seq<u8>)
    ensures
        carried(parse_active_stake(s), parse_active_stake(s + t), t),
{
    lemma_carry_address(s, t);
    if let Ok((_, s1)) = parse_address(s) {
        lemma_carry_coin(s1, t);
        if let Ok((_, s2)) = parse_coin(s1) {
            lemma_carry_key(s2, t);
            if let Ok((_, s3)) = parse_key(s2) {
                lemma_carry_opt_address(s3, t);
            }
        }
    }
}

/// Bytes behind the input do not change what is read of it.
pub proof fn lemma_carry_inactive_stake(s: Seq<u8>, t: Seq<u8>)
    ensures
        carried(parse_inactive_stake(s), parse_inactive_stake(s + t), t),
{
    lemma_carry_coin(s, t);
    if let Ok((_, s1)) = parse_coin(s) {
        lemma_carry_u32(s1, t);
    }
}

/// Bytes behind the input do not change what is read of it.
pub proof fn lemma_carry_opt_inactive_stake(s: Seq<u8>, t: Seq<u8>)
    ensures
        carried(parse_opt_inactive_stake(s), parse_opt_inactive_stake(s + t), t),
{
    lemma_carry_u8(s, t);
    if let Ok((_, s1)) = parse_u8(s) {
        lemma_carry_inactive_stake(s1, t);
    }
}

/// Bytes behind the input do not change what is read of it.
pub proof fn lemma_carry_active_receipt(s: Seq<u8>, t: Seq<u8>)
    ensures
        carried(parse_active_receipt(s), parse_active_receipt(s + t), t),
{
    lemma_carry_key(s, t);
    if let Ok((_, s1)) = parse_key(s) {
        lemma_carry_opt_address(s1, t);
    }
}

/// An inactive stake takes twelve bytes.
pub proof fn lemma_inactive_stake_size(s: InactiveStake)
    ensures
        inactive_stake_bytes(s).len() == 12,
{
    lemma_be_bytes_len(s.balance.lunas as nat, 8);
    lemma_be_bytes_len(s.retire_time as nat, 4);
}

/// Reading an amount gives back the one written.
pub proof fn lemma_parse_coin_written(v: Coin, tail: Seq<u8>)
    requires
        v.lunas <= MAX_SAFE_VALUE,
    ensures
        parse_coin(be_bytes(v.lunas as nat, 8) + tail) == Ok::<(Coin, Seq<u8>), SerializingError>(
            (v, tail),
        ),
{
    lemma_pow256();
    lemma_parse_uint_written(v.lunas as nat, 8, tail);
}

/// Reading a four-byte number gives back the one written.
pub proof fn lemma_parse_u32_written(v: u32, tail: Seq<u8>)
    ensures
        parse_u32(be_bytes(v as nat, 4) + tail) == Ok::<(u32, Seq<u8>), SerializingError>(
            (v, tail),
        ),
{
    lemma_pow256();
    lemma_parse_uint_written(v as nat, 4, tail);
}

/// Reading a key gives back the one written.
pub proof fn lemma_parse_key_written(k: BlsPublicKey, tail: Seq<u8>)
    ensures
        is_g2_point(k@) ==> parse_key(k@ + tail) == Ok::<
            (BlsPublicKey, Seq<u8>),
            SerializingError,
        >((k, tail)),
{
    lemma_key_bytes(k, k);
    lemma_parse_bytes_written(k@, tail);
    lemma_key_of(k);
}

/// Reading an active stake gives back the one written.
pub proof fn lemma_parse_active_stake_written(s: ActiveStake, tail: Seq<u8>)
    requires
        s.balance.lunas <= MAX_SAFE_VALUE,
    ensures
        is_g2_point(s.validator_key@) ==> parse_active_stake(active_stake_bytes(s) + tail) == Ok::<
            (ActiveStake, Seq<u8>),
            SerializingError,
        >((s, tail)),
{
    let t3 = opt_address_bytes(s.reward_address) + tail;
    let t2 = s.validator_key@ + t3;
    let t1 = be_bytes(s.balance.lunas as nat, 8) + t2;
    assert(active_stake_bytes(s) + tail =~= s.staker_address.bytes@ + t1);
    lemma_parse_bytes_written(s.staker_address.bytes@, t1);
    crate::codec::lemma_address_of(s.staker_address);
    lemma_parse_coin_written(s.balance, t2);
    lemma_parse_key_written(s.validator_key, t3);
    lemma_parse_opt_address_written(s.reward_address, tail);
}

/// Reading an inactive stake gives back the one written.
pub proof fn lemma_parse_inactive_stake_written(s: InactiveStake, tail: Seq<u8>)
    requires
        s.balance.lunas <= MAX_SAFE_VALUE,
    ensures
        parse_inactive_stake(inactive_stake_bytes(s) + tail) == Ok::<
            (InactiveStake, Seq<u8>),
            SerializingError,
        >((s, tail)),
{
    let t1 = be_bytes(s.retire_time as nat, 4) + tail;
    assert(inactive_stake_bytes(s) + tail =~= be_bytes(s.balance.lunas as nat, 8) + t1);
    lemma_parse_coin_written(s.balance, t1);
    lemma_parse_u32_written(s.retire_time, tail);
}

/// Reading an inactive stake that may be missing gives back what was written.
pub proof fn lemma_parse_opt_inactive_stake_written(s: Option<InactiveStake>, tail: Seq<u8>)
    requires
        s matches Some(s) ==> s.balance.lunas <= MAX_SAFE_VALUE,
    ensures
        parse_opt_inactive_stake(opt_inactive_stake_bytes(s) + tail) == Ok::<
            (Option<InactiveStake>, Seq<u8>),
            SerializingError,
        >((s, tail)),
{
    match s {
        Some(x) => {
            let t1 = inactive_stake_bytes(x) + tail;
            assert(opt_inactive_stake_bytes(s) + tail =~= seq![1u8] + t1);
            lemma_parse_bytes_written(seq![1u8], t1);
            lemma_parse_inactive_stake_written(x, tail);
        },
        None => {
            lemma_parse_bytes_written(seq![0u8], tail);
        },
    }
}

/// A receipt for an active stake survives being written and read, whatever
/// stands behind it.
pub proof fn law_active_receipt_round_trip(r: ActiveStakeReceipt, tail: Seq<u8>)
    ensures
        is_g2_point(r.validator_key@) ==> parse_active_receipt(active_receipt_bytes(r) + tail)
            == Ok::<(ActiveStakeReceipt, Seq<u8>), SerializingError>((r, tail)),
{
    let t1 = opt_address_bytes(r.reward_address) + tail;
    assert(active_receipt_bytes(r) + tail =~= r.validator_key@ + t1);
    lemma_parse_key_written(r.validator_key, t1);
    lemma_parse_opt_address_written(r.reward_address, tail);
}

/// A receipt for an inactive stake survives being written and read, whatever
/// stands behind it.
pub proof fn law_inactive_receipt_round_trip(r: InactiveStakeReceipt, tail: Seq<u8>)
    ensures
        parse_inactive_receipt(inactive_receipt_bytes(r) + tail) == Ok::<
            (InactiveStakeReceipt, Seq<u8>),
            SerializingError,
        >((r, tail)),
{
    lemma_parse_u32_written(r.retire_time, tail);
}

/// No part of a receipt for an active stake that lacks its end is taken for one.
pub proof fn law_active_receipt_cut(r: ActiveStakeReceipt, k: int)
    requires
        0 <= k < active_receipt_bytes(r).len(),
    ensures
        is_g2_point(r.validator_key@) ==> ends_early(
            parse_active_receipt(active_receipt_bytes(r).take(k)),
        ),
{
    let b = active_receipt_bytes(r);
    law_active_receipt_round_trip(r, Seq::empty());
    assert(b + Seq::<u8>::empty() =~= b);
    assert(b.take(k) + b.skip(k) =~= b);
    lemma_carry_active_receipt(b.take(k), b.skip(k));
}

/// No part of a receipt for an inactive stake that lacks its end is taken for one.
pub proof fn law_inactive_receipt_cut(r: InactiveStakeReceipt, k: int)
    requires
        0 <= k < inactive_receipt_bytes(r).len(),
    ensures
        ends_early(parse_inactive_receipt(inactive_receipt_bytes(r).take(k))),
{
    lemma_be_bytes_len(r.retire_time as nat, 4);
}

} // verus!
