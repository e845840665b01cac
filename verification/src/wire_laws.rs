//! Where everything stands in the bytes that are written and read, by position.

use crate::address::Address;
use crate::bls::{is_g2_point, lemma_key_bytes, lemma_key_of};
use crate::codec::{
    be_bytes, be_value, lemma_address_of, lemma_be_bytes_len, lemma_be_value_bound,
    lemma_be_value_of_bytes, lemma_pow256, opt_address_bytes, parse_address, parse_coin,
    parse_opt_address, parse_u16, parse_u32,
};
use crate::coin::Coin;
use crate::contract_codec::{entry_bytes, pair_bytes, parse_entry, parse_pair};
use crate::error::SerializingError;
use crate::slots_codec::{
    lemma_lazy_key_of, parse_slot, parse_slot_list, parse_slots, parse_validator,
    slot_bytes, slot_list_bytes, slots_bytes, validator_bytes,
};
use crate::stake::{
    active_receipt_bytes, active_stake_bytes, inactive_receipt_bytes, inactive_stake_bytes,
    opt_inactive_stake_bytes, parse_active_receipt, parse_active_stake, parse_inactive_receipt,
    parse_inactive_stake, parse_opt_inactive_stake, ActiveStake, ActiveStakeReceipt,
    InactiveStake, InactiveStakeReceipt,
};
use crate::validators::{Slot, Validator};
use vstd::prelude::*;

verus! {

/// Reading a two-byte number, a four-byte number or an amount takes exactly its bytes.
/// It fails where these are too few, and an amount also where it is over the greatest
/// safe one.
pub proof fn law_numbers_read(s: Seq<u8>)
    ensures
        s.len() < 2 ==> parse_u16(s) == Err::<(u16, Seq<u8>), SerializingError>(
            SerializingError::UnexpectedEnd,
        ),
        s.len() >= 2 ==> parse_u16(s) is Ok && parse_u16(s)->Ok_0.0 == 256 * s[0] + s[1]
            && parse_u16(s)->Ok_0.1 == s.skip(2),
        s.len() < 4 ==> parse_u32(s) == Err::<(u32, Seq<u8>), SerializingError>(
            SerializingError::UnexpectedEnd,
        ),
        s.len() >= 4 ==> parse_u32(s) is Ok && parse_u32(s)->Ok_0.0 == 0x100_0000 * s[0] + 0x1_0000
            * s[1] + 0x100 * s[2] + s[3] && parse_u32(s)->Ok_0.1 == s.skip(4),
        s.len() < 8 ==> parse_coin(s) == Err::<(Coin, Seq<u8>), SerializingError>(
            SerializingError::UnexpectedEnd,
        ),
        s.len() >= 8 && be_value(s.take(8)) > 9007199254740991 ==> parse_coin(s) == Err::<
            (Coin, Seq<u8>),
            SerializingError,
        >(SerializingError::Overflow),
        s.len() >= 8 && be_value(s.take(8)) <= 9007199254740991 ==> parse_coin(s) is Ok
            && parse_coin(s)->Ok_0.0.lunas == be_value(s.take(8)) && parse_coin(s)->Ok_0.1
            == s.skip(8),
{
    lemma_pow256();
    if s.len() >= 2 {
        lemma_be_value_bound(s.take(2));
        reveal_with_fuel(be_value, 3);
    }
    if s.len() >= 4 {
        lemma_be_value_bound(s.take(4));
        lemma_four_bytes(s.take(4));
    }
}

/// Four bytes written out.
proof fn lemma_four_bytes(s: Seq<u8>)
    requires
        s.len() == 4,
    ensures
        be_value(s) == 0x100_0000 * s[0] + 0x1_0000 * s[1] + 0x100 * s[2] + s[3],
{
    reveal_with_fuel(be_value, 5);
}

/// Reading an address takes 20 bytes. Reading one that may be missing takes a byte that
/// is 0 where it is missing and 1 where it follows; no other byte is accepted.
pub proof fn law_addresses_read(s: Seq<u8>, a: Address)
    ensures
        s.len() < 20 ==> parse_address(s) == Err::<(Address, Seq<u8>), SerializingError>(
            SerializingError::UnexpectedEnd,
        ),
        s.len() >= 20 && s.take(20) == a.bytes@ ==> parse_address(s) == Ok::<
            (Address, Seq<u8>),
            SerializingError,
        >((a, s.skip(20))),
        s.len() >= 20 ==> parse_address(s) is Ok && parse_address(s)->Ok_0.1 == s.skip(20),
        s.len() == 0 || (s[0] == 1 && s.len() < 21) ==> parse_opt_address(s) == Err::<
            (Option<Address>, Seq<u8>),
            SerializingError,
        >(SerializingError::UnexpectedEnd),
        s.len() > 0 && s[0] > 1 ==> parse_opt_address(s) == Err::<
            (Option<Address>, Seq<u8>),
            SerializingError,
        >(SerializingError::InvalidValue),
        s.len() > 0 && s[0] == 0 ==> parse_opt_address(s) == Ok::<
            (Option<Address>, Seq<u8>),
            SerializingError,
        >((None, s.skip(1))),
        s.len() >= 21 && s[0] == 1 && s.subrange(1, 21) == a.bytes@ ==> parse_opt_address(s)
            == Ok::<(Option<Address>, Seq<u8>), SerializingError>((Some(a), s.skip(21))),
        s.len() >= 21 && s[0] == 1 ==> parse_opt_address(s) is Ok && parse_opt_address(s)->Ok_0.0
            is Some && parse_opt_address(s)->Ok_0.1 == s.skip(21),
{
    lemma_address_of(a);
    if s.len() > 0 {
        assert(s.take(1)[0] == s[0]);
        if s.len() >= 21 {
            assert(s.skip(1).take(20) =~= s.subrange(1, 21));
            assert(s.skip(1).skip(20) =~= s.skip(21));
        }
    }
}

/// An address that may be missing is written as a byte that tells, 1 or 0, and the
/// address where there is one.
pub proof fn law_opt_address_bytes(a: Option<Address>)
    ensures
        a is None ==> opt_address_bytes(a) == seq![0u8],
        a matches Some(x) ==> opt_address_bytes(a).len() == 21 && opt_address_bytes(a)[0] == 1
            && opt_address_bytes(a).subrange(1, 21) == x.bytes@,
{
    if let Some(x) = a {
        assert(opt_address_bytes(a).subrange(1, 21) =~= x.bytes@);
    }
}

/// An active stake in bytes: 20 for the address of the staker, 8 that spell the balance,
/// 96 for the key, one that tells whether a reward address follows, and that address.
pub proof fn law_active_stake_bytes(v: ActiveStake)
    ensures
        ({
            let b = active_stake_bytes(v);
            &&& b.len() == if v.reward_address is Some {
                145int
            } else {
                125int
            }
            &&& b.subrange(0, 20) == v.staker_address.bytes@
            &&& be_value(b.subrange(20, 28)) == v.balance.lunas
            &&& b.subrange(28, 124) == v.validator_key@
            &&& v.reward_address is None ==> b[124] == 0
            &&& v.reward_address matches Some(a) ==> b[124] == 1 && b.subrange(125, 145) == a.bytes@
        }),
{
    let b = active_stake_bytes(v);
    let n = be_bytes(v.balance.lunas as nat, 8);
    lemma_key_bytes(v.validator_key, v.validator_key);
    lemma_number_back(v.balance.lunas as nat, 8);
    law_opt_address_bytes(v.reward_address);
    assert(b.subrange(0, 20) =~= v.staker_address.bytes@);
    assert(b.subrange(20, 28) =~= n);
    assert(b.subrange(28, 124) =~= v.validator_key@);
    if let Some(a) = v.reward_address {
        assert(b.subrange(125, 145) =~= a.bytes@);
    }
}

/// A number that fits is spelled by its bytes.
proof fn lemma_number_back(v: nat, n: nat)
    requires
        n == 2 && v < 0x1_0000 || n == 4 && v < 0x1_0000_0000 || n == 8 && v
            < 0x1_0000_0000_0000_0000,
    ensures
        be_bytes(v, n).len() == n,
        be_value(be_bytes(v, n)) == v,
{
    lemma_pow256();
    lemma_be_bytes_len(v, n);
    lemma_be_value_of_bytes(v, n);
}

/// Reading an active stake, by position: it fails at the first part that is missing or
/// not acceptable, and else it gives the stake whose parts stand there and leaves what
/// comes behind.
pub proof fn law_active_stake_read(s: Seq<u8>, v: ActiveStake)
    ensures
        ({
            let r = parse_active_stake(s);
            let safe = be_value(s.subrange(20, 28)) <= 9007199254740991;
            let point = is_g2_point(s.subrange(28, 124));
            let end = Err::<(ActiveStake, Seq<u8>), SerializingError>(
                SerializingError::UnexpectedEnd,
            );
            let invalid = Err::<(ActiveStake, Seq<u8>), SerializingError>(
                SerializingError::InvalidValue,
            );
            &&& s.len() < 28 ==> r == end
            &&& s.len() >= 28 && !safe ==> r == Err::<(ActiveStake, Seq<u8>), SerializingError>(
                SerializingError::Overflow,
            )
            &&& 28 <= s.len() < 124 && safe ==> r == end
            &&& s.len() >= 124 && safe && !point ==> r == invalid
            &&& s.len() == 124 && safe && point ==> r == end
            &&& s.len() > 124 && safe && point && s[124] > 1 ==> r == invalid
            &&& 124 < s.len() < 145 && safe && point && s[124] == 1 ==> r == end
            &&& s.len() > 124 && safe && point && (s[124] == 0 || s[124] == 1 && s.len() >= 145) && {
                &&& s.subrange(0, 20) == v.staker_address.bytes@
                &&& be_value(s.subrange(20, 28)) == v.balance.lunas
                &&& s.subrange(28, 124) == v.validator_key@
                &&& s[124] == 0 ==> v.reward_address is None
                &&& s[124] == 1 ==> (v.reward_address matches Some(a) && s.subrange(125, 145)
                    == a.bytes@)
            } ==> r == Ok::<(ActiveStake, Seq<u8>), SerializingError>(
                (
                    v,
                    s.skip(
                        if s[124] == 1 {
                            145int
                        } else {
                            125int
                        },
                    ),
                ),
            )
            &&& r is Ok ==> s.len() > 124 && safe && point && (s[124] == 0 || s[124] == 1 && s.len()
                >= 145)
        }),
{
    lemma_address_of(v.staker_address);
    lemma_key_of(v.validator_key);
    law_addresses_read(s, v.staker_address);
    if s.len() >= 20 {
        assert(s.subrange(0, 20) =~= s.take(20));
        law_numbers_read(s.skip(20));
        if s.len() >= 28 {
            assert(s.skip(20).take(8) =~= s.subrange(20, 28));
            assert(s.skip(20).skip(8) =~= s.skip(28));
            if s.len() >= 124 {
                assert(s.skip(28).take(96) =~= s.subrange(28, 124));
                assert(s.skip(28).skip(96) =~= s.skip(124));
                lemma_opt_address_at(s, 124, v.reward_address);
            }
        }
    }
}

/// Reading an address that may be missing, from place `p` on.
proof fn lemma_opt_address_at(s: Seq<u8>, p: int, a: Option<Address>)
    requires
        0 <= p <= s.len(),
    ensures
        ({
            let r = parse_opt_address(s.skip(p));
            &&& s.len() == p ==> r is Err && r->Err_0 == SerializingError::UnexpectedEnd
            &&& s.len() > p && s[p] > 1 ==> r is Err && r->Err_0 == SerializingError::InvalidValue
            &&& p < s.len() < p + 21 && s[p] == 1 ==> r is Err && r->Err_0
                == SerializingError::UnexpectedEnd
            &&& s.len() > p && s[p] == 0 ==> r is Ok && r->Ok_0.0 is None && r->Ok_0.1 == s.skip(
                p + 1,
            )
            &&& s.len() >= p + 21 && s[p] == 1 ==> r is Ok && r->Ok_0.0 is Some && r->Ok_0.1
                == s.skip(p + 21)
            &&& s.len() >= p + 21 && s[p] == 1 && (a matches Some(x) && s.subrange(p + 1, p + 21)
                == x.bytes@) ==> r->Ok_0.0 == a
        }),
{
    let t = s.skip(p);
    let x = match a {
        Some(x) => x,
        None => arbitrary(),
    };
    law_addresses_read(t, x);
    if s.len() > p {
        assert(t[0] == s[p]);
        assert(t.skip(1) =~= s.skip(p + 1));
    }
    if s.len() >= p + 21 {
        assert(t.subrange(1, 21) =~= s.subrange(p + 1, p + 21));
        assert(t.skip(21) =~= s.skip(p + 21));
    }
}

/// An inactive stake in bytes: 8 that spell the balance, 4 that spell the time. One that
/// may be missing has a byte in front that tells.
pub proof fn law_inactive_stake_bytes(v: InactiveStake)
    ensures
        ({
            let b = inactive_stake_bytes(v);
            let o = opt_inactive_stake_bytes(Some(v));
            &&& b.len() == 12
            &&& be_value(b.subrange(0, 8)) == v.balance.lunas
            &&& be_value(b.subrange(8, 12)) == v.retire_time
            &&& opt_inactive_stake_bytes(None) == seq![0u8]
            &&& o.len() == 13 && o[0] == 1 && o.subrange(1, 13) == b
        }),
{
    let b = inactive_stake_bytes(v);
    let o = opt_inactive_stake_bytes(Some(v));
    lemma_number_back(v.balance.lunas as nat, 8);
    lemma_number_back(v.retire_time as nat, 4);
    assert(b.subrange(0, 8) =~= be_bytes(v.balance.lunas as nat, 8));
    assert(b.subrange(8, 12) =~= be_bytes(v.retire_time as nat, 4));
    assert(o.subrange(1, 13) =~= b);
}

/// Reading an inactive stake, by position.
pub proof fn law_inactive_stake_read(s: Seq<u8>)
    ensures
        ({
            let r = parse_inactive_stake(s);
            let safe = be_value(s.subrange(0, 8)) <= 9007199254740991;
            &&& s.len() < 8 ==> r is Err && r->Err_0 == SerializingError::UnexpectedEnd
            &&& s.len() >= 8 && !safe ==> r is Err && r->Err_0 == SerializingError::Overflow
            &&& 8 <= s.len() < 12 && safe ==> r is Err && r->Err_0
                == SerializingError::UnexpectedEnd
            &&& s.len() >= 12 && safe ==> r is Ok && r->Ok_0.0.balance.lunas == be_value(
                s.subrange(0, 8),
            ) && r->Ok_0.0.retire_time == be_value(s.subrange(8, 12)) && r->Ok_0.1 == s.skip(12)
        }),
        ({
            let r = parse_opt_inactive_stake(s);
            let safe = be_value(s.subrange(1, 9)) <= 9007199254740991;
            &&& s.len() == 0 ==> r is Err && r->Err_0 == SerializingError::UnexpectedEnd
            &&& s.len() > 0 && s[0] > 1 ==> r is Err && r->Err_0 == SerializingError::InvalidValue
            &&& s.len() > 0 && s[0] == 0 ==> r is Ok && r->Ok_0.0 is None && r->Ok_0.1 == s.skip(1)
            &&& 0 < s.len() < 9 && s[0] == 1 ==> r is Err && r->Err_0
                == SerializingError::UnexpectedEnd
            &&& s.len() >= 9 && s[0] == 1 && !safe ==> r is Err && r->Err_0
                == SerializingError::Overflow
            &&& 9 <= s.len() < 13 && s[0] == 1 && safe ==> r is Err && r->Err_0
                == SerializingError::UnexpectedEnd
            &&& s.len() >= 13 && s[0] == 1 && safe ==> r is Ok && (r->Ok_0.0 matches Some(v) && {
                &&& v.balance.lunas == be_value(s.subrange(1, 9))
                &&& v.retire_time == be_value(s.subrange(9, 13))
            }) && r->Ok_0.1 == s.skip(13)
        }),
{
    lemma_inactive_stake_at(s, 0);
    assert(s.skip(0) =~= s);
    if s.len() > 0 {
        assert(s.take(1)[0] == s[0]);
        lemma_inactive_stake_at(s, 1);
    }
}

/// Reading an inactive stake from place `p` on.
proof fn lemma_inactive_stake_at(s: Seq<u8>, p: int)
    requires
        0 <= p <= s.len(),
    ensures
        ({
            let r = parse_inactive_stake(s.skip(p));
            let safe = be_value(s.subrange(p, p + 8)) <= 9007199254740991;
            &&& s.len() < p + 8 ==> r is Err && r->Err_0 == SerializingError::UnexpectedEnd
            &&& s.len() >= p + 8 && !safe ==> r is Err && r->Err_0 == SerializingError::Overflow
            &&& p + 8 <= s.len() < p + 12 && safe ==> r is Err && r->Err_0
                == SerializingError::UnexpectedEnd
            &&& s.len() >= p + 12 && safe ==> r is Ok && r->Ok_0.0.balance.lunas == be_value(
                s.subrange(p, p + 8),
            ) && r->Ok_0.0.retire_time == be_value(s.subrange(p + 8, p + 12)) && r->Ok_0.1
                == s.skip(p + 12)
        }),
{
    let t = s.skip(p);
    law_numbers_read(t);
    if s.len() >= p + 8 {
        assert(t.take(8) =~= s.subrange(p, p + 8));
        assert(t.skip(8) =~= s.skip(p + 8));
        law_numbers_read(s.skip(p + 8));
        if s.len() >= p + 12 {
            let u = s.skip(p + 8);
            assert(u.take(4) =~= s.subrange(p + 8, p + 12));
            assert(u.skip(4) =~= s.skip(p + 12));
            lemma_four_bytes(u.take(4));
            assert(u.take(4)[0] == u[0] && u.take(4)[1] == u[1] && u.take(4)[2] == u[2] && u.take(
                4,
            )[3] == u[3]);
        }
    }
}

/// A receipt for an active stake in bytes: 96 for the key, one that tells whether a
/// reward address follows, and that address. One for an inactive stake is 4 bytes that
/// spell the time.
pub proof fn law_receipt_bytes(v: ActiveStakeReceipt, w: InactiveStakeReceipt)
    ensures
        ({
            let b = active_receipt_bytes(v);
            &&& b.len() == if v.reward_address is Some {
                117int
            } else {
                97int
            }
            &&& b.subrange(0, 96) == v.validator_key@
            &&& v.reward_address is None ==> b[96] == 0
            &&& v.reward_address matches Some(a) ==> b[96] == 1 && b.subrange(97, 117) == a.bytes@
        }),
        inactive_receipt_bytes(w).len() == 4,
        be_value(inactive_receipt_bytes(w)) == w.retire_time,
{
    let b = active_receipt_bytes(v);
    lemma_key_bytes(v.validator_key, v.validator_key);
    law_opt_address_bytes(v.reward_address);
    lemma_number_back(w.retire_time as nat, 4);
    assert(b.subrange(0, 96) =~= v.validator_key@);
    if let Some(a) = v.reward_address {
        assert(b.subrange(97, 117) =~= a.bytes@);
    }
}

/// Reading a receipt, by position.
pub proof fn law_receipts_read(s: Seq<u8>, v: ActiveStakeReceipt)
    ensures
        ({
            let r = parse_active_receipt(s);
            let point = is_g2_point(s.subrange(0, 96));
            &&& s.len() < 96 ==> r is Err && r->Err_0 == SerializingError::UnexpectedEnd
            &&& s.len() >= 96 && !point ==> r is Err && r->Err_0 == SerializingError::InvalidValue
            &&& s.len() == 96 && point ==> r is Err && r->Err_0 == SerializingError::UnexpectedEnd
            &&& s.len() > 96 && point && s[96] > 1 ==> r is Err && r->Err_0
                == SerializingError::InvalidValue
            &&& 96 < s.len() < 117 && point && s[96] == 1 ==> r is Err && r->Err_0
                == SerializingError::UnexpectedEnd
            &&& s.len() > 96 && point && s[96] == 0 && s.subrange(0, 96) == v.validator_key@
                && v.reward_address is None ==> r == Ok::<
                (ActiveStakeReceipt, Seq<u8>),
                SerializingError,
            >((v, s.skip(97)))
            &&& s.len() >= 117 && point && s[96] == 1 && s.subrange(0, 96) == v.validator_key@ && (
            v.reward_address matches Some(a) && s.subrange(97, 117) == a.bytes@) ==> r == Ok::<
                (ActiveStakeReceipt, Seq<u8>),
                SerializingError,
            >((v, s.skip(117)))
        }),
        ({
            let r = parse_inactive_receipt(s);
            &&& s.len() < 4 ==> r is Err && r->Err_0 == SerializingError::UnexpectedEnd
            &&& s.len() >= 4 ==> r is Ok && r->Ok_0.0.retire_time == 0x100_0000 * s[0] + 0x1_0000
                * s[1] + 0x100 * s[2] + s[3] && r->Ok_0.1 == s.skip(4)
        }),
{
    lemma_key_of(v.validator_key);
    law_numbers_read(s);
    if s.len() >= 96 {
        assert(s.subrange(0, 96) =~= s.take(96));
        lemma_opt_address_at(s, 96, v.reward_address);
    }
}

/// A slot in bytes: 96 for the key, one that tells whether a reward address follows,
/// that address, and 20 for the address of the staker.
pub proof fn law_slot_bytes(v: Slot)
    ensures
        ({
            let b = slot_bytes(v);
            &&& b.subrange(0, 96) == v.public_key.compressed@
            &&& v.reward_address_opt is None ==> b.len() == 117 && b[96] == 0 && b.subrange(
                97,
                117,
            ) == v.staker_address.bytes@
            &&& v.reward_address_opt matches Some(a) ==> b.len() == 137 && b[96] == 1
                && b.subrange(97, 117) == a.bytes@ && b.subrange(117, 137)
                == v.staker_address.bytes@
        }),
{
    let b = slot_bytes(v);
    law_opt_address_bytes(v.reward_address_opt);
    assert(b.subrange(0, 96) =~= v.public_key.compressed@);
    match v.reward_address_opt {
        Some(a) => {
            assert(b.subrange(97, 117) =~= a.bytes@);
            assert(b.subrange(117, 137) =~= v.staker_address.bytes@);
        },
        None => {
            assert(b.subrange(97, 117) =~= v.staker_address.bytes@);
        },
    }
}

/// Reading a slot, by position.
pub proof fn law_slot_read(s: Seq<u8>, v: Slot)
    ensures
        ({
            let r = parse_slot(s);
            let end = if s[96] == 1 {
                137int
            } else {
                117int
            };
            &&& s.len() < 97 ==> r is Err && r->Err_0 == SerializingError::UnexpectedEnd
            &&& s.len() >= 97 && s[96] > 1 ==> r is Err && r->Err_0
                == SerializingError::InvalidValue
            &&& 97 <= s.len() < end && s[96] <= 1 ==> r is Err && r->Err_0
                == SerializingError::UnexpectedEnd
            &&& s.len() >= end && s[96] <= 1 ==> r is Ok && r->Ok_0.1 == s.skip(end)
            &&& s.len() >= end && s[96] <= 1 && {
                &&& s.subrange(0, 96) == v.public_key.compressed@
                &&& s[96] == 0 ==> v.reward_address_opt is None
                &&& s[96] == 1 ==> (v.reward_address_opt matches Some(a) && s.subrange(97, 117)
                    == a.bytes@)
                &&& s.subrange(end - 20, end) == v.staker_address.bytes@
            } ==> r->Ok_0.0 == v
        }),
{
    lemma_lazy_key_of(v.public_key);
    if s.len() >= 96 {
        assert(s.subrange(0, 96) =~= s.take(96));
        lemma_opt_address_at(s, 96, v.reward_address_opt);
        if s.len() >= 97 && s[96] == 0 {
            lemma_address_at(s, 97, v.staker_address);
        } else if s.len() >= 117 && s[96] == 1 {
            lemma_address_at(s, 117, v.staker_address);
        }
    }
}

/// Reading an address from place `p` on.
proof fn lemma_address_at(s: Seq<u8>, p: int, a: Address)
    requires
        0 <= p <= s.len(),
    ensures
        ({
            let r = parse_address(s.skip(p));
            &&& s.len() < p + 20 ==> r is Err && r->Err_0 == SerializingError::UnexpectedEnd
            &&& s.len() >= p + 20 ==> r is Ok && r->Ok_0.1 == s.skip(p + 20)
            &&& s.len() >= p + 20 && s.subrange(p, p + 20) == a.bytes@ ==> r->Ok_0.0 == a
        }),
{
    let t = s.skip(p);
    law_addresses_read(t, a);
    if s.len() >= p + 20 {
        assert(t.take(20) =~= s.subrange(p, p + 20));
        assert(t.skip(20) =~= s.skip(p + 20));
    }
}

/// A validator in bytes: 96 for the key and two that spell the number of slots. Reading
/// one, by position.
pub proof fn law_validator_in_bytes(v: Validator, s: Seq<u8>)
    ensures
        ({
            let b = validator_bytes(v);
            &&& b.len() == 98
            &&& b.subrange(0, 96) == v.public_key.compressed@
            &&& 256 * b[96] + b[97] == v.num_slots
        }),
        ({
            let r = parse_validator(s);
            &&& s.len() < 98 ==> r is Err && r->Err_0 == SerializingError::UnexpectedEnd
            &&& s.len() >= 98 ==> r is Ok && r->Ok_0.0.num_slots == 256 * s[96] + s[97]
                && r->Ok_0.1 == s.skip(98)
            &&& s.len() >= 98 && s.subrange(0, 96) == v.public_key.compressed@
                ==> r->Ok_0.0.public_key == v.public_key
        }),
{
    let b = validator_bytes(v);
    let n = be_bytes(v.num_slots as nat, 2);
    lemma_number_back(v.num_slots as nat, 2);
    assert(b.subrange(0, 96) =~= v.public_key.compressed@);
    assert(b[96] == n[0] && b[97] == n[1]);
    reveal_with_fuel(be_value, 3);
    lemma_lazy_key_of(v.public_key);
    if s.len() >= 96 {
        assert(s.subrange(0, 96) =~= s.take(96));
        let t = s.skip(96);
        law_numbers_read(t);
        if s.len() >= 98 {
            assert(t.skip(2) =~= s.skip(98));
        }
    }
}

/// The slots of an epoch in bytes: two that spell their number, every slot at its place,
/// slot `i` from `at[i]` to `at[i + 1]`, and eight that spell the fine.
pub proof fn law_slots_bytes(slots: Seq<Slot>, fine: Coin, at: Seq<int>, i: int)
    requires
        at.len() == slots.len() + 1,
        at[0] == 2,
        forall|k: int|
            #![trigger at[k + 1]]
            0 <= k < slots.len() ==> at[k + 1] == at[k] + if slots[k].reward_address_opt is Some {
                137int
            } else {
                117int
            },
    ensures
        ({
            let b = slots_bytes(slots, fine);
            let n = slots.len() as int;
            &&& b.len() == at[n] + 8
            &&& b.subrange(0, 2) == be_bytes(slots.len(), 2)
            &&& 0 <= i < n ==> 2 <= at[i] <= at[i + 1] <= at[n] && b.subrange(at[i], at[i + 1])
                == slot_bytes(slots[i])
            &&& be_value(b.subrange(at[n], at[n] + 8)) == fine.lunas
        }),
{
    let b = slots_bytes(slots, fine);
    let n = slots.len() as int;
    let all = slot_list_bytes(slots);
    lemma_be_bytes_len(slots.len(), 2);
    lemma_number_back(fine.lunas as nat, 8);
    assert(slots.take(n) =~= slots);
    lemma_slot_place(slots, at, i, n);
    assert(b.subrange(0, 2) =~= be_bytes(slots.len(), 2));
    assert(b.subrange(at[n], at[n] + 8) =~= be_bytes(fine.lunas as nat, 8));
    if 0 <= i < n {
        assert(b.subrange(at[i], at[i + 1]) =~= all.subrange(at[i] - at[0], at[i + 1] - at[0]));
    }
}

/// Among the bytes of the first `n` slots, slot `i` stands at its place.
proof fn lemma_slot_place(slots: Seq<Slot>, at: Seq<int>, i: int, n: int)
    requires
        at.len() == slots.len() + 1,
        forall|k: int|
            #![trigger at[k + 1]]
            0 <= k < slots.len() ==> at[k + 1] == at[k] + if slots[k].reward_address_opt is Some {
                137int
            } else {
                117int
            },
        0 <= n <= slots.len(),
    ensures
        slot_list_bytes(slots.take(n)).len() == at[n] - at[0],
        0 <= i < n ==> at[0] <= at[i] <= at[i + 1] <= at[n] && slot_list_bytes(
            slots.take(n),
        ).subrange(at[i] - at[0], at[i + 1] - at[0]) == slot_bytes(slots[i]),
    decreases n,
{
    let all = slot_list_bytes(slots.take(n));
    if n > 0 {
        lemma_slot_place(slots, at, i, n - 1);
        law_slot_bytes(slots[n - 1]);
        assert(slots.take(n).drop_last() =~= slots.take(n - 1));
        assert(at[n - 1 + 1] == at[n - 1] + slot_bytes(slots[n - 1]).len());
        if i == n - 1 {
            lemma_slot_place(slots, at, 0, n - 1);
            assert(all.subrange(at[i] - at[0], at[i + 1] - at[0]) =~= slot_bytes(slots[i]));
        } else if 0 <= i < n {
            assert(all.subrange(at[i] - at[0], at[i + 1] - at[0]) =~= slot_list_bytes(
                slots.take(n - 1),
            ).subrange(at[i] - at[0], at[i + 1] - at[0]));
        }
    }
}

/// Reading several slots: none takes no bytes, and one more is read from what the ones
/// before it leave. Reading the slots of an epoch: two bytes that spell their number, as
/// many slots, and eight bytes that spell the fine.
pub proof fn law_slots_read(s: Seq<u8>, n: nat)
    ensures
        parse_slot_list(s, 0) == Ok::<(Seq<Slot>, Seq<u8>), SerializingError>((Seq::empty(), s)),
        parse_slot_list(s, n) matches Err(e) ==> parse_slot_list(s, n + 1) == Err::<
            (Seq<Slot>, Seq<u8>),
            SerializingError,
        >(e),
        parse_slot_list(s, n) matches Ok((slots, t)) ==> {
            &&& slots.len() == n
            &&& parse_slot(t) matches Err(e) ==> parse_slot_list(s, n + 1) == Err::<
                (Seq<Slot>, Seq<u8>),
                SerializingError,
            >(e)
            &&& parse_slot(t) matches Ok((slot, u)) ==> parse_slot_list(s, n + 1) == Ok::<
                (Seq<Slot>, Seq<u8>),
                SerializingError,
            >((slots.push(slot), u))
        },
        ({
            let r = parse_slots(s);
            &&& s.len() < 2 ==> r is Err && r->Err_0 == SerializingError::UnexpectedEnd
            &&& s.len() >= 2 && n == 256 * s[0] + s[1] ==> {
                &&& parse_slot_list(s.skip(2), n) matches Err(e) ==> r is Err && r->Err_0 == e
                &&& parse_slot_list(s.skip(2), n) matches Ok((slots, t)) ==> {
                    &&& t.len() < 8 ==> r is Err && r->Err_0 == SerializingError::UnexpectedEnd
                    &&& t.len() >= 8 && be_value(t.take(8)) > 9007199254740991 ==> r is Err
                        && r->Err_0 == SerializingError::Overflow
                    &&& t.len() >= 8 && be_value(t.take(8)) <= 9007199254740991 ==> r is Ok
                        && r->Ok_0.0.0 == slots && r->Ok_0.0.1.lunas == be_value(t.take(8))
                        && r->Ok_0.1 == t.skip(8)
                }
            }
        }),
{
    lemma_slot_list_len(s, n);
    law_numbers_read(s);
    if s.len() >= 2 {
        if let Ok((slots, t)) = parse_slot_list(s.skip(2), n) {
            law_numbers_read(t);
        }
    }
}

/// As many slots are read as are asked for.
proof fn lemma_slot_list_len(s: Seq<u8>, n: nat)
    ensures
        parse_slot_list(s, n) matches Ok((slots, t)) ==> slots.len() == n,
    decreases n,
{
    if n > 0 {
        lemma_slot_list_len(s, (n - 1) as nat);
    }
}

/// An active stake with the inactive one of its staker stands as the bytes of the one
/// and then those of the other; an inactive stake with its address, as the 20 bytes of
/// the address and then its own.
pub proof fn law_listed_stake_bytes(
    active: ActiveStake,
    inactive: Option<InactiveStake>,
    address: Address,
    stake: InactiveStake,
)
    ensures
        ({
            let b = pair_bytes((active, inactive));
            let n = active_stake_bytes(active).len() as int;
            &&& b.len() == n + if inactive is Some {
                13int
            } else {
                1int
            }
            &&& b.subrange(0, n) == active_stake_bytes(active)
            &&& b.subrange(n, b.len() as int) == opt_inactive_stake_bytes(inactive)
        }),
        ({
            let b = entry_bytes((address, stake));
            &&& b.len() == 32
            &&& b.subrange(0, 20) == address.bytes@
            &&& b.subrange(20, 32) == inactive_stake_bytes(stake)
        }),
{
    let b = pair_bytes((active, inactive));
    let n = active_stake_bytes(active).len() as int;
    law_inactive_stake_bytes(stake);
    if let Some(v) = inactive {
        law_inactive_stake_bytes(v);
    }
    assert(b.subrange(0, n) =~= active_stake_bytes(active));
    assert(b.subrange(n, b.len() as int) =~= opt_inactive_stake_bytes(inactive));
    let e = entry_bytes((address, stake));
    assert(e.subrange(0, 20) =~= address.bytes@);
    assert(e.subrange(20, 32) =~= inactive_stake_bytes(stake));
}

/// Reading an active stake with the inactive one of its staker, and an inactive stake
/// with its address.
pub proof fn law_listed_stakes_read(s: Seq<u8>, a: Address)
    ensures
        parse_active_stake(s) matches Err(e) ==> parse_pair(s) is Err && parse_pair(s)->Err_0 == e,
        parse_active_stake(s) matches Ok((active, t)) ==> {
            &&& parse_opt_inactive_stake(t) matches Err(e) ==> parse_pair(s) is Err
                && parse_pair(s)->Err_0 == e
            &&& parse_opt_inactive_stake(t) matches Ok((inactive, u)) ==> parse_pair(s) is Ok
                && parse_pair(s)->Ok_0.0.0 == active && parse_pair(s)->Ok_0.0.1 == inactive
                && parse_pair(s)->Ok_0.1 == u
        },
        ({
            let r = parse_entry(s);
            let safe = be_value(s.subrange(20, 28)) <= 9007199254740991;
            &&& s.len() < 28 ==> r is Err && r->Err_0 == SerializingError::UnexpectedEnd
            &&& s.len() >= 28 && !safe ==> r is Err && r->Err_0 == SerializingError::Overflow
            &&& 28 <= s.len() < 32 && safe ==> r is Err && r->Err_0
                == SerializingError::UnexpectedEnd
            &&& s.len() >= 32 && safe ==> r is Ok && {
                &&& r->Ok_0.0.1.balance.lunas == be_value(s.subrange(20, 28))
                &&& r->Ok_0.0.1.retire_time == be_value(s.subrange(28, 32))
                &&& r->Ok_0.1 == s.skip(32)
                &&& s.subrange(0, 20) == a.bytes@ ==> r->Ok_0.0.0 == a
            }
        }),
{
    lemma_address_at(s, 0, a);
    assert(s.skip(0) =~= s);
    if s.len() >= 20 {
        lemma_inactive_stake_at(s, 20);
    }
}

} // verus!
