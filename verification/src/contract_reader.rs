//! Reading a staking contract whose bytes come piece by piece.

use crate::address::Address;
use crate::codec::{
    ends_early, lemma_carry_address, lemma_carry_coin, lemma_carry_u32, parse_coin, parse_u32,
    put_bytes, Cursor,
};
use crate::coin::Coin;
use crate::contract_codec::{
    addressed, inactive_among, ledger_from, lemma_carry_entries, lemma_carry_pairs,
    lemma_parse_entries_error, lemma_parse_pairs_error, parse_contract, parse_entries, parse_entry,
    parse_pair, parse_pairs, StakePair,
};
use crate::error::SerializingError;
use crate::ledger::Ledger;
use crate::stake::{lemma_carry_active_stake, ActiveStake, InactiveStake};
use crate::staking_contract::StakingContract;
use vstd::prelude::*;

verus! {

/// Reads an active stake with the inactive stake of its staker.
fn read_pair(c: &mut Cursor) -> (r: Result<StakePair, SerializingError>)
    requires
        old(c).wf(),
    ensures
        final(c).wf(),
        final(c).input() == old(c).input(),
        ends_early(parse_pair(old(c).rest())) ==> final(c).missing() > 0 && forall|t: Seq<u8>|
            t.len() < final(c).missing() ==> ends_early(#[trigger] parse_pair(old(c).rest() + t)),
        match parse_pair(old(c).rest()) {
            Ok((v, rest)) => r == Ok::<StakePair, SerializingError>(v) && final(c).rest() == rest,
            Err(e) => r == Err::<StakePair, SerializingError>(e),
        },
{
    let ghost s = c.rest();
    let active_stake = match ActiveStake::deserialize(c) {
        Ok(v) => v,
        Err(e) => {
            return Err(e);
        },
    };
    match InactiveStake::deserialize_opt(c) {
        Ok(inactive_stake) => Ok((active_stake, inactive_stake)),
        Err(e) => {
            assert forall|t: Seq<u8>|
                e == SerializingError::UnexpectedEnd && t.len() < c.missing() implies ends_early(
                #[trigger] parse_pair(s + t),
            ) by {
                lemma_carry_active_stake(s, t);
            }
            Err(e)
        },
    }
}

/// Reads an inactive stake with the address of its staker.
fn read_entry(c: &mut Cursor) -> (r: Result<(Address, InactiveStake), SerializingError>)
    requires
        old(c).wf(),
    ensures
        final(c).wf(),
        final(c).input() == old(c).input(),
        ends_early(parse_entry(old(c).rest())) ==> final(c).missing() > 0 && forall|t: Seq<u8>|
            t.len() < final(c).missing() ==> ends_early(#[trigger] parse_entry(old(c).rest() + t)),
        match parse_entry(old(c).rest()) {
            Ok((v, rest)) => r == Ok::<(Address, InactiveStake), SerializingError>(v)
                && final(c).rest() == rest,
            Err(e) => r == Err::<(Address, InactiveStake), SerializingError>(e),
        },
{
    let ghost s = c.rest();
    let staker_address = match c.read_address() {
        Ok(v) => v,
        Err(e) => {
            return Err(e);
        },
    };
    match InactiveStake::deserialize(c) {
        Ok(inactive_stake) => Ok((staker_address, inactive_stake)),
        Err(e) => {
            assert forall|t: Seq<u8>|
                e == SerializingError::UnexpectedEnd && t.len() < c.missing() implies ends_early(
                #[trigger] parse_entry(s + t),
            ) by {
                lemma_carry_address(s, t);
            }
            Err(e)
        },
    }
}

/// What comes next in the bytes of a contract.
#[derive(Clone, Copy, Debug, PartialEq, Eq, Structural)]
enum Stage {
    Balance,
    ActiveCount,
    Active,
    InactiveCount,
    Inactive,
    Done,
}

/// How far a contract has been read: what comes next, how many items of the current
/// list are left, and what has been read.
struct Progress {
    stage: Stage,
    left: u32,
    balance: Coin,
    pairs: Seq<StakePair>,
    entries: Seq<(Address, InactiveStake)>,
}

/// How late a stage comes.
spec fn rank(stage: Stage) -> int {
    match stage {
        Stage::Balance => 0,
        Stage::ActiveCount => 1,
        Stage::Active => 2,
        Stage::InactiveCount => 3,
        Stage::Inactive => 4,
        Stage::Done => 5,
    }
}

/// Nothing is there yet of what comes later, and a list that is being read has items
/// left.
spec fn orderly(p: Progress) -> bool {
    &&& rank(p.stage) < 2 ==> p.pairs.len() == 0
    &&& rank(p.stage) < 4 ==> p.entries.len() == 0
    &&& p.stage == Stage::Active || p.stage == Stage::Inactive ==> p.left > 0
}

/// Reading `seen` from its front leads to this progress and leaves `rest`.
#[verifier::opaque]
spec fn reached(p: Progress, seen: Seq<u8>, rest: Seq<u8>) -> bool {
    if p.stage == Stage::Balance {
        rest == seen
    } else {
        match parse_coin(seen) {
            Err(_) => false,
            Ok((balance, s1)) => balance == p.balance && if p.stage == Stage::ActiveCount {
                rest == s1
            } else {
                match parse_u32(s1) {
                    Err(_) => false,
                    Ok((n, s2)) => if p.stage == Stage::Active {
                        p.pairs.len() + p.left == n && parse_pairs(s2, p.pairs.len()) == Ok::<
                            (Seq<StakePair>, Seq<u8>),
                            SerializingError,
                        >((p.pairs, rest))
                    } else {
                        reached_inactive(p, parse_pairs(s2, n as nat), rest)
                    },
                }
            },
        }
    }
}

/// The part of `reached` behind the active stakes.
spec fn reached_inactive(
    p: Progress,
    active: Result<(Seq<StakePair>, Seq<u8>), SerializingError>,
    rest: Seq<u8>,
) -> bool {
    match active {
        Err(_) => false,
        Ok((pairs, s3)) => pairs == p.pairs && if p.stage == Stage::InactiveCount {
            rest == s3
        } else {
            match parse_u32(s3) {
                Err(_) => false,
                Ok((m, s4)) => {
                    &&& p.stage == Stage::Inactive ==> p.entries.len() + p.left == m
                    &&& p.stage == Stage::Done ==> p.entries.len() == m
                    &&& parse_entries(s4, p.entries.len()) == Ok::<
                        (Seq<(Address, InactiveStake)>, Seq<u8>),
                        SerializingError,
                    >((p.entries, rest))
                },
            }
        },
    }
}

/// Why what comes next cannot be read from `rest`.
#[verifier::opaque]
spec fn next_error(stage: Stage, rest: Seq<u8>) -> Option<SerializingError> {
    match stage {
        Stage::Balance => match parse_coin(rest) {
            Err(e) => Some(e),
            Ok(_) => None,
        },
        Stage::ActiveCount => match parse_u32(rest) {
            Err(e) => Some(e),
            Ok(_) => None,
        },
        Stage::Active => match parse_pair(rest) {
            Err(e) => Some(e),
            Ok(_) => None,
        },
        Stage::InactiveCount => match parse_u32(rest) {
            Err(e) => Some(e),
            Ok(_) => None,
        },
        Stage::Inactive => match parse_entry(rest) {
            Err(e) => Some(e),
            Ok(_) => None,
        },
        Stage::Done => None,
    }
}

/// More bytes do not undo progress.
proof fn lemma_carry_reached(p: Progress, seen: Seq<u8>, rest: Seq<u8>, t: Seq<u8>)
    requires
        reached(p, seen, rest),
    ensures
        reached(p, seen + t, rest + t),
{
    reveal(reached);
    lemma_carry_coin(seen, t);
    if p.stage != Stage::Balance {
        let s1 = parse_coin(seen)->Ok_0.1;
        lemma_carry_u32(s1, t);
        if p.stage != Stage::ActiveCount {
            let (n, s2) = parse_u32(s1)->Ok_0;
            lemma_carry_pairs(s2, p.pairs.len(), t);
            lemma_carry_pairs(s2, n as nat, t);
            if rank(p.stage) >= 4 {
                let s3 = parse_pairs(s2, n as nat)->Ok_0.1;
                lemma_carry_u32(s3, t);
                let s4 = parse_u32(s3)->Ok_0.1;
                lemma_carry_entries(s4, p.entries.len(), t);
            }
        }
    }
}

/// Where what comes next cannot be read, the contract cannot.
proof fn lemma_stuck(p: Progress, seen: Seq<u8>, rest: Seq<u8>, e: SerializingError)
    requires
        reached(p, seen, rest),
        orderly(p),
        next_error(p.stage, rest) == Some(e),
    ensures
        parse_contract(seen) matches Err(f) && f == e,
{
    reveal(reached);
    reveal(next_error);
    if rank(p.stage) >= 2 {
        let s1 = parse_coin(seen)->Ok_0.1;
        let (n, s2) = parse_u32(s1)->Ok_0;
        if p.stage == Stage::Active {
            let k = (p.pairs.len() + 1) as nat;
            assert(parse_pairs(s2, k) is Err);
            lemma_parse_pairs_error(s2, k, n as nat);
        } else if p.stage == Stage::Inactive {
            let s3 = parse_pairs(s2, n as nat)->Ok_0.1;
            let (m, s4) = parse_u32(s3)->Ok_0;
            let k = (p.entries.len() + 1) as nat;
            assert(parse_entries(s4, k) is Err);
            lemma_parse_entries_error(s4, k, m as nat);
        }
    }
}

/// Once the balance is read, the number of active stakes comes next.
proof fn lemma_balance_read(p: Progress, seen: Seq<u8>, rest: Seq<u8>)
    requires
        reached(p, seen, rest),
        p.stage == Stage::Balance,
        parse_coin(rest) is Ok,
    ensures
        reached(
            Progress { stage: Stage::ActiveCount, balance: parse_coin(rest)->Ok_0.0, ..p },
            seen,
            parse_coin(rest)->Ok_0.1,
        ),
{
    reveal(reached);
}

/// Once the number of active stakes is read, they come next, if there are any.
proof fn lemma_active_count_read(p: Progress, seen: Seq<u8>, rest: Seq<u8>)
    requires
        reached(p, seen, rest),
        orderly(p),
        p.stage == Stage::ActiveCount,
        parse_u32(rest) is Ok,
    ensures
        ({
            let (left, behind) = parse_u32(rest)->Ok_0;
            let stage = if left > 0 {
                Stage::Active
            } else {
                Stage::InactiveCount
            };
            reached(Progress { stage, left, ..p }, seen, behind)
        }),
{
    reveal(reached);
    assert(p.pairs =~= Seq::empty());
}

/// Once an active stake is read, the next one comes, if there are any left.
proof fn lemma_pair_read(p: Progress, seen: Seq<u8>, rest: Seq<u8>)
    requires
        reached(p, seen, rest),
        orderly(p),
        p.stage == Stage::Active,
        parse_pair(rest) is Ok,
    ensures
        ({
            let (pair, behind) = parse_pair(rest)->Ok_0;
            let left = (p.left - 1) as u32;
            let stage = if left > 0 {
                Stage::Active
            } else {
                Stage::InactiveCount
            };
            reached(Progress { stage, left, pairs: p.pairs.push(pair), ..p }, seen, behind)
        }),
{
    reveal(reached);
}

/// Once the number of inactive stakes is read, they come next, if there are any.
proof fn lemma_inactive_count_read(p: Progress, seen: Seq<u8>, rest: Seq<u8>)
    requires
        reached(p, seen, rest),
        orderly(p),
        p.stage == Stage::InactiveCount,
        parse_u32(rest) is Ok,
    ensures
        ({
            let (left, behind) = parse_u32(rest)->Ok_0;
            let stage = if left > 0 {
                Stage::Inactive
            } else {
                Stage::Done
            };
            reached(Progress { stage, left, ..p }, seen, behind)
        }),
{
    reveal(reached);
    assert(p.entries =~= Seq::empty());
}

/// Once an inactive stake is read, the next one comes, if there are any left.
proof fn lemma_entry_read(p: Progress, seen: Seq<u8>, rest: Seq<u8>)
    requires
        reached(p, seen, rest),
        orderly(p),
        p.stage == Stage::Inactive,
        parse_entry(rest) is Ok,
    ensures
        ({
            let (entry, behind) = parse_entry(rest)->Ok_0;
            let left = (p.left - 1) as u32;
            let stage = if left > 0 {
                Stage::Inactive
            } else {
                Stage::Done
            };
            reached(Progress { stage, left, entries: p.entries.push(entry), ..p }, seen, behind)
        }),
{
    reveal(reached);
}

/// Once everything is read, the contract is there.
proof fn lemma_all_read(p: Progress, seen: Seq<u8>, rest: Seq<u8>)
    requires
        reached(p, seen, rest),
        p.stage == Stage::Done,
    ensures
        parse_contract(seen) == Ok::<(Ledger, Seq<u8>), SerializingError>(
            (ledger_from(p.balance, p.pairs, p.entries), rest),
        ),
{
    reveal(reached);
}

/// What has been read so far.
struct Partial {
    stage: Stage,
    left: u32,
    contract: StakingContract,
    pairs: Ghost<Seq<StakePair>>,
    entries: Ghost<Seq<(Address, InactiveStake)>>,
}

impl Partial {
    /// How far this is.
    spec fn progress(self) -> Progress {
        Progress {
            stage: self.stage,
            left: self.left,
            balance: self.contract.balance,
            pairs: self.pairs@,
            entries: self.entries@,
        }
    }

    /// The contract holds what has been read.
    spec fn wf(self) -> bool {
        &&& orderly(self.progress())
        &&& self.contract@ == ledger_from(self.contract.balance, self.pairs@, self.entries@)
    }

    /// Reads what comes next.
    fn step(&mut self, c: &mut Cursor, Ghost(seen): Ghost<Seq<u8>>) -> (r: Result<
        (),
        SerializingError,
    >)
        requires
            old(self).wf(),
            old(self).stage != Stage::Done,
            old(c).wf(),
            reached(old(self).progress(), seen, old(c).rest()),
        ensures
            final(c).wf(),
            final(c).input() == old(c).input(),
            match r {
                Ok(()) => {
                    &&& final(self).wf()
                    &&& reached(final(self).progress(), seen, final(c).rest())
                    &&& rank(final(self).stage) > rank(old(self).stage) || (final(self).stage
                        == old(self).stage && final(self).left < old(self).left)
                },
                Err(e) => {
                    &&& *final(self) == *old(self)
                    &&& next_error(old(self).stage, old(c).rest()) == Some(e)
                    &&& e == SerializingError::UnexpectedEnd ==> final(c).missing() > 0
                        && forall|t: Seq<u8>|
                        t.len() < final(c).missing() ==> #[trigger] next_error(
                            old(self).stage,
                            old(c).rest() + t,
                        ) == Some(SerializingError::UnexpectedEnd)
                },
            },
    {
        let ghost p = self.progress();
        let ghost rest = c.rest();
        proof {
            reveal(next_error);
        }
        match self.stage {
            Stage::Balance => match c.read_coin() {
                Ok(balance) => {
                    proof {
                        lemma_balance_read(p, seen, rest);
                    }
                    self.contract.balance = balance;
                    self.stage = Stage::ActiveCount;
                    Ok(())
                },
                Err(e) => Err(e),
            },
            Stage::ActiveCount => match c.read_u32() {
                Ok(n) => {
                    proof {
                        lemma_active_count_read(p, seen, rest);
                    }
                    self.left = n;
                    self.stage = if n > 0 {
                        Stage::Active
                    } else {
                        Stage::InactiveCount
                    };
                    Ok(())
                },
                Err(e) => Err(e),
            },
            Stage::Active => match read_pair(c) {
                Ok(pair) => {
                    proof {
                        lemma_pair_read(p, seen, rest);
                    }
                    self.take_pair(pair);
                    Ok(())
                },
                Err(e) => Err(e),
            },
            Stage::InactiveCount => match c.read_u32() {
                Ok(n) => {
                    proof {
                        lemma_inactive_count_read(p, seen, rest);
                    }
                    self.left = n;
                    self.stage = if n > 0 {
                        Stage::Inactive
                    } else {
                        Stage::Done
                    };
                    Ok(())
                },
                Err(e) => Err(e),
            },
            Stage::Inactive => match read_entry(c) {
                Ok(entry) => {
                    proof {
                        lemma_entry_read(p, seen, rest);
                    }
                    self.take_entry(entry);
                    Ok(())
                },
                Err(e) => Err(e),
            },
            Stage::Done => Ok(()),
        }
    }

    /// Takes in one of the active stakes with the inactive one of its staker.
    fn take_pair(&mut self, pair: StakePair)
        requires
            old(self).wf(),
            old(self).stage == Stage::Active,
        ensures
            final(self).wf(),
            final(self).pairs@ == old(self).pairs@.push(pair),
            final(self).entries@ == old(self).entries@,
            final(self).contract.balance == old(self).contract.balance,
            final(self).left == old(self).left - 1,
            final(self).stage == if final(self).left > 0 {
                Stage::Active
            } else {
                Stage::InactiveCount
            },
    {
        let (active_stake, inactive_stake) = pair;
        let ghost pairs = self.pairs@;
        let ghost more = pairs.push(pair);
        assert(more.drop_last() =~= pairs);
        assert(addressed(more).drop_last() =~= addressed(pairs));
        assert(inactive_among(pairs) + self.entries@ =~= inactive_among(pairs));
        assert(inactive_among(more) + self.entries@ =~= inactive_among(more));
        self.contract.active_stake_sorted.insert(active_stake);
        self.contract.active_stake_by_address.insert(active_stake.staker_address, active_stake);
        match inactive_stake {
            Some(inactive_stake) => {
                assert(inactive_among(more).drop_last() =~= inactive_among(pairs));
                self.contract.inactive_stake_by_address.insert(
                    active_stake.staker_address,
                    inactive_stake,
                );
            },
            None => {},
        }
        self.pairs = Ghost(more);
        self.left = self.left - 1;
        if self.left == 0 {
            self.stage = Stage::InactiveCount;
        }
    }

    /// Takes in one of the inactive stakes that stand alone.
    fn take_entry(&mut self, entry: (Address, InactiveStake))
        requires
            old(self).wf(),
            old(self).stage == Stage::Inactive,
        ensures
            final(self).wf(),
            final(self).pairs@ == old(self).pairs@,
            final(self).entries@ == old(self).entries@.push(entry),
            final(self).contract.balance == old(self).contract.balance,
            final(self).left == old(self).left - 1,
            final(self).stage == if final(self).left > 0 {
                Stage::Inactive
            } else {
                Stage::Done
            },
    {
        let ghost all = inactive_among(self.pairs@) + self.entries@;
        let ghost more = self.entries@.push(entry);
        assert((inactive_among(self.pairs@) + more).drop_last() =~= all);
        self.contract.inactive_stake_by_address.insert(entry.0, entry.1);
        self.entries = Ghost(more);
        self.left = self.left - 1;
        if self.left == 0 {
            self.stage = Stage::Done;
        }
    }
}

/// A reader that is handed the bytes of a contract piece by piece.
pub struct ContractReader {
    partial: Partial,
    pending: Vec<u8>,
    wanted: usize,
    seen: Ghost<Seq<u8>>,
}

impl ContractReader {
    #[verifier::type_invariant]
    spec fn in_step(self) -> bool {
        &&& self.partial.wf()
        &&& reached(self.partial.progress(), self.seen@, self.pending@)
        &&& self.pending@.len() <= self.seen@.len()
        &&& self.pending@ == self.seen@.skip(self.seen@.len() - self.pending@.len())
        &&& self.wanted == 0 <==> self.partial.stage == Stage::Done
        &&& forall|t: Seq<u8>|
            t.len() < self.wanted ==> ends_early(#[trigger] parse_contract(self.seen@ + t))
    }

    /// All bytes that the reader was handed.
    pub closed spec fn seen(self) -> Seq<u8> {
        self.seen@
    }

    /// A reader at the beginning of a contract.
    pub fn new() -> (reader: ContractReader)
        ensures
            reader.seen() == Seq::<u8>::empty(),
    {
        let partial = Partial {
            stage: Stage::Balance,
            left: 0,
            contract: Default::default(),
            pairs: Ghost(Seq::empty()),
            entries: Ghost(Seq::empty()),
        };
        proof {
            reveal(reached);
            let none = Seq::<StakePair>::empty();
            let nobody = Seq::<(Address, InactiveStake)>::empty();
            assert(addressed(none) =~= Seq::empty());
            assert(inactive_among(none) + nobody =~= nobody);
            assert forall|t: Seq<u8>| t.len() < 8 implies ends_early(
                #[trigger] parse_contract(Seq::<u8>::empty() + t),
            ) by {
                assert(Seq::<u8>::empty() + t =~= t);
            }
            assert(Seq::<u8>::empty().skip(0) =~= Seq::empty());
        }
        ContractReader {
            partial,
            pending: Vec::new(),
            wanted: 8,
            seen: Ghost(Seq::empty()),
        }
    }

    /// How many bytes are still to come before anything more can be said of the
    /// contract. None, if the contract is there.
    pub fn wanted(&self) -> (n: usize)
        ensures
            n == 0 <==> parse_contract(self.seen()) is Ok,
            n > 0 <==> ends_early(parse_contract(self.seen())),
            forall|t: Seq<u8>|
                t.len() < n ==> ends_early(#[trigger] parse_contract(self.seen() + t)),
    {
        proof {
            use_type_invariant(self);
            let none = Seq::<u8>::empty();
            assert(self.seen@ + none =~= self.seen@);
            if self.wanted > 0 {
                assert(ends_early(parse_contract(self.seen@ + none)));
            } else {
                lemma_all_read(self.partial.progress(), self.seen@, self.pending@);
            }
        }
        self.wanted
    }

    /// Hands the reader more bytes. An error other than an early end is reported as
    /// soon as the bytes show it.
    pub fn feed(self, bytes: &[u8]) -> (r: Result<ContractReader, SerializingError>)
        ensures
            match r {
                Ok(next) => {
                    &&& next.seen() == self.seen() + bytes@
                    &&& parse_contract(next.seen()) is Ok || ends_early(
                        parse_contract(next.seen()),
                    )
                },
                Err(e) => {
                    &&& e != SerializingError::UnexpectedEnd
                    &&& parse_contract(self.seen() + bytes@) matches Err(f) && f == e
                },
            },
    {
        proof {
            use_type_invariant(&self);
        }
        let ghost seen = self.seen@ + bytes@;
        let mut buf: Vec<u8> = self.pending;
        let mut partial = self.partial;
        put_bytes(&mut buf, bytes);
        proof {
            lemma_carry_reached(partial.progress(), self.seen@, self.pending@, bytes@);
            assert(buf@ =~= seen.skip(seen.len() - buf@.len()));
        }
        let mut c = Cursor::new(buf.as_slice());
        let mut start: usize = 0;
        let mut wanted: usize = 0;
        assert(buf@.skip(0) =~= buf@);
        while partial.stage != Stage::Done
            invariant_except_break
                wanted == 0,
                c.rest() == buf@.skip(start as int),
            invariant
                seen == self.seen() + bytes@,
                c.wf(),
                c.input() == buf@,
                start <= buf@.len(),
                partial.wf(),
                reached(partial.progress(), seen, buf@.skip(start as int)),
            ensures
                wanted == 0 <==> partial.stage == Stage::Done,
                forall|t: Seq<u8>|
                    t.len() < wanted ==> ends_early(#[trigger] parse_contract(seen + t)),
            decreases 5 - rank(partial.stage), partial.left,
        {
            let ghost p = partial.progress();
            let ghost rest = c.rest();
            match partial.step(&mut c, Ghost(seen)) {
                Ok(()) => {
                    start = c.consumed();
                },
                Err(e) => {
                    proof {
                        lemma_stuck(p, seen, rest, e);
                    }
                    match e {
                        SerializingError::UnexpectedEnd => {
                            wanted = c.lacked();
                            assert forall|t: Seq<u8>| t.len() < wanted implies ends_early(
                                #[trigger] parse_contract(seen + t),
                            ) by {
                                assert(next_error(p.stage, rest + t) is Some);
                                lemma_carry_reached(p, seen, rest, t);
                                lemma_stuck(p, seen + t, rest + t, e);
                            }
                            break;
                        },
                        _ => {
                            return Err(e);
                        },
                    }
                },
            }
        }
        let mut pending: Vec<u8> = Vec::new();
        let mut i: usize = start;
        while i < buf.len()
            invariant
                start <= i <= buf@.len(),
                pending@ == buf@.subrange(start as int, i as int),
            decreases buf@.len() - i,
        {
            pending.push(buf[i]);
            i = i + 1;
            assert(pending@ =~= buf@.subrange(start as int, i as int));
        }
        proof {
            assert(pending@ =~= buf@.skip(start as int));
            assert(pending@ =~= seen.skip(seen.len() - pending@.len()));
            let none = Seq::<u8>::empty();
            assert(seen + none =~= seen);
            if wanted > 0 {
                assert(ends_early(parse_contract(seen + none)));
            } else {
                lemma_all_read(partial.progress(), seen, pending@);
            }
        }
        Ok(ContractReader { partial, pending, wanted, seen: Ghost(seen) })
    }

    /// The contract, and how many of the bytes stand behind it.
    pub fn finish(self) -> (r: Result<(StakingContract, usize), SerializingError>)
        ensures
            match parse_contract(self.seen()) {
                Ok((l, rest)) => {
                    &&& r matches Ok((c, n))
                    &&& c@ == l
                    &&& n == rest.len()
                    &&& n <= self.seen().len()
                    &&& rest == self.seen().skip(self.seen().len() - n)
                },
                Err(e) => r matches Err(f) && f == e,
            },
    {
        proof {
            use_type_invariant(&self);
            let none = Seq::<u8>::empty();
            assert(self.seen@ + none =~= self.seen@);
            if self.wanted > 0 {
                assert(ends_early(parse_contract(self.seen@ + none)));
            } else {
                lemma_all_read(self.partial.progress(), self.seen@, self.pending@);
            }
        }
        if self.wanted > 0 {
            return Err(SerializingError::UnexpectedEnd);
        }
        Ok((self.partial.contract, self.pending.len()))
    }
}

impl StakingContract {
    /// Reads a contract from the front of `bytes`, and says how many of them it
    /// took.
    pub fn deserialize(bytes: &[u8]) -> (r: Result<(StakingContract, usize), SerializingError>)
        ensures
            match parse_contract(bytes@) {
                Ok((l, rest)) => {
                    &&& r matches Ok((c, n))
                    &&& c@ == l
                    &&& n <= bytes@.len()
                    &&& rest == bytes@.skip(n as int)
                },
                Err(e) => r matches Err(f) && f == e,
            },
    {
        let reader = ContractReader::new();
        assert(reader.seen() + bytes@ =~= bytes@);
        let reader = match reader.feed(bytes) {
            Ok(reader) => reader,
            Err(e) => {
                return Err(e);
            },
        };
        match reader.finish() {
            Ok((contract, behind)) => Ok((contract, bytes.len() - behind)),
            Err(e) => Err(e),
        }
    }
}

} // verus!
