//! Big-endian wire format: writing into a vector, reading through a cursor.

use crate::address::{lemma_same_bytes, Address};
use crate::coin::{Coin, MAX_SAFE_VALUE};
use crate::error::SerializingError;
use vstd::prelude::*;

verus! {

/// The lowest `n` bytes of `v`, the most significant first.
pub open spec fn be_bytes(v: nat, n: nat) -> Seq<u8>
    decreases n,
{
    if n == 0 {
        Seq::empty()
    } else {
        be_bytes(v / 256, (n - 1) as nat).push((v % 256) as u8)
    }
}

/// The number that `s` spells, the most significant byte first.
pub open spec fn be_value(s: Seq<u8>) -> nat
    decreases s.len(),
{
    if s.len() == 0 {
        0
    } else {
        be_value(s.drop_last()) * 256 + s.last() as nat
    }
}

/// 256 to the power of `n`: how many numbers `n` bytes can spell.
pub open spec fn pow256(n: nat) -> nat
    decreases n,
{
    if n == 0 {
        1
    } else {
        pow256((n - 1) as nat) * 256
    }
}

/// `be_bytes` has the width it is asked for.
pub proof fn lemma_be_bytes_len(v: nat, n: nat)
    ensures
        be_bytes(v, n).len() == n,
    decreases n,
{
    if n > 0 {
        lemma_be_bytes_len(v / 256, (n - 1) as nat);
    }
}

/// A number that fits is spelled back.
pub proof fn lemma_be_value_of_bytes(v: nat, n: nat)
    requires
        v < pow256(n),
    ensures
        be_value(be_bytes(v, n)) == v,
    decreases n,
{
    if n > 0 {
        let m = (n - 1) as nat;
        assert(v / 256 < pow256(m));
        lemma_be_value_of_bytes(v / 256, m);
        assert(be_bytes(v, n).drop_last() =~= be_bytes(v / 256, m));
    }
}

/// What `n` bytes spell is below `pow256(n)`.
pub proof fn lemma_be_value_bound(s: Seq<u8>)
    ensures
        be_value(s) < pow256(s.len()),
    decreases s.len(),
{
    if s.len() > 0 {
        lemma_be_value_bound(s.drop_last());
    }
}

/// The widths that the format uses.
pub proof fn lemma_pow256()
    ensures
        pow256(1) == 256,
        pow256(2) == 0x1_0000,
        pow256(4) == 0x1_0000_0000,
        pow256(8) == 0x1_0000_0000_0000_0000,
{
    reveal_with_fuel(pow256, 9);
}

/// What a reader makes of the front of its input, and what it leaves.
pub type Parsed<T> = Result<(T, Seq<u8>), SerializingError>;

/// The bytes end before the value does.
pub open spec fn ends_early<T>(p: Parsed<T>) -> bool {
    p matches Err(e) && e == SerializingError::UnexpectedEnd
}

/// `q` is what a reader makes of its input with `t` behind it, where it makes `p` of
/// the input alone: the same, with `t` left over, unless the input ended early.
pub open spec fn carried<T>(p: Parsed<T>, q: Parsed<T>, t: Seq<u8>) -> bool {
    match p {
        Ok((v, rest)) => q == Ok::<(T, Seq<u8>), SerializingError>((v, rest + t)),
        Err(e) => e == SerializingError::UnexpectedEnd || q == Err::<
            (T, Seq<u8>),
            SerializingError,
        >(e),
    }
}

/// `n` bytes as they stand.
pub open spec fn parse_bytes(s: Seq<u8>, n: nat) -> Parsed<Seq<u8>> {
    if s.len() < n {
        Err(SerializingError::UnexpectedEnd)
    } else {
        Ok((s.take(n as int), s.skip(n as int)))
    }
}

/// One byte.
pub open spec fn parse_u8(s: Seq<u8>) -> Parsed<u8> {
    match parse_bytes(s, 1) {
        Ok((b, rest)) => Ok((b[0], rest)),
        Err(e) => Err(e),
    }
}

/// A number of `n` bytes.
pub open spec fn parse_uint(s: Seq<u8>, n: nat) -> Parsed<nat> {
    match parse_bytes(s, n) {
        Ok((b, rest)) => Ok((be_value(b), rest)),
        Err(e) => Err(e),
    }
}

/// Two bytes that spell a number.
pub open spec fn parse_u16(s: Seq<u8>) -> Parsed<u16> {
    match parse_uint(s, 2) {
        Ok((v, rest)) => Ok((v as u16, rest)),
        Err(e) => Err(e),
    }
}

/// Four bytes that spell a number.
pub open spec fn parse_u32(s: Seq<u8>) -> Parsed<u32> {
    match parse_uint(s, 4) {
        Ok((v, rest)) => Ok((v as u32, rest)),
        Err(e) => Err(e),
    }
}

/// Eight bytes that spell an amount in the safe range.
pub open spec fn parse_coin(s: Seq<u8>) -> Parsed<Coin> {
    match parse_uint(s, 8) {
        Ok((v, rest)) => if v <= MAX_SAFE_VALUE {
            Ok((Coin { lunas: v as u64 }, rest))
        } else {
            Err(SerializingError::Overflow)
        },
        Err(e) => Err(e),
    }
}

/// The address with these bytes.
pub open spec fn address_of(s: Seq<u8>) -> Address {
    choose|a: Address| a.bytes@ == s
}

/// An address is the address of its bytes.
pub proof fn lemma_address_of(a: Address)
    ensures
        address_of(a.bytes@) == a,
{
    let b = address_of(a.bytes@);
    assert(b.bytes@ == a.bytes@);
    lemma_same_bytes(b, a);
}

/// Twenty bytes that are an address.
pub open spec fn parse_address(s: Seq<u8>) -> Parsed<Address> {
    match parse_bytes(s, 20) {
        Ok((b, rest)) => Ok((address_of(b), rest)),
        Err(e) => Err(e),
    }
}

/// A tag byte, and an address behind it where the tag is 1.
pub open spec fn parse_opt_address(s: Seq<u8>) -> Parsed<Option<Address>> {
    match parse_u8(s) {
        Ok((tag, rest)) => if tag == 0 {
            Ok((None, rest))
        } else if tag == 1 {
            match parse_address(rest) {
                Ok((a, rest1)) => Ok((Some(a), rest1)),
                Err(e) => Err(e),
            }
        } else {
            Err(SerializingError::InvalidValue)
        },
        Err(e) => Err(e),
    }
}

/// The bytes of an optional address: a tag, and the address if there is one.
pub open spec fn opt_address_bytes(a: Option<Address>) -> Seq<u8> {
    match a {
        Some(a) => seq![1u8] + a.bytes@,
        None => seq![0u8],
    }
}

/// Appends the lowest `n` bytes of `v`, the most significant first.
pub fn put_uint(out: &mut Vec<u8>, v: u64, n: usize)
    ensures
        final(out)@ == old(out)@ + be_bytes(v as nat, n as nat),
    decreases n,
{
    if n > 0 {
        put_uint(out, v / 256, n - 1);
        let b: u8 = (v % 256) as u8;
        out.push(b);
    }
}

/// Appends bytes as they stand.
pub fn put_bytes(out: &mut Vec<u8>, b: &[u8])
    ensures
        final(out)@ == old(out)@ + b@,
{
    let mut i: usize = 0;
    while i < b.len()
        invariant
            i <= b@.len(),
            out@ == old(out)@ + b@.take(i as int),
        decreases b@.len() - i,
    {
        out.push(b[i]);
        assert(b@.take(i + 1) =~= b@.take(i as int).push(b@[i as int]));
        i = i + 1;
    }
    assert(b@.take(i as int) =~= b@);
}

/// Appends a tag, and the address if there is one.
pub fn put_opt_address(out: &mut Vec<u8>, a: &Option<Address>)
    ensures
        final(out)@ == old(out)@ + opt_address_bytes(*a),
{
    match a {
        Some(a) => {
            out.push(1u8);
            put_bytes(out, &a.bytes);
            assert(out@ =~= old(out)@ + (seq![1u8] + a.bytes@));
        },
        None => {
            out.push(0u8);
            assert(out@ =~= old(out)@ + seq![0u8]);
        },
    }
}

/// A place in a byte string from which values are read.
pub struct Cursor<'a> {
    bytes: &'a [u8],
    pos: usize,
    missing: usize,
}

impl<'a> Cursor<'a> {
    /// The cursor stands inside its input.
    pub closed spec fn wf(&self) -> bool {
        self.pos <= self.bytes@.len()
    }

    /// The whole input.
    pub closed spec fn input(&self) -> Seq<u8> {
        self.bytes@
    }

    /// What is left to read.
    pub closed spec fn rest(&self) -> Seq<u8> {
        self.bytes@.skip(self.pos as int)
    }

    /// After a read that met the end of the input, how many bytes that read lacked.
    pub closed spec fn missing(&self) -> nat {
        self.missing as nat
    }

    /// Starts at the front of `bytes`.
    pub fn new(bytes: &'a [u8]) -> (c: Cursor<'a>)
        ensures
            c.wf(),
            c.input() == bytes@,
            c.rest() == bytes@,
    {
        let c = Cursor { bytes, pos: 0, missing: 0 };
        assert(c.rest() =~= bytes@);
        c
    }

    /// How many bytes have been read.
    pub fn consumed(&self) -> (n: usize)
        requires
            self.wf(),
        ensures
            n == self.input().len() - self.rest().len(),
            self.rest() == self.input().skip(n as int),
            n <= self.input().len(),
    {
        self.pos
    }

    /// After a read that met the end of the input, how many bytes that read lacked.
    pub fn lacked(&self) -> (n: usize)
        ensures
            n == self.missing(),
    {
        self.missing
    }

    /// Whether `n` more bytes are there; if not, notes how many are missing.
    fn has(&mut self, n: usize) -> (b: bool)
        requires
            old(self).wf(),
        ensures
            b == (old(self).rest().len() >= n),
            final(self).wf(),
            final(self).input() == old(self).input(),
            final(self).rest() == old(self).rest(),
            final(self).bytes == old(self).bytes,
            final(self).pos == old(self).pos,
            !b ==> final(self).missing() == n - old(self).rest().len(),
    {
        let left: usize = self.bytes.len() - self.pos;
        if left < n {
            self.missing = n - left;
        }
        left >= n
    }

    /// Reads a number of `n` bytes.
    pub fn read_uint(&mut self, n: usize) -> (r: Result<u64, SerializingError>)
        requires
            old(self).wf(),
            n <= 8,
        ensures
            final(self).wf(),
            final(self).input() == old(self).input(),
            ends_early(parse_uint(old(self).rest(), n as nat)) ==> final(self).missing() > 0 && forall|t: Seq<u8>|
                t.len() < final(self).missing() ==> ends_early(
                    #[trigger] parse_uint(old(self).rest() + t, n as nat),
                ),
            match parse_uint(old(self).rest(), n as nat) {
                Ok((v, rest)) => r == Ok::<u64, SerializingError>(v as u64) && v <= u64::MAX
                    && final(self).rest() == rest,
                Err(e) => r == Err::<u64, SerializingError>(e),
            },
    {
        if !self.has(n) {
            return Err(SerializingError::UnexpectedEnd);
        }
        let ghost s = self.rest();
        let mut v: u64 = 0;
        let mut i: usize = 0;
        proof {
            lemma_pow256();
        }
        assert(self.pos + n <= self.bytes.len());
        while i < n
            invariant
                self.pos + n <= usize::MAX,
                i <= n <= 8,
                self.wf(),
                self.rest() == s,
                self.input() == old(self).input(),
                s.len() >= n,
                v == be_value(s.take(i as int)),
                pow256(8) == 0x1_0000_0000_0000_0000,
            decreases n - i,
        {
            let b: u8 = self.bytes[self.pos + i];
            proof {
                assert(b == s[i as int]);
                assert(s.take(i + 1).drop_last() =~= s.take(i as int));
                lemma_be_value_bound(s.take(i + 1));
                lemma_pow256_grows((i + 1) as nat, 8);
            }
            v = v * 256 + b as u64;
            i = i + 1;
        }
        proof {
            lemma_be_value_bound(s.take(n as int));
        }
        let ghost before = self.bytes@.skip(self.pos as int);
        self.pos = self.pos + n;
        assert(self.rest() =~= before.skip(n as int));
        Ok(v)
    }

    /// Reads one byte.
    pub fn read_u8(&mut self) -> (r: Result<u8, SerializingError>)
        requires
            old(self).wf(),
        ensures
            final(self).wf(),
            final(self).input() == old(self).input(),
            ends_early(parse_u8(old(self).rest())) ==> final(self).missing() > 0 && forall|t: Seq<u8>|
                t.len() < final(self).missing() ==> ends_early(
                    #[trigger] parse_u8(old(self).rest() + t),
                ),
            match parse_u8(old(self).rest()) {
                Ok((v, rest)) => r == Ok::<u8, SerializingError>(v) && final(self).rest() == rest,
                Err(e) => r == Err::<u8, SerializingError>(e),
            },
    {
        if !self.has(1) {
            return Err(SerializingError::UnexpectedEnd);
        }
        let b: u8 = self.bytes[self.pos];
        let ghost before = self.rest();
        assert(b == before.take(1)[0]);
        self.pos = self.pos + 1;
        assert(self.rest() =~= before.skip(1));
        Ok(b)
    }

    /// Reads a number of two bytes.
    pub fn read_u16(&mut self) -> (r: Result<u16, SerializingError>)
        requires
            old(self).wf(),
        ensures
            final(self).wf(),
            final(self).input() == old(self).input(),
            ends_early(parse_u16(old(self).rest())) ==> final(self).missing() > 0 && forall|t: Seq<u8>|
                t.len() < final(self).missing() ==> ends_early(
                    #[trigger] parse_u16(old(self).rest() + t),
                ),
            match parse_u16(old(self).rest()) {
                Ok((v, rest)) => r == Ok::<u16, SerializingError>(v) && final(self).rest() == rest,
                Err(e) => r == Err::<u16, SerializingError>(e),
            },
    {
        proof {
            lemma_be_value_bound(self.rest().take(2));
            lemma_pow256();
        }
        match self.read_uint(2) {
            Ok(v) => Ok(v as u16),
            Err(e) => Err(e),
        }
    }

    /// Reads a number of four bytes.
    pub fn read_u32(&mut self) -> (r: Result<u32, SerializingError>)
        requires
            old(self).wf(),
        ensures
            final(self).wf(),
            final(self).input() == old(self).input(),
            ends_early(parse_u32(old(self).rest())) ==> final(self).missing() > 0 && forall|t: Seq<u8>|
                t.len() < final(self).missing() ==> ends_early(
                    #[trigger] parse_u32(old(self).rest() + t),
                ),
            match parse_u32(old(self).rest()) {
                Ok((v, rest)) => r == Ok::<u32, SerializingError>(v) && final(self).rest() == rest,
                Err(e) => r == Err::<u32, SerializingError>(e),
            },
    {
        proof {
            lemma_be_value_bound(self.rest().take(4));
            lemma_pow256();
        }
        match self.read_uint(4) {
            Ok(v) => Ok(v as u32),
            Err(e) => Err(e),
        }
    }

    /// Reads an amount.
    pub fn read_coin(&mut self) -> (r: Result<Coin, SerializingError>)
        requires
            old(self).wf(),
        ensures
            final(self).wf(),
            final(self).input() == old(self).input(),
            ends_early(parse_coin(old(self).rest())) ==> final(self).missing() > 0 && forall|t: Seq<u8>|
                t.len() < final(self).missing() ==> ends_early(
                    #[trigger] parse_coin(old(self).rest() + t),
                ),
            match parse_coin(old(self).rest()) {
                Ok((v, rest)) => r == Ok::<Coin, SerializingError>(v) && final(self).rest() == rest,
                Err(e) => r == Err::<Coin, SerializingError>(e),
            },
    {
        match self.read_uint(8) {
            Ok(v) => Coin::from_u64(v),
            Err(e) => Err(e),
        }
    }

    /// Reads `N` bytes as they stand.
    pub fn read_array<const N: usize>(&mut self) -> (r: Result<[u8; N], SerializingError>)
        requires
            old(self).wf(),
        ensures
            final(self).wf(),
            final(self).input() == old(self).input(),
            ends_early(parse_bytes(old(self).rest(), N as nat)) ==> final(self).missing() > 0 && forall|t: Seq<u8>|
                t.len() < final(self).missing() ==> ends_early(
                    #[trigger] parse_bytes(old(self).rest() + t, N as nat),
                ),
            match parse_bytes(old(self).rest(), N as nat) {
                Ok((v, rest)) => r is Ok && r->Ok_0@ == v && final(self).rest() == rest,
                Err(e) => r == Err::<[u8; N], SerializingError>(e),
            },
    {
        if !self.has(N) {
            return Err(SerializingError::UnexpectedEnd);
        }
        let ghost s = self.rest();
        let mut out: [u8; N] = [0u8; N];
        let mut i: usize = 0;
        assert(self.pos + N <= self.bytes.len());
        while i < N
            invariant
                self.pos + N <= usize::MAX,
                i <= N,
                self.wf(),
                self.rest() == s,
                self.input() == old(self).input(),
                s.len() >= N,
                out@.len() == N,
                forall|j: int| 0 <= j < i ==> out@[j] == s[j],
            decreases N - i,
        {
            let b: u8 = self.bytes[self.pos + i];
            assert(b == s[i as int]);
            out[i] = b;
            i = i + 1;
        }
        assert(out@ =~= s.take(N as int));
        let ghost before = self.bytes@.skip(self.pos as int);
        self.pos = self.pos + N;
        assert(self.rest() =~= before.skip(N as int));
        Ok(out)
    }

    /// Reads an address.
    pub fn read_address(&mut self) -> (r: Result<Address, SerializingError>)
        requires
            old(self).wf(),
        ensures
            final(self).wf(),
            final(self).input() == old(self).input(),
            ends_early(parse_address(old(self).rest())) ==> final(self).missing() > 0 && forall|t: Seq<u8>|
                t.len() < final(self).missing() ==> ends_early(
                    #[trigger] parse_address(old(self).rest() + t),
                ),
            match parse_address(old(self).rest()) {
                Ok((v, rest)) => r == Ok::<Address, SerializingError>(v) && final(self).rest()
                    == rest,
                Err(e) => r == Err::<Address, SerializingError>(e),
            },
    {
        match self.read_array::<20>() {
            Ok(bytes) => {
                let a = Address { bytes };
                proof {
                    lemma_address_of(a);
                }
                Ok(a)
            },
            Err(e) => Err(e),
        }
    }

    /// Reads an optional address.
    pub fn read_opt_address(&mut self) -> (r: Result<Option<Address>, SerializingError>)
        requires
            old(self).wf(),
        ensures
            final(self).wf(),
            final(self).input() == old(self).input(),
            ends_early(parse_opt_address(old(self).rest())) ==> final(self).missing() > 0 && forall|t: Seq<u8>|
                t.len() < final(self).missing() ==> ends_early(
                    #[trigger] parse_opt_address(old(self).rest() + t),
                ),
            match parse_opt_address(old(self).rest()) {
                Ok((v, rest)) => r == Ok::<Option<Address>, SerializingError>(v)
                    && final(self).rest() == rest,
                Err(e) => r == Err::<Option<Address>, SerializingError>(e),
            },
    {
        let ghost s = self.rest();
        let tag: u8 = match self.read_u8() {
            Ok(tag) => tag,
            Err(e) => {
                return Err(e);
            },
        };
        if tag == 0 {
            Ok(None)
        } else if tag == 1 {
            match self.read_address() {
                Ok(a) => Ok(Some(a)),
                Err(e) => {
                    assert forall|t: Seq<u8>| t.len() < self.missing() implies ends_early(
                        #[trigger] parse_opt_address(s + t),
                    ) by {
                        lemma_carry_u8(s, t);
                    }
                    Err(e)
                },
            }
        } else {
            Err(SerializingError::InvalidValue)
        }
    }
}

/// Bytes behind the input do not change what is read of it.
pub proof fn lemma_carry_bytes(s: Seq<u8>, n: nat, t: Seq<u8>)
    ensures
        carried(parse_bytes(s, n), parse_bytes(s + t, n), t),
{
    if s.len() >= n {
        assert((s + t).take(n as int) =~= s.take(n as int));
        assert((s + t).skip(n as int) =~= s.skip(n as int) + t);
    }
}

/// Bytes behind the input do not change what is read of it.
pub proof fn lemma_carry_u8(s: Seq<u8>, t: Seq<u8>)
    ensures
        carried(parse_u8(s), parse_u8(s + t), t),
{
    lemma_carry_bytes(s, 1, t);
}

/// Bytes behind the input do not change what is read of it.
pub proof fn lemma_carry_u16(s: Seq<u8>, t: Seq<u8>)
    ensures
        carried(parse_u16(s), parse_u16(s + t), t),
{
    lemma_carry_bytes(s, 2, t);
}

/// Bytes behind the input do not change what is read of it.
pub proof fn lemma_carry_u32(s: Seq<u8>, t: Seq<u8>)
    ensures
        carried(parse_u32(s), parse_u32(s + t), t),
{
    lemma_carry_bytes(s, 4, t);
}

/// Bytes behind the input do not change what is read of it.
pub proof fn lemma_carry_coin(s: Seq<u8>, t: Seq<u8>)
    ensures
        carried(parse_coin(s), parse_coin(s + t), t),
{
    lemma_carry_bytes(s, 8, t);
}

/// Bytes behind the input do not change what is read of it.
pub proof fn lemma_carry_address(s: Seq<u8>, t: Seq<u8>)
    ensures
        carried(parse_address(s), parse_address(s + t), t),
{
    lemma_carry_bytes(s, 20, t);
}

/// Bytes behind the input do not change what is read of it.
pub proof fn lemma_carry_opt_address(s: Seq<u8>, t: Seq<u8>)
    ensures
        carried(parse_opt_address(s), parse_opt_address(s + t), t),
{
    lemma_carry_u8(s, t);
    if let Ok((tag, rest)) = parse_u8(s) {
        lemma_carry_address(rest, t);
    }
}

/// Writing the number that bytes spell, in as many bytes, gives the bytes back.
pub proof fn lemma_be_bytes_of_value(s: Seq<u8>)
    ensures
        be_bytes(be_value(s), s.len()) == s,
    decreases s.len(),
{
    if s.len() > 0 {
        let v = be_value(s.drop_last());
        let b = s.last();
        lemma_be_bytes_of_value(s.drop_last());
        assert(be_value(s) == v * 256 + b);
        assert((v * 256 + b) / 256 == v && (v * 256 + b) % 256 == b) by (nonlinear_arith)
            requires
                0 <= b < 256,
        ;
        assert(be_bytes(be_value(s), s.len()) =~= s);
    } else {
        assert(be_bytes(be_value(s), s.len()) =~= s);
    }
}

/// Wider is larger.
pub proof fn lemma_pow256_grows(m: nat, n: nat)
    requires
        m <= n,
    ensures
        pow256(m) <= pow256(n),
    decreases n,
{
    if m < n {
        lemma_pow256_grows(m, (n - 1) as nat);
    }
}

/// Reading a number gives back the number written, and leaves what stood behind it.
pub proof fn lemma_parse_uint_written(v: nat, n: nat, tail: Seq<u8>)
    requires
        v < pow256(n),
    ensures
        parse_uint(be_bytes(v, n) + tail, n) == Ok::<(nat, Seq<u8>), SerializingError>((v, tail)),
{
    let s = be_bytes(v, n) + tail;
    lemma_be_bytes_len(v, n);
    lemma_be_value_of_bytes(v, n);
    assert(s.take(n as int) =~= be_bytes(v, n));
    assert(s.skip(n as int) =~= tail);
}

/// Reading bytes gives back the bytes written, and leaves what stood behind them.
pub proof fn lemma_parse_bytes_written(b: Seq<u8>, tail: Seq<u8>)
    ensures
        parse_bytes(b + tail, b.len()) == Ok::<(Seq<u8>, Seq<u8>), SerializingError>((b, tail)),
{
    assert((b + tail).take(b.len() as int) =~= b);
    assert((b + tail).skip(b.len() as int) =~= tail);
}

/// Reading an optional address gives back the one written.
pub proof fn lemma_parse_opt_address_written(a: Option<Address>, tail: Seq<u8>)
    ensures
        parse_opt_address(opt_address_bytes(a) + tail) == Ok::<
            (Option<Address>, Seq<u8>),
            SerializingError,
        >((a, tail)),
{
    let s = opt_address_bytes(a) + tail;
    match a {
        Some(a) => {
            lemma_parse_bytes_written(seq![1u8], a.bytes@ + tail);
            assert(s =~= seq![1u8] + (a.bytes@ + tail));
            lemma_parse_bytes_written(a.bytes@, tail);
            lemma_address_of(a);
        },
        None => {
            lemma_parse_bytes_written(seq![0u8], tail);
        },
    }
}

} // verus!
