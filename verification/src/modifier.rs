//! Modifiers packed into a machine word.

use vstd::prelude::*;
use vstd::slice::slice_subrange;
use vstd::string::StringSliceAdditionalSpecFns;
use vstd::utf8::{encode_utf8, valid_utf8};

verus! {

/// The number of bytes a modifier can hold.
pub const CAPACITY: usize = 8;

/// A token, cut or filled up with zero bytes to exactly `CAPACITY` bytes.
pub open spec fn zero_padded(token: Seq<u8>) -> Seq<u8> {
    Seq::new(
        CAPACITY as nat,
        |i: int|
            if i < token.len() {
                token[i]
            } else {
                0u8
            },
    )
}

/// `bytes` without the zero bytes at its back.
pub open spec fn unpadded(bytes: Seq<u8>) -> Seq<u8>
    decreases bytes.len(),
{
    if bytes.len() > 0 && bytes.last() == 0 {
        unpadded(bytes.drop_last())
    } else {
        bytes
    }
}

/// Padding adds nothing but zero bytes at the back: taking them off a
/// padded token leaves what taking them off the token leaves, which is the
/// token itself where it does not end in a zero byte.
pub proof fn lemma_unpadded_padded(token: Seq<u8>)
    requires
        token.len() <= CAPACITY,
    ensures
        unpadded(zero_padded(token)) == unpadded(token),
        token.len() == 0 || token.last() != 0 ==> unpadded(token) == token,
{
    lemma_unpadded_zeros(zero_padded(token), token.len() as int);
    assert(zero_padded(token).take(token.len() as int) =~= token);
}

/// Zero bytes from `from` on are all taken off.
proof fn lemma_unpadded_zeros(bytes: Seq<u8>, from: int)
    requires
        0 <= from <= bytes.len(),
        forall|i: int| from <= i < bytes.len() ==> bytes[i] == 0,
    ensures
        unpadded(bytes) == unpadded(bytes.take(from)),
    decreases bytes.len() - from,
{
    if from < bytes.len() {
        lemma_unpadded_zeros(bytes.drop_last(), from);
        assert(bytes.drop_last().take(from) =~= bytes.take(from));
    } else {
        assert(bytes.take(from) =~= bytes);
    }
}

/// Two tokens that fit and end in no zero byte give the same modifier only
/// if they are the same token.
pub proof fn lemma_zero_padded_injective(a: Seq<u8>, b: Seq<u8>)
    requires
        a.len() <= CAPACITY,
        b.len() <= CAPACITY,
        a.len() == 0 || a.last() != 0,
        b.len() == 0 || b.last() != 0,
        zero_padded(a) == zero_padded(b),
    ensures
        a == b,
{
    lemma_unpadded_padded(a);
    lemma_unpadded_padded(b);
}

/// The number written by `bytes` in base 256, most significant byte first.
spec fn pack(bytes: Seq<u8>) -> nat
    decreases bytes.len(),
{
    if bytes.len() == 0 {
        0
    } else {
        pack(bytes.drop_last()) * 256 + bytes.last() as nat
    }
}

/// The `width` lowest base-256 digits of `value`, most significant first.
spec fn unpack(value: nat, width: nat) -> Seq<u8>
    decreases width,
{
    if width == 0 {
        Seq::empty()
    } else {
        unpack(value / 256, (width - 1) as nat).push((value % 256) as u8)
    }
}

/// The number of values that `width` bytes can take: 256 to the power `width`.
spec fn limit(width: nat) -> nat
    decreases width,
{
    if width == 0 {
        1
    } else {
        256 * limit((width - 1) as nat)
    }
}

/// `unpack` gives as many digits as it is asked for.
proof fn lemma_unpack_len(value: nat, width: nat)
    ensures
        unpack(value, width).len() == width,
    decreases width,
{
    if width > 0 {
        lemma_unpack_len(value / 256, (width - 1) as nat);
    }
}

/// The digits of the number that `bytes` writes are `bytes`.
proof fn lemma_unpack_pack(bytes: Seq<u8>)
    ensures
        unpack(pack(bytes), bytes.len()) == bytes,
    decreases bytes.len(),
{
    if bytes.len() > 0 {
        let init = bytes.drop_last();
        lemma_unpack_pack(init);
        assert(pack(bytes) / 256 == pack(init));
        assert(pack(bytes) % 256 == bytes.last());
        assert(init.push(bytes.last()) =~= bytes);
    } else {
        assert(bytes =~= Seq::<u8>::empty());
    }
}

/// A number that `width` digits can write is written by its digits.
proof fn lemma_pack_unpack(value: nat, width: nat)
    requires
        value < limit(width),
    ensures
        pack(unpack(value, width)) == value,
    decreases width,
{
    if width > 0 {
        let init = unpack(value / 256, (width - 1) as nat);
        lemma_pack_unpack(value / 256, (width - 1) as nat);
        assert(unpack(value, width).drop_last() =~= init);
    }
}

/// The error of `core::str::from_utf8`. Nothing is known of what it holds.
#[verifier::external_type_specification]
#[verifier::external_body]
pub struct ExUtf8Error(core::str::Utf8Error);

/// Assumed of `core::str::from_utf8`, on the word of its documentation and
/// without proof: it succeeds exactly on well-formed UTF-8, and the text
/// that it then gives has the bytes that it was given.
pub assume_specification[ core::str::from_utf8 ](v: &[u8]) -> (text: Result<
    &str,
    core::str::Utf8Error,
>)
    ensures
        text is Ok <==> valid_utf8(v@),
        text matches Ok(s) ==> s.spec_bytes() == v@,
;

/// A modifier: a token of at most `CAPACITY` bytes, held as one integer
/// so that two modifiers compare in a single step.
#[derive(Clone, Copy, Debug, PartialEq, Eq, Structural)]
pub struct Modifier(u64);

impl View for Modifier {
    type V = Seq<u8>;

    /// The bytes of the token, filled up with zero bytes to `CAPACITY`.
    closed spec fn view(&self) -> Seq<u8> {
        unpack(self.0 as nat, CAPACITY as nat)
    }
}

impl DeepView for Modifier {
    type V = Seq<u8>;

    open spec fn deep_view(&self) -> Seq<u8> {
        self@
    }
}

impl Modifier {
    /// The modifier of the empty token.
    pub fn empty() -> (m: Modifier)
        ensures
            m@ == zero_padded(Seq::empty()),
    {
        proof {
            reveal_with_fuel(unpack, 9);
            assert(unpack(0, CAPACITY as nat) =~= zero_padded(Seq::empty()));
        }
        Modifier(0)
    }

    /// Packs a token of at most `CAPACITY` bytes.
    pub fn from_bytes(token: &[u8]) -> (m: Modifier)
        requires
            token@.len() <= CAPACITY,
        ensures
            m@ == zero_padded(token@),
    {
        let ghost padded = zero_padded(token@);
        let mut value: u64 = 0;
        let mut i: usize = 0;
        while i < CAPACITY
            invariant
                i <= CAPACITY,
                padded == zero_padded(token@),
                value == pack(padded.take(i as int)),
                value < limit(i as nat),
            decreases CAPACITY - i,
        {
            let byte: u8 = if i < token.len() {
                token[i]
            } else {
                0
            };
            proof {
                reveal_with_fuel(limit, 9);
                assert(padded.take(i + 1).drop_last() =~= padded.take(i as int));
                assert(padded.take(i + 1).last() == byte);
            }
            value = value * 256 + byte as u64;
            i += 1;
        }
        proof {
            assert(padded.take(CAPACITY as int) =~= padded);
            lemma_unpack_pack(padded);
        }
        Modifier(value)
    }

    /// Packs a name of at most `CAPACITY` bytes.
    pub fn new(name: &str) -> (m: Modifier)
        requires
            name.spec_bytes().len() <= CAPACITY,
        ensures
            m@ == zero_padded(name.spec_bytes()),
    {
        Modifier::from_bytes(name.as_bytes())
    }

    /// The token: the bytes held, without the zero bytes that fill them up.
    pub open spec fn token(self) -> Seq<u8> {
        unpadded(self@)
    }

    /// The token as text, where it is text.
    pub fn name(&self) -> (text: Option<String>)
        ensures
            text is Some <==> valid_utf8(self.token()),
            text matches Some(t) ==> encode_utf8(t@) == self.token(),
    {
        let mut bytes = [0u8;CAPACITY];
        let mut rest: u64 = self.0;
        let mut i: usize = CAPACITY;
        assert(bytes@.subrange(CAPACITY as int, CAPACITY as int) =~= Seq::<u8>::empty());
        while i > 0
            invariant
                i <= CAPACITY,
                self@ =~= unpack(rest as nat, i as nat) + bytes@.subrange(i as int, CAPACITY as int),
            decreases i,
        {
            let ghost before = bytes@;
            i -= 1;
            bytes[i] = (rest % 256) as u8;
            rest = rest / 256;
            assert(bytes@.subrange(i as int, CAPACITY as int) =~= seq![bytes@[i as int]]
                + before.subrange(i + 1, CAPACITY as int));
        }
        assert(bytes@ =~= self@);
        let mut len: usize = CAPACITY;
        assert(bytes@.take(len as int) =~= bytes@);
        while len > 0 && bytes[len - 1] == 0
            invariant
                len <= CAPACITY,
                unpadded(bytes@) == unpadded(bytes@.take(len as int)),
            decreases len,
        {
            assert(bytes@.take(len as int).drop_last() =~= bytes@.take(len - 1));
            len -= 1;
        }
        match core::str::from_utf8(slice_subrange(bytes.as_slice(), 0, len)) {
            Ok(text) => Some(text.to_owned()),
            Err(_) => None,
        }
    }

    /// Two modifiers are the same value exactly when they hold the same
    /// bytes, so `==` on modifiers compares tokens.
    pub proof fn lemma_equal_iff_same_bytes(self, other: Modifier)
        ensures
            self@.len() == CAPACITY,
            (self == other) <==> (self@ == other@),
    {
        reveal_with_fuel(limit, 9);
        lemma_unpack_len(self.0 as nat, CAPACITY as nat);
        lemma_pack_unpack(self.0 as nat, CAPACITY as nat);
        lemma_pack_unpack(other.0 as nat, CAPACITY as nat);
    }
}

} // verus!
