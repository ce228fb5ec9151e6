//! Packed eight-byte trading symbols.
//!
//! A `Token` holds a symbol such as `XMRBTC` left-justified in a fixed
//! eight-byte buffer, padded with zero bytes. Packing a longer symbol is
//! rejected; reading the text back trims the padding.

use vstd::prelude::*;
use vstd::string::StringSliceAdditionalSpecFns;

verus! {

/// A trading symbol of at most eight bytes, zero-padded to eight.
#[derive(Clone, Copy, Debug, PartialEq, Eq, Hash, PartialOrd, Ord)]
pub struct Token {
    bytes: [u8; 8],
}

/// Why a string cannot become a `Token`.
#[derive(Clone, Copy, Debug, PartialEq, Eq, Structural)]
pub enum TokenError {
    /// The symbol exceeds eight bytes; carries the offending length.
    TokenTooLong(usize),
}

/// `s` zero-padded on the right to eight bytes.
pub open spec fn padded(s: Seq<u8>) -> Seq<u8> {
    s + Seq::new((8 - s.len()) as nat, |i: int| 0u8)
}

/// `s` with every trailing zero byte removed.
pub open spec fn trim_trailing_zeros(s: Seq<u8>) -> Seq<u8>
    decreases s.len(),
{
    if s.len() == 0 || s.last() != 0 {
        s
    } else {
        trim_trailing_zeros(s.drop_last())
    }
}

/// The longest prefix of `s` holding no zero byte.
pub open spec fn prefix_to_zero(s: Seq<u8>) -> Seq<u8>
    decreases s.len(),
{
    if s.len() == 0 {
        s
    } else if s[0] == 0 {
        Seq::empty()
    } else {
        seq![s[0]] + prefix_to_zero(s.drop_first())
    }
}

impl View for Token {
    type V = Seq<u8>;

    closed spec fn view(&self) -> Seq<u8> {
        self.bytes@
    }
}

/// Trimming trailing zeros takes the prefix that ends at the last nonzero
/// byte.
proof fn lemma_trim_take(s: Seq<u8>, end: int)
    requires
        0 <= end <= s.len(),
        forall|j: int| end <= j < s.len() ==> s[j] == 0,
        end > 0 ==> s[end - 1] != 0,
    ensures
        trim_trailing_zeros(s) == s.subrange(0, end),
    decreases s.len(),
{
    if s.len() == 0 {
        assert(s.subrange(0, 0) =~= s);
    } else if s.last() != 0 {
        assert(end == s.len());
        assert(s.subrange(0, end) =~= s);
    } else {
        assert(end < s.len());
        lemma_trim_take(s.drop_last(), end);
        assert(s.drop_last().subrange(0, end) =~= s.subrange(0, end));
    }
}

/// The prefix up to the first zero byte is the subrange that the scan for a
/// zero byte stops at.
proof fn lemma_prefix_take(s: Seq<u8>, end: int)
    requires
        0 <= end <= s.len(),
        forall|j: int| 0 <= j < end ==> s[j] != 0,
        end < s.len() ==> s[end] == 0,
    ensures
        prefix_to_zero(s) == s.subrange(0, end),
    decreases s.len(),
{
    if s.len() == 0 {
        assert(s.subrange(0, 0) =~= s);
    } else if s[0] == 0 {
        assert(end == 0);
        assert(s.subrange(0, 0) =~= Seq::<u8>::empty());
    } else {
        assert(end >= 1);
        let t = s.drop_first();
        lemma_prefix_take(t, end - 1);
        assert(t.subrange(0, end - 1) =~= s.subrange(1, end));
        assert(seq![s[0]] + s.subrange(1, end) =~= s.subrange(0, end));
    }
}

/// Packing a symbol and trimming the padding recovers it, as long as the
/// symbol does not itself end in a zero byte.
pub proof fn lemma_pack_round_trip(s: Seq<u8>)
    requires
        s.len() <= 8,
        s.len() > 0 ==> s.last() != 0,
    ensures
        trim_trailing_zeros(padded(s)) == s,
{
    let p = padded(s);
    assert(forall|j: int| s.len() <= j < p.len() ==> p[j] == 0);
    assert(s.len() > 0 ==> p[s.len() - 1] == s.last());
    lemma_trim_take(p, s.len() as int);
    assert(p.subrange(0, s.len() as int) =~= s);
}

impl Token {
    /// Pack a string of at most eight bytes; a longer one is rejected with
    /// its length.
    pub fn try_from(s: &str) -> (r: Result<Token, TokenError>)
        ensures
            match r {
                Ok(t) => s.spec_bytes().len() <= 8 && t@ == padded(s.spec_bytes()),
                Err(e) => e matches TokenError::TokenTooLong(l) && l == s.spec_bytes().len()
                    && s.spec_bytes().len() > 8,
            },
    {
        let bytes: &[u8] = s.as_bytes();
        let n = bytes.len();
        if n > 8 {
            return Err(TokenError::TokenTooLong(n));
        }
        let mut buf: [u8; 8] = [0u8; 8];
        let mut i: usize = 0;
        while i < n
            invariant
                bytes@ == s.spec_bytes(),
                n == bytes@.len(),
                n <= 8,
                i <= n,
                forall|j: int| 0 <= j < i ==> buf@[j] == bytes@[j],
                forall|j: int| i <= j < 8 ==> buf@[j] == 0,
            decreases n - i,
        {
            buf[i] = bytes[i];
            i += 1;
        }
        let t = Token { bytes: buf };
        proof {
            assert(t@ =~= padded(s.spec_bytes()));
        }
        Ok(t)
    }

    /// The full eight-byte buffer, padding included.
    pub fn to_bytes(&self) -> (r: [u8; 8])
        ensures
            r@ == self@,
    {
        self.bytes
    }

    /// The symbol's text: the buffer with its zero padding trimmed.
    pub fn text_bytes(&self) -> (r: Vec<u8>)
        ensures
            r@ == trim_trailing_zeros(self@),
    {
        let mut end: usize = 8;
        while end > 0 && self.bytes[end - 1] == 0
            invariant
                end <= 8,
                forall|j: int| end <= j < 8 ==> self.bytes@[j] == 0,
            decreases end,
        {
            end -= 1;
        }
        proof {
            lemma_trim_take(self.bytes@, end as int);
        }
        let mut out: Vec<u8> = Vec::new();
        let mut i: usize = 0;
        while i < end
            invariant
                end <= 8,
                out@ == self.bytes@.subrange(0, i as int),
                i <= end,
            decreases end - i,
        {
            out.push(self.bytes[i]);
            proof {
                assert(self.bytes@.subrange(0, i as int).push(self.bytes@[i as int])
                    =~= self.bytes@.subrange(0, i as int + 1));
            }
            i += 1;
        }
        out
    }

    /// The symbol's text cut at the first zero byte, the form used when the
    /// token becomes an owned string.
    pub fn prefix_bytes(&self) -> (r: Vec<u8>)
        ensures
            r@ == prefix_to_zero(self@),
    {
        let mut end: usize = 0;
        while end < 8 && self.bytes[end] != 0
            invariant
                end <= 8,
                forall|j: int| 0 <= j < end ==> self.bytes@[j] != 0,
            decreases 8 - end,
        {
            end += 1;
        }
        proof {
            lemma_prefix_take(self.bytes@, end as int);
        }
        let mut out: Vec<u8> = Vec::new();
        let mut i: usize = 0;
        while i < end
            invariant
                end <= 8,
                out@ == self.bytes@.subrange(0, i as int),
                i <= end,
            decreases end - i,
        {
            out.push(self.bytes[i]);
            proof {
                assert(self.bytes@.subrange(0, i as int).push(self.bytes@[i as int])
                    =~= self.bytes@.subrange(0, i as int + 1));
            }
            i += 1;
        }
        out
    }
}

} // verus!
