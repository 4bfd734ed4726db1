//! Text: UTF-8 in byte buffers, and small strings put together piece by piece.

use crate::bounded::{text_fits, BoundedString};
use vstd::prelude::*;
use vstd::utf8::{
    decode_utf8, decode_utf8_encode_utf8, encode_scalar, encode_utf8, encode_utf8_decode_utf8,
    encode_utf8_valid_utf8, is_ascii_chars, valid_utf8,
};

verus! {

/// Calls `core::str::from_utf8` and drops its error: the text whose encoding
/// `bytes` is, if they are the encoding of a text.
#[verifier::external_body]
fn from_utf8(bytes: &[u8]) -> (r: Option<&str>)
    ensures
        r is Some <==> valid_utf8(bytes@),
        r is Some ==> encode_utf8(r->0@) == bytes@,
{
    core::str::from_utf8(bytes).ok()
}

/// The text in a byte sequence, if it is valid UTF-8.
pub open spec fn text_of(bytes: Seq<u8>) -> Option<Seq<char>> {
    if valid_utf8(bytes) {
        Some(decode_utf8(bytes))
    } else {
        None
    }
}

/// Reads `bytes` as UTF-8 text.
pub fn utf8_text(bytes: &[u8]) -> (r: Option<&str>)
    ensures
        r is Some <==> text_of(bytes@) is Some,
        r is Some ==> Some(r->0@) == text_of(bytes@),
{
    let r = from_utf8(bytes);
    proof {
        if let Some(s) = r {
            encode_utf8_decode_utf8(s@);
        }
    }
    r
}

/// Every text is read back from its encoding, and the encoding is the only
/// byte sequence that reads as that text.
pub proof fn law_text_round_trip(text: Seq<char>, bytes: Seq<u8>)
    ensures
        text_of(encode_utf8(text)) == Some(text),
        text_of(bytes) == Some(text) ==> bytes == encode_utf8(text),
{
    encode_utf8_valid_utf8(text);
    encode_utf8_decode_utf8(text);
    if text_of(bytes) == Some(text) {
        decode_utf8_encode_utf8(bytes);
    }
}

// ---------------------------------------------------------------------------
// Filling small strings
// ---------------------------------------------------------------------------

/// What a string that starts as `start` holds after the characters of `text`
/// were appended one by one, each only if it still fits into `capacity` bytes.
pub open spec fn packed_onto(start: Seq<char>, text: Seq<char>, capacity: nat) -> Seq<char>
    decreases text.len(),
{
    if text.len() == 0 {
        start
    } else {
        let so_far = packed_onto(start, text.drop_last(), capacity);
        if text_fits(so_far.push(text.last()), capacity) {
            so_far.push(text.last())
        } else {
            so_far
        }
    }
}

/// What a string of `capacity` bytes takes up of `text`.
pub open spec fn packed(text: Seq<char>, capacity: nat) -> Seq<char> {
    packed_onto(Seq::empty(), text, capacity)
}

/// The first `limit` characters, or all if there are fewer.
pub open spec fn first_chars(text: Seq<char>, limit: nat) -> Seq<char> {
    if text.len() <= limit {
        text
    } else {
        text.take(limit as int)
    }
}

/// Append the first `limit` characters of `text`, each if it fits.
pub(crate) fn push_first_chars<const N: usize>(out: &mut BoundedString<N>, text: &str, limit: usize)
    ensures
        final(out)@ == packed_onto(old(out)@, first_chars(text@, limit as nat), N as nat),
{
    let ghost start = out@;
    let mut count: usize = 0;
    for c in it: text.chars()
        invariant
            it.seq() == text@,
            count == if it.index() <= limit {
                it.index()
            } else {
                limit as int
            },
            out@ == packed_onto(start, text@.take(count as int), N as nat),
    {
        if count < limit {
            proof {
                assert(text@.take(count + 1).drop_last() =~= text@.take(count as int));
            }
            let _ = out.push(c);
            count += 1;
        }
    }
    assert(text@.take(count as int) =~= first_chars(text@, limit as nat));
}

/// Append all characters of `text`, each if it fits.
pub(crate) fn push_chars<const N: usize>(out: &mut BoundedString<N>, text: &str)
    ensures
        final(out)@ == packed_onto(old(out)@, text@, N as nat),
{
    let ghost start = out@;
    for c in it: text.chars()
        invariant
            it.seq() == text@,
            out@ == packed_onto(start, text@.take(it.index()), N as nat),
    {
        proof {
            assert(text@.take(it.index() + 1).drop_last() =~= text@.take(it.index()));
        }
        let _ = out.push(c);
    }
    assert(text@.take(text@.len() as int) =~= text@);
}

/// The encoding of a text is the encodings of its parts, one behind the other.
pub proof fn lemma_encode_concat(a: Seq<char>, b: Seq<char>)
    ensures
        encode_utf8(a + b) == encode_utf8(a) + encode_utf8(b),
    decreases a.len(),
{
    if a.len() == 0 {
        assert(a + b =~= b);
        assert(encode_utf8(a) + encode_utf8(b) =~= encode_utf8(b));
    } else {
        let rest = a.drop_first();
        lemma_encode_concat(rest, b);
        assert((a + b).drop_first() =~= rest + b);
        let head = encode_scalar(a[0] as u32);
        assert((a + b)[0] == a[0]);
        assert(head + (encode_utf8(rest) + encode_utf8(b)) =~= (head + encode_utf8(rest))
            + encode_utf8(b));
    }
}

/// A text that fits as a whole is taken up as a whole.
pub proof fn lemma_packed_whole(start: Seq<char>, text: Seq<char>, capacity: nat)
    requires
        text_fits(start + text, capacity),
    ensures
        packed_onto(start, text, capacity) == start + text,
    decreases text.len(),
{
    if text.len() == 0 {
        assert(start + text =~= start);
    } else {
        let front = text.drop_last();
        let last = seq![text.last()];
        assert(start + text =~= (start + front) + last);
        assert((start + front).push(text.last()) =~= start + text);
        lemma_encode_concat(start + front, last);
        lemma_packed_whole(start, front, capacity);
    }
}

/// Packing two texts one after the other is packing them joined.
pub proof fn lemma_packed_concat(start: Seq<char>, a: Seq<char>, b: Seq<char>, capacity: nat)
    ensures
        packed_onto(packed_onto(start, a, capacity), b, capacity) == packed_onto(
            start,
            a + b,
            capacity,
        ),
    decreases b.len(),
{
    if b.len() == 0 {
        assert(a + b =~= a);
    } else {
        lemma_packed_concat(start, a, b.drop_last(), capacity);
        assert((a + b).drop_last() =~= a + b.drop_last());
        assert((a + b).last() == b.last());
    }
}

/// The first characters of a text are its beginning, and no more of them than
/// the limit and the text allow.
pub proof fn law_first_chars(text: Seq<char>, limit: nat)
    ensures
        first_chars(text, limit).is_prefix_of(text),
        first_chars(text, limit).len() == if text.len() <= limit {
            text.len()
        } else {
            limit
        },
{
}

/// Packing more keeps what is there and never goes over the capacity.
proof fn lemma_packed_grows(start: Seq<char>, text: Seq<char>, capacity: nat)
    requires
        encode_utf8(start).len() <= capacity,
    ensures
        start.is_prefix_of(packed_onto(start, text, capacity)),
        packed_onto(start, text, capacity).len() <= start.len() + text.len(),
        encode_utf8(packed_onto(start, text, capacity)).len() <= capacity,
    decreases text.len(),
{
    if text.len() > 0 {
        lemma_packed_grows(start, text.drop_last(), capacity);
    }
}

/// What a small string takes up of a text is within its capacity, and it
/// starts with every beginning of the text that is within the capacity.
pub proof fn law_packed_keeps_beginning(text: Seq<char>, k: nat, capacity: nat)
    requires
        k <= text.len(),
        encode_utf8(text.take(k as int)).len() <= capacity,
    ensures
        text.take(k as int).is_prefix_of(packed(text, capacity)),
        packed(text, capacity).len() <= text.len(),
        encode_utf8(packed(text, capacity)).len() <= capacity,
{
    let none = Seq::<char>::empty();
    let (a, b) = (text.take(k as int), text.skip(k as int));
    assert(a + b =~= text);
    assert(none + a =~= a);
    lemma_packed_concat(none, a, b, capacity);
    lemma_packed_whole(none, a, capacity);
    lemma_packed_grows(a, b, capacity);
}

/// One more character is taken up exactly if it is still within the capacity,
/// whether or not one before it was left out.
pub proof fn law_packed_takes_what_fits(text: Seq<char>, c: char, capacity: nat)
    ensures
        packed(text.push(c), capacity) == if encode_utf8(packed(text, capacity).push(c)).len()
            <= capacity {
            packed(text, capacity).push(c)
        } else {
            packed(text, capacity)
        },
{
    assert(text.push(c).drop_last() =~= text);
}

// ---------------------------------------------------------------------------
// Numbers
// ---------------------------------------------------------------------------

/// A number in decimal digits.
pub open spec fn decimal(n: nat) -> Seq<char>
    decreases n,
{
    let digit = "0123456789"@[(n % 10) as int];
    if n < 10 {
        seq![digit]
    } else {
        decimal(n / 10).push(digit)
    }
}

/// The number that decimal digits stand for.
pub open spec fn number_in(digits: Seq<char>) -> int
    decreases digits.len(),
{
    if digits.len() == 0 {
        0
    } else {
        10 * number_in(digits.drop_last()) + (digits.last() as int - '0' as int)
    }
}

/// A number is what its decimal digits stand for, and it has no leading zero.
pub proof fn law_decimal(n: nat)
    ensures
        number_in(decimal(n)) == n,
        decimal(n).len() > 0,
        forall|i: int| 0 <= i < decimal(n).len() ==> '0' <= #[trigger] decimal(n)[i] <= '9',
        n > 0 ==> decimal(n)[0] != '0',
    decreases n,
{
    reveal_strlit("0123456789");
    let digit = "0123456789"@[(n % 10) as int];
    assert(digit as int == '0' as int + n % 10);
    if n < 10 {
        assert(decimal(n).drop_last() =~= Seq::empty());
        reveal_with_fuel(number_in, 2);
    } else {
        law_decimal(n / 10);
        assert(decimal(n).drop_last() =~= decimal(n / 10));
        assert(decimal(n)[0] == decimal(n / 10)[0]);
    }
}

/// Append a number in decimal digits, each if it fits.
pub(crate) fn push_decimal<const N: usize>(out: &mut BoundedString<N>, n: u32)
    ensures
        final(out)@ == packed_onto(old(out)@, decimal(n as nat), N as nat),
    decreases n,
{
    let ghost start = out@;
    proof {
        reveal_strlit("0123456789");
        reveal_with_fuel(packed_onto, 2);
        assert(decimal(n as nat).drop_last() =~= if n < 10 {
            Seq::empty()
        } else {
            decimal((n / 10) as nat)
        });
    }
    if n >= 10 {
        push_decimal(out, n / 10);
    }
    let digit = (0x30u8 + (n % 10) as u8) as char;
    assert(digit == decimal(n as nat).last());
    let _ = out.push(digit);
}

/// A `u32` takes at most ten digits.
pub proof fn lemma_decimal_len(n: nat)
    requires
        n <= u32::MAX,
    ensures
        1 <= decimal(n).len() <= 10,
        is_ascii_chars(decimal(n)),
{
    reveal_with_fuel(decimal, 10);
    lemma_decimal_ascii(n);
}

proof fn lemma_decimal_ascii(n: nat)
    ensures
        is_ascii_chars(decimal(n)),
    decreases n,
{
    reveal_strlit("0123456789");
    if n >= 10 {
        lemma_decimal_ascii(n / 10);
    }
    assert forall|i: int| 0 <= i < decimal(n).len() implies 0 <= (
    #[trigger] decimal(n)[i] as nat) < 128 by {
        if n >= 10 && i < decimal(n / 10).len() {
            assert(decimal(n)[i] == decimal(n / 10)[i]);
        }
    }
}

} // verus!
