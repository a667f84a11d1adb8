//! Text: between bytes and characters, and numbers in decimal.
use vstd::prelude::*;

verus! {

/// `core::str::from_utf8` on the bytes, with the text copied out: it succeeds
/// exactly on well-formed UTF-8, and the text is what the bytes encode.
#[verifier::external_body]
pub(crate) fn from_utf8(bytes: &[u8]) -> (text: Option<String>)
    ensures
        text is Some <==> vstd::utf8::valid_utf8(bytes@),
        text matches Some(t) ==> t@ == vstd::utf8::decode_utf8(bytes@),
{
    match core::str::from_utf8(bytes) {
        Ok(s) => Some(s.to_owned()),
        Err(_) => None,
    }
}

/// ASCII bytes as characters.
pub open spec fn ascii_chars(bytes: Seq<u8>) -> Seq<char> {
    bytes.map_values(|b: u8| b as char)
}

/// Is every byte ASCII?
pub open spec fn is_ascii(bytes: Seq<u8>) -> bool {
    forall|i: int| 0 <= i < bytes.len() ==> #[trigger] bytes[i] < 128
}

/// ASCII bytes are well-formed UTF-8, one character each.
pub proof fn lemma_ascii(bytes: Seq<u8>)
    requires
        is_ascii(bytes),
    ensures
        vstd::utf8::valid_utf8(bytes),
        vstd::utf8::decode_utf8(bytes) == ascii_chars(bytes),
    decreases bytes.len(),
{
    if bytes.len() == 0 {
        assert(vstd::utf8::decode_utf8(bytes) =~= ascii_chars(bytes));
    } else {
        let b = bytes[0];
        assert(b & 0x7f == b) by (bit_vector)
            requires
                b < 128,
        ;
        let rest = vstd::utf8::pop_first_scalar(bytes);
        assert(rest =~= bytes.drop_first());
        lemma_ascii(rest);
        assert(vstd::utf8::decode_utf8(bytes) =~= ascii_chars(bytes));
    }
}

/// The text that ASCII bytes spell.
pub fn ascii(bytes: &[u8]) -> (text: String)
    requires
        is_ascii(bytes@),
    ensures
        text@ == ascii_chars(bytes@),
{
    proof {
        lemma_ascii(bytes@);
    }
    from_utf8(bytes).unwrap()
}

/// Do the two texts agree?
pub fn same(a: &str, b: &str) -> (eq: bool)
    ensures
        eq == (a@ == b@),
{
    a.to_owned() == b.to_owned()
}

/// Append a text, as UTF-8.
pub fn put_str(out: &mut Vec<u8>, s: &str)
    ensures
        final(out)@ == old(out)@ + vstd::utf8::encode_utf8(s@),
{
    out.extend_from_slice(s.as_bytes());
    assert(out@ =~= old(out)@ + vstd::utf8::encode_utf8(s@));
}

/// The decimal digits of `n`.
pub open spec fn digits(n: nat) -> Seq<u8>
    decreases n,
{
    if n < 10 {
        seq![(48 + n) as u8]
    } else {
        digits(n / 10).push((48 + n % 10) as u8)
    }
}

/// `n` blanks; none if `n` is negative.
pub open spec fn blanks(n: int) -> Seq<u8> {
    if n <= 0 {
        Seq::empty()
    } else {
        Seq::new(n as nat, |i: int| 32u8)
    }
}

/// `n` in decimal, behind blanks that fill `width` columns.
pub open spec fn right(n: nat, width: int) -> Seq<u8> {
    blanks(width - digits(n).len()) + digits(n)
}

/// `n` in decimal, before blanks that fill `width` columns.
pub open spec fn left(n: nat, width: int) -> Seq<u8> {
    digits(n) + blanks(width - digits(n).len())
}

/// Append the decimal digits of `n`.
pub fn put_digits(out: &mut Vec<u8>, n: u64)
    ensures
        final(out)@ == old(out)@ + digits(n as nat),
    decreases n,
{
    let ghost before = out@;
    if n >= 10 {
        put_digits(out, n / 10);
    }
    let d: u8 = (n % 10) as u8;
    out.push(48 + d);
    assert(out@ =~= before + digits(n as nat));
}

/// Append `n` blanks.
pub fn put_blanks(out: &mut Vec<u8>, n: usize)
    ensures
        final(out)@ == old(out)@ + blanks(n as int),
{
    let ghost before = out@;
    let mut i: usize = 0;
    assert(out@ =~= before + blanks(0));
    while i < n
        invariant
            i <= n,
            out@ == before + blanks(i as int),
        decreases n - i,
    {
        out.push(32);
        i = i + 1;
        assert(out@ =~= before + blanks(i as int));
    }
}

/// Append `n` in decimal, flush right in `width` columns.
pub fn put_right(out: &mut Vec<u8>, n: u64, width: usize)
    ensures
        final(out)@ == old(out)@ + right(n as nat, width as int),
{
    let mut num: Vec<u8> = Vec::new();
    put_digits(&mut num, n);
    assert(num@ =~= digits(n as nat));
    if num.len() < width {
        put_blanks(out, width - num.len());
    }
    out.extend_from_slice(&num);
    assert(out@ =~= old(out)@ + right(n as nat, width as int));
}

/// Append `n` in decimal, flush left in `width` columns.
pub fn put_left(out: &mut Vec<u8>, n: u64, width: usize)
    ensures
        final(out)@ == old(out)@ + left(n as nat, width as int),
{
    let mut num: Vec<u8> = Vec::new();
    put_digits(&mut num, n);
    assert(num@ =~= digits(n as nat));
    out.extend_from_slice(&num);
    if num.len() < width {
        put_blanks(out, width - num.len());
    }
    assert(out@ =~= old(out)@ + left(n as nat, width as int));
}

/// The number that decimal digits stand for.
pub open spec fn number(digits: Seq<u8>) -> int
    decreases digits.len(),
{
    if digits.len() == 0 {
        0
    } else {
        number(digits.drop_last()) * 10 + (digits.last() - 48)
    }
}

/// The digits of a number are decimal digits that stand for it, without a zero in front.
pub proof fn lemma_digits(n: nat)
    ensures
        number(digits(n)) == n,
        digits(n).len() > 0,
        forall|i: int| 0 <= i < digits(n).len() ==> 48 <= #[trigger] digits(n)[i] <= 57,
        n > 0 ==> digits(n)[0] != 48,
        n == 0 ==> digits(n).len() == 1,
        n < 10 ==> digits(n).len() == 1,
        10 <= n < 100 ==> digits(n).len() == 2,
        100 <= n < 1000 ==> digits(n).len() == 3,
    decreases n,
{
    if n < 10 {
        let one = digits(n);
        assert(one.drop_last() =~= Seq::<u8>::empty());
        assert(number(one.drop_last()) == 0);
    } else {
        lemma_digits(n / 10);
        assert(digits(n).drop_last() =~= digits(n / 10));
        assert forall|i: int| 0 <= i < digits(n).len() implies 48 <= #[trigger] digits(n)[i]
            <= 57 by {
            if i < digits(n / 10).len() {
                assert(digits(n)[i] == digits(n / 10)[i]);
            }
        }
        assert(digits(n)[0] == digits(n / 10)[0]);
    }
}

/// A number in columns fills them with blanks on the one side, and is never cut off.
pub proof fn lemma_columns(n: nat, width: int)
    ensures
        ({
            let d = digits(n);
            let gap = if width > d.len() {
                width - d.len()
            } else {
                0
            };
            &&& right(n, width).len() == gap + d.len()
            &&& left(n, width).len() == gap + d.len()
            &&& right(n, width).skip(gap) == d
            &&& left(n, width).take(d.len() as int) == d
            &&& forall|i: int| 0 <= i < gap ==> #[trigger] right(n, width)[i] == 32
            &&& forall|i: int|
                d.len() <= i < left(n, width).len() ==> #[trigger] left(n, width)[i] == 32
        }),
{
    let d = digits(n);
    let gap = if width > d.len() {
        width - d.len()
    } else {
        0
    };
    assert(right(n, width).skip(gap) =~= d);
    assert(left(n, width).take(d.len() as int) =~= d);
}

} // verus!
