use vstd::prelude::*;
use vstd::string::StringExecFns;

verus! {

/// Appends `c` by `String::push`. Its contract, taken on trust, is what the
/// standard library documents: the characters afterwards are the old ones
/// followed by `c`.
#[verifier::external_body]
pub(crate) fn push_char(s: &mut String, c: char)
    ensures
        final(s)@ == old(s)@.push(c),
{
    s.push(c);
}

/// Appends `t`.
pub(crate) fn push_str(s: &mut String, t: &str)
    ensures
        final(s)@ == old(s)@ + t@,
{
    s.append(t);
}

/// The characters of ASCII bytes.
pub open spec fn ascii_chars(b: Seq<u8>) -> Seq<char> {
    Seq::new(b.len(), |i: int| b[i] as char)
}

/// Appends the bytes of `b`, one character each.
pub fn push_bytes(s: &mut String, b: &[u8])
    ensures
        final(s)@ == old(s)@ + ascii_chars(b@),
{
    let mut i: usize = 0;
    while i < b.len()
        invariant
            i <= b@.len(),
            s@ == old(s)@ + ascii_chars(b@.take(i as int)),
        decreases b@.len() - i,
    {
        let c = b[i] as char;
        push_char(s, c);
        i = i + 1;
        assert(ascii_chars(b@.take(i as int)) =~= ascii_chars(b@.take(i - 1)).push(c));
    }
    assert(b@.take(b@.len() as int) =~= b@);
}

pub open spec fn digit_char(d: nat) -> char {
    (d + 48) as char
}

/// The decimal digits of `n`.
pub open spec fn decimal_chars(n: nat) -> Seq<char>
    decreases n,
{
    if n < 10 {
        seq![digit_char(n)]
    } else {
        decimal_chars(n / 10).push(digit_char(n % 10))
    }
}

/// The decimal form of an integer, with a leading `-` when it is negative.
pub open spec fn int_chars(n: int) -> Seq<char> {
    if n < 0 {
        seq!['-'] + decimal_chars((-n) as nat)
    } else {
        decimal_chars(n as nat)
    }
}

fn digit(d: u64) -> (c: char)
    requires
        d < 10,
    ensures
        c == digit_char(d as nat),
{
    let b: u8 = (d as u8) + 48u8;
    b as char
}

/// Appends the decimal form of `n`.
pub fn push_u64(s: &mut String, n: u64)
    ensures
        final(s)@ == old(s)@ + decimal_chars(n as nat),
    decreases n,
{
    if n < 10 {
        push_char(s, digit(n));
    } else {
        push_u64(s, n / 10);
        push_char(s, digit(n % 10));
    }
}

pub fn push_usize(s: &mut String, n: usize)
    ensures
        final(s)@ == old(s)@ + decimal_chars(n as nat),
{
    push_u64(s, n as u64);
}

/// Appends the decimal form of `n`, with `-` in front when it is negative.
pub fn push_i32(s: &mut String, n: i32)
    ensures
        final(s)@ == old(s)@ + int_chars(n as int),
{
    if n < 0 {
        push_char(s, '-');
        let m: i64 = -(n as i64);
        push_u64(s, m as u64);
    } else {
        push_u64(s, n as u64);
    }
}

/// Appends `n` copies of `c`.
pub fn push_repeat(s: &mut String, c: char, n: usize)
    ensures
        final(s)@ == old(s)@ + Seq::new(n as nat, |i: int| c),
{
    let mut i: usize = 0;
    while i < n
        invariant
            i <= n,
            s@ == old(s)@ + Seq::new(i as nat, |k: int| c),
        decreases n - i,
    {
        push_char(s, c);
        i = i + 1;
        assert(Seq::new(i as nat, |k: int| c) =~= Seq::new((i - 1) as nat, |k: int| c).push(c));
    }
}

/// `chars` with zeros in front up to `width` characters.
pub open spec fn zero_pad(chars: Seq<char>, width: int) -> Seq<char> {
    if chars.len() < width {
        Seq::new((width - chars.len()) as nat, |i: int| '0') + chars
    } else {
        chars
    }
}

/// `chars` with spaces after it up to `width` characters.
pub open spec fn space_pad(chars: Seq<char>, width: int) -> Seq<char> {
    if chars.len() < width {
        chars + Seq::new((width - chars.len()) as nat, |i: int| ' ')
    } else {
        chars
    }
}

/// Appends the decimal form of `n`, with zeros in front up to `width` digits.
pub fn push_zero_padded(s: &mut String, n: usize, width: usize)
    ensures
        final(s)@ == old(s)@ + zero_pad(decimal_chars(n as nat), width as int),
{
    let mut digits = String::new();
    push_usize(&mut digits, n);
    let len = digits.as_str().unicode_len();
    if len < width {
        push_repeat(s, '0', width - len);
    }
    push_str(s, digits.as_str());
    proof {
        assert(digits@ =~= decimal_chars(n as nat));
    }
}

/// Appends `t`, with spaces after it up to `width` characters.
pub fn push_space_padded(s: &mut String, t: &str, width: usize)
    ensures
        final(s)@ == old(s)@ + space_pad(t@, width as int),
{
    push_str(s, t);
    let len = t.unicode_len();
    if len < width {
        push_repeat(s, ' ', width - len);
    }
    proof {
        assert(final(s)@ =~= old(s)@ + space_pad(t@, width as int));
    }
}

/// What UTF-8 decoding, each invalid sequence replaced by U+FFFD, makes of
/// `bytes`.
pub uninterp spec fn utf8_lossy(bytes: Seq<u8>) -> Seq<char>;

/// Decodes `bytes` as UTF-8, each invalid sequence replaced by U+FFFD
/// (`String::from_utf8_lossy`). The result is named by `utf8_lossy`; of it
/// this states only that ASCII bytes decode to the characters they code,
/// which holds since UTF-8 encodes ASCII as itself.
#[verifier::external_body]
pub(crate) fn decode_utf8_lossy(bytes: &[u8]) -> (res: String)
    ensures
        res@ == utf8_lossy(bytes@),
        (forall|i: int| 0 <= i < bytes@.len() ==> bytes@[i] < 128) ==> res@ == ascii_chars(bytes@),
{
    String::from_utf8_lossy(bytes).into_owned()
}

} // verus!
