//! Bytes and text: comparison, lossy display and decimal numbers.

use vstd::prelude::*;
use vstd::string::*;

verus! {

/// The byte sequences behind a sequence of byte vectors.
pub open spec fn byte_names(names: Seq<Vec<u8>>) -> Seq<Seq<u8>> {
    names.map_values(|name: Vec<u8>| name@)
}

/// The texts behind a sequence of string slices.
pub open spec fn texts(names: Seq<&'static str>) -> Seq<Seq<char>> {
    names.map_values(|name: &'static str| name@)
}

/// The bytes that spell `text`.
pub open spec fn utf8(text: Seq<char>) -> Seq<u8> {
    vstd::utf8::encode_utf8(text)
}

/// The text that stands for a byte string on screen: invalid UTF-8 is replaced.
pub uninterp spec fn lossy_text(bytes: Seq<u8>) -> Seq<char>;

/// True when `shown` is what stands for `bytes` on screen: the text that they
/// encode, where they are valid UTF-8.
pub open spec fn shows(bytes: Seq<u8>, shown: Seq<char>) -> bool {
    &&& shown == lossy_text(bytes)
    &&& vstd::utf8::valid_utf8(bytes) ==> shown == vstd::utf8::decode_utf8(bytes)
}

/// `String::from_utf8_lossy`: depends on the bytes alone, and hands valid UTF-8
/// back as the text it encodes. How invalid bytes are replaced is not stated.
#[verifier::external_body]
pub(crate) fn from_utf8_lossy(bytes: &[u8]) -> (text: String)
    ensures
        text@ == lossy_text(bytes@),
        vstd::utf8::valid_utf8(bytes@) ==> text@ == vstd::utf8::decode_utf8(bytes@),
{
    String::from_utf8_lossy(bytes).into_owned()
}

/// `bytes` as a text of the same length: each byte becomes the character with
/// its number.
pub open spec fn widened(bytes: Seq<u8>) -> Seq<char> {
    bytes.map_values(|byte: u8| byte as char)
}

/// Different byte strings widen to different texts.
pub proof fn widening_is_injective(left: Seq<u8>, right: Seq<u8>)
    requires
        widened(left) == widened(right),
    ensures
        left == right,
{
    assert(widened(left).len() == left.len());
    assert forall|i: int| 0 <= i < left.len() implies left[i] == right[i] by {
        assert(widened(left)[i] == left[i] as char);
        assert(widened(right)[i] == right[i] as char);
    }
    assert(left =~= right);
}

/// `String::push` appends one character.
pub assume_specification[ std::string::String::push ](s: &mut std::string::String, c: char)
    ensures
        final(s)@ == old(s)@.push(c),
;

/// Widens `bytes` to a text.
pub fn widen(bytes: &[u8]) -> (text: String)
    ensures
        text@ == widened(bytes@),
{
    let mut text = String::new();
    let mut i: usize = 0;
    while i < bytes.len()
        invariant
            i <= bytes@.len(),
            text@ == widened(bytes@.take(i as int)),
        decreases bytes@.len() - i,
    {
        text.push(bytes[i] as char);
        assert(text@ =~= widened(bytes@.take(i + 1)));
        i = i + 1;
    }
    assert(bytes@.take(bytes@.len() as int) =~= bytes@);
    text
}

/// True when both slices hold the same bytes.
pub fn bytes_equal(left: &[u8], right: &[u8]) -> (equal: bool)
    ensures
        equal == (left@ == right@),
{
    if left.len() != right.len() {
        return false;
    }
    let mut i: usize = 0;
    while i < left.len()
        invariant
            i <= left@.len() == right@.len(),
            forall|k: int| 0 <= k < i ==> left@[k] == right@[k],
        decreases left@.len() - i,
    {
        if left[i] != right[i] {
            return false;
        }
        i = i + 1;
    }
    assert(left@ =~= right@);
    true
}

/// True when some name in `names` is exactly `wanted`.
pub fn contains_name(names: &Vec<Vec<u8>>, wanted: &[u8]) -> (found: bool)
    ensures
        found == byte_names(names@).contains(wanted@),
{
    let mut i: usize = 0;
    while i < names.len()
        invariant
            i <= names@.len(),
            forall|k: int| 0 <= k < i ==> names@[k]@ != wanted@,
        decreases names@.len() - i,
    {
        if bytes_equal(names[i].as_slice(), wanted) {
            assert(byte_names(names@)[i as int] == wanted@);
            return true;
        }
        i = i + 1;
    }
    assert forall|k: int| 0 <= k < byte_names(names@).len() implies byte_names(names@)[k]
        != wanted@ by {
        assert(byte_names(names@)[k] == names@[k]@);
    }
    false
}

/// True when `bytes` end with `suffix`.
pub fn ends_with(bytes: &[u8], suffix: &[u8]) -> (found: bool)
    ensures
        found == suffix@.is_suffix_of(bytes@),
{
    if bytes.len() < suffix.len() {
        return false;
    }
    let start: usize = bytes.len() - suffix.len();
    let mut i: usize = 0;
    while i < suffix.len()
        invariant
            i <= suffix@.len(),
            start == bytes@.len() - suffix@.len(),
            bytes@.len() <= usize::MAX,
            forall|k: int| 0 <= k < i ==> bytes@[start + k] == suffix@[k],
        decreases suffix@.len() - i,
    {
        if bytes[start + i] != suffix[i] {
            assert(bytes@.subrange(start as int, bytes@.len() as int)[i as int] != suffix@[i as int]);
            return false;
        }
        i = i + 1;
    }
    assert(suffix@ =~= bytes@.subrange(start as int, bytes@.len() as int));
    true
}

/// The decimal digit `d`.
pub open spec fn digit(d: nat) -> char {
    (48 + d) as char
}

/// `n` in decimal, without leading zeros.
pub open spec fn decimal_text(n: nat) -> Seq<char>
    decreases n,
{
    if n < 10 {
        seq![digit(n)]
    } else {
        decimal_text(n / 10).push(digit(n % 10))
    }
}

/// The one-character text of a digit.
fn digit_str(d: usize) -> (text: &'static str)
    requires
        d < 10,
    ensures
        text@ == seq![digit(d as nat)],
{
    proof {
        reveal_strlit("0");
        reveal_strlit("1");
        reveal_strlit("2");
        reveal_strlit("3");
        reveal_strlit("4");
        reveal_strlit("5");
        reveal_strlit("6");
        reveal_strlit("7");
        reveal_strlit("8");
        reveal_strlit("9");
    }
    let text: &'static str = match d {
        0 => "0",
        1 => "1",
        2 => "2",
        3 => "3",
        4 => "4",
        5 => "5",
        6 => "6",
        7 => "7",
        8 => "8",
        _ => "9",
    };
    assert(text@ =~= seq![digit(d as nat)]);
    text
}

/// Writes `n` in decimal.
pub fn decimal(n: usize) -> (text: String)
    ensures
        text@ == decimal_text(n as nat),
    decreases n,
{
    if n < 10 {
        let mut text = String::new();
        text.append(digit_str(n));
        assert(text@ =~= seq![digit(n as nat)]);
        text
    } else {
        let mut text = decimal(n / 10);
        text.append(digit_str(n % 10));
        assert(text@ =~= decimal_text((n / 10) as nat).push(digit((n % 10) as nat)));
        text
    }
}

/// The number that a text of decimal digits stands for.
pub open spec fn number_of(text: Seq<char>) -> nat
    decreases text.len(),
{
    if text.len() == 0 {
        0
    } else {
        number_of(text.drop_last()) * 10 + (text.last() as nat - '0' as nat) as nat
    }
}

/// A number that is written in decimal reads back as the number. The text holds
/// nothing but digits, at least one, and does not begin with a zero unless it is
/// nothing else.
pub proof fn decimal_reads_back(n: nat)
    ensures
        number_of(decimal_text(n)) == n,
        decimal_text(n).len() > 0,
        decimal_text(n)[0] == '0' ==> n == 0 && decimal_text(n).len() == 1,
        forall|i: int|
            0 <= i < decimal_text(n).len() ==> '0' <= #[trigger] decimal_text(n)[i] <= '9',
    decreases n,
{
    if n < 10 {
        assert(decimal_text(n).drop_last() =~= Seq::<char>::empty());
        assert(number_of(Seq::<char>::empty()) == 0);
        assert(decimal_text(n)[0] == digit(n));
    } else {
        let shorter = decimal_text(n / 10);
        decimal_reads_back(n / 10);
        assert(decimal_text(n).drop_last() =~= shorter);
        assert(decimal_text(n).last() == digit(n % 10));
        assert forall|i: int| 0 <= i < decimal_text(n).len() implies '0'
            <= #[trigger] decimal_text(n)[i] <= '9' by {
            if i < shorter.len() {
                assert(decimal_text(n)[i] == shorter[i]);
            }
        }
    }
}

} // verus!
