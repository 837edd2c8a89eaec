//! Text: decoding, comparing, searching, and the decimal form of numbers.

use vstd::prelude::*;
use vstd::string::*;

verus! {

/// Decodes UTF-8 with `std::str::from_utf8`. Its documentation says that it gives back the text of
/// exactly those byte slices that are valid UTF-8; the contract claims that, over the definition of
/// UTF-8 that the standard library's specification uses for strings.
#[verifier::external_body]
pub(crate) fn decode_utf8(bytes: &[u8]) -> (text: Option<&str>)
    ensures
        match text {
            Some(s) => vstd::utf8::valid_utf8(bytes@) && s@ == vstd::utf8::decode_utf8(bytes@),
            None => !vstd::utf8::valid_utf8(bytes@),
        },
{
    std::str::from_utf8(bytes).ok()
}

/// `String::push` appends the given character to the end of the string.
pub assume_specification[ String::push ](s: &mut String, c: char)
    ensures
        final(s)@ == old(s)@.push(c),
;

/// A character with ASCII capitals made small.
pub open spec fn lower_char(c: char) -> char {
    if 'A' <= c <= 'Z' {
        ((c as u32 + 32) as u32) as char
    } else {
        c
    }
}

/// A text with ASCII capitals made small.
pub open spec fn lower(s: Seq<char>) -> Seq<char> {
    s.map_values(|c: char| lower_char(c))
}

/// Compares two texts.
pub fn equals(a: &str, b: &str) -> (r: bool)
    ensures
        r == (a@ == b@),
{
    let x = a.as_bytes();
    let y = b.as_bytes();
    proof {
        vstd::utf8::encode_utf8_decode_utf8(a@);
        vstd::utf8::encode_utf8_decode_utf8(b@);
    }
    if x.len() != y.len() {
        return false;
    }
    for i in 0..x.len()
        invariant
            x@.len() == y@.len(),
            x@ == a.spec_bytes(),
            y@ == b.spec_bytes(),
            forall|j: int| 0 <= j < i ==> x@[j] == y@[j],
    {
        if x[i] != y[i] {
            return false;
        }
    }
    assert(x@ =~= y@);
    true
}

/// The characters of a text.
pub fn chars_of(s: &str) -> (v: Vec<char>)
    ensures
        v@ == s@,
{
    let mut v: Vec<char> = Vec::new();
    for c in it: s.chars()
        invariant
            v@ == it.seq().take(it.index() as int),
    {
        v.push(c);
    }
    v
}

/// The text of some characters.
pub fn text_of(v: &[char]) -> (s: String)
    ensures
        s@ == v@,
{
    let mut s = String::new();
    for i in 0..v.len()
        invariant
            s@ == v@.take(i as int),
    {
        s.push(v[i]);
        assert(s@ =~= v@.take(i + 1));
    }
    assert(v@.take(v@.len() as int) =~= v@);
    s
}

/// Makes ASCII capitals small.
pub fn ascii_lowercase(s: &str) -> (r: String)
    ensures
        r@ == lower(s@),
{
    let chars = chars_of(s);
    let mut out = String::new();
    for i in 0..chars.len()
        invariant
            chars@ == s@,
            out@ == lower(s@).take(i as int),
    {
        let c = chars[i];
        if 'A' <= c && c <= 'Z' {
            out.push((c as u8 + 32) as char);
        } else {
            out.push(c);
        }
        assert(out@ =~= lower(s@).take(i + 1));
    }
    assert(lower(s@).take(s@.len() as int) =~= lower(s@));
    out
}

/// `part` occurs in `s` from `at` on.
pub open spec fn occurs_at(s: Seq<char>, part: Seq<char>, at: int) -> bool {
    0 <= at && at + part.len() <= s.len() && s.subrange(at, at + part.len()) == part
}

/// `part` occurs somewhere in `s`.
pub open spec fn occurs(s: Seq<char>, part: Seq<char>) -> bool {
    exists|at: int| occurs_at(s, part, at)
}

/// Decides whether `part` occurs in `s`.
pub fn contains(s: &str, part: &str) -> (r: bool)
    ensures
        r == occurs(s@, part@),
{
    let a = chars_of(s);
    let b = chars_of(part);
    if b.len() == 0 {
        assert(s@.subrange(0, 0) =~= part@);
        assert(occurs_at(s@, part@, 0));
        return true;
    }
    let total: usize = a.len();
    if b.len() > total {
        return false;
    }
    for at in 0..(total - b.len() + 1)
        invariant
            a@ == s@,
            b@ == part@,
            total == a@.len(),
            0 < b@.len() <= total,
            forall|k: int| 0 <= k < at ==> !occurs_at(s@, part@, k),
    {
        let mut same: bool = true;
        let mut i: usize = 0;
        while i < b.len() && same
            invariant
                i <= b@.len(),
                total == a@.len(),
                at + b@.len() <= total,
                same ==> forall|j: int| 0 <= j < i ==> a@[at + j] == b@[j],
                !same ==> exists|j: int| 0 <= j < b@.len() && a@[at + j] != b@[j],
            decreases b@.len() - i,
        {
            if a[at + i] != b[i] {
                same = false;
                assert(a@[at + i] != b@[i as int]);
            }
            i = i + 1;
        }
        if same {
            assert(a@.subrange(at as int, at + b@.len()) =~= b@);
            assert(occurs_at(s@, part@, at as int));
            return true;
        } else {
            proof {
                let j = choose|j: int| 0 <= j < b@.len() && a@[at + j] != b@[j];
                assert(a@.subrange(at as int, at + b@.len())[j] == a@[at + j]);
            }
        }
    }
    false
}

/// The decimal digits of a number.
pub open spec fn decimal(n: nat) -> Seq<char>
    decreases n,
{
    if n < 10 {
        seq![digit(n as int)]
    } else {
        decimal(n / 10).push(digit((n % 10) as int))
    }
}

/// A number written in decimal reads back: each digit adds to ten times what stands before it, and
/// only the number zero starts with a zero.
pub proof fn decimal_numbers_read_back(n: nat)
    ensures
        decimal(n).len() > 0,
        forall|k: int| 0 <= k < decimal(n).len() ==> '0' <= #[trigger] decimal(n)[k] <= '9',
        decimal(n).fold_left(0int, |value: int, c: char| 10 * value + (c as int - 48)) == n,
        decimal(n)[0] == '0' ==> n == 0,
    decreases n,
{
    let f = |value: int, c: char| 10 * value + (c as int - 48);
    let s = decimal(n);
    if n < 10 {
        assert(s.drop_last().len() == 0);
        assert(s.drop_last().fold_left(0int, f) == 0);
        assert(s.last() == digit(n as int));
    } else {
        decimal_numbers_read_back(n / 10);
        assert(s.drop_last() =~= decimal(n / 10));
        assert(s.last() == digit((n % 10) as int));
    }
}

/// A decimal digit.
pub open spec fn digit(d: int) -> char {
    (('0' as u32 + d) as u32) as char
}

/// The character of a decimal digit.
pub fn digit_char(d: u8) -> (c: char)
    requires
        d < 10,
    ensures
        c == digit(d as int),
{
    (48 + d) as char
}

/// Appends the decimal digits of a number.
pub fn push_decimal(s: &mut String, n: u64)
    ensures
        final(s)@ == old(s)@ + decimal(n as nat),
    decreases n,
{
    if n < 10 {
        s.push(digit_char(n as u8));
        assert(s@ =~= old(s)@ + decimal(n as nat));
    } else {
        push_decimal(s, n / 10);
        s.push(digit_char((n % 10) as u8));
        assert(s@ =~= old(s)@ + decimal(n as nat));
    }
}

/// The decimal digits of a number, with zeros in front up to a width.
pub open spec fn padded(n: nat, width: nat) -> Seq<char>
    decreases width,
{
    if width <= 1 {
        decimal(n)
    } else {
        padded(n / 10, (width - 1) as nat).push(digit((n % 10) as int))
    }
}

/// Appends the decimal digits of a number, with zeros in front up to a width.
pub fn push_padded(s: &mut String, n: u64, width: usize)
    ensures
        final(s)@ == old(s)@ + padded(n as nat, width as nat),
    decreases width,
{
    if width <= 1 {
        push_decimal(s, n);
    } else {
        push_padded(s, n / 10, width - 1);
        s.push(digit_char((n % 10) as u8));
        assert(s@ =~= old(s)@ + padded(n as nat, width as nat));
    }
}

/// The pieces of a text between the separators in it.
pub open spec fn pieces(s: Seq<char>, separator: char) -> Seq<Seq<char>>
    decreases s.len(),
{
    if s.len() == 0 {
        seq![Seq::empty()]
    } else {
        let before = pieces(s.drop_last(), separator);
        if s.last() == separator {
            before.push(Seq::empty())
        } else {
            before.drop_last().push(before.last().push(s.last()))
        }
    }
}

/// There is always a piece.
pub proof fn lemma_some_piece(s: Seq<char>, separator: char)
    ensures
        pieces(s, separator).len() > 0,
    decreases s.len(),
{
    if s.len() > 0 {
        lemma_some_piece(s.drop_last(), separator);
    }
}

/// A text without the separator is one piece.
pub proof fn lemma_one_piece(s: Seq<char>, separator: char)
    requires
        !s.contains(separator),
    ensures
        pieces(s, separator) == seq![s],
    decreases s.len(),
{
    if s.len() > 0 {
        assert(s.last() == s[s.len() - 1]);
        assert forall|c: char| s.drop_last().contains(c) implies s.contains(c) by {
            let i = choose|i: int| 0 <= i < s.drop_last().len() && s.drop_last()[i] == c;
            assert(s[i] == c);
        }
        lemma_one_piece(s.drop_last(), separator);
        assert(s.drop_last().push(s.last()) =~= s);
        assert(pieces(s, separator) =~= seq![s]);
    } else {
        assert(s =~= Seq::empty());
    }
}

/// Two texts with a separator between them have the pieces of both.
pub proof fn lemma_joined_pieces(a: Seq<char>, separator: char, b: Seq<char>)
    ensures
        pieces(a.push(separator) + b, separator) == pieces(a, separator) + pieces(b, separator),
    decreases b.len(),
{
    let whole = a.push(separator) + b;
    if b.len() == 0 {
        assert(whole =~= a.push(separator));
        assert(whole.drop_last() =~= a);
        assert(pieces(whole, separator) =~= pieces(a, separator) + pieces(b, separator));
    } else {
        lemma_joined_pieces(a, separator, b.drop_last());
        lemma_some_piece(b.drop_last(), separator);
        assert(whole.drop_last() =~= a.push(separator) + b.drop_last());
        assert(whole.last() == b.last());
        assert(pieces(whole, separator) =~= pieces(a, separator) + pieces(b, separator));
    }
}

/// Splits a text at a separator.
pub fn split(s: &str, separator: char) -> (parts: Vec<Vec<char>>)
    ensures
        parts@.len() == pieces(s@, separator).len(),
        forall|i: int|
            0 <= i < parts@.len() ==> (#[trigger] parts@[i])@ == pieces(s@, separator)[i],
{
    let chars = chars_of(s);
    split_chars(&chars, separator)
}

/// Splits characters at a separator.
pub fn split_chars(chars: &[char], separator: char) -> (parts: Vec<Vec<char>>)
    ensures
        parts@.len() == pieces(chars@, separator).len(),
        forall|i: int|
            0 <= i < parts@.len() ==> (#[trigger] parts@[i])@ == pieces(chars@, separator)[i],
{
    let mut parts: Vec<Vec<char>> = Vec::new();
    let mut part: Vec<char> = Vec::new();
    for k in 0..chars.len()
        invariant
            pieces(chars@.take(k as int), separator).len() == parts@.len() + 1,
            forall|i: int|
                0 <= i < parts@.len() ==> (#[trigger] parts@[i])@ == pieces(
                    chars@.take(k as int),
                    separator,
                )[i],
            part@ == pieces(chars@.take(k as int), separator).last(),
    {
        let ghost next = chars@.take(k + 1);
        assert(next.drop_last() =~= chars@.take(k as int));
        let c = chars[k];
        if c == separator {
            parts.push(part);
            part = Vec::new();
        } else {
            part.push(c);
        }
    }
    assert(chars@.take(chars@.len() as int) =~= chars@);
    parts.push(part);
    parts
}

/// A padded number reads back, has only digits, and is as wide as asked where it fits: a number of
/// two digits and one of four digits take just two and four characters.
pub proof fn padded_numbers_read_back(n: nat, width: nat)
    requires
        width > 0,
    ensures
        padded(n, width).len() >= width,
        forall|k: int| 0 <= k < padded(n, width).len() ==> '0' <= #[trigger] padded(n, width)[k]
            <= '9',
        padded(n, width).fold_left(0int, |value: int, c: char| 10 * value + (c as int - 48)) == n,
        n < 10 && width == 1 ==> padded(n, width).len() == 1,
        n < 100 && width == 2 ==> padded(n, width).len() == 2,
        n < 1000 && width == 3 ==> padded(n, width).len() == 3,
        n < 10000 && width == 4 ==> padded(n, width).len() == 4,
    decreases width,
{
    let f = |value: int, c: char| 10 * value + (c as int - 48);
    let s = padded(n, width);
    if width <= 1 {
        decimal_numbers_read_back(n);
    } else {
        padded_numbers_read_back(n / 10, (width - 1) as nat);
        assert(s.drop_last() =~= padded(n / 10, (width - 1) as nat));
        assert(s.last() == digit((n % 10) as int));
    }
}

/// Making capitals small changes just the twenty-six ASCII capitals, each to the letter that stands
/// 32 places behind it, and keeps the length.
pub proof fn only_ascii_capitals_become_small(s: Seq<char>, i: int)
    requires
        0 <= i < s.len(),
    ensures
        lower(s).len() == s.len(),
        'A' <= s[i] <= 'Z' ==> lower(s)[i] as int == s[i] as int + 32,
        !('A' <= s[i] <= 'Z') ==> lower(s)[i] == s[i],
{
}

/// The pieces of a text hold no separator, and with a separator between each two they make the text
/// again.
#[verifier::spinoff_prover]
#[verifier::rlimit(40)]
pub proof fn pieces_make_the_text_again(s: Seq<char>, separator: char)
    ensures
        pieces(s, separator).len() > 0,
        forall|i: int| 0 <= i < pieces(s, separator).len() ==> !(#[trigger] pieces(
            s,
            separator,
        )[i]).contains(separator),
        pieces(s, separator).drop_first().fold_left(
            pieces(s, separator)[0],
            |text: Seq<char>, piece: Seq<char>| text.push(separator) + piece,
        ) == s,
    decreases s.len(),
{
    let f = |text: Seq<char>, piece: Seq<char>| text.push(separator) + piece;
    let all = pieces(s, separator);
    if s.len() == 0 {
        assert(all.drop_first().len() == 0);
    } else {
        let front = s.drop_last();
        let before = pieces(front, separator);
        pieces_make_the_text_again(front, separator);
        if s.last() == separator {
            assert(all == before.push(Seq::empty()));
            assert(all.drop_first().drop_last() =~= before.drop_first());
            assert(all.drop_first().last() == Seq::<char>::empty());
            assert(all[0] == before[0]);
            assert(front.push(separator) + Seq::<char>::empty() =~= s);
            assert forall|i: int| 0 <= i < all.len() implies !(#[trigger] all[i]).contains(
                separator,
            ) by {
                if i < before.len() {
                    assert(all[i] == before[i]);
                }
            }
        } else {
            let last = before.last().push(s.last());
            assert(all == before.drop_last().push(last));
            assert forall|i: int| 0 <= i < all.len() implies !(#[trigger] all[i]).contains(
                separator,
            ) by {
                if i < before.len() - 1 {
                    assert(all[i] == before[i]);
                } else {
                    assert(!before[before.len() - 1].contains(separator));
                    if all[i].contains(separator) {
                        let k = choose|k: int| 0 <= k < all[i].len() && all[i][k] == separator;
                        if k < before.last().len() {
                            assert(before.last()[k] == separator);
                        }
                    }
                }
            }
            if before.len() == 1 {
                assert(all.drop_first().len() == 0 && before.drop_first().len() == 0);
                assert(all[0] == last);
                assert(front.push(s.last()) =~= s);
            } else {
                assert(all[0] == before[0]);
                let rest = before.drop_first().drop_last();
                assert(all.drop_first().drop_last() =~= rest);
                assert(all.drop_first().last() == last);
                let start = rest.fold_left(before[0], f);
                assert(before.drop_first().last() == before.last());
                assert(front == start.push(separator) + before.last());
                assert(start.push(separator) + last =~= s) by {
                    assert(s =~= front.push(s.last()));
                }
            }
        }
    }
}

} // verus!
