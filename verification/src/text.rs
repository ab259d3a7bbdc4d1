//! Strings: UTF-8 conversion, comparison and assembly.

use vstd::prelude::*;
use vstd::string::*;
use vstd::utf8::*;

use crate::be::same_bytes;

verus! {

/// What `String::from_utf8_lossy` makes of bytes that are not UTF-8: the text
/// in which the faulty parts are replaced by U+FFFD.
pub uninterp spec fn utf8_replaced(bytes: Seq<u8>) -> Seq<char>;

/// The text that `bytes` stand for, with faulty parts replaced.
pub open spec fn lossy(bytes: Seq<u8>) -> Seq<char> {
    if valid_utf8(bytes) {
        decode_utf8(bytes)
    } else {
        utf8_replaced(bytes)
    }
}

/// Calls `String::from_utf8_lossy`. Of valid UTF-8 the result is the decoded
/// text; of other bytes it is a fixed function of them.
#[verifier::external_body]
pub(crate) fn text_lossy(bytes: &[u8]) -> (s: String)
    ensures
        s@ == (if valid_utf8(bytes@) {
            decode_utf8(bytes@)
        } else {
            utf8_replaced(bytes@)
        }),
{
    String::from_utf8_lossy(bytes).into_owned()
}

/// Calls `String::from_utf8`: the decoded text if and only if the bytes are
/// valid UTF-8.
#[verifier::external_body]
pub(crate) fn text_strict(bytes: Vec<u8>) -> (s: Option<String>)
    ensures
        s is Some <==> valid_utf8(bytes@),
        s matches Some(t) ==> t@ == decode_utf8(bytes@),
{
    String::from_utf8(bytes).ok()
}

/// The bytes of a text are valid UTF-8 and decode to it.
pub proof fn lemma_lossy_of_text(chars: Seq<char>)
    ensures
        valid_utf8(encode_utf8(chars)),
        decode_utf8(encode_utf8(chars)) == chars,
        lossy(encode_utf8(chars)) == chars,
{
    encode_utf8_valid_utf8(chars);
    encode_utf8_decode_utf8(chars);
}

/// `String::push` adds one character at the end.
pub assume_specification[ String::push ](s: &mut String, c: char)
    ensures
        final(s)@ == old(s)@.push(c),
;

/// The characters of a text.
pub fn chars_of(s: &str) -> (chars: Vec<char>)
    ensures
        chars@ == s@,
{
    let mut chars: Vec<char> = Vec::new();
    for c in it: s.chars()
        invariant
            chars@ == it.seq().take(it.index()),
            it.seq() == s@,
    {
        chars.push(c);
        assert(it.seq().take(it.index() + 1) =~= it.seq().take(it.index()).push(c));
    }
    assert(s@.take(s@.len() as int) =~= s@);
    chars
}

/// The text made of `chars[from..to]`.
pub fn text_of(chars: &[char], from: usize, to: usize) -> (s: String)
    requires
        from <= to <= chars@.len(),
    ensures
        s@ == chars@.subrange(from as int, to as int),
{
    let mut s = String::new();
    let mut i: usize = from;
    while i < to
        invariant
            from <= i <= to <= chars@.len(),
            s@ == chars@.subrange(from as int, i as int),
        decreases to - i,
    {
        s.push(chars[i]);
        i += 1;
        assert(chars@.subrange(from as int, i as int) =~= chars@.subrange(
            from as int,
            i - 1,
        ).push(chars@[i - 1]));
    }
    s
}

/// The pieces of `s` between the separators `sep`, empty ones too.
pub open spec fn split(s: Seq<char>, sep: char) -> Seq<Seq<char>>
    decreases s.len(),
{
    if s.len() == 0 {
        seq![s]
    } else {
        let rest = split(s.drop_first(), sep);
        if s[0] == sep {
            seq![Seq::<char>::empty()] + rest
        } else {
            rest.update(0, seq![s[0]] + rest[0])
        }
    }
}

/// The views of texts.
pub open spec fn texts(list: Seq<String>) -> Seq<Seq<char>> {
    list.map_values(|s: String| s@)
}

pub proof fn lemma_split_len(s: Seq<char>, sep: char)
    ensures
        split(s, sep).len() >= 1,
    decreases s.len(),
{
    if s.len() > 0 {
        lemma_split_len(s.drop_first(), sep);
    }
}

/// Splitting `head + tail` where `head` holds no separator puts `head` in
/// front of the first piece of `tail`.
pub proof fn lemma_split_head(head: Seq<char>, tail: Seq<char>, sep: char)
    requires
        forall|i: int| 0 <= i < head.len() ==> head[i] != sep,
    ensures
        split(head + tail, sep) == split(tail, sep).update(0, head + split(tail, sep)[0]),
    decreases head.len(),
{
    lemma_split_len(tail, sep);
    if head.len() == 0 {
        assert(head + tail =~= tail);
        assert(head + split(tail, sep)[0] =~= split(tail, sep)[0]);
        assert(split(tail, sep).update(0, split(tail, sep)[0]) =~= split(tail, sep));
    } else {
        let rest = head.drop_first();
        lemma_split_head(rest, tail, sep);
        assert((head + tail).drop_first() =~= rest + tail);
        assert(seq![head[0]] + (rest + split(tail, sep)[0]) =~= head + split(tail, sep)[0]);
        assert(split(head + tail, sep) =~= split(tail, sep).update(
            0,
            head + split(tail, sep)[0],
        ));
    }
}

/// Splits a text at every `sep`.
pub fn split_text(s: &str, sep: char) -> (pieces: Vec<String>)
    ensures
        texts(pieces@) == split(s@, sep),
{
    let chars = chars_of(s);
    let mut pieces: Vec<String> = Vec::new();
    let mut start: usize = 0;
    let mut i: usize = 0;
    proof {
        assert(s@.subrange(0, 0) + s@.skip(0) =~= s@);
    }
    while i < chars.len()
        invariant
            chars@ == s@,
            start <= i <= chars@.len(),
            forall|k: int| start <= k < i ==> chars@[k] != sep,
            texts(pieces@) + split(s@.skip(start as int), sep) == split(s@, sep),
        decreases chars@.len() - i,
    {
        if chars[i] == sep {
            let piece = text_of(chars.as_slice(), start, i);
            proof {
                let head = s@.subrange(start as int, i as int);
                lemma_split_head(head, s@.skip(i as int), sep);
                assert(head + s@.skip(i as int) =~= s@.skip(start as int));
                assert(s@.skip(i as int).drop_first() =~= s@.skip(i + 1));
                assert(head + Seq::<char>::empty() =~= head);
                assert(split(s@.skip(start as int), sep) =~= seq![head] + split(
                    s@.skip(i + 1),
                    sep,
                ));
                assert(texts(pieces@.push(piece)) =~= texts(pieces@) + seq![head]);
                assert(texts(pieces@) + (seq![head] + split(s@.skip(i + 1), sep)) =~= (texts(
                    pieces@,
                ) + seq![head]) + split(s@.skip(i + 1), sep));
            }
            pieces.push(piece);
            start = i + 1;
        }
        i += 1;
    }
    let piece = text_of(chars.as_slice(), start, chars.len());
    proof {
        let head = s@.subrange(start as int, s@.len() as int);
        let none = Seq::<char>::empty();
        lemma_split_head(head, none, sep);
        assert(head + none =~= s@.skip(start as int));
        assert(head + none =~= head);
        assert(split(s@.skip(start as int), sep) =~= seq![head]);
        assert(texts(pieces@.push(piece)) =~= texts(pieces@) + seq![head]);
    }
    pieces.push(piece);
    pieces
}

/// Whether `s` starts with `prefix`.
pub open spec fn starts_with(s: Seq<char>, prefix: Seq<char>) -> bool {
    prefix.len() <= s.len() && s.take(prefix.len() as int) == prefix
}

/// What follows `prefix` in a text that starts with it.
pub fn after_prefix(s: &str, prefix: &str) -> (r: Option<String>)
    ensures
        match r {
            Some(rest) => starts_with(s@, prefix@) && rest@ == s@.skip(prefix@.len() as int),
            None => !starts_with(s@, prefix@),
        },
{
    let a = chars_of(s);
    let b = chars_of(prefix);
    if b.len() > a.len() {
        return None;
    }
    let mut i: usize = 0;
    while i < b.len()
        invariant
            a@ == s@,
            b@ == prefix@,
            i <= b@.len() <= a@.len(),
            forall|k: int| 0 <= k < i ==> a@[k] == b@[k],
        decreases b@.len() - i,
    {
        if a[i] != b[i] {
            assert(s@.take(b@.len() as int)[i as int] != prefix@[i as int]);
            return None;
        }
        i += 1;
    }
    assert(s@.take(prefix@.len() as int) =~= prefix@);
    let rest = text_of(a.as_slice(), b.len(), a.len());
    assert(rest@ =~= s@.skip(prefix@.len() as int));
    Some(rest)
}

/// The decimal digits of `n`.
pub open spec fn decimal(n: nat) -> Seq<char>
    decreases n,
{
    if n < 10 {
        seq![digit(n)]
    } else {
        decimal(n / 10).push(digit(n % 10))
    }
}

/// The character of a digit.
pub open spec fn digit(d: nat) -> char {
    ('0' as nat + d) as char
}

/// Writes a number in decimal.
pub fn decimal_text(n: u64) -> (s: String)
    ensures
        s@ == decimal(n as nat),
    decreases n,
{
    let mut s = if n < 10 {
        String::new()
    } else {
        decimal_text(n / 10)
    };
    let d: u8 = 48u8 + (n % 10) as u8;
    s.push(d as char);
    assert(s@ =~= decimal(n as nat));
    s
}

/// The decimal digits of `n`, behind a minus sign where it is negative.
pub open spec fn signed(n: int) -> Seq<char> {
    if n < 0 {
        "-"@ + decimal((-n) as nat)
    } else {
        decimal(n as nat)
    }
}

/// Writes a signed number in decimal.
pub fn signed_text(n: i64) -> (s: String)
    ensures
        s@ == signed(n as int),
{
    if n < 0 {
        let size: u64 = (-(n as i128)) as u64;
        let mut s = "-".to_owned();
        s.append(decimal_text(size).as_str());
        s
    } else {
        decimal_text(n as u64)
    }
}

/// A text cut in two at the first `sep`.
pub open spec fn once(s: Seq<char>, sep: char) -> Option<(Seq<char>, Seq<char>)>
    decreases s.len(),
{
    if s.len() == 0 {
        None
    } else if s[0] == sep {
        Some((Seq::empty(), s.drop_first()))
    } else {
        match once(s.drop_first(), sep) {
            None => None,
            Some((a, b)) => Some((seq![s[0]] + a, b)),
        }
    }
}

/// The cut comes after what holds no separator.
pub proof fn lemma_once(a: Seq<char>, sep: char, b: Seq<char>)
    requires
        forall|i: int| 0 <= i < a.len() ==> a[i] != sep,
    ensures
        once(a + seq![sep] + b, sep) == Some((a, b)),
    decreases a.len(),
{
    let s = a + seq![sep] + b;
    if a.len() == 0 {
        assert(s.drop_first() =~= b);
        assert(a =~= Seq::empty());
    } else {
        let rest = a.drop_first();
        lemma_once(rest, sep, b);
        assert(s.drop_first() =~= rest + seq![sep] + b);
        assert(seq![s[0]] + rest =~= a);
    }
}

proof fn lemma_once_none(s: Seq<char>, sep: char)
    requires
        forall|i: int| 0 <= i < s.len() ==> s[i] != sep,
    ensures
        once(s, sep) is None,
    decreases s.len(),
{
    if s.len() > 0 {
        lemma_once_none(s.drop_first(), sep);
    }
}

/// Cuts a text in two at the first `sep`.
pub fn split_once(s: &str, sep: char) -> (r: Option<(String, String)>)
    ensures
        match r {
            Some((a, b)) => once(s@, sep) == Some((a@, b@)),
            None => once(s@, sep) is None,
        },
{
    let chars = chars_of(s);
    let mut i: usize = 0;
    while i < chars.len()
        invariant
            chars@ == s@,
            i <= chars@.len(),
            forall|k: int| 0 <= k < i ==> s@[k] != sep,
        decreases chars@.len() - i,
    {
        if chars[i] == sep {
            let a = text_of(chars.as_slice(), 0, i);
            let b = text_of(chars.as_slice(), i + 1, chars.len());
            proof {
                lemma_once(a@, sep, b@);
                assert(a@ + seq![sep] + b@ =~= s@);
            }
            return Some((a, b));
        }
        i += 1;
    }
    proof {
        lemma_once_none(s@, sep);
    }
    None
}

/// Whether `char::is_whitespace` holds of a character beyond ASCII.
pub uninterp spec fn whitespace_beyond_ascii(c: char) -> bool;

/// Whether a character is whitespace.
pub open spec fn is_space(c: char) -> bool {
    if (c as u32) < 128 {
        c == ' ' || 9 <= c as u32 <= 13
    } else {
        whitespace_beyond_ascii(c)
    }
}

/// Calls `char::is_whitespace`. Of ASCII characters the space and those from
/// the tab to the carriage return are whitespace; of others it depends on the
/// character alone.
#[verifier::external_body]
fn is_whitespace(c: char) -> (r: bool)
    ensures
        r == (if (c as u32) < 128 {
            c == ' ' || 9 <= c as u32 <= 13
        } else {
            whitespace_beyond_ascii(c)
        }),
{
    c.is_whitespace()
}

/// A text without the whitespace in front.
pub open spec fn trim_front(s: Seq<char>) -> Seq<char>
    decreases s.len(),
{
    if s.len() > 0 && is_space(s[0]) {
        trim_front(s.drop_first())
    } else {
        s
    }
}

/// A text without the whitespace at its end.
pub open spec fn trim_back(s: Seq<char>) -> Seq<char>
    decreases s.len(),
{
    if s.len() > 0 && is_space(s.last()) {
        trim_back(s.drop_last())
    } else {
        s
    }
}

/// A text without the whitespace around it.
pub open spec fn trimmed(s: Seq<char>) -> Seq<char> {
    trim_back(trim_front(s))
}

/// Takes the whitespace around a text away.
pub fn trim(s: &str) -> (r: String)
    ensures
        r@ == trimmed(s@),
{
    let chars = chars_of(s);
    let mut i: usize = 0;
    assert(s@.skip(0) =~= s@);
    while i < chars.len() && is_whitespace(chars[i])
        invariant
            chars@ == s@,
            i <= chars@.len(),
            trim_front(s@.skip(i as int)) == trim_front(s@),
        decreases chars@.len() - i,
    {
        assert(s@.skip(i as int).drop_first() =~= s@.skip(i + 1));
        i += 1;
    }
    let mut j: usize = chars.len();
    assert(s@.skip(i as int) =~= s@.subrange(i as int, j as int));
    while j > i && is_whitespace(chars[j - 1])
        invariant
            chars@ == s@,
            i <= j <= chars@.len(),
            trim_back(s@.subrange(i as int, j as int)) == trimmed(s@),
        decreases j,
    {
        assert(s@.subrange(i as int, j as int).drop_last() =~= s@.subrange(i as int, j - 1));
        j -= 1;
    }
    text_of(chars.as_slice(), i, j)
}

/// An ASCII letter in lower case; another character as it is.
pub open spec fn ascii_lower(c: char) -> char {
    if 'A' <= c <= 'Z' {
        (c as u32 + 32) as char
    } else {
        c
    }
}

/// Whether two texts are the same but for the case of ASCII letters.
pub open spec fn same_but_case(a: Seq<char>, b: Seq<char>) -> bool {
    a.map_values(|c: char| ascii_lower(c)) == b.map_values(|c: char| ascii_lower(c))
}

fn lower_char(c: char) -> (r: char)
    ensures
        r == ascii_lower(c),
{
    if c >= 'A' && c <= 'Z' {
        let low: u8 = c as u8 + 32;
        low as char
    } else {
        c
    }
}

/// Whether two texts are the same but for the case of ASCII letters.
pub fn eq_ignore_case(a: &str, b: &str) -> (r: bool)
    ensures
        r == same_but_case(a@, b@),
{
    let x = chars_of(a);
    let y = chars_of(b);
    let ghost p = a@.map_values(|c: char| ascii_lower(c));
    let ghost q = b@.map_values(|c: char| ascii_lower(c));
    if x.len() != y.len() {
        assert(p.len() != q.len());
        return false;
    }
    let mut i: usize = 0;
    while i < x.len()
        invariant
            x@ == a@,
            y@ == b@,
            x@.len() == y@.len(),
            p == a@.map_values(|c: char| ascii_lower(c)),
            q == b@.map_values(|c: char| ascii_lower(c)),
            i <= x@.len(),
            forall|k: int| 0 <= k < i ==> p[k] == q[k],
        decreases x@.len() - i,
    {
        if lower_char(x[i]) != lower_char(y[i]) {
            assert(p[i as int] != q[i as int]);
            return false;
        }
        i += 1;
    }
    assert(p =~= q);
    true
}

/// Whether two texts are the same.
pub fn same_text(a: &str, b: &str) -> (same: bool)
    ensures
        same == (a@ == b@),
{
    proof {
        lemma_lossy_of_text(a@);
        lemma_lossy_of_text(b@);
    }
    same_bytes(a.as_bytes(), b.as_bytes())
}

/// Pieces with a separator between them.
pub open spec fn joined(pieces: Seq<Seq<char>>, sep: char) -> Seq<char>
    decreases pieces.len(),
{
    if pieces.len() == 0 {
        Seq::empty()
    } else if pieces.len() == 1 {
        pieces[0]
    } else {
        pieces[0] + seq![sep] + joined(pieces.drop_first(), sep)
    }
}

/// A text that is split comes back when its pieces are joined, and no piece holds
/// the separator.
pub proof fn law_pieces_join_to_the_text(s: Seq<char>, sep: char)
    ensures
        joined(split(s, sep), sep) == s,
        forall|i: int, k: int|
            0 <= i < split(s, sep).len() && 0 <= k < split(s, sep)[i].len()
                ==> #[trigger] split(s, sep)[i][k] != sep,
    decreases s.len(),
{
    let all = split(s, sep);
    lemma_split_len(s, sep);
    if s.len() > 0 {
        let rest = split(s.drop_first(), sep);
        law_pieces_join_to_the_text(s.drop_first(), sep);
        lemma_split_len(s.drop_first(), sep);
        if s[0] == sep {
            assert(all.drop_first() =~= rest);
            assert(joined(all, sep) =~= seq![sep] + joined(rest, sep));
            assert(s =~= seq![sep] + s.drop_first());
            assert forall|i: int, k: int|
                0 <= i < all.len() && 0 <= k < all[i].len() implies #[trigger] all[i][k]
                != sep by {
                assert(all[i] == rest[i - 1]);
            }
        } else {
            assert(all.drop_first() =~= rest.drop_first());
            assert(joined(all, sep) =~= seq![s[0]] + joined(rest, sep));
            assert(s =~= seq![s[0]] + s.drop_first());
            assert forall|i: int, k: int|
                0 <= i < all.len() && 0 <= k < all[i].len() implies #[trigger] all[i][k]
                != sep by {
                if i > 0 {
                    assert(all[i] == rest[i]);
                } else if k > 0 {
                    assert(all[0][k] == rest[0][k - 1]);
                }
            }
        }
    }
}

/// Joined pieces that do not hold the separator are what the text is split into.
pub proof fn law_joined_pieces_are_split_again(pieces: Seq<Seq<char>>, sep: char)
    requires
        pieces.len() > 0,
        forall|i: int, k: int|
            0 <= i < pieces.len() && 0 <= k < pieces[i].len() ==> #[trigger] pieces[i][k] != sep,
    ensures
        split(joined(pieces, sep), sep) == pieces,
    decreases pieces.len(),
{
    let first = pieces[0];
    let none = Seq::<char>::empty();
    if pieces.len() == 1 {
        lemma_split_head(first, none, sep);
        assert(first + none =~= first);
        assert(split(none, sep) =~= seq![none]);
        assert(split(first, sep) =~= pieces);
    } else {
        let rest = pieces.drop_first();
        assert forall|i: int, k: int|
            0 <= i < rest.len() && 0 <= k < rest[i].len() implies #[trigger] rest[i][k] != sep by {
            assert(rest[i][k] == pieces[i + 1][k]);
        }
        law_joined_pieces_are_split_again(rest, sep);
        let tail = seq![sep] + joined(rest, sep);
        assert(tail.drop_first() =~= joined(rest, sep));
        lemma_split_head(first, tail, sep);
        assert(first + tail =~= joined(pieces, sep));
        assert(first + none =~= first);
        assert(split(joined(pieces, sep), sep) =~= pieces);
    }
}

/// Joining two lists joins each, with a separator between.
pub proof fn lemma_joined_parts(a: Seq<Seq<char>>, b: Seq<Seq<char>>, sep: char)
    requires
        a.len() > 0,
        b.len() > 0,
    ensures
        joined(a + b, sep) == joined(a, sep) + seq![sep] + joined(b, sep),
    decreases a.len(),
{
    let all = a + b;
    if a.len() == 1 {
        assert(all.drop_first() =~= b);
    } else {
        lemma_joined_parts(a.drop_first(), b, sep);
        assert(all.drop_first() =~= a.drop_first() + b);
        assert(joined(all, sep) =~= joined(a, sep) + seq![sep] + joined(b, sep));
    }
}

/// A cut text is what stood before the first separator and what stood behind it;
/// a text that is not cut holds none.
pub proof fn law_cut_is_at_the_first_separator(s: Seq<char>, sep: char)
    ensures
        match once(s, sep) {
            Some((a, b)) => s == a + seq![sep] + b && !a.contains(sep),
            None => !s.contains(sep),
        },
    decreases s.len(),
{
    if s.len() > 0 && s[0] != sep {
        let rest = s.drop_first();
        law_cut_is_at_the_first_separator(rest, sep);
        match once(rest, sep) {
            Some((a, b)) => {
                let whole = seq![s[0]] + a;
                assert(s =~= seq![s[0]] + rest);
                assert(seq![s[0]] + (a + seq![sep] + b) =~= whole + seq![sep] + b);
                assert forall|k: int| 0 <= k < whole.len() implies whole[k] != sep by {
                    if k > 0 {
                        assert(a[k - 1] == whole[k]);
                    }
                }
            },
            None => {
                assert forall|k: int| 0 <= k < s.len() implies s[k] != sep by {
                    if k > 0 {
                        assert(rest[k - 1] == s[k]);
                    }
                }
            },
        }
    } else if s.len() > 0 {
        assert(s =~= Seq::<char>::empty() + seq![sep] + s.drop_first());
    }
}

proof fn lemma_trim_front(s: Seq<char>)
    ensures
        ({
            let i = s.len() - trim_front(s).len();
            &&& 0 <= i <= s.len()
            &&& trim_front(s) == s.skip(i)
            &&& forall|k: int| 0 <= k < i ==> is_space(#[trigger] s[k])
            &&& i < s.len() ==> !is_space(s[i])
        }),
    decreases s.len(),
{
    if s.len() > 0 && is_space(s[0]) {
        let rest = s.drop_first();
        lemma_trim_front(rest);
        let i = s.len() - trim_front(s).len();
        assert(rest.skip(i - 1) =~= s.skip(i));
        assert forall|k: int| 0 <= k < i implies is_space(#[trigger] s[k]) by {
            if k > 0 {
                assert(rest[k - 1] == s[k]);
            }
        }
    } else {
        assert(s.skip(0) =~= s);
    }
}

proof fn lemma_trim_back(s: Seq<char>)
    ensures
        ({
            let j = trim_back(s).len();
            &&& j <= s.len()
            &&& trim_back(s) == s.take(j as int)
            &&& forall|k: int| j <= k < s.len() ==> is_space(#[trigger] s[k])
            &&& j > 0 ==> !is_space(s[j - 1])
        }),
    decreases s.len(),
{
    if s.len() > 0 && is_space(s.last()) {
        let rest = s.drop_last();
        lemma_trim_back(rest);
        let j = trim_back(s).len() as int;
        assert(rest.take(j) =~= s.take(j));
        assert forall|k: int| j <= k < s.len() implies is_space(#[trigger] s[k]) by {
            if k < rest.len() {
                assert(rest[k] == s[k]);
            }
        }
    } else {
        assert(s.take(s.len() as int) =~= s);
    }
}

/// A trimmed text stands within the text, has only whitespace around it there,
/// and has none at its own ends.
pub proof fn law_trimming_takes_whitespace_and_no_more(s: Seq<char>)
    ensures
        exists|i: int, j: int|
            0 <= i <= j <= s.len() && trimmed(s) == #[trigger] s.subrange(i, j) && (forall|k: int|
                0 <= k < i || j <= k < s.len() ==> is_space(#[trigger] s[k])),
        trimmed(s).len() > 0 ==> !is_space(trimmed(s)[0]) && !is_space(trimmed(s).last()),
{
    let front = trim_front(s);
    lemma_trim_front(s);
    lemma_trim_back(front);
    let i = s.len() - front.len();
    let j = i + trimmed(s).len();
    assert(trimmed(s) =~= s.subrange(i, j));
    assert forall|k: int| 0 <= k < i || j <= k < s.len() implies is_space(#[trigger] s[k]) by {
        if j <= k {
            assert(front[k - i] == s[k]);
        }
    }
}

/// The number that decimal digits stand for.
pub open spec fn digits_stand_for(s: Seq<char>) -> int
    decreases s.len(),
{
    if s.len() == 0 {
        0
    } else {
        10 * digits_stand_for(s.drop_last()) + (s.last() as int - '0' as int)
    }
}

/// A number in decimal is made of digits, has no zero in front but for zero
/// itself, and stands for the number.
pub proof fn law_decimal_stands_for_its_number(n: nat)
    ensures
        decimal(n).len() > 0,
        forall|i: int| 0 <= i < decimal(n).len() ==> '0' <= #[trigger] decimal(n)[i] <= '9',
        n > 0 ==> decimal(n)[0] != '0',
        digits_stand_for(decimal(n)) == n,
    decreases n,
{
    let s = decimal(n);
    if n < 10 {
        assert(s.drop_last() =~= Seq::<char>::empty());
        assert(digits_stand_for(s.drop_last()) == 0);
        assert(s.last() as int == '0' as int + n);
    } else {
        law_decimal_stands_for_its_number(n / 10);
        let head = decimal(n / 10);
        assert(s.drop_last() =~= head);
        assert forall|i: int| 0 <= i < s.len() implies '0' <= #[trigger] s[i] <= '9' by {
            if i < head.len() {
                assert(s[i] == head[i]);
            }
        }
        assert(s[0] == head[0]);
    }
}

/// A signed number in decimal is a minus sign where it is negative, and then the
/// digits of its size.
pub proof fn law_signed_stands_for_its_number(n: int)
    ensures
        n >= 0 ==> digits_stand_for(signed(n)) == n && signed(n)[0] != '-',
        n < 0 ==> signed(n)[0] == '-' && digits_stand_for(signed(n).skip(1)) == -n,
        forall|i: int|
            0 <= i < signed(n).len() ==> '0' <= #[trigger] signed(n)[i] <= '9' || signed(n)[i]
                == '-',
        signed(n).len() > 0,
{
    reveal_strlit("-");
    if n < 0 {
        let d = decimal((-n) as nat);
        law_decimal_stands_for_its_number((-n) as nat);
        assert(signed(n).skip(1) =~= d);
        assert forall|i: int| 0 <= i < signed(n).len() implies '0' <= #[trigger] signed(n)[i] <= '9'
            || signed(n)[i] == '-' by {
            if i > 0 {
                assert(signed(n)[i] == d[i - 1]);
            }
        }
    } else {
        law_decimal_stands_for_its_number(n as nat);
    }
}

} // verus!
