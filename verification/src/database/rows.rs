//! Row keys and row values as bytes.

use vstd::prelude::*;
use vstd::string::*;
use vstd::utf8::*;

use crate::be;
use crate::be::{copy_range, get_u32, put_bytes, put_prefixed, put_u32};
use crate::text;

verus! {

/// The prefix of the keys of a table: its name and a zero byte.
pub open spec fn prefix_of(table: Seq<char>) -> Seq<u8> {
    encode_utf8(table).push(0)
}

/// The key of a row among those of all tables.
pub open spec fn composite(table: Seq<char>, key: Seq<u8>) -> Seq<u8> {
    prefix_of(table) + key
}

/// Whether `key` starts with `prefix`.
pub open spec fn has_prefix(key: Seq<u8>, prefix: Seq<u8>) -> bool {
    prefix.len() <= key.len() && key.take(prefix.len() as int) == prefix
}

/// The key of a row among those of all tables.
pub fn make_key(table: &str, key: &[u8]) -> (r: Vec<u8>)
    ensures
        r@ == composite(table@, key@),
{
    let mut r = make_prefix(table);
    put_bytes(&mut r, key);
    r
}

/// The prefix of the keys of a table.
pub fn make_prefix(table: &str) -> (r: Vec<u8>)
    ensures
        r@ == prefix_of(table@),
{
    let mut r: Vec<u8> = Vec::new();
    put_bytes(&mut r, table.as_bytes());
    r.push(0);
    assert(r@ =~= prefix_of(table@));
    r
}

/// Whether `key` starts with `prefix`.
pub fn starts_with(key: &[u8], prefix: &[u8]) -> (r: bool)
    ensures
        r == has_prefix(key@, prefix@),
{
    if key.len() < prefix.len() {
        return false;
    }
    let mut i: usize = 0;
    while i < prefix.len()
        invariant
            i <= prefix@.len() <= key@.len(),
            forall|k: int| 0 <= k < i ==> key@[k] == prefix@[k],
        decreases prefix@.len() - i,
    {
        if key[i] != prefix[i] {
            assert(key@.take(prefix@.len() as int)[i as int] != prefix@[i as int]);
            return false;
        }
        i += 1;
    }
    assert(key@.take(prefix@.len() as int) =~= prefix@);
    true
}

/// The key of a row without the prefix of its table, or all of it where the
/// prefix is missing.
pub open spec fn stripped(key: Seq<u8>, table: Seq<char>) -> Seq<u8> {
    if has_prefix(key, prefix_of(table)) {
        key.skip(prefix_of(table).len() as int)
    } else {
        key
    }
}

/// Takes the prefix of a table off a key.
pub fn strip_prefix(key: &[u8], table: &str) -> (r: Vec<u8>)
    ensures
        r@ == stripped(key@, table@),
{
    let prefix = make_prefix(table);
    let from: usize = if starts_with(key, prefix.as_slice()) {
        prefix.len()
    } else {
        0
    };
    let r = copy_range(key, from, key.len());
    assert(r@ =~= stripped(key@, table@));
    r
}

/// Where the first zero byte stands.
pub open spec fn first_zero(key: Seq<u8>) -> Option<int>
    decreases key.len(),
{
    if key.len() == 0 {
        None
    } else {
        match first_zero(key.drop_last()) {
            Some(i) => Some(i),
            None => if key.last() == 0 {
                Some(key.len() - 1)
            } else {
                None
            },
        }
    }
}

/// The first zero byte is one, and there is none before it.
pub proof fn lemma_first_zero(key: Seq<u8>)
    ensures
        match first_zero(key) {
            Some(i) => 0 <= i < key.len() && key[i] == 0 && forall|j: int|
                0 <= j < i ==> key[j] != 0,
            None => forall|j: int| 0 <= j < key.len() ==> key[j] != 0,
        },
    decreases key.len(),
{
    if key.len() > 0 {
        lemma_first_zero(key.drop_last());
        assert forall|j: int| 0 <= j < key.len() - 1 implies key[j] == key.drop_last()[j] by {}
    }
}

/// The table of a row key: what stands before the first zero byte, where that
/// is UTF-8.
pub open spec fn table_of(key: Seq<u8>) -> Option<Seq<char>> {
    match first_zero(key) {
        Some(i) if valid_utf8(key.take(i)) => Some(decode_utf8(key.take(i))),
        _ => None,
    }
}

/// The table of a row key.
pub fn split_table(key: &[u8]) -> (r: Option<String>)
    ensures
        match r {
            Some(t) => table_of(key@) == Some(t@),
            None => table_of(key@) is None,
        },
{
    proof {
        lemma_first_zero(key@);
    }
    let mut i: usize = 0;
    while i < key.len() && key[i] != 0
        invariant
            i <= key@.len(),
            forall|j: int| 0 <= j < i ==> key@[j] != 0,
        decreases key@.len() - i,
    {
        i += 1;
    }
    if i == key.len() {
        return None;
    }
    assert(first_zero(key@) == Some(i as int));
    let name = copy_range(key, 0, i);
    assert(name@ =~= key@.take(i as int));
    crate::text::text_strict(name)
}

/// The `idx`-th cell of a row from `pos` on: each cell is a signed 32-bit
/// length and that many bytes, a null one a negative length and nothing.
pub open spec fn cell_at(value: Seq<u8>, pos: int, idx: nat) -> Option<Seq<u8>>
    decreases value.len() - pos,
{
    if pos < 0 || pos + 4 > value.len() {
        None
    } else {
        let len = be::u32_at(value, pos) as i32;
        if len < 0 {
            if idx == 0 {
                None
            } else {
                cell_at(value, pos + 4, (idx - 1) as nat)
            }
        } else if pos + 4 + len > value.len() {
            None
        } else if idx == 0 {
            Some(value.subrange(pos + 4, pos + 4 + len))
        } else {
            cell_at(value, pos + 4 + len, (idx - 1) as nat)
        }
    }
}

/// The `idx`-th cell of a row.
pub open spec fn column_in(value: Seq<u8>, idx: nat) -> Option<Seq<u8>> {
    cell_at(value, 0, idx)
}

/// The bytes of the `idx`-th cell of a row; nothing for a null cell, or where
/// the row ends before it.
pub fn decode_column(value: &[u8], idx: usize) -> (r: Option<Vec<u8>>)
    ensures
        match r {
            Some(cell) => column_in(value@, idx as nat) == Some(cell@) && cell@.len() <= i32::MAX,
            None => column_in(value@, idx as nat) is None,
        },
{
    let mut pos: usize = 0;
    let mut left: usize = idx;
    assert(value.len() == value@.len());
    while value.len() >= 4 && pos <= value.len() - 4
        invariant
            pos <= value@.len(),
            value@.len() == value.len(),
            column_in(value@, idx as nat) == cell_at(value@, pos as int, left as nat),
        decreases value@.len() - pos,
    {
        let len: i32 = get_u32(value, pos) as i32;
        pos += 4;
        if len < 0 {
            if left == 0 {
                return None;
            }
            left -= 1;
            continue ;
        }
        if len as usize > value.len() - pos {
            return None;
        }
        let end: usize = pos + len as usize;
        if left == 0 {
            return Some(copy_range(value, pos, end));
        }
        pos = end;
        left -= 1;
    }
    None
}

/// The bytes of one cell.
pub open spec fn cell_bytes(cell: Option<Seq<u8>>) -> Seq<u8> {
    match cell {
        Some(data) => be::prefixed(data),
        None => be::be32(u32::MAX),
    }
}

/// The bytes of a row.
pub open spec fn row_bytes(cells: Seq<Option<Seq<u8>>>) -> Seq<u8>
    decreases cells.len(),
{
    if cells.len() == 0 {
        Seq::empty()
    } else {
        cell_bytes(cells[0]) + row_bytes(cells.drop_first())
    }
}

/// Each cell of a row is read back as it was written.
pub proof fn law_cells_are_read_back(head: Seq<u8>, cells: Seq<Option<Seq<u8>>>, idx: nat)
    requires
        idx < cells.len(),
        forall|i: int|
            0 <= i <= idx ==> ((#[trigger] cells[i]) matches Some(data) ==> data.len()
                <= i32::MAX),
    ensures
        cell_at(head + row_bytes(cells), head.len() as int, idx) == cells[idx as int],
        head.len() == 0 ==> column_in(row_bytes(cells), idx) == cells[idx as int],
    decreases cells.len(),
{
    let value = head + row_bytes(cells);
    let pos = head.len() as int;
    let rest = cells.drop_first();
    assert(u32::MAX as i32 == -1) by (bit_vector);
    if head.len() == 0 {
        assert(value =~= row_bytes(cells));
    }
    match cells[0] {
        None => {
            be::lemma_be32(u32::MAX);
            assert(value.subrange(pos, pos + 4) =~= be::be32(u32::MAX));
            if idx > 0 {
                let next = head + cell_bytes(cells[0]);
                law_cells_are_read_back(next, rest, (idx - 1) as nat);
                assert(next + row_bytes(rest) =~= value);
            }
        },
        Some(data) => {
            let n = data.len() as u32;
            be::lemma_be32(n);
            assert(value.subrange(pos, pos + 4) =~= be::be32(n));
            assert(n <= 0x7fffffff ==> (n as i32) as int == n as int && n as i32 >= 0);
            if idx == 0 {
                assert(value.subrange(pos + 4, pos + 4 + n as int) =~= data);
            } else {
                let next = head + cell_bytes(cells[0]);
                law_cells_are_read_back(next, rest, (idx - 1) as nat);
                assert(next + row_bytes(rest) =~= value);
            }
        },
    }
}

/// What a string of decimal digits stands for.
pub open spec fn digits_value(s: Seq<u8>) -> nat
    decreases s.len(),
{
    if s.len() == 0 {
        0
    } else {
        digits_value(s.drop_last()) * 10 + (s.last() - 48) as nat
    }
}

pub open spec fn all_digits(s: Seq<u8>) -> bool {
    forall|i: int| 0 <= i < s.len() ==> 48 <= #[trigger] s[i] <= 57
}

/// The number that a text of an optional sign and digits stands for.
pub open spec fn i64_in(s: Seq<u8>) -> Option<i64> {
    let signed = s.len() > 0 && (s[0] == 43 || s[0] == 45);
    let digits = if signed {
        s.skip(1)
    } else {
        s
    };
    let n = if signed && s[0] == 45 {
        -digits_value(digits)
    } else {
        digits_value(digits) as int
    };
    if digits.len() > 0 && all_digits(digits) && i64::MIN <= n <= i64::MAX {
        Some(n as i64)
    } else {
        None
    }
}

spec fn tens(k: nat) -> nat
    decreases k,
{
    if k == 0 {
        1
    } else {
        10 * tens((k - 1) as nat)
    }
}

proof fn lemma_decimal_len(n: nat, k: nat)
    requires
        k > 0,
        n < tens(k),
    ensures
        text::decimal(n).len() <= k,
    decreases k,
{
    if n >= 10 {
        if k == 1 {
            assert(tens(0) == 1);
        } else {
            lemma_decimal_len(n / 10, (k - 1) as nat);
        }
    }
}

/// The digits of a number stand for it.
proof fn lemma_decimal(n: nat)
    ensures
        is_ascii_chars(text::decimal(n)),
        text::decimal(n).len() > 0,
        all_digits(encode_utf8(text::decimal(n))),
        digits_value(encode_utf8(text::decimal(n))) == n,
    decreases n,
{
    let t = text::decimal(n);
    let bytes = encode_utf8(t);
    if n < 10 {
        assert('\0' <= t[0] <= '\u{7f}');
        is_ascii_chars_encode_utf8(t);
        assert(bytes[0] == t[0] as u8);
        assert(bytes.drop_last() =~= Seq::<u8>::empty());
        assert(digits_value(bytes.drop_last()) == 0);
    } else {
        let head = text::decimal(n / 10);
        lemma_decimal(n / 10);
        assert forall|i: int| 0 <= i < t.len() implies '\0' <= #[trigger] t[i] <= '\u{7f}' by {
            if i < head.len() {
                assert(t[i] == head[i]);
            }
        }
        is_ascii_chars_encode_utf8(t);
        is_ascii_chars_encode_utf8(head);
        assert forall|i: int| 0 <= i < head.len() implies bytes[i] == #[trigger] encode_utf8(
            head,
        )[i] by {
            assert(t[i] == head[i]);
            assert(bytes[i] == t[i] as u8);
        }
        assert(bytes.drop_last() =~= encode_utf8(head));
        assert(bytes.last() == t[t.len() - 1] as u8);
        assert forall|i: int| 0 <= i < bytes.len() implies 48 <= #[trigger] bytes[i] <= 57 by {
            if i < head.len() {
                assert(bytes[i] == encode_utf8(head)[i]);
            }
        }
    }
}

/// A number is read back as it was written.
pub proof fn law_number_is_read_back(n: i64)
    ensures
        i64_in(encode_utf8(text::signed(n as int))) == Some(n),
        encode_utf8(text::signed(n as int)).len() <= 20,
{
    assert(tens(19) == 10_000_000_000_000_000_000) by {
        reveal_with_fuel(tens, 20);
    }
    let t = text::signed(n as int);
    let bytes = encode_utf8(t);
    reveal_strlit("-");
    if n < 0 {
        let d = text::decimal((-n) as nat);
        lemma_decimal((-n) as nat);
        lemma_decimal_len((-n) as nat, 19);
        assert forall|i: int| 0 <= i < t.len() implies '\0' <= #[trigger] t[i] <= '\u{7f}' by {
            if i > 0 {
                assert(t[i] == d[i - 1]);
            }
        }
        is_ascii_chars_encode_utf8(t);
        is_ascii_chars_encode_utf8(d);
        assert(bytes[0] == t[0] as u8);
        assert forall|i: int| 0 <= i < d.len() implies bytes.skip(1)[i] == #[trigger] encode_utf8(
            d,
        )[i] by {
            assert(d[i] == t[i + 1]);
            assert(encode_utf8(d)[i] == d[i] as u8);
            assert(bytes[i + 1] == t[i + 1] as u8);
        }
        assert(bytes.skip(1) =~= encode_utf8(d));
    } else {
        lemma_decimal(n as nat);
        lemma_decimal_len(n as nat, 19);
        is_ascii_chars_encode_utf8(t);
        assert(48 <= bytes[0] <= 57);
    }
}

/// More digits make a number no smaller.
pub proof fn lemma_digits_grow(s: Seq<u8>, i: int)
    requires
        0 <= i <= s.len(),
    ensures
        digits_value(s.take(i)) <= digits_value(s),
    decreases s.len(),
{
    if i < s.len() {
        lemma_digits_grow(s.drop_last(), i);
        assert(s.drop_last().take(i) =~= s.take(i));
    } else {
        assert(s.take(i) =~= s);
    }
}

/// The views of cells.
pub open spec fn cell_views(cells: Seq<Option<Vec<u8>>>) -> Seq<Option<Seq<u8>>> {
    cells.map_values(
        |c: Option<Vec<u8>>|
            match c {
                Some(v) => Some(v@),
                None => None,
            },
    )
}

/// Puts cells together to a row.
pub fn encode_cells(cells: &Vec<Option<Vec<u8>>>) -> (row: Vec<u8>)
    ensures
        row@ == row_bytes(cell_views(cells@)),
{
    let ghost all = cell_views(cells@);
    let mut row: Vec<u8> = Vec::new();
    let mut i: usize = 0;
    assert(all.skip(0) =~= all);
    assert(row@ + row_bytes(all) =~= row_bytes(all));
    while i < cells.len()
        invariant
            all == cell_views(cells@),
            i <= cells@.len(),
            row@ + row_bytes(all.skip(i as int)) == row_bytes(all),
        decreases cells@.len() - i,
    {
        let ghost before = row@;
        proof {
            assert(all.skip(i as int).drop_first() =~= all.skip(i + 1));
            assert(all.skip(i as int)[0] == all[i as int]);
        }
        match &cells[i] {
            Some(data) => {
                put_prefixed(&mut row, data.as_slice());
            },
            None => {
                put_u32(&mut row, u32::MAX);
            },
        }
        assert(row@ =~= before + cell_bytes(all[i as int]));
        assert(row@ + row_bytes(all.skip(i + 1)) =~= before + (cell_bytes(all[i as int])
            + row_bytes(all.skip(i + 1))));
        i += 1;
    }
    assert(row@ =~= row_bytes(all));
    row
}

/// Reads a cell as a whole number: an optional sign and decimal digits.
pub fn decode_i64(bytes: &[u8]) -> (r: Option<i64>)
    ensures
        r == i64_in(bytes@),
{
    if bytes.len() == 0 {
        return None;
    }
    let signed: bool = bytes[0] == 43 || bytes[0] == 45;
    let negative: bool = bytes[0] == 45;
    let from: usize = if signed {
        1
    } else {
        0
    };
    let ghost digits = bytes@.skip(from as int);
    proof {
        assert(bytes@.skip(0) =~= bytes@);
        assert(digits.take(0) =~= Seq::<u8>::empty());
    }
    if from == bytes.len() {
        return None;
    }
    let mut n: i128 = 0;
    let mut i: usize = from;
    while i < bytes.len()
        invariant
            from <= i <= bytes@.len(),
            digits == bytes@.skip(from as int),
            signed == (bytes@.len() > 0 && (bytes@[0] == 43 || bytes@[0] == 45)),
            negative == (bytes@.len() > 0 && bytes@[0] == 45),
            from == (if signed {
                1int
            } else {
                0
            }),
            bytes@.skip(0) =~= bytes@,
            forall|k: int| 0 <= k < i - from ==> 48 <= #[trigger] digits[k] <= 57,
            n == digits_value(digits.take(i - from)),
            n <= 9223372036854775808,
        decreases bytes@.len() - i,
    {
        let d: u8 = bytes[i];
        assert(digits[i - from] == d);
        if d < 48 || d > 57 {
            assert(!all_digits(digits));
            return None;
        }
        proof {
            assert(digits.take(i - from + 1).drop_last() =~= digits.take(i - from));
            lemma_digits_grow(digits, i - from + 1);
        }
        n = n * 10 + (d - 48) as i128;
        if n > 9223372036854775808 {
            return None;
        }
        i += 1;
    }
    assert(digits.take(digits.len() as int) =~= digits);
    if negative {
        return Some((0 - n) as i64);
    }
    if n > 9223372036854775807 {
        return None;
    }
    Some(n as i64)
}

/// The first zero is a zero and none stands before it; where there is none, no byte
/// is zero.
pub proof fn law_first_zero_is_the_first(key: Seq<u8>)
    ensures
        first_zero(key) matches Some(i) ==> 0 <= i < key.len() && key[i] == 0 && forall|j: int|
            0 <= j < i ==> #[trigger] key[j] != 0,
        first_zero(key) is None ==> forall|j: int| 0 <= j < key.len() ==> #[trigger] key[j] != 0,
    decreases key.len(),
{
    if key.len() > 0 {
        let head = key.drop_last();
        law_first_zero_is_the_first(head);
        match first_zero(head) {
            Some(i) => {
                assert forall|j: int| 0 <= j < i implies #[trigger] key[j] != 0 by {
                    assert(head[j] == key[j]);
                }
            },
            None => {
                assert forall|j: int| 0 <= j < key.len() - 1 implies #[trigger] key[j] != 0 by {
                    assert(head[j] == key[j]);
                }
            },
        }
    }
}

/// The key of a row is the name of the table, a zero and the row's own key. The
/// table's name and the own key are read back from it.
pub proof fn law_key_names_table_and_row(table: Seq<char>, key: Seq<u8>)
    ensures
        composite(table, key) == encode_utf8(table) + seq![0u8] + key,
        stripped(composite(table, key), table) == key,
        !encode_utf8(table).contains(0) ==> table_of(composite(table, key)) == Some(table),
{
    let name = encode_utf8(table);
    let all = composite(table, key);
    assert(all =~= name + seq![0u8] + key);
    assert(all.take(prefix_of(table).len() as int) =~= prefix_of(table));
    assert(stripped(all, table) =~= key);
    if !name.contains(0) {
        law_first_zero_is_the_first(all);
        let n = name.len() as int;
        assert(all[n] == 0);
        match first_zero(all) {
            Some(i) => {
                if i < n {
                    assert(name[i] == 0);
                    assert(name.contains(0));
                }
                if i > n {
                    assert(all[n] != 0);
                }
                assert(all.take(i) =~= name);
                encode_utf8_valid_utf8(table);
                encode_utf8_decode_utf8(table);
            },
            None => {},
        }
    }
}

/// A row is its cells one behind the other. A cell is its length in four bytes and
/// itself; a cell without a value is four bytes of 255.
pub proof fn law_row_is_its_cells(
    a: Seq<Option<Seq<u8>>>,
    b: Seq<Option<Seq<u8>>>,
    cell: Option<Seq<u8>>,
)
    requires
        cell matches Some(data) ==> data.len() <= i32::MAX,
    ensures
        row_bytes(a + b) == row_bytes(a) + row_bytes(b),
        cell is None ==> row_bytes(seq![cell]) == seq![255u8, 255u8, 255u8, 255u8],
        cell matches Some(data) ==> row_bytes(seq![cell]).len() == 4 + data.len() && be::u32_at(
            row_bytes(seq![cell]),
            0,
        ) == data.len() && row_bytes(seq![cell]).skip(4) == data,
    decreases a.len(),
{
    if a.len() == 0 {
        assert(a + b =~= b);
        assert(row_bytes(a) + row_bytes(b) =~= row_bytes(b));
    } else {
        law_row_is_its_cells(a.drop_first(), b, cell);
        assert((a + b).drop_first() =~= a.drop_first() + b);
        assert(row_bytes(a + b) =~= row_bytes(a) + row_bytes(b));
    }
    let one = row_bytes(seq![cell]);
    assert(seq![cell].drop_first() =~= Seq::<Option<Seq<u8>>>::empty());
    assert(row_bytes(seq![cell].drop_first()) == Seq::<u8>::empty());
    assert(one =~= cell_bytes(cell));
    match cell {
        None => {
            reveal(be::be32);
            assert(one =~= seq![255u8, 255u8, 255u8, 255u8]);
        },
        Some(data) => {
            be::lemma_be32(data.len() as u32);
            assert(one.subrange(0, 4) =~= be::be32(data.len() as u32));
            be::lemma_u32_at(one, 0, data.len() as u32);
            assert(one.skip(4) =~= data);
        },
    }
}

/// A number may begin with a sign and is made of digits else: a minus turns it
/// round, a plus changes nothing, and any other byte makes it no number.
pub proof fn law_numbers_are_signs_and_digits(digits: Seq<u8>, i: int)
    requires
        0 <= i < digits.len(),
        digits[0] != 43 && digits[0] != 45,
    ensures
        i64_in(seq![43u8] + digits) == i64_in(digits),
        i64_in(digits) matches Some(n) ==> i64_in(seq![45u8] + digits) == Some((-n) as i64) && n >= 0,
        !(48 <= digits[i] <= 57) ==> i64_in(digits) is None && i64_in(seq![45u8] + digits) is None,
        i64_in(Seq::<u8>::empty()) is None,
{
    assert((seq![43u8] + digits).skip(1) =~= digits);
    assert((seq![45u8] + digits).skip(1) =~= digits);
}

/// Each digit counts ten times as much as the one behind it.
pub proof fn law_digits_count_in_tens(digits: Seq<u8>, d: u8)
    requires
        48 <= d <= 57,
        i64_in(digits) matches Some(n) && 0 <= n < 900000000000000000,
        digits[0] != 43 && digits[0] != 45,
    ensures
        i64_in(digits.push(d)) == Some((10 * i64_in(digits)->0 + (d - 48)) as i64),
        i64_in(seq![d]) == Some((d - 48) as i64),
{
    let all = digits.push(d);
    assert(all.drop_last() =~= digits);
    assert(all_digits(all));
    assert(all[0] == digits[0]);
    let one = seq![d];
    assert(one.drop_last() =~= Seq::<u8>::empty());
    assert(digits_value(one.drop_last()) == 0);
    assert(all_digits(one));
}

} // verus!
