//! The names of the files in which indexes are kept.

use vstd::prelude::*;
use vstd::string::*;

use crate::text::{chars_of, same_text, text_of};

verus! {

/// The kinds of index.
#[derive(Debug, Clone, Copy, PartialEq, Eq, Structural)]
pub enum IndexKind {
    BTree,
    Geo,
    Time,
    Graph,
    JsonPath,
    Fts,
    Vector,
    IvfPq,
}

/// The extension of the files of a kind; those of B-trees have none.
pub open spec fn extension_of(kind: IndexKind) -> Option<Seq<char>> {
    match kind {
        IndexKind::BTree => None,
        IndexKind::Geo => Some("geo"@),
        IndexKind::Time => Some("ts"@),
        IndexKind::Graph => Some("graph"@),
        IndexKind::JsonPath => Some("jsonpath"@),
        IndexKind::Fts => Some("fts"@),
        IndexKind::Vector => Some("vec"@),
        IndexKind::IvfPq => Some("ivfpq"@),
    }
}

/// The kind that an extension says; that of a B-tree for any other.
pub open spec fn kind_of(ext: Option<Seq<char>>) -> IndexKind {
    match ext {
        None => IndexKind::BTree,
        Some(e) => if e == "geo"@ {
            IndexKind::Geo
        } else if e == "ts"@ {
            IndexKind::Time
        } else if e == "graph"@ {
            IndexKind::Graph
        } else if e == "jsonpath"@ {
            IndexKind::JsonPath
        } else if e == "fts"@ {
            IndexKind::Fts
        } else if e == "vec"@ {
            IndexKind::Vector
        } else if e == "ivfpq"@ {
            IndexKind::IvfPq
        } else {
            IndexKind::BTree
        },
    }
}

/// Where a character stands first.
pub open spec fn first_of(s: Seq<char>, c: char) -> Option<int>
    decreases s.len(),
{
    if s.len() == 0 {
        None
    } else {
        match first_of(s.drop_last(), c) {
            Some(i) => Some(i),
            None => if s.last() == c {
                Some(s.len() - 1)
            } else {
                None
            },
        }
    }
}

/// Where a character stands last.
pub open spec fn last_of(s: Seq<char>, c: char) -> Option<int>
    decreases s.len(),
{
    if s.len() == 0 {
        None
    } else if s.last() == c {
        Some(s.len() - 1)
    } else {
        last_of(s.drop_last(), c)
    }
}

pub proof fn lemma_first_of(s: Seq<char>, c: char)
    ensures
        match first_of(s, c) {
            Some(i) => 0 <= i < s.len() && s[i] == c && forall|j: int| 0 <= j < i ==> s[j] != c,
            None => forall|j: int| 0 <= j < s.len() ==> s[j] != c,
        },
    decreases s.len(),
{
    if s.len() > 0 {
        lemma_first_of(s.drop_last(), c);
        assert forall|j: int| 0 <= j < s.len() - 1 implies s[j] == s.drop_last()[j] by {}
    }
}

pub proof fn lemma_last_of(s: Seq<char>, c: char)
    ensures
        match last_of(s, c) {
            Some(i) => 0 <= i < s.len() && s[i] == c && forall|j: int|
                i < j < s.len() ==> s[j] != c,
            None => forall|j: int| 0 <= j < s.len() ==> s[j] != c,
        },
    decreases s.len(),
{
    if s.len() > 0 {
        lemma_last_of(s.drop_last(), c);
        assert forall|j: int| 0 <= j < s.len() - 1 implies s[j] == s.drop_last()[j] by {}
    }
}

/// A file name without its extension: what stands before its last dot, unless
/// that is its first character.
pub open spec fn stem_of(name: Seq<char>) -> Seq<char> {
    match last_of(name, '.') {
        Some(i) if i > 0 => name.take(i),
        _ => name,
    }
}

/// The extension of a file name.
pub open spec fn ext_of(name: Seq<char>) -> Option<Seq<char>> {
    match last_of(name, '.') {
        Some(i) if i > 0 => Some(name.skip(i + 1)),
        _ => None,
    }
}

/// What a file name says: the kind of the index, its table and its column.
/// Nothing for a name without an underscore before its extension.
pub open spec fn index_in(name: Seq<char>) -> Option<(IndexKind, Seq<char>, Seq<char>)> {
    let stem = stem_of(name);
    match first_of(stem, '_') {
        Some(i) => Some((kind_of(ext_of(name)), stem.take(i), stem.skip(i + 1))),
        None => None,
    }
}

/// The name of the file of an index.
pub open spec fn file_name(kind: IndexKind, table: Seq<char>, column: Seq<char>) -> Seq<char> {
    let stem = table.push('_') + column;
    match extension_of(kind) {
        Some(e) => stem.push('.') + e,
        None => stem,
    }
}

/// The kind that an extension says.
fn kind_by_extension(ext: &str) -> (kind: IndexKind)
    ensures
        kind == kind_of(Some(ext@)),
{
    if same_text(ext, "geo") {
        IndexKind::Geo
    } else if same_text(ext, "ts") {
        IndexKind::Time
    } else if same_text(ext, "graph") {
        IndexKind::Graph
    } else if same_text(ext, "jsonpath") {
        IndexKind::JsonPath
    } else if same_text(ext, "fts") {
        IndexKind::Fts
    } else if same_text(ext, "vec") {
        IndexKind::Vector
    } else if same_text(ext, "ivfpq") {
        IndexKind::IvfPq
    } else {
        IndexKind::BTree
    }
}

/// Reads the name of an index file.
pub fn classify_index_file(name: &str) -> (r: Option<(IndexKind, String, String)>)
    ensures
        match r {
            Some((kind, table, column)) => index_in(name@) == Some((kind, table@, column@)),
            None => index_in(name@) is None,
        },
{
    let chars = chars_of(name);
    let n: usize = chars.len();
    let mut dot: usize = n;
    while dot > 0 && chars[dot - 1] != '.'
        invariant
            chars@ == name@,
            n == chars@.len(),
            dot <= n,
            forall|j: int| dot <= j < n ==> chars@[j] != '.',
        decreases dot,
    {
        dot -= 1;
    }
    // `dot` is one behind the last dot, or 0 where there is none.
    proof {
        lemma_last_of(name@, '.');
    }
    let stem_len: usize = if dot > 1 {
        dot - 1
    } else {
        n
    };
    let kind = if dot > 1 {
        let ext = text_of(chars.as_slice(), dot, n);
        assert(ext@ =~= name@.skip(dot as int));
        kind_by_extension(ext.as_str())
    } else {
        IndexKind::BTree
    };
    let ghost stem = name@.take(stem_len as int);
    proof {
        assert(stem =~= stem_of(name@));
        assert(kind == kind_of(ext_of(name@)));
        lemma_first_of(stem, '_');
    }
    let mut u: usize = 0;
    while u < stem_len && chars[u] != '_'
        invariant
            chars@ == name@,
            n == chars@.len(),
            u <= stem_len <= n,
            forall|j: int| 0 <= j < u ==> chars@[j] != '_',
        decreases stem_len - u,
    {
        u += 1;
    }
    if u == stem_len {
        assert forall|j: int| 0 <= j < stem.len() implies stem[j] != '_' by {}
        return None;
    }
    assert(stem[u as int] == '_');
    assert forall|j: int| 0 <= j < u implies stem[j] != '_' by {}
    let table = text_of(chars.as_slice(), 0, u);
    let column = text_of(chars.as_slice(), u + 1, stem_len);
    assert(table@ =~= stem.take(u as int));
    assert(column@ =~= stem.skip(u + 1));
    Some((kind, table, column))
}

/// The name of the file of an index.
pub fn index_file_name(kind: IndexKind, table: &str, column: &str) -> (name: String)
    ensures
        name@ == file_name(kind, table@, column@),
{
    let mut name = table.to_owned();
    name.push('_');
    name.append(column);
    match kind {
        IndexKind::BTree => {
            return name;
        },
        _ => {},
    }
    name.push('.');
    match kind {
        IndexKind::BTree => {},
        IndexKind::Geo => {
            name.append("geo");
        },
        IndexKind::Time => {
            name.append("ts");
        },
        IndexKind::Graph => {
            name.append("graph");
        },
        IndexKind::JsonPath => {
            name.append("jsonpath");
        },
        IndexKind::Fts => {
            name.append("fts");
        },
        IndexKind::Vector => {
            name.append("vec");
        },
        IndexKind::IvfPq => {
            name.append("ivfpq");
        },
    }
    name
}

proof fn lemma_last_of_is(s: Seq<char>, c: char, i: int)
    requires
        0 <= i < s.len(),
        s[i] == c,
        forall|j: int| i < j < s.len() ==> s[j] != c,
    ensures
        last_of(s, c) == Some(i),
{
    lemma_last_of(s, c);
}

/// The file of an index is found again under its kind, table and column,
/// except where the name of the table holds an underscore, or, of a B-tree,
/// that of the table or of the column a dot.
pub proof fn law_file_names_are_read_back(kind: IndexKind, table: Seq<char>, column: Seq<char>)
    requires
        !table.contains('_'),
        kind == IndexKind::BTree ==> !table.contains('.') && !column.contains('.'),
    ensures
        index_in(file_name(kind, table, column)) == Some((kind, table, column)),
{
    reveal_strlit("geo");
    reveal_strlit("ts");
    reveal_strlit("graph");
    reveal_strlit("jsonpath");
    reveal_strlit("fts");
    reveal_strlit("vec");
    reveal_strlit("ivfpq");
    let name = file_name(kind, table, column);
    let stem = table.push('_') + column;
    match extension_of(kind) {
        Some(e) => {
            assert forall|j: int| stem.len() < j < name.len() implies name[j] != '.' by {
                assert(name[j] == e[j - stem.len() - 1]);
            }
            lemma_last_of_is(name, '.', stem.len() as int);
            assert(name.take(stem.len() as int) =~= stem);
            assert(name.skip(stem.len() as int + 1) =~= e);
            // The extensions differ in length or in their first letter.
            assert(e.len() > 0);
            assert("geo"@[0] == 'g' && "graph"@.len() == 5 && "geo"@.len() == 3);
            assert("fts"@[0] == 'f' && "vec"@[0] == 'v' && "ivfpq"@[0] == 'i' && "graph"@[0] == 'g');
            assert("ts"@.len() == 2 && "jsonpath"@.len() == 8 && "fts"@.len() == 3);
            assert("vec"@.len() == 3 && "ivfpq"@.len() == 5);
            assert(kind_of(Some(e)) == kind);
        },
        None => {
            assert forall|j: int| 0 <= j < name.len() implies name[j] != '.' by {
                if j < table.len() {
                    assert(table[j] != '.');
                } else if j > table.len() {
                    assert(column[j - table.len() - 1] != '.');
                }
            }
            lemma_last_of(name, '.');
        },
    }
    assert(stem_of(name) == stem);
    lemma_first_of(stem, '_');
    assert(stem[table.len() as int] == '_');
    assert forall|j: int| 0 <= j < table.len() implies stem[j] != '_' by {
        assert(table[j] != '_');
    }
    assert(stem.take(table.len() as int) =~= table);
    assert(stem.skip(table.len() as int + 1) =~= column);
}

/// The file of an index is named after its table and its column, with an underscore
/// between, and ends in what tells its kind.
pub proof fn law_name_of_a_file_tells_its_kind(table: Seq<char>, column: Seq<char>)
    ensures
        ({
            let stem = table + seq!['_'] + column;
            &&& file_name(IndexKind::BTree, table, column) == stem
            &&& file_name(IndexKind::Geo, table, column) == stem + ".geo"@
            &&& file_name(IndexKind::Time, table, column) == stem + ".ts"@
            &&& file_name(IndexKind::Graph, table, column) == stem + ".graph"@
            &&& file_name(IndexKind::JsonPath, table, column) == stem + ".jsonpath"@
            &&& file_name(IndexKind::Fts, table, column) == stem + ".fts"@
            &&& file_name(IndexKind::Vector, table, column) == stem + ".vec"@
            &&& file_name(IndexKind::IvfPq, table, column) == stem + ".ivfpq"@
        }),
{
    let stem = table + seq!['_'] + column;
    assert(table.push('_') + column =~= stem);
    reveal_strlit("geo");
    reveal_strlit("ts");
    reveal_strlit("graph");
    reveal_strlit("jsonpath");
    reveal_strlit("fts");
    reveal_strlit("vec");
    reveal_strlit("ivfpq");
    reveal_strlit(".geo");
    reveal_strlit(".ts");
    reveal_strlit(".graph");
    reveal_strlit(".jsonpath");
    reveal_strlit(".fts");
    reveal_strlit(".vec");
    reveal_strlit(".ivfpq");
    assert(stem.push('.') + "geo"@ =~= stem + ".geo"@);
    assert(stem.push('.') + "ts"@ =~= stem + ".ts"@);
    assert(stem.push('.') + "graph"@ =~= stem + ".graph"@);
    assert(stem.push('.') + "jsonpath"@ =~= stem + ".jsonpath"@);
    assert(stem.push('.') + "fts"@ =~= stem + ".fts"@);
    assert(stem.push('.') + "vec"@ =~= stem + ".vec"@);
    assert(stem.push('.') + "ivfpq"@ =~= stem + ".ivfpq"@);
}

} // verus!
