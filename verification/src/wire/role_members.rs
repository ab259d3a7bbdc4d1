//! Which roles belong to which.

use vstd::prelude::*;
use vstd::string::*;
use vstd::utf8::*;

use crate::be;
use crate::be::put_bytes;
use crate::database::catalog;
use crate::database::catalog::{ColumnDef, OuterUpdate};
use crate::database::engine;
use crate::database::engine::{Database, DbError, KeyValue, NodeRole};
use crate::database::rowmap;
use crate::database::rowmap::copy_bytes;
use crate::database::rows;
use crate::database::rows::{decode_column, encode_cells};
use crate::database::versions;
use crate::text;
use crate::text::{same_text, text_strict};

verus! {

/// An edge: a role, and a group that it is a direct member of.
pub type Edge = (Seq<char>, Seq<char>);

/// Whether each role on a path is a direct member of the next one.
pub open spec fn is_path(edges: Seq<Edge>, p: Seq<Seq<char>>) -> bool {
    forall|i: int| 0 <= i < p.len() - 1 ==> edges.contains((#[trigger] p[i], p[i + 1]))
}

/// Whether a path leads from one role to another.
pub open spec fn leads(edges: Seq<Edge>, p: Seq<Seq<char>>, a: Seq<char>, b: Seq<char>) -> bool {
    p.len() >= 2 && p.first() == a && p.last() == b && is_path(edges, p)
}

/// Whether `a` is a member of `b`, directly or through others.
pub open spec fn reaches(edges: Seq<Edge>, a: Seq<char>, b: Seq<char>) -> bool {
    exists|p: Seq<Seq<char>>| leads(edges, p, a, b)
}

/// Whether no role is a member of itself.
pub open spec fn acyclic(edges: Seq<Edge>) -> bool {
    forall|x: Seq<char>| !#[trigger] reaches(edges, x, x)
}

/// The groups of which a role is a direct member, in the order of the edges.
pub open spec fn direct(edges: Seq<Edge>, role: Seq<char>) -> Seq<Seq<char>>
    decreases edges.len(),
{
    if edges.len() == 0 {
        Seq::empty()
    } else if edges.last().0 == role {
        direct(edges.drop_last(), role).push(edges.last().1)
    } else {
        direct(edges.drop_last(), role)
    }
}

/// The direct groups are those to which an edge leads.
pub proof fn lemma_direct(edges: Seq<Edge>, role: Seq<char>)
    ensures
        forall|g: Seq<char>| #[trigger]
            direct(edges, role).contains(g) <==> edges.contains((role, g)),
    decreases edges.len(),
{
    if edges.len() > 0 {
        let head = edges.drop_last();
        lemma_direct(head, role);
        let d = direct(head, role);
        assert forall|g: Seq<char>| #[trigger] direct(edges, role).contains(g) <==> edges.contains(
            (role, g),
        ) by {
            if direct(edges, role).contains(g) {
                let k = choose|k: int|
                    0 <= k < direct(edges, role).len() && direct(edges, role)[k] == g;
                if k < d.len() {
                    assert(d[k] == g);
                    assert(d.contains(g));
                    let j = choose|j: int| 0 <= j < head.len() && head[j] == (role, g);
                    assert(edges[j] == (role, g));
                } else {
                    assert(edges[edges.len() - 1] == (role, g));
                }
            }
            if edges.contains((role, g)) {
                let j = choose|j: int| 0 <= j < edges.len() && edges[j] == (role, g);
                if j < head.len() {
                    assert(head[j] == (role, g));
                    assert(head.contains((role, g)));
                    assert(d.contains(g));
                    let k = choose|k: int| 0 <= k < d.len() && d[k] == g;
                    assert(direct(edges, role)[k] == g);
                } else {
                    assert(direct(edges, role)[d.len() as int] == g);
                }
            }
        }
    }
}

/// An edge is a path.
proof fn lemma_edge_reaches(edges: Seq<Edge>, a: Seq<char>, b: Seq<char>)
    requires
        edges.contains((a, b)),
    ensures
        reaches(edges, a, b),
{
    let p = seq![a, b];
    assert(leads(edges, p, a, b));
}

/// A path and an edge make a path.
proof fn lemma_reaches_step(edges: Seq<Edge>, a: Seq<char>, b: Seq<char>, c: Seq<char>)
    requires
        reaches(edges, a, b),
        edges.contains((b, c)),
    ensures
        reaches(edges, a, c),
{
    let p = choose|p: Seq<Seq<char>>| leads(edges, p, a, b);
    let q = p.push(c);
    assert forall|i: int| 0 <= i < q.len() - 1 implies edges.contains(
        (#[trigger] q[i], q[i + 1]),
    ) by {
        if i < p.len() - 1 {
            assert(p[i] == q[i] && p[i + 1] == q[i + 1]);
        }
    }
    assert(leads(edges, q, a, c));
}

/// A path goes on from where another ends.
proof fn lemma_reaches_along(
    edges: Seq<Edge>,
    a: Seq<char>,
    b: Seq<char>,
    q: Seq<Seq<char>>,
    c: Seq<char>,
)
    requires
        reaches(edges, a, b),
        leads(edges, q, b, c),
    ensures
        reaches(edges, a, c),
    decreases q.len(),
{
    let n = q.len() as int;
    let x = q[n - 2];
    assert(edges.contains((q[n - 2], q[n - 1])));
    if n == 2 {
        lemma_reaches_step(edges, a, b, c);
    } else {
        let head = q.drop_last();
        assert forall|i: int| 0 <= i < head.len() - 1 implies edges.contains(
            (#[trigger] head[i], head[i + 1]),
        ) by {
            assert(head[i] == q[i] && head[i + 1] == q[i + 1]);
        }
        lemma_reaches_along(edges, a, b, head, x);
        lemma_reaches_step(edges, a, x, c);
    }
}

/// Two paths make a path.
proof fn lemma_reaches_trans(edges: Seq<Edge>, a: Seq<char>, b: Seq<char>, c: Seq<char>)
    requires
        reaches(edges, a, b),
        reaches(edges, b, c),
    ensures
        reaches(edges, a, c),
{
    let q = choose|q: Seq<Seq<char>>| leads(edges, q, b, c);
    lemma_reaches_along(edges, a, b, q, c);
}

/// What is closed under edges and holds the groups of a role holds all that
/// the role reaches.
proof fn lemma_closed_holds_all(
    edges: Seq<Edge>,
    role: Seq<char>,
    s: Seq<Seq<char>>,
    p: Seq<Seq<char>>,
    b: Seq<char>,
)
    requires
        forall|g: Seq<char>| edges.contains((role, g)) ==> s.contains(g),
        forall|x: Seq<char>, g: Seq<char>|
            s.contains(x) && #[trigger] edges.contains((x, g)) ==> s.contains(g),
        leads(edges, p, role, b),
    ensures
        s.contains(b),
    decreases p.len(),
{
    let n = p.len() as int;
    assert(edges.contains((p[n - 2], p[n - 1])));
    if n > 2 {
        let q = p.drop_last();
        assert forall|i: int| 0 <= i < q.len() - 1 implies edges.contains(
            (#[trigger] q[i], q[i + 1]),
        ) by {
            assert(q[i] == p[i] && q[i + 1] == p[i + 1]);
        }
        lemma_closed_holds_all(edges, role, s, q, p[n - 2]);
    }
}

/// A list without repetitions of groups is no longer than the list of edges.
proof fn lemma_bounded(edges: Seq<Edge>, s: Seq<Seq<char>>)
    requires
        s.no_duplicates(),
        forall|i: int|
            0 <= i < s.len() ==> exists|k: int|
                0 <= k < edges.len() && edges[k].1 == #[trigger] s[i],
    ensures
        s.len() <= edges.len(),
{
    let targets = edges.map_values(|e: Edge| e.1);
    targets.lemma_cardinality_of_set();
    s.unique_seq_to_set();
    assert forall|x: Seq<char>| s.to_set().contains(x) implies targets.to_set().contains(x) by {
        let i = choose|i: int| 0 <= i < s.len() && s[i] == x;
        let k = choose|k: int| 0 <= k < edges.len() && edges[k].1 == s[i];
        assert(targets[k] == x);
    }
    vstd::set_lib::lemma_len_subset(s.to_set(), targets.to_set());
}

/// Adding an edge opens paths only over the edge: what is reached then was
/// reached before, or over the new edge.
proof fn lemma_new_paths(
    edges: Seq<Edge>,
    m: Seq<char>,
    g: Seq<char>,
    p: Seq<Seq<char>>,
    a: Seq<char>,
    b: Seq<char>,
)
    requires
        leads(edges.push((m, g)), p, a, b),
    ensures
        reaches(edges, a, b) || ((a == m || reaches(edges, a, m)) && (g == b || reaches(
            edges,
            g,
            b,
        ))),
    decreases p.len(),
{
    let more = edges.push((m, g));
    let n = p.len() as int;
    let x = p[n - 2];
    assert(more.contains((p[n - 2], p[n - 1])));
    let k = choose|k: int| 0 <= k < more.len() && more[k] == (x, b);
    if k < edges.len() {
        assert(edges[k] == (x, b));
        assert(edges.contains((x, b)));
    } else {
        assert(x == m && g == b);
    }
    if n == 2 {
        assert(x == a);
        if k < edges.len() {
            lemma_edge_reaches(edges, a, b);
        }
    } else {
        let q = p.drop_last();
        assert forall|i: int| 0 <= i < q.len() - 1 implies more.contains(
            (#[trigger] q[i], q[i + 1]),
        ) by {
            assert(q[i] == p[i] && q[i + 1] == p[i + 1]);
        }
        assert(leads(more, q, a, x));
        lemma_new_paths(edges, m, g, q, a, x);
        if k < edges.len() {
            if reaches(edges, a, x) {
                lemma_reaches_step(edges, a, x, b);
            } else if g == x {
                lemma_edge_reaches(edges, g, b);
            } else {
                lemma_reaches_step(edges, g, x, b);
            }
        } else {
            // The last step is the new edge: `a` reached `m` before, directly
            // or by way of the new edge itself.
            if !reaches(edges, a, x) {
                assert(a == m || reaches(edges, a, m));
            }
        }
    }
}

/// An edge whose end does not lead to its start closes no circle.
proof fn lemma_stays_acyclic(edges: Seq<Edge>, m: Seq<char>, g: Seq<char>)
    requires
        acyclic(edges),
        m != g,
        !reaches(edges, g, m),
    ensures
        acyclic(edges.push((m, g))),
{
    let more = edges.push((m, g));
    assert forall|x: Seq<char>| !#[trigger] reaches(more, x, x) by {
        if reaches(more, x, x) {
            let p = choose|p: Seq<Seq<char>>| leads(more, p, x, x);
            lemma_new_paths(edges, m, g, p, x, x);
            assert(!reaches(edges, x, x));
            if g == x {
                assert(x == m || reaches(edges, x, m));
            } else if x == m {
                assert(reaches(edges, g, m));
            } else {
                lemma_reaches_trans(edges, g, x, m);
            }
        }
    }
}

/// Why a request is turned down.
#[derive(Debug, Clone, PartialEq)]
pub enum MemberError {
    /// A role cannot be a member of itself.
    OfItself(String),
    /// The grant would close a circle, or is already implied.
    Cycle(String, String),
    /// A stored row lacks a cell, or holds one that is no text.
    BadRow(usize),
    /// The database turned it down.
    Db(DbError),
}

impl MemberError {
    pub open spec fn text(&self) -> Seq<char> {
        match self {
            MemberError::OfItself(m) => "role \""@ + m@ + "\" cannot be a member of itself"@,
            MemberError::Cycle(m, g) => "granting \""@ + m@ + "\" membership in \""@ + g@
                + "\" would create a role-membership cycle"@,
            MemberError::BadRow(i) => "missing/invalid _tpt_role_members cell "@ + text::decimal(
                *i as nat,
            ),
            MemberError::Db(e) => e.text(),
        }
    }

    /// What is wrong, in words.
    pub fn message(&self) -> (m: String)
        ensures
            m@ == self.text(),
    {
        match self {
            MemberError::OfItself(r) => {
                let mut m = "role \"".to_owned();
                m.append(r.as_str());
                m.append("\" cannot be a member of itself");
                m
            },
            MemberError::Cycle(a, b) => {
                let mut m = "granting \"".to_owned();
                m.append(a.as_str());
                m.append("\" membership in \"");
                m.append(b.as_str());
                m.append("\" would create a role-membership cycle");
                m
            },
            MemberError::BadRow(i) => {
                let mut m = "missing/invalid _tpt_role_members cell ".to_owned();
                m.append(text::decimal_text(*i as u64).as_str());
                m
            },
            MemberError::Db(e) => e.message(),
        }
    }
}

/// Whether a text is in a list.
fn holds(list: &Vec<String>, s: &str) -> (r: bool)
    ensures
        r == text::texts(list@).contains(s@),
{
    let ghost all = text::texts(list@);
    let mut i: usize = 0;
    while i < list.len()
        invariant
            all == text::texts(list@),
            i <= list@.len(),
            forall|k: int| 0 <= k < i ==> all[k] != s@,
        decreases list@.len() - i,
    {
        if same_text(list[i].as_str(), s) {
            assert(all[i as int] == s@);
            return true;
        }
        i += 1;
    }
    false
}

/// The key under which a membership is stored.
pub open spec fn row_key_of(member: Seq<char>, group: Seq<char>) -> Seq<u8> {
    encode_utf8(member).push(0) + encode_utf8(group)
}

/// The key under which a membership is stored.
pub fn row_key(member: &str, group: &str) -> (key: Vec<u8>)
    ensures
        key@ == row_key_of(member@, group@),
{
    let mut key: Vec<u8> = Vec::new();
    put_bytes(&mut key, member.as_bytes());
    key.push(0);
    put_bytes(&mut key, group.as_bytes());
    assert(key@ =~= row_key_of(member@, group@));
    key
}

/// The cells under which a membership is stored: its key, the member and the
/// group.
pub open spec fn cells_of(member: Seq<char>, group: Seq<char>) -> Seq<Option<Seq<u8>>> {
    seq![
        Some(row_key_of(member, group)),
        Some(encode_utf8(member)),
        Some(encode_utf8(group)),
    ]
}

/// The row under which a membership is stored.
pub fn row_value(member: &str, group: &str) -> (row: Vec<u8>)
    ensures
        row@ == rows::row_bytes(cells_of(member@, group@)),
{
    let mut cells: Vec<Option<Vec<u8>>> = Vec::new();
    cells.push(Some(row_key(member, group)));
    cells.push(Some(copy_bytes(member.as_bytes())));
    cells.push(Some(copy_bytes(group.as_bytes())));
    assert(rows::cell_views(cells@) =~= cells_of(member@, group@));
    encode_cells(&cells)
}

/// A stored membership is read back.
pub proof fn law_membership_is_read_back(member: Seq<char>, group: Seq<char>)
    requires
        row_key_of(member, group).len() <= i32::MAX,
    ensures
        cell_text(rows::row_bytes(cells_of(member, group)), 1) == Some(member),
        cell_text(rows::row_bytes(cells_of(member, group)), 2) == Some(group),
{
    let cells = cells_of(member, group);
    rows::law_cells_are_read_back(Seq::empty(), cells, 1);
    rows::law_cells_are_read_back(Seq::empty(), cells, 2);
    text::lemma_lossy_of_text(member);
    text::lemma_lossy_of_text(group);
}

/// A cell of a stored row as text.
pub open spec fn cell_text(value: Seq<u8>, idx: nat) -> Option<Seq<char>> {
    match rows::column_in(value, idx) {
        Some(c) if valid_utf8(c) => Some(decode_utf8(c)),
        _ => None,
    }
}

fn cell_str(value: &[u8], idx: usize) -> (r: Result<String, MemberError>)
    ensures
        match r {
            Ok(s) => cell_text(value@, idx as nat) == Some(s@),
            Err(e) => cell_text(value@, idx as nat) is None && e == MemberError::BadRow(idx),
        },
{
    match decode_column(value, idx) {
        Some(c) => match text_strict(c) {
            Some(s) => Ok(s),
            None => Err(MemberError::BadRow(idx)),
        },
        None => Err(MemberError::BadRow(idx)),
    }
}

/// The membership that a stored row tells.
pub open spec fn edge_in(value: Seq<u8>) -> Option<Edge> {
    match (cell_text(value, 1), cell_text(value, 2)) {
        (Some(m), Some(g)) => Some((m, g)),
        _ => None,
    }
}

/// The memberships of stored rows, those that cannot be read left out.
pub open spec fn edges_of(rows: Seq<(Seq<u8>, Seq<u8>)>) -> Seq<Edge>
    decreases rows.len(),
{
    if rows.len() == 0 {
        Seq::empty()
    } else {
        match edge_in(rows.last().1) {
            Some(e) => edges_of(rows.drop_last()).push(e),
            None => edges_of(rows.drop_last()),
        }
    }
}

/// The groups of which a role is a direct member by stored rows. A row without
/// a member fails, and so does a row of the role without a group: the number
/// is that of the cell that the first such row lacks.
pub open spec fn direct_in(rows: Seq<(Seq<u8>, Seq<u8>)>, role: Seq<char>) -> Result<
    Seq<Seq<char>>,
    nat,
>
    decreases rows.len(),
{
    if rows.len() == 0 {
        Ok(Seq::empty())
    } else {
        match direct_in(rows.drop_last(), role) {
            Err(i) => Err(i),
            Ok(list) => match cell_text(rows.last().1, 1) {
                None => Err(1),
                Some(m) => if m != role {
                    Ok(list)
                } else {
                    match cell_text(rows.last().1, 2) {
                        None => Err(2),
                        Some(g) => Ok(list.push(g)),
                    }
                },
            },
        }
    }
}

proof fn lemma_direct_in(rows: Seq<(Seq<u8>, Seq<u8>)>, role: Seq<char>)
    requires
        direct_in(rows, role) is Ok,
    ensures
        direct_in(rows, role)->Ok_0 == direct(edges_of(rows), role),
    decreases rows.len(),
{
    if rows.len() > 0 {
        lemma_direct_in(rows.drop_last(), role);
        match edge_in(rows.last().1) {
            Some(e) => {
                let es = edges_of(rows.drop_last());
                assert(es.push(e).drop_last() =~= es);
            },
            None => {},
        }
    }
}

proof fn lemma_direct_fails(rows: Seq<(Seq<u8>, Seq<u8>)>, role: Seq<char>, n: int, e: nat)
    requires
        0 <= n <= rows.len(),
        direct_in(rows.take(n), role) == Err::<Seq<Seq<char>>, nat>(e),
    ensures
        direct_in(rows, role) == Err::<Seq<Seq<char>>, nat>(e),
    decreases rows.len(),
{
    if n < rows.len() {
        assert(rows.drop_last().take(n) =~= rows.take(n));
        lemma_direct_fails(rows.drop_last(), role, n, e);
    } else {
        assert(rows.take(n) =~= rows);
    }
}

/// Whether `c` is a role or one of the groups that it belongs to.
pub open spec fn at_or_above(edges: Seq<Edge>, role: Seq<char>, c: Seq<char>) -> bool {
    c == role || reaches(edges, role, c)
}

/// Whether all groups of a role can be read.
pub open spec fn readable(rows: Seq<(Seq<u8>, Seq<u8>)>, role: Seq<char>) -> bool {
    forall|c: Seq<char>| #[trigger]
        at_or_above(edges_of(rows), role, c) ==> direct_in(rows, c) is Ok
}

/// Whether the groups of a role, or of a group that it belongs to, cannot be
/// read for want of a cell.
pub open spec fn unreadable(rows: Seq<(Seq<u8>, Seq<u8>)>, role: Seq<char>, cell: nat) -> bool {
    exists|c: Seq<char>| #[trigger]
        at_or_above(edges_of(rows), role, c) && direct_in(rows, c) == Err::<Seq<Seq<char>>, nat>(
            cell,
        )
}

fn direct_rows(found: &Vec<KeyValue>, role: &str) -> (r: Result<Vec<String>, MemberError>)
    ensures
        match r {
            Ok(list) => direct_in(engine::pair_views(found@), role@) == Ok::<Seq<Seq<char>>, nat>(
                text::texts(list@),
            ),
            Err(e) => (e matches MemberError::BadRow(i) && direct_in(
                engine::pair_views(found@),
                role@,
            ) == Err::<Seq<Seq<char>>, nat>(i as nat)),
        },
{
    let ghost all = engine::pair_views(found@);
    let mut r: Vec<String> = Vec::new();
    let mut i: usize = 0;
    assert(all.take(0) =~= Seq::<(Seq<u8>, Seq<u8>)>::empty());
    assert(text::texts(r@) =~= Seq::<Seq<char>>::empty());
    while i < found.len()
        invariant
            all == engine::pair_views(found@),
            i <= found@.len(),
            direct_in(all.take(i as int), role@) == Ok::<Seq<Seq<char>>, nat>(text::texts(r@)),
        decreases found@.len() - i,
    {
        proof {
            assert(all.take(i + 1).drop_last() =~= all.take(i as int));
            assert(all.take(i + 1).last() == all[i as int]);
        }
        let value = found[i].value.as_slice();
        let member = match cell_str(value, 1) {
            Ok(m) => m,
            Err(e) => {
                proof {
                    lemma_direct_fails(all, role@, i + 1, 1);
                }
                return Err(e);
            },
        };
        if same_text(member.as_str(), role) {
            let group = match cell_str(value, 2) {
                Ok(g) => g,
                Err(e) => {
                    proof {
                        lemma_direct_fails(all, role@, i + 1, 2);
                    }
                    return Err(e);
                },
            };
            let ghost before = r@;
            r.push(group);
            assert(text::texts(r@) =~= text::texts(before).push(r@.last()@));
        }
        i += 1;
    }
    assert(all.take(found@.len() as int) =~= all);
    Ok(r)
}

/// Walks from a role over the groups that it belongs to.
fn walk(found: &Vec<KeyValue>, role: &str) -> (r: Result<Vec<String>, MemberError>)
    ensures
        memberships_found(engine::pair_views(found@), role@, r),
{
    let ghost rows = engine::pair_views(found@);
    let ghost edges = edges_of(rows);
    let mut result: Vec<String> = Vec::new();
    let mut frontier: Vec<String> = Vec::new();
    frontier.push(role.to_owned());
    proof {
        assert(text::texts(result@) =~= Seq::<Seq<char>>::empty());
        assert(text::texts(frontier@)[0] == role@);
    }
    while frontier.len() > 0
        invariant
            rows == engine::pair_views(found@),
            edges == edges_of(rows),
            text::texts(result@).no_duplicates(),
            forall|i: int|
                0 <= i < text::texts(result@).len() ==> reaches(
                    edges,
                    role@,
                    #[trigger] text::texts(result@)[i],
                ),
            forall|i: int|
                0 <= i < text::texts(result@).len() ==> exists|k: int|
                    0 <= k < edges.len() && edges[k].1 == #[trigger] text::texts(result@)[i],
            forall|i: int|
                0 <= i < text::texts(frontier@).len() ==> (
                #[trigger] text::texts(frontier@)[i] == role@ || text::texts(
                    result@,
                ).contains(text::texts(frontier@)[i])),
            forall|x: Seq<char>, g: Seq<char>|
                (x == role@ || text::texts(result@).contains(x)) && !text::texts(
                    frontier@,
                ).contains(x) && #[trigger] edges.contains((x, g)) ==> text::texts(
                    result@,
                ).contains(g),
            forall|x: Seq<char>|
                (x == role@ || text::texts(result@).contains(x)) && !text::texts(
                    frontier@,
                ).contains(x) ==> #[trigger] direct_in(rows, x) is Ok,
            result@.len() <= edges.len(),
        decreases 2 * (edges.len() - result@.len()) + frontier@.len(),
    {
        let ghost f0 = text::texts(frontier@);
        let ghost r0 = text::texts(result@);
        let ghost n0 = result@.len();
        let current = match frontier.pop() {
            Some(c) => c,
            None => {
                return Ok(result);
            },
        };
        let ghost f1 = text::texts(frontier@);
        proof {
            assert(f1 =~= f0.drop_last());
            assert(f0.last() == current@);
            assert(f0[f0.len() - 1] == current@);
        }
        proof {
            assert(f0[f0.len() - 1] == role@ || r0.contains(f0[f0.len() - 1]));
            if current@ != role@ {
                let k = choose|k: int| 0 <= k < r0.len() && r0[k] == current@;
                assert(reaches(edges, role@, r0[k]));
            }
            assert(at_or_above(edges, role@, current@));
        }
        let groups = match direct_rows(found, current.as_str()) {
            Ok(groups) => groups,
            Err(e) => {
                return Err(e);
            },
        };
        let ghost gs = text::texts(groups@);
        proof {
            lemma_direct_in(rows, current@);
            lemma_direct(edges, current@);
        }
        let mut i: usize = 0;
        while i < groups.len()
            invariant
                rows == engine::pair_views(found@),
                edges == edges_of(rows),
                gs == text::texts(groups@),
                gs == direct(edges, current@),
                forall|g: Seq<char>| #[trigger] gs.contains(g) <==> edges.contains(
                    (current@, g),
                ),
                current@ == role@ || r0.contains(current@),
                forall|k: int|
                    0 <= k < r0.len() ==> reaches(edges, role@, #[trigger] r0[k]),
                i <= groups@.len(),
                text::texts(result@).no_duplicates(),
                forall|k: int|
                    0 <= k < text::texts(result@).len() ==> reaches(
                        edges,
                        role@,
                        #[trigger] text::texts(result@)[k],
                    ),
                forall|k: int|
                    0 <= k < text::texts(result@).len() ==> exists|j: int|
                        0 <= j < edges.len() && edges[j].1
                            == #[trigger] text::texts(result@)[k],
                forall|x: Seq<char>| r0.contains(x) ==> #[trigger] text::texts(
                    result@,
                ).contains(x),
                forall|x: Seq<char>| #[trigger]
                    text::texts(result@).contains(x) ==> r0.contains(x) || text::texts(
                        frontier@,
                    ).contains(x),
                forall|x: Seq<char>| f1.contains(x) ==> #[trigger] text::texts(
                    frontier@,
                ).contains(x),
                forall|k: int|
                    0 <= k < text::texts(frontier@).len() ==> f1.contains(
                        #[trigger] text::texts(frontier@)[k],
                    ) || text::texts(result@).contains(text::texts(frontier@)[k]),
                forall|k: int|
                    0 <= k < i ==> text::texts(result@).contains(#[trigger] gs[k]),
                result@.len() - n0 == frontier@.len() - f1.len(),
                n0 <= result@.len() <= edges.len(),
            decreases groups@.len() - i,
        {
            let ghost rs = text::texts(result@);
            let ghost fs = text::texts(frontier@);
            let g = groups[i].as_str();
            assert(gs[i as int] == g@);
            assert(gs.contains(g@));
            if !holds(&result, g) {
                result.push(groups[i].clone());
                frontier.push(groups[i].clone());
                proof {
                    let rn = text::texts(result@);
                    let fnn = text::texts(frontier@);
                    assert(rn =~= rs.push(g@));
                    assert(fnn =~= fs.push(g@));
                    if current@ == role@ {
                        lemma_edge_reaches(edges, role@, g@);
                    } else {
                        let k = choose|k: int| 0 <= k < r0.len() && r0[k] == current@;
                        assert(reaches(edges, role@, r0[k]));
                        lemma_reaches_step(edges, role@, current@, g@);
                    }
                    assert forall|k: int| 0 <= k < rn.len() implies reaches(
                        edges,
                        role@,
                        #[trigger] rn[k],
                    ) by {
                        if k < rs.len() {
                            assert(rn[k] == rs[k]);
                        }
                    }
                    assert forall|k: int| 0 <= k < rn.len() implies exists|j: int|
                        0 <= j < edges.len() && edges[j].1 == #[trigger] rn[k] by {
                        if k < rs.len() {
                            assert(rn[k] == rs[k]);
                        } else {
                            let j = choose|j: int|
                                0 <= j < edges.len() && edges[j] == (current@, g@);
                            assert(edges[j].1 == rn[k]);
                        }
                    }
                    assert forall|x: Seq<char>| rs.contains(x) implies #[trigger] rn.contains(
                        x,
                    ) by {
                        let k = choose|k: int| 0 <= k < rs.len() && rs[k] == x;
                        assert(rn[k] == x);
                    }
                    assert(rn[rs.len() as int] == g@);
                    assert(fnn[fs.len() as int] == g@);
                    assert forall|x: Seq<char>| fs.contains(x) implies #[trigger] fnn.contains(
                        x,
                    ) by {
                        let k = choose|k: int| 0 <= k < fs.len() && fs[k] == x;
                        assert(fnn[k] == x);
                    }
                    assert forall|x: Seq<char>| #[trigger] rn.contains(x) implies r0.contains(x)
                        || fnn.contains(x) by {
                        let k = choose|k: int| 0 <= k < rn.len() && rn[k] == x;
                        if k < rs.len() {
                            assert(rs[k] == x);
                            assert(rs.contains(x));
                        }
                    }
                    assert forall|k: int| 0 <= k < fnn.len() implies f1.contains(
                        #[trigger] fnn[k],
                    ) || rn.contains(fnn[k]) by {
                        if k < fs.len() {
                            assert(fnn[k] == fs[k]);
                        }
                    }
                    lemma_bounded(edges, rn);
                }
            }
            i += 1;
        }
        proof {
            let rn = text::texts(result@);
            let fnn = text::texts(frontier@);
            assert forall|k: int| 0 <= k < fnn.len() implies (#[trigger] fnn[k] == role@
                || rn.contains(fnn[k])) by {
                if !rn.contains(fnn[k]) {
                    assert(f1.contains(fnn[k]));
                    let j = choose|j: int| 0 <= j < f1.len() && f1[j] == fnn[k];
                    assert(f0[j] == fnn[k]);
                    assert(f0[j] == role@ || r0.contains(f0[j]));
                }
            }
            assert forall|x: Seq<char>|
                (x == role@ || rn.contains(x)) && !fnn.contains(x) implies #[trigger] direct_in(
                rows,
                x,
            ) is Ok by {
                if x != current@ {
                    assert(!f0.contains(x)) by {
                        if f0.contains(x) {
                            let j = choose|j: int| 0 <= j < f0.len() && f0[j] == x;
                            assert(f1[j] == x);
                            assert(f1.contains(x));
                        }
                    }
                    assert(x == role@ || r0.contains(x));
                }
            }
            assert forall|x: Seq<char>, g: Seq<char>|
                (x == role@ || rn.contains(x)) && !fnn.contains(x) && #[trigger] edges.contains(
                    (x, g),
                ) implies rn.contains(g) by {
                assert(!f1.contains(x));
                if x == current@ {
                    assert(gs.contains(g));
                    let k = choose|k: int| 0 <= k < gs.len() && gs[k] == g;
                    assert(rn.contains(gs[k]));
                } else {
                    assert(!f0.contains(x)) by {
                        if f0.contains(x) {
                            let j = choose|j: int| 0 <= j < f0.len() && f0[j] == x;
                            assert(f1[j] == x);
                        }
                    }
                    assert(x == role@ || r0.contains(x));
                    assert(r0.contains(g));
                }
            }
        }
    }
    proof {
        let rn = text::texts(result@);
        assert forall|g: Seq<char>| #[trigger] rn.contains(g) <==> reaches(edges, role@, g) by {
            if rn.contains(g) {
                let k = choose|k: int| 0 <= k < rn.len() && rn[k] == g;
                assert(reaches(edges, role@, rn[k]));
            }
            if reaches(edges, role@, g) {
                let p = choose|p: Seq<Seq<char>>| leads(edges, p, role@, g);
                lemma_closed_holds_all(edges, role@, rn, p, g);
            }
        }
    }
    Ok(result)
}

/// Whether `r` are all groups that a role belongs to, each once, or the cell
/// for want of which they cannot be read.
pub open spec fn memberships_found(
    rows: Seq<(Seq<u8>, Seq<u8>)>,
    role: Seq<char>,
    r: Result<Vec<String>, MemberError>,
) -> bool {
    match r {
        Ok(list) => {
            &&& readable(rows, role)
            &&& text::texts(list@).no_duplicates()
            &&& forall|g: Seq<char>| #[trigger]
                text::texts(list@).contains(g) <==> reaches(edges_of(rows), role, g)
        },
        Err(e) => e matches MemberError::BadRow(i) && unreadable(rows, role, i as nat),
    }
}

/// The table in which memberships are stored.
pub const TABLE: &'static str = "_tpt_role_members";

/// The stored memberships, in the order of their keys.
pub open spec fn rows_in(db: Database) -> Seq<(Seq<u8>, Seq<u8>)> {
    engine::rows_under(versions::rows_at(db.store@.log, u64::MAX), rows::prefix_of(TABLE@))
}

/// The columns of the table.
pub open spec fn member_columns() -> Seq<Seq<char>> {
    seq!["id"@, "member"@, "group_role"@]
}

/// Whether a grant left `after` of `before` and gave `r`.
pub open spec fn granted(
    before: Database,
    member: Seq<char>,
    group: Seq<char>,
    after: Database,
    r: Result<Vec<OuterUpdate>, MemberError>,
) -> bool {
    let rows = rows_in(before);
    let edges = edges_of(rows);
    let free = readable(rows, group) && !reaches(edges, group, member);
    if member == group {
        (r matches Err(MemberError::OfItself(m)) && m@ == member) && after == before
    } else {
        match r {
            Ok(us) => free && stored(before, member, group, after, Ok(us)),
            Err(MemberError::Db(e)) => free && stored(before, member, group, after, Err(e)),
            Err(MemberError::Cycle(m, g)) => {
                &&& m@ == member && g@ == group
                &&& after == before
                &&& readable(rows, group)
                &&& reaches(edges, group, member)
            },
            Err(MemberError::BadRow(i)) => {
                &&& after == before
                &&& unreadable(rows, group, i as nat)
            },
            Err(MemberError::OfItself(_)) => false,
        }
    }
}

/// Whether storing a membership left `after` of `before` and gave `r`.
pub open spec fn stored(
    before: Database,
    member: Seq<char>,
    group: Seq<char>,
    after: Database,
    r: Result<Vec<OuterUpdate>, DbError>,
) -> bool {
    engine::row_written(
        before,
        TABLE@,
        row_key_of(member, group),
        rows::row_bytes(cells_of(member, group)),
        after,
        r,
    )
}

/// The keys of the rows that touch a role, up to the first row that cannot be
/// read.
pub open spec fn touching(rows: Seq<(Seq<u8>, Seq<u8>)>, role: Seq<char>) -> Result<
    Seq<Seq<u8>>,
    nat,
>
    decreases rows.len(),
{
    if rows.len() == 0 {
        Ok(Seq::empty())
    } else {
        match touching(rows.drop_last(), role) {
            Err(i) => Err(i),
            Ok(keys) => match (cell_text(rows.last().1, 1), cell_text(rows.last().1, 2)) {
                (None, _) => Err(1),
                (_, None) => Err(2),
                (Some(m), Some(g)) => if m == role || g == role {
                    Ok(keys.push(rows.last().0))
                } else {
                    Ok(keys)
                },
            },
        }
    }
}

/// The store once the rows under these keys are deleted, one after the other.
pub open spec fn all_deleted(s: versions::StoreView, keys: Seq<Seq<u8>>) -> versions::StoreView
    decreases keys.len(),
{
    if keys.len() == 0 {
        s
    } else {
        engine::committed_one(
            all_deleted(s, keys.drop_last()),
            rows::composite(TABLE@, keys.last()),
            None,
        )
    }
}

/// Whether taking back all memberships of a role left `after` of `before` and
/// gave `r`.
pub open spec fn all_revoked(
    before: Database,
    role: Seq<char>,
    after: Database,
    r: Result<(), MemberError>,
) -> bool {
    match touching(rows_in(before), role) {
        Err(i) => after == before && (r matches Err(MemberError::BadRow(x)) && x == i),
        Ok(keys) => if keys.len() > 0 && before.role == NodeRole::Reader {
            after == before && r == Err::<(), MemberError>(MemberError::Db(DbError::ReadOnly))
        } else {
            &&& r is Ok
            &&& after == (Database { store: after.store, ..before })
            &&& after.store@ == all_deleted(before.store@, keys)
        },
    }
}

proof fn lemma_touching_fails(rows: Seq<(Seq<u8>, Seq<u8>)>, role: Seq<char>, n: int, e: nat)
    requires
        0 <= n <= rows.len(),
        touching(rows.take(n), role) == Err::<Seq<Seq<u8>>, nat>(e),
    ensures
        touching(rows, role) == Err::<Seq<Seq<u8>>, nat>(e),
    decreases rows.len(),
{
    if n < rows.len() {
        assert(rows.drop_last().take(n) =~= rows.take(n));
        lemma_touching_fails(rows.drop_last(), role, n, e);
    } else {
        assert(rows.take(n) =~= rows);
    }
}

fn touching_keys(found: &Vec<KeyValue>, role: &str) -> (r: Result<Vec<Vec<u8>>, MemberError>)
    ensures
        match r {
            Ok(keys) => keys@.len() <= found@.len() && touching(
                engine::pair_views(found@),
                role@,
            ) == Ok::<Seq<Seq<u8>>, nat>(be::contents(keys@)),
            Err(e) => (e matches MemberError::BadRow(i) && touching(
                engine::pair_views(found@),
                role@,
            ) == Err::<Seq<Seq<u8>>, nat>(i as nat)),
        },
{
    let ghost all = engine::pair_views(found@);
    let mut keys: Vec<Vec<u8>> = Vec::new();
    let mut i: usize = 0;
    assert(all.take(0) =~= Seq::<(Seq<u8>, Seq<u8>)>::empty());
    assert(be::contents(keys@) =~= Seq::<Seq<u8>>::empty());
    while i < found.len()
        invariant
            all == engine::pair_views(found@),
            i <= found@.len(),
            keys@.len() <= i,
            touching(all.take(i as int), role@) == Ok::<Seq<Seq<u8>>, nat>(be::contents(keys@)),
        decreases found@.len() - i,
    {
        proof {
            assert(all.take(i + 1).drop_last() =~= all.take(i as int));
            assert(all.take(i + 1).last() == all[i as int]);
        }
        let value = found[i].value.as_slice();
        let member = match cell_str(value, 1) {
            Ok(m) => m,
            Err(e) => {
                proof {
                    lemma_touching_fails(all, role@, i + 1, 1);
                }
                return Err(e);
            },
        };
        let group = match cell_str(value, 2) {
            Ok(g) => g,
            Err(e) => {
                proof {
                    lemma_touching_fails(all, role@, i + 1, 2);
                }
                return Err(e);
            },
        };
        if same_text(member.as_str(), role) || same_text(group.as_str(), role) {
            let ghost before = keys@;
            keys.push(copy_bytes(found[i].key.as_slice()));
            assert(be::contents(keys@) =~= be::contents(before).push(keys@.last()@));
        }
        i += 1;
    }
    assert(all.take(found@.len() as int) =~= all);
    Ok(keys)
}

/// The memberships of roles, stored in a database.
pub struct RoleMemberStore;

impl RoleMemberStore {
    /// Adds the table of memberships unless it is there.
    pub fn ensure_schema(db: &mut Database) -> (r: Result<(), DbError>)
        requires
            old(db).wf(),
        ensures
            final(db).wf(),
            engine::table_ensured(*old(db), TABLE@, member_columns(), *final(db), r),
    {
        let mut columns: Vec<ColumnDef> = Vec::new();
        columns.push(ColumnDef::named("id"));
        columns.push(ColumnDef::named("member"));
        columns.push(ColumnDef::named("group_role"));
        assert(catalog::column_names(columns@) =~= member_columns());
        db.ensure_table(TABLE, columns)
    }

    /// The memberships of a database.
    pub fn new(db: &mut Database) -> (r: Result<RoleMemberStore, DbError>)
        requires
            old(db).wf(),
        ensures
            final(db).wf(),
            match r {
                Ok(_) => engine::table_ensured(
                    *old(db),
                    TABLE@,
                    member_columns(),
                    *final(db),
                    Ok(()),
                ),
                Err(e) => engine::table_ensured(
                    *old(db),
                    TABLE@,
                    member_columns(),
                    *final(db),
                    Err(e),
                ),
            },
    {
        match Self::ensure_schema(db) {
            Ok(_) => Ok(RoleMemberStore),
            Err(e) => Err(e),
        }
    }

    /// The groups of which a role is a direct member.
    pub fn direct_memberships(&self, db: &Database, role: &str) -> (r: Result<
        Vec<String>,
        MemberError,
    >)
        ensures
            match r {
                Ok(list) => direct_in(rows_in(*db), role@) == Ok::<Seq<Seq<char>>, nat>(
                    text::texts(list@),
                ),
                Err(e) => (e matches MemberError::BadRow(i) && direct_in(rows_in(*db), role@)
                    == Err::<Seq<Seq<char>>, nat>(i as nat)),
            },
    {
        let found = db.scan(TABLE);
        direct_rows(&found, role)
    }

    /// All groups that a role belongs to, directly or through others, each
    /// once.
    pub fn all_memberships(&self, db: &Database, role: &str) -> (r: Result<
        Vec<String>,
        MemberError,
    >)
        ensures
            memberships_found(rows_in(*db), role@, r),
    {
        let found = db.scan(TABLE);
        walk(&found, role)
    }

    /// Makes a role a direct member of a group. Turned down where the two are
    /// the same, or where the group already belongs to the role, so that a cycle
    /// would arise.
    pub fn grant_membership(&self, db: &mut Database, member: &str, group: &str) -> (r: Result<
        Vec<OuterUpdate>,
        MemberError,
    >)
        requires
            old(db).wf(),
            old(db).store@.next_seq < u64::MAX,
            rows::composite(TABLE@, row_key_of(member@, group@)).len() <= u32::MAX,
        ensures
            final(db).wf(),
            granted(*old(db), member@, group@, *final(db), r),
    {
        if same_text(member, group) {
            return Err(MemberError::OfItself(member.to_owned()));
        }
        let above = match self.all_memberships(db, group) {
            Ok(above) => above,
            Err(e) => {
                return Err(e);
            },
        };
        if holds(&above, member) {
            return Err(MemberError::Cycle(member.to_owned(), group.to_owned()));
        }
        let key = row_key(member, group);
        let row = row_value(member, group);
        match db.write(TABLE, key.as_slice(), row.as_slice()) {
            Ok(us) => Ok(us),
            Err(e) => Err(MemberError::Db(e)),
        }
    }

    /// Takes a direct membership back.
    pub fn revoke_membership(&self, db: &mut Database, member: &str, group: &str) -> (r: Result<
        (),
        DbError,
    >)
        requires
            old(db).wf(),
            old(db).store@.next_seq < u64::MAX,
        ensures
            final(db).wf(),
            engine::row_deleted(
                *old(db),
                TABLE@,
                row_key_of(member@, group@),
                *final(db),
                r,
            ),
    {
        let key = row_key(member, group);
        db.delete(TABLE, key.as_slice())
    }

    /// Takes every membership back that touches a role.
    pub fn revoke_all(&self, db: &mut Database, role: &str) -> (r: Result<(), MemberError>)
        requires
            old(db).wf(),
            old(db).store@.next_seq + rows_in(*old(db)).len() <= u64::MAX,
        ensures
            final(db).wf(),
            all_revoked(*old(db), role@, *final(db), r),
    {
        let found = db.scan(TABLE);
        let keys = match touching_keys(&found, role) {
            Ok(keys) => keys,
            Err(e) => {
                return Err(e);
            },
        };
        let ghost all = be::contents(keys@);
        let mut i: usize = 0;
        assert(all.take(0) =~= Seq::<Seq<u8>>::empty());
        assert(engine::pair_views(found@).len() == found@.len());
        while i < keys.len()
            invariant
                all == be::contents(keys@),
                i <= keys@.len(),
                touching(rows_in(*old(db)), role@) == Ok::<Seq<Seq<u8>>, nat>(all),
                keys@.len() <= rows_in(*old(db)).len(),
                old(db).store@.next_seq + rows_in(*old(db)).len() <= u64::MAX,
                db.wf(),
                *db == (Database { store: db.store, ..*old(db) }),
                i > 0 ==> db.role != NodeRole::Reader,
                i == 0 ==> *db == *old(db),
                db.store@ == all_deleted(old(db).store@, all.take(i as int)),
                db.store@.next_seq == old(db).store@.next_seq + i,
            decreases keys@.len() - i,
        {
            proof {
                assert(all.take(i + 1).drop_last() =~= all.take(i as int));
                assert(all.take(i + 1).last() == keys@[i as int]@);
            }
            match db.delete(TABLE, keys[i].as_slice()) {
                Ok(_) => {},
                Err(e) => {
                    return Err(MemberError::Db(e));
                },
            }
            i += 1;
        }
        assert(all.take(keys@.len() as int) =~= all);
        Ok(())
    }
}

proof fn lemma_edges_of(rows: Seq<(Seq<u8>, Seq<u8>)>, e: Edge)
    ensures
        edges_of(rows).contains(e) <==> exists|k: Seq<u8>, v: Seq<u8>|
            #[trigger] rows.contains((k, v)) && edge_in(v) == Some(e),
    decreases rows.len(),
{
    if rows.len() > 0 {
        let rest = rows.drop_last();
        let all = edges_of(rows);
        let head = edges_of(rest);
        lemma_edges_of(rest, e);
        if all.contains(e) {
            let j = choose|j: int| 0 <= j < all.len() && all[j] == e;
            if j < head.len() {
                assert(head[j] == e);
                assert(head.contains(e));
                let (k, v) = choose|k: Seq<u8>, v: Seq<u8>| #[trigger]
                    rest.contains((k, v)) && edge_in(v) == Some(e);
                let i = choose|i: int| 0 <= i < rest.len() && rest[i] == (k, v);
                assert(rows[i] == (k, v));
                assert(rows.contains((k, v)));
            } else {
                assert(rows[rows.len() - 1] == (rows.last().0, rows.last().1));
                assert(rows.contains((rows.last().0, rows.last().1)));
            }
        }
        if exists|k: Seq<u8>, v: Seq<u8>| #[trigger] rows.contains((k, v)) && edge_in(v) == Some(e) {
            let (k, v) = choose|k: Seq<u8>, v: Seq<u8>| #[trigger]
                rows.contains((k, v)) && edge_in(v) == Some(e);
            let i = choose|i: int| 0 <= i < rows.len() && rows[i] == (k, v);
            if i < rest.len() {
                assert(rest[i] == (k, v));
                assert(rest.contains((k, v)));
                let j = choose|j: int| 0 <= j < head.len() && head[j] == e;
                assert(all[j] == e);
            } else {
                assert(all[head.len() as int] == e);
            }
        }
    }
}

/// What leads along fewer edges leads along more.
proof fn lemma_fewer_edges(fewer: Seq<Edge>, more: Seq<Edge>)
    requires
        forall|e: Edge| fewer.contains(e) ==> #[trigger] more.contains(e),
        acyclic(more),
    ensures
        acyclic(fewer),
{
    assert forall|x: Seq<char>| !#[trigger] reaches(fewer, x, x) by {
        if reaches(fewer, x, x) {
            let p = choose|p: Seq<Seq<char>>| leads(fewer, p, x, x);
            assert forall|i: int| 0 <= i < p.len() - 1 implies more.contains(
                (#[trigger] p[i], p[i + 1]),
            ) by {
                assert(fewer.contains((p[i], p[i + 1])));
            }
            assert(leads(more, p, x, x));
            assert(reaches(more, x, x));
        }
    }
}

/// No grant makes a role a member of itself.
pub proof fn law_memberships_stay_acyclic(
    before: Database,
    after: Database,
    member: Seq<char>,
    group: Seq<char>,
    r: Result<Vec<OuterUpdate>, MemberError>,
)
    requires
        acyclic(edges_of(rows_in(before))),
        granted(before, member, group, after, r),
        row_key_of(member, group).len() <= i32::MAX,
    ensures
        acyclic(edges_of(rows_in(after))),
{
    if after.store@ != before.store@ {
        let edges = edges_of(rows_in(before));
        let row = rows::row_bytes(cells_of(member, group));
        lemma_committed(before, after, row_key_of(member, group), Some(row));
        lemma_stays_acyclic(edges, member, group);
        law_membership_is_read_back(member, group);
        let more = edges.push((member, group));
        assert forall|e: Edge| edges_of(rows_in(after)).contains(e) implies #[trigger] more.contains(
            e,
        ) by {
            lemma_edges_of(rows_in(after), e);
            lemma_edges_of(rows_in(before), e);
            let (k, v) = choose|k: Seq<u8>, v: Seq<u8>| #[trigger]
                rows_in(after).contains((k, v)) && edge_in(v) == Some(e);
            if k == row_key_of(member, group) {
                assert(v == row);
                assert(more[edges.len() as int] == e);
            } else {
                assert(rows_in(before).contains((k, v)));
                let j = choose|j: int| 0 <= j < edges.len() && edges[j] == e;
                assert(more[j] == e);
            }
        }
        lemma_fewer_edges(edges_of(rows_in(after)), more);
    }
}

proof fn lemma_deleted(s: versions::StoreView, keys: Seq<Seq<u8>>, key: Seq<u8>)
    ensures
        versions::visible(all_deleted(s, keys).log, rows::composite(TABLE@, key), u64::MAX) == (
        if keys.contains(key) {
            Some(None)
        } else {
            versions::visible(s.log, rows::composite(TABLE@, key), u64::MAX)
        }),
    decreases keys.len(),
{
    if keys.len() > 0 {
        let rest = keys.drop_last();
        let last = rows::composite(TABLE@, keys.last());
        let whole = rows::composite(TABLE@, key);
        lemma_deleted(s, rest, key);
        let mid = all_deleted(s, rest);
        let batch: Seq<rowmap::Row> = seq![(last, None)];
        versions::law_commit_is_seen_whole(mid.log, batch, mid.next_seq, whole, u64::MAX);
        assert(rowmap::lookup(batch.drop_last(), whole) is None);
        let n = rows::prefix_of(TABLE@).len() as int;
        assert(whole.skip(n) =~= key);
        assert(last.skip(n) =~= keys.last());
        if keys.contains(key) {
            let i = choose|i: int| 0 <= i < keys.len() && keys[i] == key;
            if i < rest.len() {
                assert(rest[i] == key);
            }
        }
        if rest.contains(key) {
            let i = choose|i: int| 0 <= i < rest.len() && rest[i] == key;
            assert(keys[i] == key);
        }
        assert(keys[keys.len() - 1] == keys.last());
    }
}

/// Whether a row tells of a role.
spec fn touches(value: Seq<u8>, role: Seq<char>) -> bool {
    match edge_in(value) {
        Some(e) => e.0 == role || e.1 == role,
        None => false,
    }
}

proof fn lemma_touching(rows: Seq<(Seq<u8>, Seq<u8>)>, role: Seq<char>, k: Seq<u8>, v: Seq<u8>)
    requires
        touching(rows, role) is Ok,
        rows.contains((k, v)),
    ensures
        edge_in(v) is Some,
        touches(v, role) ==> touching(rows, role)->Ok_0.contains(k),
    decreases rows.len(),
{
    let rest = rows.drop_last();
    let i = choose|i: int| 0 <= i < rows.len() && rows[i] == (k, v);
    let keys = touching(rows, role)->Ok_0;
    let head = touching(rest, role)->Ok_0;
    if i < rest.len() {
        assert(rest[i] == (k, v));
        assert(rest.contains((k, v)));
        lemma_touching(rest, role, k, v);
        if head.contains(k) {
            let j = choose|j: int| 0 <= j < head.len() && head[j] == k;
            assert(keys[j] == k);
        }
    } else if touches(v, role) {
        assert(keys[head.len() as int] == k);
    }
}

/// Once every membership of a role is taken back, it belongs to nothing and
/// nothing belongs to it.
pub proof fn law_revoked_role_is_alone(
    before: Database,
    after: Database,
    role: Seq<char>,
    other: Seq<char>,
    r: Result<(), MemberError>,
)
    requires
        all_revoked(before, role, after, r),
        r is Ok,
    ensures
        !edges_of(rows_in(after)).contains((role, other)),
        !edges_of(rows_in(after)).contains((other, role)),
{
    let keys = touching(rows_in(before), role)->Ok_0;
    assert forall|e: Edge| e.0 == role || e.1 == role implies !#[trigger] edges_of(
        rows_in(after),
    ).contains(e) by {
        if edges_of(rows_in(after)).contains(e) {
            lemma_edges_of(rows_in(after), e);
            let (k, v) = choose|k: Seq<u8>, v: Seq<u8>| #[trigger]
                rows_in(after).contains((k, v)) && edge_in(v) == Some(e);
            engine::law_scan_lists_what_is_read(after.store@.log, TABLE@, u64::MAX, k, v);
            engine::law_scan_lists_what_is_read(before.store@.log, TABLE@, u64::MAX, k, v);
            lemma_deleted(before.store@, keys, k);
            assert(rows_in(before).contains((k, v)));
            lemma_touching(rows_in(before), role, k, v);
        }
    }
    assert((role, other).0 == role);
    assert((other, role).1 == role);
}

/// Whether every membership stands under its own key.
pub open spec fn well_kept(rows: Seq<(Seq<u8>, Seq<u8>)>) -> bool {
    forall|k: Seq<u8>, v: Seq<u8>| #[trigger]
        rows.contains((k, v)) ==> match edge_in(v) {
            Some((m, g)) => k == row_key_of(m, g),
            None => false,
        }
}

/// What is found under a key of the table after one more commit.
proof fn lemma_committed(before: Database, after: Database, key: Seq<u8>, v: Option<Seq<u8>>)
    requires
        after.store@ == engine::committed_one(before.store@, rows::composite(TABLE@, key), v),
    ensures
        forall|k: Seq<u8>, x: Seq<u8>| #[trigger]
            rows_in(after).contains((k, x)) <==> (if k == key {
                v == Some(x)
            } else {
                rows_in(before).contains((k, x))
            }),
{
    let whole = rows::composite(TABLE@, key);
    let batch: Seq<rowmap::Row> = seq![(whole, v)];
    let n = rows::prefix_of(TABLE@).len() as int;
    assert forall|k: Seq<u8>, x: Seq<u8>| #[trigger] rows_in(after).contains((k, x)) <==> (if k
        == key {
        v == Some(x)
    } else {
        rows_in(before).contains((k, x))
    }) by {
        let at = rows::composite(TABLE@, k);
        engine::law_scan_lists_what_is_read(after.store@.log, TABLE@, u64::MAX, k, x);
        engine::law_scan_lists_what_is_read(before.store@.log, TABLE@, u64::MAX, k, x);
        versions::law_commit_is_seen_whole(
            before.store@.log,
            batch,
            before.store@.next_seq,
            at,
            u64::MAX,
        );
        assert(rowmap::lookup(batch.drop_last(), at) is None);
        assert(at.skip(n) =~= k);
        assert(whole.skip(n) =~= key);
    }
}

/// A membership that was granted is found.
pub proof fn law_granted_membership_is_found(
    before: Database,
    after: Database,
    member: Seq<char>,
    group: Seq<char>,
    r: Result<Vec<OuterUpdate>, MemberError>,
)
    requires
        granted(before, member, group, after, r),
        r is Ok,
        row_key_of(member, group).len() <= i32::MAX,
    ensures
        edges_of(rows_in(after)).contains((member, group)),
        well_kept(rows_in(before)) ==> well_kept(rows_in(after)),
{
    let key = row_key_of(member, group);
    let row = rows::row_bytes(cells_of(member, group));
    lemma_committed(before, after, key, Some(row));
    law_membership_is_read_back(member, group);
    assert(rows_in(after).contains((key, row)));
    lemma_edges_of(rows_in(after), (member, group));
    if well_kept(rows_in(before)) {
        assert forall|k: Seq<u8>, v: Seq<u8>| #[trigger] rows_in(after).contains((k, v)) implies (
        match edge_in(v) {
            Some((m, g)) => k == row_key_of(m, g),
            None => false,
        }) by {
            if k != key {
                assert(rows_in(before).contains((k, v)));
            }
        }
    }
}

/// A membership that was taken back is gone.
pub proof fn law_revoked_membership_is_gone(
    before: Database,
    after: Database,
    member: Seq<char>,
    group: Seq<char>,
    r: Result<(), DbError>,
)
    requires
        well_kept(rows_in(before)),
        engine::row_deleted(before, TABLE@, row_key_of(member, group), after, r),
        r is Ok,
    ensures
        !edges_of(rows_in(after)).contains((member, group)),
        well_kept(rows_in(after)),
{
    let key = row_key_of(member, group);
    lemma_committed(before, after, key, None);
    assert forall|k: Seq<u8>, v: Seq<u8>| #[trigger] rows_in(after).contains((k, v)) implies (
    match edge_in(v) {
        Some((m, g)) => k == row_key_of(m, g),
        None => false,
    }) && k != key by {
        if k != key {
            assert(rows_in(before).contains((k, v)));
        }
    }
    lemma_edges_of(rows_in(after), (member, group));
}

/// A role's own groups are those that it was made a member of.
pub proof fn law_direct_groups_are_granted_ones(
    rows: Seq<(Seq<u8>, Seq<u8>)>,
    role: Seq<char>,
    list: Seq<Seq<char>>,
    group: Seq<char>,
)
    requires
        direct_in(rows, role) == Ok::<Seq<Seq<char>>, nat>(list),
    ensures
        list.contains(group) <==> edges_of(rows).contains((role, group)),
    decreases rows.len(),
{
    if rows.len() > 0 {
        let head = rows.drop_last();
        let before = direct_in(head, role)->Ok_0;
        law_direct_groups_are_granted_ones(head, role, before, group);
        let edges = edges_of(head);
        match edge_in(rows.last().1) {
            Some(e) => {
                lemma_contains_edge(edges, e, (role, group));
                if e.0 == role {
                    lemma_contains_name(before, e.1, group);
                }
            },
            None => {},
        }
    }
}

proof fn lemma_contains_edge(edges: Seq<Edge>, e: Edge, x: Edge)
    ensures
        edges.push(e).contains(x) <==> edges.contains(x) || e == x,
{
    if edges.contains(x) {
        let k = choose|k: int| 0 <= k < edges.len() && edges[k] == x;
        assert(edges.push(e)[k] == x);
    }
    assert(edges.push(e)[edges.len() as int] == e);
}

proof fn lemma_contains_name(list: Seq<Seq<char>>, e: Seq<char>, x: Seq<char>)
    ensures
        list.push(e).contains(x) <==> list.contains(x) || e == x,
{
    if list.contains(x) {
        let k = choose|k: int| 0 <= k < list.len() && list[k] == x;
        assert(list.push(e)[k] == x);
    }
    assert(list.push(e)[list.len() as int] == e);
}

/// A membership is granted unless it would be of the role in itself, or close a
/// circle; a role that is granted one inherits every group above.
pub proof fn law_only_circles_are_refused(
    before: Database,
    member: Seq<char>,
    group: Seq<char>,
    after: Database,
    r: Result<Vec<OuterUpdate>, MemberError>,
)
    requires
        granted(before, member, group, after, r),
        readable(rows_in(before), group),
    ensures
        member == group ==> r is Err && after == before,
        member != group && reaches(edges_of(rows_in(before)), group, member) ==> (
        r matches Err(MemberError::Cycle(m, g)) && m@ == member && g@ == group) && after == before,
        member != group && !reaches(edges_of(rows_in(before)), group, member) ==> r is Ok || (
        r matches Err(MemberError::Db(_))),
{
    if r matches Err(MemberError::BadRow(_)) && member != group {
        let i = r->Err_0->BadRow_0;
        let c = choose|c: Seq<char>| #[trigger]
            at_or_above(edges_of(rows_in(before)), group, c) && direct_in(rows_in(before), c)
                == Err::<Seq<Seq<char>>, nat>(i as nat);
        assert(at_or_above(edges_of(rows_in(before)), group, c));
    }
}

proof fn lemma_first_step(edges: Seq<Edge>, a: Seq<char>, c: Seq<char>)
    requires
        reaches(edges, a, c),
    ensures
        edges.contains((a, c)) || exists|m: Seq<char>|
            edges.contains((a, m)) && #[trigger] reaches(edges, m, c),
{
    let p = choose|p: Seq<Seq<char>>| leads(edges, p, a, c);
    assert(edges.contains((p[0], p[1])));
    if p.len() > 2 {
        let rest = p.drop_first();
        assert forall|i: int| 0 <= i < rest.len() - 1 implies edges.contains(
            (#[trigger] rest[i], rest[i + 1]),
        ) by {
            assert(edges.contains((p[i + 1], p[i + 2])));
        }
        assert(leads(edges, rest, p[1], c));
        assert(reaches(edges, p[1], c));
    }
}

/// A role is a member of a group through one step, or through a step and a
/// membership of that group.
pub proof fn law_membership_is_inherited(
    edges: Seq<Edge>,
    a: Seq<char>,
    b: Seq<char>,
    c: Seq<char>,
)
    ensures
        edges.contains((a, b)) ==> reaches(edges, a, b),
        reaches(edges, a, b) && reaches(edges, b, c) ==> reaches(edges, a, c),
        reaches(edges, a, c) ==> edges.contains((a, c)) || exists|m: Seq<char>|
            edges.contains((a, m)) && #[trigger] reaches(edges, m, c),
{
    if edges.contains((a, b)) {
        lemma_edge_reaches(edges, a, b);
    }
    if reaches(edges, a, b) && reaches(edges, b, c) {
        lemma_reaches_trans(edges, a, b, c);
    }
    if reaches(edges, a, c) {
        lemma_first_step(edges, a, c);
    }
}

} // verus!
