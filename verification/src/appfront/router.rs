//! Which view belongs to which path.

use vstd::prelude::*;
use vstd::string::*;

use super::signal::{Runtime, Signal};
use crate::strmap::StrMap;
use crate::text;
use crate::text::{after_prefix, chars_of, same_text, split_text, text_of};

verus! {

/// A text without the slashes in front.
pub open spec fn slashes_front(s: Seq<char>) -> Seq<char>
    decreases s.len(),
{
    if s.len() > 0 && s[0] == '/' {
        slashes_front(s.drop_first())
    } else {
        s
    }
}

/// A text without the slashes at its end.
pub open spec fn slashes_back(s: Seq<char>) -> Seq<char>
    decreases s.len(),
{
    if s.len() > 0 && s.last() == '/' {
        slashes_back(s.drop_last())
    } else {
        s
    }
}

/// The pieces of a path between slashes; none for an empty path.
pub open spec fn pieces_of(path: Seq<char>) -> Seq<Seq<char>> {
    let s = slashes_back(slashes_front(path));
    if s.len() == 0 {
        Seq::empty()
    } else {
        text::split(s, '/')
    }
}

/// Splits a path at its slashes.
fn pieces(path: &str) -> (r: Vec<String>)
    ensures
        text::texts(r@) == pieces_of(path@),
{
    let chars = chars_of(path);
    let ghost s = path@;
    let mut i: usize = 0;
    assert(s.skip(0) =~= s);
    while i < chars.len() && chars[i] == '/'
        invariant
            chars@ == s,
            i <= s.len(),
            slashes_front(s.skip(i as int)) == slashes_front(s),
        decreases s.len() - i,
    {
        assert(s.skip(i as int).drop_first() =~= s.skip(i + 1));
        i += 1;
    }
    let mut j: usize = chars.len();
    assert(s.skip(i as int) =~= s.subrange(i as int, j as int));
    while j > i && chars[j - 1] == '/'
        invariant
            chars@ == s,
            i <= j <= s.len(),
            slashes_back(s.subrange(i as int, j as int)) == slashes_back(slashes_front(s)),
        decreases j,
    {
        assert(s.subrange(i as int, j as int).drop_last() =~= s.subrange(i as int, j - 1));
        j -= 1;
    }
    if i == j {
        let r: Vec<String> = Vec::new();
        assert(text::texts(r@) =~= Seq::<Seq<char>>::empty());
        return r;
    }
    let trimmed = text_of(chars.as_slice(), i, j);
    split_text(trimmed.as_str(), '/')
}

/// A piece of a pattern.
#[derive(Debug, Clone, PartialEq, Eq)]
pub enum Segment {
    /// A piece that must be the same.
    Literal(String),
    /// A piece that is captured under a name.
    Param(String),
}

/// A piece of a pattern, as a mathematical value.
pub enum SegmentView {
    Literal(Seq<char>),
    Param(Seq<char>),
}

impl View for Segment {
    type V = SegmentView;

    open spec fn view(&self) -> SegmentView {
        match self {
            Segment::Literal(s) => SegmentView::Literal(s@),
            Segment::Param(s) => SegmentView::Param(s@),
        }
    }
}

pub open spec fn segment_views(list: Seq<Segment>) -> Seq<SegmentView> {
    list.map_values(|s: Segment| s@)
}

/// What is wrong with a pattern.
#[derive(Debug, Clone, Copy, PartialEq, Eq, Structural)]
pub enum Fault {
    EmptySegment,
    UnnamedParam,
}

/// Reads one piece of a pattern: behind a colon stands a name.
pub open spec fn segment_of(piece: Seq<char>) -> Result<SegmentView, Fault> {
    if piece.len() == 0 {
        Err(Fault::EmptySegment)
    } else if piece[0] == ':' {
        if piece.len() == 1 {
            Err(Fault::UnnamedParam)
        } else {
            Ok(SegmentView::Param(piece.skip(1)))
        }
    } else {
        Ok(SegmentView::Literal(piece))
    }
}

/// Reads the pieces of a pattern, up to the first fault.
pub open spec fn segments_of(pieces: Seq<Seq<char>>) -> Result<Seq<SegmentView>, Fault>
    decreases pieces.len(),
{
    if pieces.len() == 0 {
        Ok(Seq::empty())
    } else {
        match segments_of(pieces.drop_last()) {
            Err(f) => Err(f),
            Ok(list) => match segment_of(pieces.last()) {
                Err(f) => Err(f),
                Ok(s) => Ok(list.push(s)),
            },
        }
    }
}

proof fn lemma_fault_stays(pieces: Seq<Seq<char>>, n: int)
    requires
        0 <= n <= pieces.len(),
        segments_of(pieces.take(n)) is Err,
    ensures
        segments_of(pieces) == segments_of(pieces.take(n)),
    decreases pieces.len(),
{
    if n < pieces.len() {
        assert(pieces.drop_last().take(n) =~= pieces.take(n));
        lemma_fault_stays(pieces.drop_last(), n);
    } else {
        assert(pieces.take(n) =~= pieces);
    }
}

/// What is said of a faulty pattern.
pub open spec fn fault_text(f: Fault, pattern: Seq<char>) -> Seq<char> {
    match f {
        Fault::EmptySegment => "empty segment in route `"@ + pattern + "`"@,
        Fault::UnnamedParam => "unnamed `:` param in route `"@ + pattern + "`"@,
    }
}

fn fault_message(f: Fault, pattern: &str) -> (m: String)
    ensures
        m@ == fault_text(f, pattern@),
{
    let mut m = match f {
        Fault::EmptySegment => "empty segment in route `".to_owned(),
        Fault::UnnamedParam => "unnamed `:` param in route `".to_owned(),
    };
    m.append(pattern);
    m.append("`");
    m
}

/// The captured pieces of a path, by name; of two under one name the last
/// counts.
pub open spec fn captured(segments: Seq<SegmentView>, pieces: Seq<Seq<char>>) -> Option<
    Map<Seq<char>, Seq<char>>,
>
    decreases segments.len(),
{
    if segments.len() != pieces.len() {
        None
    } else if segments.len() == 0 {
        Some(Map::empty())
    } else {
        match captured(segments.drop_last(), pieces.drop_last()) {
            None => None,
            Some(m) => match segments.last() {
                SegmentView::Literal(s) => if s == pieces.last() {
                    Some(m)
                } else {
                    None
                },
                SegmentView::Param(name) => Some(m.insert(name, pieces.last())),
            },
        }
    }
}

proof fn lemma_mismatch_stays(segments: Seq<SegmentView>, pieces: Seq<Seq<char>>, n: int)
    requires
        0 <= n <= segments.len(),
        segments.len() == pieces.len(),
        captured(segments.take(n), pieces.take(n)) is None,
    ensures
        captured(segments, pieces) is None,
    decreases segments.len(),
{
    if n < segments.len() {
        assert(segments.drop_last().take(n) =~= segments.take(n));
        assert(pieces.drop_last().take(n) =~= pieces.take(n));
        lemma_mismatch_stays(segments.drop_last(), pieces.drop_last(), n);
    } else {
        assert(segments.take(n) =~= segments);
        assert(pieces.take(n) =~= pieces);
    }
}

/// The captured pieces as they are held.
pub open spec fn params_view(m: StrMap<String>) -> Map<Seq<char>, Seq<char>> {
    m@.map_values(|s: String| s@)
}

/// A pattern of paths.
#[derive(Debug, Clone)]
pub struct Route {
    raw: String,
    segments: Vec<Segment>,
}

impl Route {
    /// The pattern as it was written.
    pub closed spec fn raw(&self) -> Seq<char> {
        self.raw@
    }

    /// The pieces of the pattern.
    pub closed spec fn segments(&self) -> Seq<SegmentView> {
        segment_views(self.segments@)
    }

    /// Reads a pattern. An empty piece and a colon without a name are faults.
    pub fn parse(pattern: &str) -> (r: Result<Route, String>)
        ensures
            match r {
                Ok(route) => {
                    &&& route.raw() == pattern@
                    &&& segments_of(pieces_of(pattern@)) == Ok::<Seq<SegmentView>, Fault>(
                        route.segments(),
                    )
                },
                Err(m) => {
                    &&& segments_of(pieces_of(pattern@)) matches Err(f)
                    &&& m@ == fault_text(f, pattern@)
                },
            },
    {
        let list = pieces(pattern);
        let ghost all = text::texts(list@);
        let mut segments: Vec<Segment> = Vec::new();
        let mut i: usize = 0;
        assert(all.take(0) =~= Seq::<Seq<char>>::empty());
        assert(segment_views(segments@) =~= Seq::<SegmentView>::empty());
        while i < list.len()
            invariant
                all == text::texts(list@),
                all == pieces_of(pattern@),
                i <= list@.len(),
                segments_of(all.take(i as int)) == Ok::<Seq<SegmentView>, Fault>(
                    segment_views(segments@),
                ),
            decreases list@.len() - i,
        {
            proof {
                assert(all.take(i + 1).drop_last() =~= all.take(i as int));
                assert(all.take(i + 1).last() == list@[i as int]@);
                reveal_strlit(":");
            }
            let ghost before = segments@;
            let piece = list[i].as_str();
            if piece.unicode_len() == 0 {
                proof {
                    lemma_fault_stays(all, i + 1);
                }
                return Err(fault_message(Fault::EmptySegment, pattern));
            }
            match after_prefix(piece, ":") {
                Some(name) => {
                    proof {
                        assert(piece@.take(1)[0] == piece@[0]);
                        assert(":"@[0] == ':');
                    }
                    if name.as_str().unicode_len() == 0 {
                        proof {
                            lemma_fault_stays(all, i + 1);
                        }
                        return Err(fault_message(Fault::UnnamedParam, pattern));
                    }
                    segments.push(Segment::Param(name));
                },
                None => {
                    proof {
                        if piece@[0] == ':' {
                            assert(piece@.take(1) =~= ":"@);
                        }
                    }
                    segments.push(Segment::Literal(list[i].clone()));
                },
            }
            assert(segment_views(segments@) =~= segment_views(before).push(segments@.last()@));
            i += 1;
        }
        assert(all.take(list@.len() as int) =~= all);
        Ok(Route { raw: pattern.to_owned(), segments })
    }

    /// The pattern as it was written.
    pub fn pattern(&self) -> (p: &str)
        ensures
            p@ == self.raw(),
    {
        self.raw.as_str()
    }

    /// The captured pieces of a path that matches the pattern.
    pub fn match_path(&self, path: &str) -> (r: Option<StrMap<String>>)
        ensures
            match r {
                Some(m) => m.wf() && captured(self.segments(), pieces_of(path@)) == Some(
                    params_view(m),
                ),
                None => captured(self.segments(), pieces_of(path@)) is None,
            },
    {
        let list = pieces(path);
        let ghost all = text::texts(list@);
        let ghost segs = self.segments();
        if list.len() != self.segments.len() {
            assert(segs.len() != all.len());
            return None;
        }
        let mut params: StrMap<String> = StrMap::new();
        let mut i: usize = 0;
        proof {
            assert(segs.take(0) =~= Seq::<SegmentView>::empty());
            assert(all.take(0) =~= Seq::<Seq<char>>::empty());
            assert(params_view(params) =~= Map::<Seq<char>, Seq<char>>::empty());
        }
        while i < list.len()
            invariant
                all == text::texts(list@),
                all == pieces_of(path@),
                segs == segment_views(self.segments@),
                segs == self.segments(),
                segs.len() == all.len(),
                i <= list@.len(),
                params.wf(),
                captured(segs.take(i as int), all.take(i as int)) == Some(params_view(params)),
            decreases list@.len() - i,
        {
            proof {
                assert(all.take(i + 1).drop_last() =~= all.take(i as int));
                assert(all.take(i + 1).last() == list@[i as int]@);
                assert(segs.take(i + 1).drop_last() =~= segs.take(i as int));
                assert(segs.take(i + 1).last() == self.segments@[i as int]@);
            }
            match &self.segments[i] {
                Segment::Literal(lit) => {
                    if !same_text(lit.as_str(), list[i].as_str()) {
                        proof {
                            lemma_mismatch_stays(segs, all, i + 1);
                        }
                        return None;
                    }
                },
                Segment::Param(name) => {
                    let ghost before = params;
                    params.insert(name.clone(), list[i].clone());
                    assert(params_view(params) =~= params_view(before).insert(
                        name@,
                        list@[i as int]@,
                    ));
                },
            }
            i += 1;
        }
        proof {
            assert(all.take(list@.len() as int) =~= all);
            assert(segs.take(list@.len() as int) =~= segs);
        }
        Some(params)
    }
}

/// A path that a pattern without names is written as matches it and captures
/// nothing.
pub proof fn law_literal_pattern_matches_itself(segments: Seq<SegmentView>, pieces: Seq<Seq<char>>)
    requires
        segments_of(pieces) == Ok::<Seq<SegmentView>, Fault>(segments),
        forall|i: int| 0 <= i < pieces.len() ==> (#[trigger] pieces[i])[0] != ':',
    ensures
        captured(segments, pieces) == Some(Map::<Seq<char>, Seq<char>>::empty()),
    decreases pieces.len(),
{
    if pieces.len() > 0 {
        let head = pieces.drop_last();
        let before = segments_of(head)->Ok_0;
        assert(segments.drop_last() =~= before);
        assert(pieces[pieces.len() - 1][0] != ':');
        assert forall|i: int| 0 <= i < head.len() implies (#[trigger] head[i])[0] != ':' by {
            assert(head[i] == pieces[i]);
        }
        law_literal_pattern_matches_itself(before, head);
    }
}

/// What a path leads to.
pub enum Resolved {
    /// The handler of a route, by its place, with the captured pieces.
    Handler(usize, StrMap<String>),
    /// The view for paths without a route.
    Fallback,
    /// An empty view: no route, and no view for that.
    Empty,
}

/// Routes in the order in which they are tried. Their handlers are known by
/// their places.
pub struct RouteTable {
    routes: Vec<Route>,
    not_found: bool,
}

impl RouteTable {
    pub closed spec fn routes(&self) -> Seq<Route> {
        self.routes@
    }

    /// Whether there is a view for paths without a route.
    pub closed spec fn has_fallback(&self) -> bool {
        self.not_found
    }

    /// No routes.
    pub fn new() -> (t: RouteTable)
        ensures
            t.routes().len() == 0,
            !t.has_fallback(),
    {
        RouteTable { routes: Vec::new(), not_found: false }
    }

    /// The table with one more route, the last to be tried.
    pub fn route(self, pattern: &str) -> (r: Result<RouteTable, String>)
        ensures
            match r {
                Ok(t) => {
                    &&& segments_of(pieces_of(pattern@)) is Ok
                    &&& t.routes().len() == self.routes().len() + 1
                    &&& t.routes().drop_last() == self.routes()
                    &&& t.routes().last().raw() == pattern@
                    &&& segments_of(pieces_of(pattern@)) == Ok::<Seq<SegmentView>, Fault>(
                        t.routes().last().segments(),
                    )
                    &&& t.has_fallback() == self.has_fallback()
                },
                Err(m) => {
                    &&& segments_of(pieces_of(pattern@)) matches Err(f)
                    &&& m@ == fault_text(f, pattern@)
                },
            },
    {
        let route = match Route::parse(pattern) {
            Ok(route) => route,
            Err(m) => return Err(m),
        };
        let mut t = self;
        t.routes.push(route);
        assert(t.routes().drop_last() =~= self.routes());
        Ok(t)
    }

    /// The table with a view for paths without a route.
    pub fn fallback(self) -> (t: RouteTable)
        ensures
            t.routes() == self.routes(),
            t.has_fallback(),
    {
        let mut t = self;
        t.not_found = true;
        t
    }

    /// What a path leads to: the first route that matches.
    pub fn resolve(&self, path: &str) -> (v: Resolved)
        ensures
            leads_to(*self, path@, v),
            v matches Resolved::Handler(_, m) ==> m.wf(),
    {
        let mut i: usize = 0;
        while i < self.routes.len()
            invariant
                i <= self.routes@.len(),
                forall|k: int|
                    0 <= k < i ==> captured(
                        (#[trigger] self.routes()[k]).segments(),
                        pieces_of(path@),
                    ) is None,
            decreases self.routes@.len() - i,
        {
            match self.routes[i].match_path(path) {
                Some(m) => {
                    return Resolved::Handler(i, m);
                },
                None => {},
            }
            i += 1;
        }
        if self.not_found {
            Resolved::Fallback
        } else {
            Resolved::Empty
        }
    }
}

impl Default for RouteTable {
    fn default() -> (t: RouteTable)
        ensures
            t.routes().len() == 0,
            !t.has_fallback(),
    {
        RouteTable::new()
    }
}

/// A table of routes, and where the user is.
pub struct Router {
    table: RouteTable,
    location: Signal<String>,
}

impl Router {
    pub closed spec fn table(&self) -> RouteTable {
        self.table
    }

    /// The path where the user is.
    pub closed spec fn path(&self) -> Seq<char> {
        self.location.value@
    }

    /// The signal that holds the path.
    pub closed spec fn id(&self) -> usize {
        self.location.id
    }

    /// Whether the router can be read.
    pub open spec fn readable(&self, rt: Runtime) -> bool {
        &&& rt.wf()
        &&& self.id() < rt@.subs.len()
        &&& rt@.stack.len() > 0 ==> rt@.rank_over(self.id() as int) <= u32::MAX
    }

    /// A router that starts at `initial_path`.
    pub fn new(rt: &mut Runtime, table: RouteTable, initial_path: &str) -> (r: Router)
        requires
            old(rt).wf(),
            old(rt)@.subs.len() < usize::MAX,
        ensures
            final(rt).wf(),
            r.table() == table,
            r.path() == initial_path@,
            r.id() == old(rt)@.subs.len(),
            final(rt)@ == old(rt)@.with_signal(None),
    {
        Router { table, location: Signal::new(rt, initial_path.to_owned()) }
    }

    /// The path where the user is.
    pub fn current_path(&self, rt: &mut Runtime) -> (p: String)
        requires
            self.readable(*old(rt)),
        ensures
            final(rt).wf(),
            p@ == self.path(),
            final(rt)@ == old(rt)@.after_read(self.id() as int),
    {
        self.location.with(rt).clone()
    }

    /// Goes to a path. Whether the effects that this wakes have to be run at
    /// once.
    pub fn navigate(&mut self, rt: &mut Runtime, path: &str) -> (now: bool)
        requires
            old(rt).wf(),
            old(self).id() < old(rt)@.subs.len(),
        ensures
            final(rt).wf(),
            final(self).path() == path@,
            final(self).table() == old(self).table(),
            final(self).id() == old(self).id(),
            final(rt)@ == old(rt)@.notified(old(self).id() as int),
            now == (old(rt)@.depth == 0),
    {
        self.location.set(rt, path.to_owned())
    }

    /// The signal that holds the path.
    pub fn signal(&self) -> (s: &Signal<String>)
        ensures
            s.id == self.id(),
            s.value@ == self.path(),
    {
        &self.location
    }

    /// What the present path leads to.
    pub fn current_view(&self, rt: &mut Runtime) -> (v: Resolved)
        requires
            self.readable(*old(rt)),
        ensures
            final(rt).wf(),
            final(rt)@ == old(rt)@.after_read(self.id() as int),
            leads_to(self.table(), self.path(), v),
            v matches Resolved::Handler(_, m) ==> m.wf(),
    {
        let path = self.location.with(rt);
        self.table.resolve(path.as_str())
    }
}

/// Whether a path leads to a view: the first route that matches it, else the
/// fallback, else nothing.
pub open spec fn leads_to(table: RouteTable, path: Seq<char>, v: Resolved) -> bool {
    match v {
        Resolved::Handler(i, m) => {
            &&& i < table.routes().len()
            &&& captured(table.routes()[i as int].segments(), pieces_of(path)) == Some(
                params_view(m),
            )
            &&& forall|k: int|
                0 <= k < i ==> captured(
                    (#[trigger] table.routes()[k]).segments(),
                    pieces_of(path),
                ) is None
        },
        Resolved::Fallback => table.has_fallback() && forall|k: int|
            0 <= k < table.routes().len() ==> captured(
                (#[trigger] table.routes()[k]).segments(),
                pieces_of(path),
            ) is None,
        Resolved::Empty => !table.has_fallback() && forall|k: int|
            0 <= k < table.routes().len() ==> captured(
                (#[trigger] table.routes()[k]).segments(),
                pieces_of(path),
            ) is None,
    }
}

/// A path matches where it has as many pieces as the pattern and each piece that
/// must be the same is. Then every name holds the piece at its place, of two
/// places under one name the last, and nothing else is captured.
pub proof fn law_every_name_captures_its_piece(segments: Seq<SegmentView>, pieces: Seq<Seq<char>>)
    ensures
        captured(segments, pieces) is Some <==> segments.len() == pieces.len() && forall|i: int|
            0 <= i < segments.len() ==> ((#[trigger] segments[i]) matches SegmentView::Literal(s)
                ==> s == pieces[i]),
        captured(segments, pieces) matches Some(m) ==> {
            &&& forall|i: int|
                #![trigger segments[i]]
                0 <= i < segments.len() && segments[i] is Param && (forall|j: int|
                    i < j < segments.len() ==> (#[trigger] segments[j]) != segments[i])
                    ==> m.contains_key(segments[i]->Param_0) && m[segments[i]->Param_0]
                    == pieces[i]
            &&& forall|name: Seq<char>| #[trigger]
                m.contains_key(name) ==> segments.contains(SegmentView::Param(name))
        },
    decreases segments.len(),
{
    if segments.len() == pieces.len() && segments.len() > 0 {
        let n = segments.len() - 1;
        let head = segments.drop_last();
        law_every_name_captures_its_piece(head, pieces.drop_last());
        let fits = forall|i: int|
            0 <= i < segments.len() ==> ((#[trigger] segments[i]) matches SegmentView::Literal(s)
                ==> s == pieces[i]);
        if fits {
            assert forall|i: int| 0 <= i < head.len() implies ((
            #[trigger] head[i]) matches SegmentView::Literal(s) ==> s == pieces.drop_last()[i]) by {
                assert(segments[i] == head[i]);
            }
            assert(segments[n] == segments.last());
        }
        if captured(segments, pieces) is Some {
            let m = captured(segments, pieces)->0;
            let before = captured(head, pieces.drop_last())->0;
            assert forall|i: int| 0 <= i < segments.len() implies ((
            #[trigger] segments[i]) matches SegmentView::Literal(s) ==> s == pieces[i]) by {
                if i < n {
                    assert(segments[i] == head[i]);
                }
            }
            assert forall|i: int|
                #![trigger segments[i]]
                0 <= i < segments.len() && segments[i] is Param && (forall|j: int|
                    i < j < segments.len() ==> (#[trigger] segments[j]) != segments[i]) implies
                m.contains_key(segments[i]->Param_0) && m[segments[i]->Param_0] == pieces[i] by {
                if i < n {
                    assert(segments[i] == head[i]);
                    assert forall|j: int| i < j < head.len() implies (#[trigger] head[j])
                        != head[i] by {
                        assert(segments[j] == head[j]);
                    }
                    assert(segments[n] != segments[i]);
                    assert(before.contains_key(segments[i]->Param_0));
                }
            }
            assert forall|name: Seq<char>| #[trigger] m.contains_key(name) implies segments.contains(
                SegmentView::Param(name),
            ) by {
                if before.contains_key(name) {
                    let k = choose|k: int|
                        0 <= k < head.len() && head[k] == SegmentView::Param(name);
                    assert(segments[k] == SegmentView::Param(name));
                } else {
                    assert(segments[n] == SegmentView::Param(name));
                }
            }
        }
    }
}

proof fn lemma_slashes_front(s: Seq<char>)
    ensures
        ({
            let i = s.len() - slashes_front(s).len();
            &&& 0 <= i <= s.len()
            &&& slashes_front(s) == s.skip(i)
            &&& forall|k: int| 0 <= k < i ==> #[trigger] s[k] == '/'
            &&& i < s.len() ==> s[i] != '/'
        }),
    decreases s.len(),
{
    if s.len() > 0 && s[0] == '/' {
        let rest = s.drop_first();
        lemma_slashes_front(rest);
        let i = s.len() - slashes_front(s).len();
        assert(rest.skip(i - 1) =~= s.skip(i));
        assert forall|k: int| 0 <= k < i implies #[trigger] s[k] == '/' by {
            if k > 0 {
                assert(rest[k - 1] == s[k]);
            }
        }
    } else {
        assert(s.skip(0) =~= s);
    }
}

proof fn lemma_slashes_back(s: Seq<char>)
    ensures
        ({
            let j = slashes_back(s).len();
            &&& j <= s.len()
            &&& slashes_back(s) == s.take(j as int)
            &&& forall|k: int| j <= k < s.len() ==> #[trigger] s[k] == '/'
            &&& j > 0 ==> s[j - 1] != '/'
        }),
    decreases s.len(),
{
    if s.len() > 0 && s.last() == '/' {
        let rest = s.drop_last();
        lemma_slashes_back(rest);
        let j = slashes_back(s).len() as int;
        assert(rest.take(j) =~= s.take(j));
        assert forall|k: int| j <= k < s.len() implies #[trigger] s[k] == '/' by {
            if k < rest.len() {
                assert(rest[k] == s[k]);
            }
        }
    } else {
        assert(s.take(s.len() as int) =~= s);
    }
}

/// The pieces of a path, with a slash between them, are the path but for the
/// slashes around it. No piece holds a slash, and a path of slashes alone has no
/// pieces.
pub proof fn law_pieces_make_up_the_path(path: Seq<char>)
    ensures
        exists|i: int, j: int|
            0 <= i <= j <= path.len() && text::joined(pieces_of(path), '/') == #[trigger]
                path.subrange(i, j) && (i < j ==> path[i] != '/' && path[j - 1] != '/') && (forall|
                k: int,
            |
                0 <= k < i || j <= k < path.len() ==> #[trigger] path[k] == '/'),
        pieces_of(path).len() == 0 <==> forall|k: int|
            0 <= k < path.len() ==> #[trigger] path[k] == '/',
        forall|p: int, k: int|
            0 <= p < pieces_of(path).len() && 0 <= k < pieces_of(path)[p].len()
                ==> #[trigger] pieces_of(path)[p][k] != '/',
{
    let front = slashes_front(path);
    let s = slashes_back(front);
    lemma_slashes_front(path);
    lemma_slashes_back(front);
    let i = path.len() - front.len();
    let j = i + s.len();
    assert(s =~= path.subrange(i, j));
    text::law_pieces_join_to_the_text(s, '/');
    text::lemma_split_len(s, '/');
    assert forall|k: int| 0 <= k < i || j <= k < path.len() implies #[trigger] path[k] == '/' by {
        if j <= k {
            assert(front[k - i] == path[k]);
        }
    }
    assert(s.len() == 0 ==> text::joined(pieces_of(path), '/') =~= s);
    if s.len() > 0 {
        assert(path[i] == front[0]);
        assert(path[j - 1] == front[s.len() - 1]);
        assert(path[i] != '/');
    }
}

/// A pattern is read piece by piece: a colon in front makes the rest of a piece a
/// name, any other piece must be the same. The first piece that is empty, or a
/// colon alone, is the fault.
pub proof fn law_pattern_is_read_piece_by_piece(pieces: Seq<Seq<char>>)
    ensures
        match segments_of(pieces) {
            Ok(list) => list.len() == pieces.len() && forall|i: int|
                0 <= i < pieces.len() ==> (#[trigger] pieces[i]).len() > 0 && list[i] == (
                if pieces[i][0] == ':' {
                    SegmentView::Param(pieces[i].skip(1))
                } else {
                    SegmentView::Literal(pieces[i])
                }) && (pieces[i][0] == ':' ==> pieces[i].len() > 1),
            Err(f) => exists|i: int|
                0 <= i < pieces.len() && (match f {
                    Fault::EmptySegment => (#[trigger] pieces[i]).len() == 0,
                    Fault::UnnamedParam => pieces[i] == seq![':'],
                }) && forall|k: int|
                    0 <= k < i ==> (#[trigger] pieces[k]).len() > 0 && pieces[k] != seq![':'],
        },
{
    if segments_of(pieces) is Ok {
        lemma_good_pattern(pieces);
    } else {
        lemma_bad_pattern(pieces);
    }
}

proof fn lemma_good_pattern(pieces: Seq<Seq<char>>)
    requires
        segments_of(pieces) is Ok,
    ensures
        segments_of(pieces)->Ok_0.len() == pieces.len(),
        forall|i: int|
            #![trigger pieces[i]]
            0 <= i < pieces.len() ==> segment_of(pieces[i]) == Ok::<SegmentView, Fault>(
                segments_of(pieces)->Ok_0[i],
            ),
    decreases pieces.len(),
{
    if pieces.len() > 0 {
        let head = pieces.drop_last();
        lemma_good_pattern(head);
        assert forall|i: int|
            #![trigger pieces[i]]
            0 <= i < pieces.len() implies segment_of(pieces[i]) == Ok::<SegmentView, Fault>(
            segments_of(pieces)->Ok_0[i],
        ) by {
            if i < head.len() {
                assert(head[i] == pieces[i]);
            }
        }
    }
}

proof fn lemma_bad_pattern(pieces: Seq<Seq<char>>) -> (i: int)
    requires
        segments_of(pieces) is Err,
    ensures
        0 <= i < pieces.len(),
        match segments_of(pieces)->Err_0 {
            Fault::EmptySegment => pieces[i].len() == 0,
            Fault::UnnamedParam => pieces[i] == seq![':'],
        },
        forall|k: int| 0 <= k < i ==> (#[trigger] pieces[k]).len() > 0 && pieces[k] != seq![':'],
    decreases pieces.len(),
{
    let head = pieces.drop_last();
    let n = pieces.len() - 1;
    match segments_of(head) {
        Ok(_) => {
            lemma_good_pattern(head);
            assert forall|k: int| 0 <= k < n implies (#[trigger] pieces[k]).len() > 0
                && pieces[k] != seq![':'] by {
                assert(segment_of(head[k]) is Ok);
            }
            if pieces[n].len() > 0 {
                assert(pieces[n] =~= seq![':']);
            }
            n
        },
        Err(_) => {
            let i = lemma_bad_pattern(head);
            assert(pieces[i] == head[i]);
            assert forall|k: int| 0 <= k < i implies (#[trigger] pieces[k]).len() > 0
                && pieces[k] != seq![':'] by {
                assert(head[k] == pieces[k]);
            }
            i
        },
    }
}

/// A path leads to the first route whose pattern it fits, with the pieces at its
/// names; a path that fits none leads to the fallback where there is one.
pub proof fn law_path_leads_to_the_first_route(table: RouteTable, path: &str, v: Resolved)
    requires
        call_ensures(RouteTable::resolve, (&table, path), v),
    ensures
        match v {
            Resolved::Handler(i, m) => {
                let segments = table.routes()[i as int].segments();
                &&& i < table.routes().len()
                &&& segments.len() == pieces_of(path@).len()
                &&& forall|k: int|
                    #![trigger segments[k]]
                    0 <= k < segments.len() ==> match segments[k] {
                        SegmentView::Literal(s) => s == pieces_of(path@)[k],
                        SegmentView::Param(name) => m@.contains_key(name) && ((forall|j: int|
                            k < j < segments.len() ==> (#[trigger] segments[j]) != segments[k])
                            ==> m@[name]@ == pieces_of(path@)[k]),
                    }
                &&& forall|k: int|
                    0 <= k < i ==> captured(
                        (#[trigger] table.routes()[k]).segments(),
                        pieces_of(path@),
                    ) is None
            },
            _ => {
                &&& (v is Fallback <==> table.has_fallback())
                &&& forall|k: int|
                    0 <= k < table.routes().len() ==> captured(
                        (#[trigger] table.routes()[k]).segments(),
                        pieces_of(path@),
                    ) is None
            },
        },
{
    if let Resolved::Handler(i, m) = v {
        let segments = table.routes()[i as int].segments();
        let pieces = pieces_of(path@);
        law_every_name_captures_its_piece(segments, pieces);
        let view = params_view(m);
        assert forall|k: int|
            #![trigger segments[k]]
            0 <= k < segments.len() implies match segments[k] {
            SegmentView::Literal(s) => s == pieces[k],
            SegmentView::Param(name) => m@.contains_key(name) && ((forall|j: int|
                k < j < segments.len() ==> (#[trigger] segments[j]) != segments[k]) ==> m@[name]@
                == pieces[k]),
        } by {
            if let SegmentView::Param(name) = segments[k] {
                lemma_name_is_captured(segments, pieces, k);
                assert(view.contains_key(name));
            }
        }
    }
}

proof fn lemma_name_is_captured(segments: Seq<SegmentView>, pieces: Seq<Seq<char>>, i: int)
    requires
        captured(segments, pieces) is Some,
        0 <= i < segments.len(),
        segments[i] is Param,
    ensures
        captured(segments, pieces)->0.contains_key(segments[i]->Param_0),
    decreases segments.len(),
{
    if i < segments.len() - 1 {
        assert(segments.drop_last()[i] == segments[i]);
        lemma_name_is_captured(segments.drop_last(), pieces.drop_last(), i);
    }
}

} // verus!
