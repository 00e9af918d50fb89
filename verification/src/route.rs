//! Routable paths: a raw string such as `/users/:id/*` is checked and cut
//! into its segments once, and the router works on the segments.

use vstd::prelude::*;
use vstd::std_specs::iter::IteratorSpec;

verus! {

/// A routable path, cut into its segments.
pub struct Route<'r> {
    pub path: Vec<&'r str>,
}

/// The raw string that could not be read as a path.
#[derive(Debug, Clone)]
pub struct MalformedRouteError(String);

/// A raw string is malformed when it is empty, does not begin with `/`,
/// or ends with `/`.
pub open spec fn is_malformed(raw: Seq<char>) -> bool {
    raw.len() == 0 || raw[0] != '/' || raw.last() == '/'
}

/// The pieces of `s` between its slashes, in order. A string without a
/// slash is one piece; two slashes in a row enclose an empty piece.
pub open spec fn split_on_slash(s: Seq<char>) -> Seq<Seq<char>>
    decreases s.len(),
{
    if s.len() == 0 {
        seq![Seq::<char>::empty()]
    } else {
        let before = split_on_slash(s.drop_last());
        if s.last() == '/' {
            before.push(Seq::<char>::empty())
        } else {
            before.update(before.len() - 1, before.last().push(s.last()))
        }
    }
}

/// The segments of a raw path: what stands between the slashes that follow
/// the leading one.
pub open spec fn segments_of(raw: Seq<char>) -> Seq<Seq<char>> {
    split_on_slash(raw.drop_first())
}

/// The raw path that a sequence of segments spells: each segment behind a
/// slash of its own.
pub open spec fn raw_of(segments: Seq<Seq<char>>) -> Seq<char>
    decreases segments.len(),
{
    if segments.len() == 0 {
        Seq::<char>::empty()
    } else {
        raw_of(segments.drop_last()) + seq!['/'] + segments.last()
    }
}

/// No segment holds a slash.
pub open spec fn slash_free(segments: Seq<Seq<char>>) -> bool {
    forall|i: int, j: int|
        0 <= i < segments.len() && 0 <= j < segments[i].len() ==> segments[i][j] != '/'
}

/// Splitting always yields at least one piece, no piece holds a slash, and
/// the last piece is empty exactly when nothing follows the last slash.
pub proof fn lemma_split_pieces(s: Seq<char>)
    ensures
        split_on_slash(s).len() >= 1,
        slash_free(split_on_slash(s)),
        split_on_slash(s).last().len() == 0 <==> (s.len() == 0 || s.last() == '/'),
    decreases s.len(),
{
    if s.len() > 0 {
        lemma_split_pieces(s.drop_last());
    }
}

/// Spelling the pieces of a string out again, each behind a slash, gives the
/// string back behind one leading slash.
pub proof fn lemma_split_then_join(s: Seq<char>)
    ensures
        raw_of(split_on_slash(s)) == seq!['/'] + s,
    decreases s.len(),
{
    let pieces = split_on_slash(s);
    if s.len() == 0 {
        assert(raw_of(pieces.drop_last()) =~= Seq::<char>::empty());
    } else {
        let t = s.drop_last();
        let before = split_on_slash(t);
        lemma_split_pieces(t);
        lemma_split_then_join(t);
        if s.last() == '/' {
            assert(pieces.drop_last() =~= before);
        } else {
            assert(pieces.drop_last() =~= before.drop_last());
            assert(raw_of(pieces) =~= raw_of(before).push(s.last()));
        }
    }
}

/// Segments without a slash in them are exactly what their spelling splits
/// into: no other sequence of segments spells the same raw path.
pub proof fn lemma_join_then_split(segments: Seq<Seq<char>>)
    requires
        segments.len() >= 1,
        slash_free(segments),
    ensures
        raw_of(segments).len() >= 1,
        raw_of(segments)[0] == '/',
        segments_of(raw_of(segments)) == segments,
    decreases segments.len(), segments.last().len(),
{
    let init = segments.drop_last();
    let last = segments.last();
    let raw = raw_of(segments);
    if last.len() == 0 {
        if init.len() == 0 {
            assert(raw_of(init) =~= Seq::<char>::empty());
            assert(last =~= Seq::<char>::empty());
        } else {
            lemma_join_then_split(init);
            let tail = raw.drop_first();
            assert(tail.drop_last() =~= raw_of(init).drop_first());
            assert(last =~= Seq::<char>::empty());
        }
    } else {
        let shorter = init.push(last.drop_last());
        assert(shorter.drop_last() =~= init);
        lemma_join_then_split(shorter);
        let tail = raw.drop_first();
        assert(tail.drop_last() =~= raw_of(shorter).drop_first());
        assert(last =~= last.drop_last().push(last.last()));
    }
}

impl<'r> View for Route<'r> {
    type V = Seq<Seq<char>>;

    open spec fn view(&self) -> Seq<Seq<char>> {
        Seq::new(self.path@.len(), |i: int| self.path@[i]@)
    }
}

impl View for MalformedRouteError {
    type V = Seq<char>;

    closed spec fn view(&self) -> Seq<char> {
        self.0@
    }
}

impl MalformedRouteError {
    /// The string that was refused.
    pub fn raw(&self) -> (raw: &str)
        ensures
            raw@ == self@,
    {
        self.0.as_str()
    }

    /// The text of the error: a fixed lead and the offending string.
    pub fn message(&self) -> (text: String)
        ensures
            text@ == "This route is malformed: "@ + self@,
    {
        let mut text = String::from_str("This route is malformed: ");
        text.append(self.0.as_str());
        text
    }
}

impl<'r> Route<'r> {
    /// What every path read from a raw string satisfies: it has a segment,
    /// no segment holds a slash, and the last segment is not empty.
    pub open spec fn wf(&self) -> bool {
        &&& self@.len() >= 1
        &&& slash_free(self@)
        &&& self@.last().len() > 0
    }
}

/// Reads a raw string as a path. The string must begin with `/` and must
/// not end with `/`; the error carries the string that was refused.
pub fn new_route(p: &str) -> (res: Result<Route<'_>, MalformedRouteError>)
    ensures
        match res {
            Ok(route) => !is_malformed(p@) && route@ == segments_of(p@) && route.wf(),
            Err(e) => is_malformed(p@) && e@ == p@,
        },
{
    if p.is_empty() {
        return Err(MalformedRouteError(p.to_owned()));
    }
    let n = p.unicode_len();
    if p.get_char(0) != '/' {
        return Err(MalformedRouteError(p.to_owned()));
    }
    if p.get_char(n - 1) == '/' {
        return Err(MalformedRouteError(p.to_owned()));
    }
    let mut path: Vec<&str> = Vec::new();
    let mut start: usize = 1;
    let mut i: usize = 1;
    let mut rest = p.chars();
    let _ = rest.next();
    let ghost raw = p@;
    assert(raw.subrange(1, 1) =~= Seq::<char>::empty());
    while i < n
        invariant
            raw == p@,
            n == raw.len(),
            1 <= start <= i <= n,
            rest.remaining() == raw.skip(i as int),
            split_on_slash(raw.subrange(1, i as int)) == Seq::new(
                path@.len(),
                |k: int| path@[k]@,
            ).push(raw.subrange(start as int, i as int)),
        decreases n - i,
    {
        let c = rest.next();
        let ghost done = raw.subrange(1, i as int);
        let ghost next = raw.subrange(1, i as int + 1);
        assert(next.drop_last() =~= done);
        if c == Some('/') {
            let piece = p.substring_char(start, i);
            path.push(piece);
            start = i + 1;
            assert(raw.subrange(start as int, i as int + 1) =~= Seq::<char>::empty());
        } else {
            assert(raw.subrange(start as int, i as int + 1) =~= raw.subrange(
                start as int,
                i as int,
            ).push(raw[i as int]));
        }
        i += 1;
    }
    let piece = p.substring_char(start, n);
    path.push(piece);
    let route = Route { path };
    proof {
        lemma_split_pieces(raw.drop_first());
    }
    Ok(route)
}

} // verus!
