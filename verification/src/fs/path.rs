use vstd::prelude::*;
use vstd::string::StringSliceAdditionalSpecFns;
use vstd::utf8::{decode_utf8, valid_utf8};

verus! {

/// The path delimiter.
pub const DELIMITER: u8 = 0x2f;

/// A file path: the sequence of its segments.
///
/// A path says nothing of being relative or absolute; file systems treat it as
/// absolute. Segments are never empty.
pub struct PathBuf {
    segments: Vec<String>,
}

/// A borrowed file path.
#[derive(Clone, Copy)]
pub struct Path<'path> {
    segments: &'path [String],
}

/// Why bytes could not be read as a path.
#[derive(Debug, Clone, Copy, PartialEq, Eq, Structural)]
pub enum ParsePathError {
    InvalidSegments,
}

/// The segments walked so far, in order.
pub struct PathIter<'s> {
    segments: &'s [String],
    index: usize,
}

/// Splitting a byte string at delimiters, left to right: the finished nonempty
/// pieces and the piece being read.
pub open spec fn split_acc(b: Seq<u8>) -> (Seq<Seq<u8>>, Seq<u8>)
    decreases b.len(),
{
    if b.len() == 0 {
        (Seq::empty(), Seq::empty())
    } else {
        let (done, cur) = split_acc(b.drop_last());
        if b.last() == DELIMITER {
            (if cur.len() > 0 { done.push(cur) } else { done }, Seq::empty())
        } else {
            (done, cur.push(b.last()))
        }
    }
}

/// The nonempty pieces of `b` between delimiters.
pub open spec fn split_path(b: Seq<u8>) -> Seq<Seq<u8>> {
    let (done, cur) = split_acc(b);
    if cur.len() > 0 {
        done.push(cur)
    } else {
        done
    }
}

/// Every piece is valid UTF-8.
pub open spec fn all_valid_utf8(pieces: Seq<Seq<u8>>) -> bool {
    forall|k: int| 0 <= k < pieces.len() ==> valid_utf8(#[trigger] pieces[k])
}

/// The segments of the path that `b` spells.
pub open spec fn parse_path(b: Seq<u8>) -> Seq<Seq<char>> {
    split_path(b).map_values(|p: Seq<u8>| decode_utf8(p))
}

/// The characters of each string.
pub open spec fn strings_view(v: Seq<String>) -> Seq<Seq<char>> {
    v.map_values(|s: String| s@)
}

/// Converts bytes to a string when they are valid UTF-8.
#[verifier::external_body]
fn utf8_to_string(bytes: Vec<u8>) -> (r: Option<String>)
    ensures
        r is Some <==> valid_utf8(bytes@),
        r matches Some(s) ==> s@ == decode_utf8(bytes@),
{
    String::from_utf8(bytes).ok()
}

proof fn lemma_split_acc_step(b: Seq<u8>, i: int)
    requires
        0 <= i < b.len(),
    ensures
        split_acc(b.take(i + 1)) == ({
            let (done, cur) = split_acc(b.take(i));
            if b[i] == DELIMITER {
                (if cur.len() > 0 { done.push(cur) } else { done }, Seq::<u8>::empty())
            } else {
                (done, cur.push(b[i]))
            }
        }),
{
    assert(b.take(i + 1).drop_last() =~= b.take(i));
}

proof fn lemma_split_acc_shape(b: Seq<u8>)
    ensures
        forall|k: int|
            0 <= k < split_acc(b).0.len() ==> (#[trigger] split_acc(b).0[k]).len() > 0
                && !split_acc(b).0[k].contains(DELIMITER),
        !split_acc(b).1.contains(DELIMITER),
    decreases b.len(),
{
    if b.len() > 0 {
        lemma_split_acc_shape(b.drop_last());
        let (done, cur) = split_acc(b.drop_last());
        if b.last() != DELIMITER {
            assert forall|x: u8| cur.push(b.last()).contains(x) implies x != DELIMITER by {
                let j = choose|j: int| 0 <= j < cur.push(b.last()).len() && cur.push(b.last())[j] == x;
                if j < cur.len() {
                    assert(cur.contains(x));
                }
            }
        } else {
            assert(!Seq::<u8>::empty().contains(DELIMITER));
        }
    }
}

/// Every segment read from bytes is nonempty and holds no delimiter.
pub proof fn lemma_segments_nonempty(b: Seq<u8>)
    ensures
        forall|k: int|
            0 <= k < split_path(b).len() ==> (#[trigger] split_path(b)[k]).len() > 0
                && !split_path(b)[k].contains(DELIMITER),
{
    lemma_split_acc_shape(b);
}

/// Splitting what follows a finished piece goes on as splitting it alone.
proof fn lemma_split_acc_append(s: Seq<u8>, y: Seq<u8>)
    requires
        split_acc(s).1.len() == 0,
    ensures
        split_acc(s + y) == (split_acc(s).0 + split_acc(y).0, split_acc(y).1),
    decreases y.len(),
{
    if y.len() == 0 {
        assert(s + y =~= s);
        assert(split_acc(s).0 + split_acc(y).0 =~= split_acc(s).0);
    } else {
        assert((s + y).drop_last() =~= s + y.drop_last());
        assert((s + y).last() == y.last());
        lemma_split_acc_append(s, y.drop_last());
        let d = split_acc(s).0;
        let (a, c) = split_acc(y.drop_last());
        if y.last() == DELIMITER {
            if c.len() > 0 {
                assert((d + a).push(c) =~= d + a.push(c));
            }
        } else {
            assert(split_acc(s + y).0 =~= d + a);
        }
    }
}

/// The segments of `x`, a delimiter and `y` are those of `x` followed by
/// those of `y`.
pub proof fn lemma_parse_concat(x: Seq<u8>, y: Seq<u8>)
    ensures
        split_path(x + seq![DELIMITER] + y) == split_path(x) + split_path(y),
        parse_path(x + seq![DELIMITER] + y) == parse_path(x) + parse_path(y),
{
    let xs = x + seq![DELIMITER];
    assert(xs.drop_last() =~= x);
    assert(split_acc(xs) == (split_path(x), Seq::<u8>::empty()));
    lemma_split_acc_append(xs, y);
    let (a, c) = split_acc(y);
    if c.len() > 0 {
        assert((split_path(x) + a).push(c) =~= split_path(x) + a.push(c));
    }
    assert(split_path(x + seq![DELIMITER] + y) =~= split_path(x) + split_path(y));
    assert(parse_path(x + seq![DELIMITER] + y) =~= parse_path(x) + parse_path(y));
}

/// A nonempty piece without a delimiter is one segment.
proof fn lemma_split_acc_plain(p: Seq<u8>)
    requires
        !p.contains(DELIMITER),
    ensures
        split_acc(p) == (Seq::<Seq<u8>>::empty(), p),
    decreases p.len(),
{
    if p.len() > 0 {
        assert(!p.drop_last().contains(DELIMITER)) by {
            if p.drop_last().contains(DELIMITER) {
                let j = choose|j: int| 0 <= j < p.drop_last().len() && p.drop_last()[j] == DELIMITER;
                assert(p[j] == DELIMITER);
            }
        }
        lemma_split_acc_plain(p.drop_last());
        assert(p[p.len() - 1] != DELIMITER);
        assert(p.drop_last().push(p.last()) =~= p);
    }
}

/// The pieces joined with a delimiter between each two.
pub open spec fn join_pieces(pieces: Seq<Seq<u8>>) -> Seq<u8>
    decreases pieces.len(),
{
    if pieces.len() == 0 {
        Seq::empty()
    } else if pieces.len() == 1 {
        pieces[0]
    } else {
        pieces[0] + seq![DELIMITER] + join_pieces(pieces.drop_first())
    }
}

/// Joining nonempty pieces that hold no delimiter and splitting the result
/// gives the pieces back.
pub proof fn lemma_join_split(pieces: Seq<Seq<u8>>)
    requires
        forall|k: int|
            0 <= k < pieces.len() ==> (#[trigger] pieces[k]).len() > 0 && !pieces[k].contains(DELIMITER),
    ensures
        split_path(join_pieces(pieces)) == pieces,
    decreases pieces.len(),
{
    if pieces.len() == 0 {
        assert(split_path(Seq::<u8>::empty()) =~= Seq::<Seq<u8>>::empty());
    } else {
        lemma_split_acc_plain(pieces[0]);
        assert(split_path(pieces[0]) =~= seq![pieces[0]]);
        if pieces.len() == 1 {
            assert(pieces =~= seq![pieces[0]]);
        } else {
            let rest = pieces.drop_first();
            assert forall|k: int| 0 <= k < rest.len() implies (#[trigger] rest[k]).len() > 0 && !rest[k].contains(
                DELIMITER,
            ) by {
                assert(rest[k] == pieces[k + 1]);
            }
            lemma_join_split(rest);
            lemma_parse_concat(pieces[0], join_pieces(rest));
            assert(seq![pieces[0]] + rest =~= pieces);
        }
    }
}

impl PathBuf {
    /// The segments of the path.
    pub closed spec fn spec_segments(&self) -> Seq<Seq<char>> {
        strings_view(self.segments@)
    }

    /// The empty path (the root).
    pub fn new() -> (p: PathBuf)
        ensures
            p.spec_segments() == Seq::<Seq<char>>::empty(),
    {
        let p = PathBuf { segments: Vec::new() };
        proof {
            assert(p.spec_segments() =~= Seq::<Seq<char>>::empty());
        }
        p
    }

    /// Reads a path from bytes: the nonempty pieces between delimiters are its
    /// segments. Fails when a segment is not valid UTF-8.
    pub fn from_bytes(bytes: &[u8]) -> (r: Result<PathBuf, ParsePathError>)
        ensures
            r is Ok <==> all_valid_utf8(split_path(bytes@)),
            r matches Ok(p) ==> p.spec_segments() == parse_path(bytes@),
            r matches Err(e) ==> e == ParsePathError::InvalidSegments,
    {
        let ghost b = bytes@;
        let mut segments: Vec<String> = Vec::new();
        let mut cur: Vec<u8> = Vec::new();
        let mut i: usize = 0;
        proof {
            assert(b.take(0) =~= Seq::<u8>::empty());
        }
        while i < bytes.len()
            invariant
                0 <= i <= b.len(),
                b == bytes@,
                split_acc(b.take(i as int)).1 == cur@,
                all_valid_utf8(split_acc(b.take(i as int)).0),
                strings_view(segments@) == split_acc(b.take(i as int)).0.map_values(
                    |p: Seq<u8>| decode_utf8(p),
                ),
            decreases b.len() - i,
        {
            let c = bytes[i];
            proof {
                lemma_split_acc_step(b, i as int);
            }
            let ghost done0 = split_acc(b.take(i as int)).0;
            if c == DELIMITER {
                if cur.len() > 0 {
                    let piece = cur;
                    cur = Vec::new();
                    match utf8_to_string(piece) {
                        Some(s) => {
                            let ghost seg0 = segments@;
                            segments.push(s);
                            proof {
                                lemma_push_views(seg0, s, done0, piece@);
                                assert(cur@ =~= Seq::<u8>::empty());
                            }
                        },
                        None => {
                            proof {
                                lemma_invalid_stays(b, i as int + 1, done0.len() as int);
                            }
                            return Err(ParsePathError::InvalidSegments);
                        },
                    }
                }
            } else {
                cur.push(c);
            }
            i = i + 1;
        }
        proof {
            assert(b.take(b.len() as int) =~= b);
        }
        if cur.len() > 0 {
            let ghost done0 = split_acc(b).0;
            let piece = cur;
                    cur = Vec::new();
            match utf8_to_string(piece) {
                Some(s) => {
                    let ghost seg0 = segments@;
                    segments.push(s);
                    proof {
                        lemma_push_views(seg0, s, done0, piece@);
                    }
                },
                None => {
                    proof {
                        assert(split_path(b)[done0.len() as int] == piece@);
                    }
                    return Err(ParsePathError::InvalidSegments);
                },
            }
        }
        Ok(PathBuf { segments })
    }

    /// Reads a path from a string; see [`PathBuf::from_bytes`].
    pub fn from_str(s: &str) -> (r: Result<PathBuf, ParsePathError>)
        ensures
            r is Ok <==> all_valid_utf8(split_path(s.spec_bytes())),
            r matches Ok(p) ==> p.spec_segments() == parse_path(s.spec_bytes()),
    {
        PathBuf::from_bytes(s.as_bytes())
    }

    /// Appends the segments of `other`.
    pub fn extends(&mut self, other: &PathBuf)
        ensures
            final(self).spec_segments() == old(self).spec_segments() + other.spec_segments(),
    {
        let mut i: usize = 0;
        let ghost s0 = self.segments@;
        while i < other.segments.len()
            invariant
                0 <= i <= other.segments@.len(),
                self.segments@ == s0 + other.segments@.take(i as int),
            decreases other.segments@.len() - i,
        {
            let s = other.segments[i].clone();
            self.segments.push(s);
            i = i + 1;
            proof {
                assert(self.segments@ =~= s0 + other.segments@.take(i as int));
            }
        }
        proof {
            assert(other.segments@.take(other.segments@.len() as int) =~= other.segments@);
            assert(strings_view(s0 + other.segments@) =~= strings_view(s0) + strings_view(
                other.segments@,
            ));
        }
    }

    /// A new path: the segments of `self` followed by those of `rhs`.
    pub fn concat(&self, rhs: &PathBuf) -> (r: PathBuf)
        ensures
            r.spec_segments() == self.spec_segments() + rhs.spec_segments(),
    {
        let mut r = PathBuf { segments: Vec::new() };
        r.extends(self);
        r.extends(rhs);
        proof {
            assert(strings_view(Seq::<String>::empty()) =~= Seq::<Seq<char>>::empty());
            assert(Seq::<Seq<char>>::empty() + self.spec_segments() =~= self.spec_segments());
        }
        r
    }

    /// The path borrowed.
    pub fn as_path(&self) -> (p: Path<'_>)
        ensures
            p.spec_segments() == self.spec_segments(),
    {
        Path { segments: self.segments.as_slice() }
    }
}

proof fn lemma_push_views(seg0: Seq<String>, s: String, done0: Seq<Seq<u8>>, piece: Seq<u8>)
    requires
        strings_view(seg0) == done0.map_values(|p: Seq<u8>| decode_utf8(p)),
        s@ == decode_utf8(piece),
    ensures
        strings_view(seg0.push(s)) == done0.push(piece).map_values(|p: Seq<u8>| decode_utf8(p)),
{
    let a = strings_view(seg0.push(s));
    let b = done0.push(piece).map_values(|p: Seq<u8>| decode_utf8(p));
    assert(strings_view(seg0).len() == seg0.len());
    assert(done0.map_values(|p: Seq<u8>| decode_utf8(p)).len() == done0.len());
    assert(a.len() == b.len());
    assert forall|k: int| 0 <= k < a.len() implies a[k] == b[k] by {
        if k < seg0.len() {
            assert(a[k] == strings_view(seg0)[k]);
            assert(b[k] == done0.map_values(|p: Seq<u8>| decode_utf8(p))[k]);
        }
    }
    assert(a =~= b);
}

proof fn lemma_invalid_stays(b: Seq<u8>, i: int, k: int)
    requires
        0 <= i <= b.len(),
        0 <= k < split_acc(b.take(i)).0.len(),
    ensures
        split_path(b)[k] == split_acc(b.take(i)).0[k],
        k < split_path(b).len(),
    decreases b.len() - i,
{
    if i == b.len() {
        assert(b.take(i) =~= b);
    } else {
        lemma_split_acc_step(b, i);
        lemma_invalid_stays(b, i + 1, k);
    }
}

impl<'path> Path<'path> {
    pub closed spec fn spec_segments(&self) -> Seq<Seq<char>> {
        strings_view(self.segments@)
    }

    /// Walks the segments from the first.
    pub fn iter(&self) -> (it: PathIter<'path>)
        ensures
            it.spec_rest() == self.spec_segments(),
    {
        let it = PathIter { segments: self.segments, index: 0 };
        proof {
            assert(self.segments@.skip(0) =~= self.segments@);
        }
        it
    }

    /// The root path has no segment.
    pub fn is_root(&self) -> (r: bool)
        ensures
            r == (self.spec_segments().len() == 0),
    {
        self.segments.len() == 0
    }

    /// The path without its last segment; the root is its own parent.
    pub fn parent(&self) -> (p: Path<'path>)
        ensures
            self.spec_segments().len() == 0 ==> p.spec_segments().len() == 0,
            self.spec_segments().len() > 0 ==> p.spec_segments()
                == self.spec_segments().drop_last(),
    {
        if self.segments.len() == 0 {
            Path { segments: self.segments }
        } else {
            let p = Path { segments: vstd::slice::slice_subrange(self.segments, 0, self.segments.len() - 1) };
            proof {
                assert(p.spec_segments() =~= self.spec_segments().drop_last());
            }
            p
        }
    }

    /// The last segment, if any.
    pub fn last_segment(&self) -> (r: Option<&'path str>)
        ensures
            r is Some <==> self.spec_segments().len() > 0,
            r matches Some(s) ==> s@ == self.spec_segments().last(),
    {
        if self.segments.len() == 0 {
            None
        } else {
            Some(self.segments[self.segments.len() - 1].as_str())
        }
    }

    /// The number of segments.
    pub fn len(&self) -> (n: usize)
        ensures
            n == self.spec_segments().len(),
    {
        self.segments.len()
    }

    /// The segment at `i`.
    pub fn segment(&self, i: usize) -> (s: &'path str)
        requires
            i < self.spec_segments().len(),
        ensures
            s@ == self.spec_segments()[i as int],
    {
        self.segments[i].as_str()
    }
}

impl<'s> PathIter<'s> {
    #[verifier::type_invariant]
    spec fn index_in_range(&self) -> bool {
        self.index <= self.segments@.len()
    }
    /// The segments not yet walked.
    pub closed spec fn spec_rest(&self) -> Seq<Seq<char>> {
        strings_view(self.segments@.skip(self.index as int))
    }

    /// The next segment, if any.
    pub fn next(&mut self) -> (r: Option<&'s str>)
        ensures
            old(self).spec_rest().len() == 0 ==> r is None && final(self).spec_rest() == old(
                self,
            ).spec_rest(),
            old(self).spec_rest().len() > 0 ==> r is Some && r.unwrap()@ == old(
                self,
            ).spec_rest()[0] && final(self).spec_rest() == old(self).spec_rest().drop_first(),
    {
        proof {
            use_type_invariant(&*self);
            assert(self.spec_rest().len() == self.segments@.len() - self.index) by {
                assert(self.segments@.skip(self.index as int).len() == self.segments@.len() - self.index);
            }
        }
        if self.index < self.segments.len() {
            let s = self.segments[self.index].as_str();
            self.index = self.index + 1;
            proof {
                assert(strings_view(self.segments@.skip(self.index as int)) =~= strings_view(
                    self.segments@.skip(self.index - 1),
                ).drop_first());
                assert(strings_view(self.segments@.skip(self.index - 1))[0] == self.segments@[self.index - 1]@);
            }
            Some(s)
        } else {
            None
        }
    }
}

} // verus!
