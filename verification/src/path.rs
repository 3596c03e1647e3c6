//! Unix paths, as the byte strings that the system takes them for.

use crate::text;
use vstd::prelude::*;
use vstd::slice::{slice_subrange, slice_to_vec};
use vstd::string::StrSliceExecFns;
use vstd::utf8;

verus! {

/// The byte that separates the names in a path.
pub const SLASH: u8 = 0x2f;

/// The byte of the name `.`.
pub const DOT: u8 = 0x2e;

/// A Unix path. It need not be valid UTF-8.
#[derive(Debug, PartialEq, Eq)]
pub struct FsPath {
    bytes: Vec<u8>,
}

impl View for FsPath {
    type V = Seq<u8>;

    closed spec fn view(&self) -> Seq<u8> {
        self.bytes@
    }
}

impl DeepView for FsPath {
    type V = Seq<u8>;

    open spec fn deep_view(&self) -> Seq<u8> {
        self@
    }
}

/// `dir` extended by `name`. A `name` that begins with a slash is absolute and
/// stands alone; otherwise exactly one separator is put between the two, unless
/// `dir` is empty or ends with one.
pub open spec fn joined(dir: Seq<u8>, name: Seq<u8>) -> Seq<u8> {
    if name.len() > 0 && name[0] == SLASH {
        name
    } else if dir.len() == 0 || dir.last() == SLASH {
        dir + name
    } else {
        dir.push(SLASH) + name
    }
}

/// The predicate "is a name": neither the empty piece that repeated and
/// trailing slashes leave, nor the name `.`.
pub open spec fn proper() -> spec_fn(Seq<u8>) -> bool {
    |piece: Seq<u8>| piece.len() > 0 && piece != seq![DOT]
}

/// The names in `path`, from the root down, without empty pieces and `.`.
pub open spec fn names_in(path: Seq<u8>) -> Seq<Seq<u8>> {
    text::split(path, SLASH).filter(proper())
}

/// Whether `name` is the last name in `path`.
pub open spec fn has_last_name(path: Seq<u8>, name: Seq<u8>) -> bool {
    names_in(path).len() > 0 && names_in(path).last() == name
}

/// A name that a path is extended by becomes its last name, if it is not empty,
/// nor `.`, and there is no slash in it.
pub proof fn joined_name_is_last(dir: Seq<u8>, name: Seq<u8>)
    requires
        name.len() > 0,
        name != seq![0x2eu8],
        !name.contains(0x2f),
    ensures
        has_last_name(joined(dir, name), name),
{
    assert(name.contains(name[0]));
    let prefix = if dir.len() == 0 || dir.last() == SLASH {
        dir
    } else {
        dir.push(SLASH)
    };
    lemma_split_after_slash(prefix, name);
    text::split(prefix, SLASH).drop_last().lemma_filter_push(name, proper());
}

/// A relative name stands behind the directory and one slash; an absolute one
/// stands alone.
pub proof fn names_stand_behind_one_slash(dir: Seq<u8>, name: Seq<u8>)
    ensures
        name.len() > 0 && name[0] == 0x2f ==> joined(dir, name) == name,
        !(name.len() > 0 && name[0] == 0x2f) && dir.len() > 0 && dir.last() != 0x2f ==> joined(
            dir,
            name,
        ) == dir + seq![0x2fu8] + name,
        !(name.len() > 0 && name[0] == 0x2f) && dir.len() > 0 && dir.last() == 0x2f ==> joined(
            dir,
            name,
        ) == dir + name,
        !(name.len() > 0 && name[0] == 0x2f) && dir.len() == 0 ==> joined(dir, name) == name,
{
    assert(dir.push(0x2fu8) + name =~= dir + seq![0x2fu8] + name);
    assert(Seq::<u8>::empty() + name =~= name);
    if dir.len() == 0 {
        assert(dir + name =~= name);
    }
}

/// A path has one last name, and slashes and `.` behind it do not change that.
pub proof fn last_name_stays(path: Seq<u8>, name: Seq<u8>, other: Seq<u8>)
    ensures
        has_last_name(path, name) && has_last_name(path, other) ==> name == other,
        has_last_name(path.push(0x2f), name) == has_last_name(path, name),
        has_last_name(path + seq![0x2fu8, 0x2eu8], name) == has_last_name(path, name),
{
    let pieces = text::split(path, SLASH);
    let with_slash = path.push(0x2f);
    let with_dot = path + seq![0x2fu8, 0x2eu8];
    text::lemma_split_nonempty(path, SLASH);
    assert(with_slash.drop_last() =~= path);
    pieces.lemma_filter_push(Seq::empty(), proper());
    assert(with_dot.drop_last() =~= with_slash);
    let empty: Seq<u8> = Seq::empty();
    assert(pieces.push(empty).drop_last() =~= pieces);
    assert(empty.push(DOT) =~= seq![DOT]);
    assert(with_dot.last() == DOT);
    assert(text::split(with_slash, SLASH) == pieces.push(empty));
    assert(text::split(with_dot, SLASH) =~= pieces.push(seq![DOT]));
    pieces.lemma_filter_push(seq![DOT], proper());
}

/// What follows the last slash is the last piece.
proof fn lemma_split_after_slash(prefix: Seq<u8>, name: Seq<u8>)
    requires
        prefix.len() == 0 || prefix.last() == SLASH,
        !name.contains(SLASH),
    ensures
        text::split(prefix + name, SLASH) == text::split(prefix, SLASH).drop_last().push(name),
    decreases name.len(),
{
    let pieces = text::split(prefix, SLASH);
    if name.len() == 0 {
        assert(prefix + name =~= prefix);
        text::lemma_split_nonempty(prefix, SLASH);
        assert(pieces.last() =~= name);
        assert(pieces.drop_last().push(name) =~= pieces);
    } else {
        let init = name.drop_last();
        assert forall|b: u8| init.contains(b) implies name.contains(b) by {
            let k = choose|k: int| 0 <= k < init.len() && init[k] == b;
            assert(name[k] == b);
        }
        assert(name.contains(name.last()));
        lemma_split_after_slash(prefix, init);
        assert((prefix + name).drop_last() =~= prefix + init);
        assert(pieces.drop_last().push(init).drop_last() =~= pieces.drop_last());
        assert(init.push(name.last()) =~= name);
    }
}

/// Whether `a` and `b` hold the same bytes.
pub fn same_bytes(a: &[u8], b: &[u8]) -> (r: bool)
    ensures
        r == (a@ == b@),
{
    if a.len() != b.len() {
        return false;
    }
    for i in 0..a.len()
        invariant
            a.len() == b.len(),
            forall|j: int| 0 <= j < i ==> a@[j] == b@[j],
    {
        if a[i] != b[i] {
            return false;
        }
    }
    assert(a@ =~= b@);
    true
}

impl FsPath {
    /// The path written as `text`.
    pub fn new(text: &str) -> (path: FsPath)
        ensures
            path@ == utf8::encode_utf8(text@),
    {
        FsPath { bytes: text.as_bytes_vec() }
    }

    /// The path made of `bytes`.
    pub fn from_bytes(bytes: Vec<u8>) -> (path: FsPath)
        ensures
            path@ == bytes@,
    {
        FsPath { bytes }
    }

    /// The bytes of the path.
    pub fn as_bytes(&self) -> (bytes: &[u8])
        ensures
            bytes@ == self@,
    {
        self.bytes.as_slice()
    }

    /// This path extended by the bytes `name`.
    pub fn join(&self, name: &[u8]) -> (path: FsPath)
        ensures
            path@ == joined(self@, name@),
    {
        if name.len() > 0 && name[0] == SLASH {
            return FsPath { bytes: slice_to_vec(name) };
        }
        let mut bytes = slice_to_vec(self.bytes.as_slice());
        if bytes.len() > 0 && bytes[bytes.len() - 1] != SLASH {
            bytes.push(SLASH);
        }
        let mut rest = slice_to_vec(name);
        bytes.append(&mut rest);
        FsPath { bytes }
    }

    /// This path extended by the name `name`.
    pub fn join_text(&self, name: &str) -> (path: FsPath)
        ensures
            path@ == joined(self@, utf8::encode_utf8(name@)),
    {
        self.join(name.as_bytes())
    }

    /// Whether `name` is the last name in this path.
    pub fn ends_with(&self, name: &str) -> (r: bool)
        ensures
            r == has_last_name(self@, utf8::encode_utf8(name@)),
    {
        let wanted = name.as_bytes();
        let ghost mut done: Seq<Seq<u8>> = Seq::empty();
        let mut start: usize = 0;
        let mut last_matches: bool = false;
        let mut i: usize = 0;
        assert(self@.take(0) =~= Seq::empty());
        assert(self@.subrange(0, 0) =~= Seq::empty());
        while i < self.bytes.len()
            invariant
                start <= i <= self.bytes.len(),
                wanted@ == utf8::encode_utf8(name@),
                text::split(self@.take(i as int), SLASH) == done.push(
                    self@.subrange(start as int, i as int),
                ),
                last_matches == (done.filter(proper()).len() > 0 && done.filter(proper()).last()
                    == wanted@),
            decreases self.bytes.len() - i,
        {
            let ghost piece = self@.subrange(start as int, i as int);
            assert(self@.take(i + 1).drop_last() =~= self@.take(i as int));
            if self.bytes[i] == SLASH {
                last_matches = self.matches_after(start, i, wanted, last_matches);
                proof {
                    done.lemma_filter_push(piece, proper());
                    done = done.push(piece);
                }
                start = i + 1;
                assert(self@.subrange(i + 1, i + 1) =~= Seq::empty());
            } else {
                assert(done.push(piece).drop_last() =~= done);
                assert(self@.subrange(start as int, i + 1) =~= piece.push(self@[i as int]));
            }
            i = i + 1;
        }
        assert(self@.take(i as int) =~= self@);
        proof {
            done.lemma_filter_push(self@.subrange(start as int, i as int), proper());
        }
        self.matches_after(start, i, wanted, last_matches)
    }

    /// Whether the last name is `wanted` once the piece from `start` to `end`
    /// has been passed, where `before` says so of the pieces ahead of it.
    fn matches_after(&self, start: usize, end: usize, wanted: &[u8], before: bool) -> (r: bool)
        requires
            start <= end <= self@.len(),
        ensures
            ({
                let piece = self@.subrange(start as int, end as int);
                r == if proper()(piece) {
                    piece == wanted@
                } else {
                    before
                }
            }),
    {
        let ghost piece = self@.subrange(start as int, end as int);
        if end == start {
            return before;
        }
        if end - start == 1 && self.bytes[start] == DOT {
            assert(piece =~= seq![DOT]);
            return before;
        }
        assert(proper()(piece)) by {
            if piece == seq![DOT] {
                assert(piece.len() == 1 && piece[0] == DOT);
            }
        }
        same_bytes(slice_subrange(self.bytes.as_slice(), start, end), wanted)
    }
}

} // verus!
