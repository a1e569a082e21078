//! File-system paths: an owned, growable `PathBuf` and a borrowed `Path`.
//!
//! A path is plain text split at `/`. The root directory is the empty
//! string, so the parent of `/foo` is `""`; an absolute path starts with `/`.
use vstd::prelude::*;
use vstd::string::*;

use crate::chars::{
    chars_of, find, first_index_of, last_index_of, lemma_first_index_of, lemma_last_index_of,
    lemma_last_index_of_join, lemma_split_on_nonempty, lacks, owned_substring, rfind, rsplit_once, split_on, split_once, starts_with,
    str_eq,
};

verus! {

pub open spec fn sep() -> char {
    '/'
}

pub open spec fn ext_sep() -> char {
    '.'
}

/// A path is relative unless it starts with `/` (so the empty root is relative).
pub open spec fn path_is_relative(s: Seq<char>) -> bool {
    s.len() == 0 || s[0] != sep()
}

/// Everything before the last `/`.
pub open spec fn path_parent(s: Seq<char>) -> Option<Seq<char>> {
    match rsplit_once(s, sep()) {
        Some(p) => Some(p.0),
        None => None,
    }
}

/// Everything after the last `.`, or nothing.
pub open spec fn path_extension(s: Seq<char>) -> Seq<char> {
    match rsplit_once(s, ext_sep()) {
        Some(p) => p.1,
        None => Seq::empty(),
    }
}

/// Everything after the last `/`, or nothing.
pub open spec fn path_file(s: Seq<char>) -> Seq<char> {
    match rsplit_once(s, sep()) {
        Some(p) => p.1,
        None => Seq::empty(),
    }
}

/// The file name up to its first `.`.
pub open spec fn path_file_prefix(s: Seq<char>) -> Seq<char> {
    match rsplit_once(s, sep()) {
        None => Seq::empty(),
        Some(p) => match split_once(p.1, ext_sep()) {
            None => p.1,
            Some(q) => q.0,
        },
    }
}

/// Appending `p`: an absolute `p` replaces the path, a relative one is joined with `/`.
pub open spec fn path_push(s: Seq<char>, p: Seq<char>) -> Seq<char> {
    if !path_is_relative(p) {
        p
    } else {
        s.push(sep()) + p
    }
}

/// Dropping the last component (the path is kept when it has no `/`).
pub open spec fn path_up(s: Seq<char>) -> Seq<char> {
    match rsplit_once(s, sep()) {
        Some(p) => p.0,
        None => s,
    }
}

pub open spec fn starts_with_ext_sep(e: Seq<char>) -> bool {
    e.len() > 0 && e[0] == ext_sep()
}

/// Appending an extension, with a `.` in front unless it already has one.
pub open spec fn path_add_extension(s: Seq<char>, ext: Seq<char>) -> Seq<char> {
    if starts_with_ext_sep(ext) {
        s + ext
    } else {
        s.push(ext_sep()) + ext
    }
}

/// Replacing what follows the last `.`; without a `.`, `ext` is simply appended.
pub open spec fn path_set_extension(s: Seq<char>, ext: Seq<char>) -> Seq<char> {
    match rsplit_once(s, ext_sep()) {
        None => s + ext,
        Some(p) => path_add_extension(p.0, ext),
    }
}

/// Dropping the last `.` and what follows it.
pub open spec fn path_clear_extension(s: Seq<char>) -> Seq<char> {
    match rsplit_once(s, ext_sep()) {
        None => s,
        Some(p) => p.0,
    }
}

/// The rest of `s` after `prefix`, when `s` starts with it.
pub open spec fn path_strip_prefix(s: Seq<char>, prefix: Seq<char>) -> Option<Seq<char>> {
    if prefix.is_prefix_of(s) {
        Some(s.skip(prefix.len() as int))
    } else {
        None
    }
}

pub open spec fn is_dot(seg: Seq<char>) -> bool {
    seg =~= seq!['.']
}

pub open spec fn is_dot_dot(seg: Seq<char>) -> bool {
    seg =~= seq!['.', '.']
}

/// One step of canonicalization: empty and `.` components vanish, `..` goes up.
pub open spec fn canon_step(acc: Seq<char>, seg: Seq<char>) -> Seq<char> {
    if seg.len() == 0 || is_dot(seg) {
        acc
    } else if is_dot_dot(seg) {
        path_up(acc)
    } else {
        path_push(acc, seg)
    }
}

pub open spec fn canon_fold(segs: Seq<Seq<char>>) -> Seq<char>
    decreases segs.len(),
{
    if segs.len() == 0 {
        Seq::empty()
    } else {
        canon_step(canon_fold(segs.drop_last()), segs.last())
    }
}

/// The canonical form of an absolute path: its components replayed from the root.
pub open spec fn canonical(s: Seq<char>) -> Seq<char> {
    canon_fold(split_on(s, sep()))
}

/// An owned, growable path.
pub struct PathBuf {
    inner: String,
}

impl View for PathBuf {
    type V = Seq<char>;

    closed spec fn view(&self) -> Seq<char> {
        self.inner@
    }
}

/// A borrowed path.
#[derive(Clone, Copy)]
pub struct Path<'a> {
    inner: &'a str,
}

impl<'a> View for Path<'a> {
    type V = Seq<char>;

    closed spec fn view(&self) -> Seq<char> {
        self.inner@
    }
}

/// Walks a path and then each of its parents, up to the root.
pub struct Ancestors<'a> {
    next: Option<Path<'a>>,
}

impl<'a> Ancestors<'a> {
    pub closed spec fn pending(&self) -> Option<Seq<char>> {
        match self.next {
            Some(p) => Some(p@),
            None => None,
        }
    }

    pub fn new(p: Path<'a>) -> (r: Self)
        ensures
            r.pending() == Some(p@),
    {
        Self { next: Some(p) }
    }

    /// The next path in the walk: first the path itself, then its parents.
    pub fn next(&mut self) -> (r: Option<Path<'a>>)
        ensures
            match r {
                Some(p) => old(self).pending() == Some(p@),
                None => old(self).pending() is None,
            },
            final(self).pending() == (match old(self).pending() {
                Some(s) => path_parent(s),
                None => None,
            }),
    {
        let next = self.next;
        self.next = match next {
            Some(p) => p.parent(),
            None => None,
        };
        next
    }
}

impl<'a> Path<'a> {
    pub fn new(path: &'a str) -> (r: Self)
        ensures
            r@ == path@,
    {
        Self { inner: path }
    }

    pub fn to_owned(&self) -> (r: PathBuf)
        ensures
            r@ == self@,
    {
        PathBuf { inner: self.inner.to_owned() }
    }

    pub fn as_str(&self) -> (r: &'a str)
        ensures
            r@ == self@,
    {
        self.inner
    }

    /// The components between the `/`s; empty ones are kept (the root is empty).
    pub fn traverse(&self) -> (r: Vec<&'a str>)
        ensures
            r@.map_values(|x: &str| x@) == split_on(self@, sep()),
    {
        let v = chars_of(self.inner);
        let n = v.len();
        let mut r: Vec<&'a str> = Vec::new();
        let mut start: usize = 0;
        let mut i: usize = 0;
        assert(v@.take(0) =~= Seq::<char>::empty());
        assert(r@.map_values(|x: &str| x@) =~= Seq::<Seq<char>>::empty());
        while i < n
            invariant
                v@ == self.inner@,
                n == v.len(),
                start <= i <= n,
                r@.map_values(|x: &str| x@).push(v@.subrange(start as int, i as int)) == split_on(
                    v@.take(i as int),
                    sep(),
                ),
            decreases n - i,
        {
            assert(v@.take(i + 1).drop_last() =~= v@.take(i as int));
            let ghost prev = r@.map_values(|x: &str| x@);
            if v[i] == '/' {
                let piece = self.inner.substring_char(start, i);
                r.push(piece);
                assert(r@.map_values(|x: &str| x@) =~= prev.push(v@.subrange(start as int, i as int)));
                start = i + 1;
                assert(v@.subrange(start as int, i + 1) =~= Seq::<char>::empty());
            } else {
                assert(v@.subrange(start as int, i + 1) =~= v@.subrange(start as int, i as int).push(
                    v@[i as int],
                ));
            }
            i = i + 1;
        }
        let piece = self.inner.substring_char(start, n);
        let ghost prev = r@.map_values(|x: &str| x@);
        r.push(piece);
        assert(r@.map_values(|x: &str| x@) =~= prev.push(v@.subrange(start as int, n as int)));
        assert(v@.take(n as int) =~= v@);
        r
    }

    pub fn is_relative(&self) -> (r: bool)
        ensures
            r == path_is_relative(self@),
    {
        self.inner.unicode_len() == 0 || self.inner.get_char(0) != '/'
    }

    /// Everything before the last `/`, or nothing when there is no `/`.
    pub fn parent(&self) -> (r: Option<Path<'a>>)
        ensures
            match r {
                Some(p) => path_parent(self@) == Some(p@),
                None => path_parent(self@) is None,
            },
    {
        let v = chars_of(self.inner);
        match rfind(&v, '/') {
            Some(i) => {
                proof {
                    lemma_last_index_of(v@, '/');
                }
                let s = self.inner.substring_char(0, i);
                assert(s@ =~= v@.take(i as int));
                Some(Path { inner: s })
            },
            None => None,
        }
    }

    pub fn extension(&self) -> (r: &'a str)
        ensures
            r@ == path_extension(self@),
    {
        let v = chars_of(self.inner);
        match rfind(&v, '.') {
            Some(i) => {
                proof {
                    lemma_last_index_of(v@, '.');
                    assert(i < v@.len());
                }
                let s = self.inner.substring_char(i + 1, v.len());
                assert(s@ =~= v@.skip(i + 1));
                s
            },
            None => {
                let s = self.inner.substring_char(0, 0);
                assert(s@ =~= Seq::<char>::empty());
                s
            },
        }
    }

    pub fn file_prefix(&self) -> (r: &'a str)
        ensures
            r@ == path_file_prefix(self@),
    {
        let f = self.file();
        let v = chars_of(self.inner);
        match rfind(&v, '/') {
            None => f,
            Some(_) => {
                let w = chars_of(f);
                match find(&w, '.') {
                    None => f,
                    Some(j) => {
                        proof {
                            lemma_first_index_of(w@, '.');
                        }
                        let s = f.substring_char(0, j);
                        assert(s@ =~= w@.take(j as int));
                        s
                    },
                }
            },
        }
    }

    pub fn file(&self) -> (r: &'a str)
        ensures
            r@ == path_file(self@),
    {
        let v = chars_of(self.inner);
        match rfind(&v, '/') {
            Some(i) => {
                proof {
                    lemma_last_index_of(v@, '/');
                }
                assert(i < v.len());
                let s = self.inner.substring_char(i + 1, v.len());
                assert(s@ =~= v@.skip(i + 1));
                s
            },
            None => {
                let s = self.inner.substring_char(0, 0);
                assert(s@ =~= Seq::<char>::empty());
                s
            },
        }
    }

    pub fn ancestors(&self) -> (r: Ancestors<'a>)
        ensures
            r.pending() == Some(self@),
    {
        Ancestors::new(*self)
    }

    pub fn strip_prefix(&self, prefix: Path<'_>) -> (r: Option<Path<'a>>)
        ensures
            match r {
                Some(p) => path_strip_prefix(self@, prefix@) == Some(p@),
                None => path_strip_prefix(self@, prefix@) is None,
            },
    {
        if starts_with(self.inner, prefix.inner) {
            let n = self.inner.unicode_len();
            let k = prefix.inner.unicode_len();
            let s = self.inner.substring_char(k, n);
            assert(s@ =~= self.inner@.skip(k as int));
            Some(Path { inner: s })
        } else {
            None
        }
    }

    /// Whether two paths are the same text.
    pub fn same_as(&self, other: Path<'_>) -> (r: bool)
        ensures
            r == (self@ == other@),
    {
        str_eq(self.inner, other.inner)
    }
}

impl Default for PathBuf {
    /// The empty path, as `new` gives it.
    fn default() -> (r: Self)
        ensures
            r@ == Seq::<char>::empty(),
    {
        PathBuf::new()
    }
}

impl PathBuf {
    pub fn new() -> (r: Self)
        ensures
            r@ == Seq::<char>::empty(),
    {
        PathBuf { inner: String::new() }
    }

    pub fn from_str_slice(s: &str) -> (r: Self)
        ensures
            r@ == s@,
    {
        PathBuf { inner: s.to_owned() }
    }

    pub fn from_string(s: String) -> (r: Self)
        ensures
            r@ == s@,
    {
        PathBuf { inner: s }
    }

    pub fn duplicate(&self) -> (r: Self)
        ensures
            r@ == self@,
    {
        PathBuf { inner: self.inner.clone() }
    }

    pub fn as_str(&self) -> (r: &str)
        ensures
            r@ == self@,
    {
        self.inner.as_str()
    }

    pub fn as_path(&self) -> (r: Path<'_>)
        ensures
            r@ == self@,
    {
        Path { inner: self.inner.as_str() }
    }

    pub fn is_relative(&self) -> (r: bool)
        ensures
            r == path_is_relative(self@),
    {
        self.as_path().is_relative()
    }

    /// Replaces the path by its canonical form: empty and `.` components are
    /// dropped and each `..` removes the component before it.
    pub fn canonicalize(&mut self)
        requires
            !path_is_relative(old(self)@),
        ensures
            final(self)@ == canonical(old(self)@),
    {
        let v = chars_of(self.inner.as_str());
        let n = v.len();
        let mut root = PathBuf::new();
        let mut start: usize = 0;
        let mut i: usize = 0;
        proof {
            lemma_split_on_nonempty(v@.take(0), sep());
            assert(v@.take(0) =~= Seq::<char>::empty());
        }
        while i < n
            invariant
                v@ == self.inner@,
                n == v.len(),
                start <= i <= n,
                split_on(v@.take(i as int), sep()).len() >= 1,
                root@ == canon_fold(split_on(v@.take(i as int), sep()).drop_last()),
                split_on(v@.take(i as int), sep()).last() == v@.subrange(start as int, i as int),
            decreases n - i,
        {
            assert(v@.take(i + 1).drop_last() =~= v@.take(i as int));
            let ghost prev = split_on(v@.take(i as int), sep());
            if v[i] == '/' {
                Self::canon_segment(&mut root, &v, self.inner.as_str(), start, i);
                assert(split_on(v@.take(i + 1), sep()).drop_last() =~= prev);
                start = i + 1;
                assert(v@.subrange(start as int, i + 1) =~= Seq::<char>::empty());
            } else {
                assert(split_on(v@.take(i + 1), sep()).drop_last() =~= prev.drop_last());
                assert(v@.subrange(start as int, i + 1) =~= v@.subrange(start as int, i as int).push(
                    v@[i as int],
                ));
            }
            i = i + 1;
        }
        Self::canon_segment(&mut root, &v, self.inner.as_str(), start, n);
        assert(v@.take(n as int) =~= v@);
        *self = root;
    }

    /// Applies one canonicalization step for the component `s[start..end]`.
    fn canon_segment(root: &mut PathBuf, v: &Vec<char>, s: &str, start: usize, end: usize)
        requires
            v@ == s@,
            start <= end <= v.len(),
        ensures
            final(root)@ == canon_step(old(root)@, v@.subrange(start as int, end as int)),
    {
        let ghost seg = v@.subrange(start as int, end as int);
        if end == start {
        } else if end - start == 1 && v[start] == '.' {
            assert(seg =~= seq!['.']);
        } else if end - start == 2 && v[start] == '.' && v[start + 1] == '.' {
            assert(seg =~= seq!['.', '.']);
            root.up();
        } else {
            assert(!is_dot(seg)) by {
                if seg =~= seq!['.'] {
                    assert(seg[0] == v@[start as int]);
                }
            }
            assert(!is_dot_dot(seg)) by {
                if seg =~= seq!['.', '.'] {
                    assert(seg[0] == v@[start as int]);
                    assert(seg[1] == v@[start + 1]);
                }
            }
            let piece = s.substring_char(start, end);
            root.push(Path::new(piece));
        }
    }

    /// Removes the last component (everything from the last `/` on).
    pub fn up(&mut self)
        ensures
            final(self)@ == path_up(old(self)@),
    {
        let v = chars_of(self.inner.as_str());
        match rfind(&v, '/') {
            Some(i) => {
                proof {
                    lemma_last_index_of(v@, '/');
                }
                let s = owned_substring(self.inner.as_str(), 0, i);
                assert(s@ =~= v@.take(i as int));
                self.inner = s;
            },
            None => {},
        }
    }

    /// Appends `path`; an absolute `path` replaces `self`. No canonicalization
    /// takes place.
    pub fn push(&mut self, path: Path<'_>)
        ensures
            final(self)@ == path_push(old(self)@, path@),
    {
        if !path.is_relative() {
            self.clear();
            self.inner.append(path.as_str());
        } else {
            let slash = "/";
            proof {
                reveal_strlit("/");
            }
            self.inner.append(slash);
            self.inner.append(path.as_str());
        }
    }

    pub fn add_extension(&mut self, ext: &str)
        ensures
            final(self)@ == path_add_extension(old(self)@, ext@),
    {
        let starts = ext.unicode_len() > 0 && ext.get_char(0) == '.';
        if !starts {
            let dot = ".";
            proof {
                reveal_strlit(".");
            }
            self.inner.append(dot);
        }
        self.inner.append(ext);
    }

    pub fn set_extension(&mut self, ext: &str)
        ensures
            final(self)@ == path_set_extension(old(self)@, ext@),
    {
        let v = chars_of(self.inner.as_str());
        match rfind(&v, '.') {
            None => {
                self.inner.append(ext);
            },
            Some(i) => {
                proof {
                    lemma_last_index_of(v@, '.');
                }
                let s = owned_substring(self.inner.as_str(), 0, i);
                assert(s@ =~= v@.take(i as int));
                self.inner = s;
                self.add_extension(ext);
            },
        }
    }

    pub fn clear_extension(&mut self)
        ensures
            final(self)@ == path_clear_extension(old(self)@),
    {
        let v = chars_of(self.inner.as_str());
        match rfind(&v, '.') {
            Some(i) => {
                proof {
                    lemma_last_index_of(v@, '.');
                }
                let s = owned_substring(self.inner.as_str(), 0, i);
                assert(s@ =~= v@.take(i as int));
                self.inner = s;
            },
            None => {},
        }
    }

    pub fn clear(&mut self)
        ensures
            final(self)@ == Seq::<char>::empty(),
    {
        self.inner = String::new();
    }
}

/// Going up after pushing one component that holds no `/` gives back the
/// original path; the pushed component is then the file name and the
/// original path its parent.
pub proof fn law_up_undoes_push(s: Seq<char>, seg: Seq<char>)
    requires
        lacks(seg, sep()),
    ensures
        path_up(path_push(s, seg)) == s,
        path_parent(path_push(s, seg)) == Some(s),
        path_file(path_push(s, seg)) == seg,
{
    if seg.len() > 0 {
        assert(seg[0] != sep());
    }
    lemma_last_index_of_join(s, sep(), seg);
}

/// After adding an extension that holds no `.`, that extension is the
/// path's extension, and clearing it gives back the path.
pub proof fn law_add_then_clear_extension(s: Seq<char>, ext: Seq<char>)
    requires
        lacks(ext, ext_sep()),
    ensures
        path_extension(path_add_extension(s, ext)) == ext,
        path_clear_extension(path_add_extension(s, ext)) == s,
{
    if ext.len() > 0 {
        assert(ext[0] != ext_sep());
    }
    lemma_last_index_of_join(s, ext_sep(), ext);
}

/// On a path that already has a `.`, setting an extension without `.`
/// makes it the extension and keeps the stem.
pub proof fn law_set_extension(s: Seq<char>, ext: Seq<char>)
    requires
        last_index_of(s, ext_sep()) >= 0,
        lacks(ext, ext_sep()),
    ensures
        path_extension(path_set_extension(s, ext)) == ext,
        path_clear_extension(path_set_extension(s, ext)) == path_clear_extension(s),
{
    let stem = s.take(last_index_of(s, ext_sep()));
    law_add_then_clear_extension(stem, ext);
}

/// Stripping a prefix leaves exactly the rest: prefix and rest together
/// are the path again; the strip fails only when the path does not start
/// with the prefix.
pub proof fn law_strip_prefix(s: Seq<char>, prefix: Seq<char>)
    ensures
        match path_strip_prefix(s, prefix) {
            Some(rest) => prefix + rest == s,
            None => !prefix.is_prefix_of(s),
        },
{
    if prefix.is_prefix_of(s) {
        assert(prefix + s.skip(prefix.len() as int) =~= s);
    }
}

/// A component that canonicalization keeps: not empty, not `.` or `..`,
/// and without `/`.
pub open spec fn plain_segment(seg: Seq<char>) -> bool {
    seg.len() > 0 && lacks(seg, sep()) && !is_dot(seg) && !is_dot_dot(seg)
}

/// The path made of the components `segs`, each after a `/`.
pub open spec fn join_segments(segs: Seq<Seq<char>>) -> Seq<char>
    decreases segs.len(),
{
    if segs.len() == 0 {
        Seq::empty()
    } else {
        join_segments(segs.drop_last()).push(sep()) + segs.last()
    }
}

/// The components that canonicalizing the components `segs` keeps.
pub open spec fn canon_segments(segs: Seq<Seq<char>>) -> Seq<Seq<char>>
    decreases segs.len(),
{
    if segs.len() == 0 {
        Seq::empty()
    } else {
        let ps = canon_segments(segs.drop_last());
        let seg = segs.last();
        if seg.len() == 0 || is_dot(seg) {
            ps
        } else if is_dot_dot(seg) {
            if ps.len() > 0 {
                ps.drop_last()
            } else {
                ps
            }
        } else {
            ps.push(seg)
        }
    }
}

/// The pieces of a split hold no separator.
proof fn lemma_split_on_lacks(s: Seq<char>)
    ensures
        forall|i: int| 0 <= i < split_on(s, sep()).len() ==> lacks(#[trigger] split_on(s, sep())[i], sep()),
    decreases s.len(),
{
    if s.len() > 0 {
        lemma_split_on_lacks(s.drop_last());
        lemma_split_on_nonempty(s.drop_last(), sep());
        let p = split_on(s.drop_last(), sep());
        let r = split_on(s, sep());
        assert forall|i: int| 0 <= i < r.len() implies lacks(#[trigger] r[i], sep()) by {
            if s.last() != sep() && i == p.len() - 1 {
                assert(r[i] == p.last().push(s.last()));
                assert(lacks(p[p.len() - 1], sep()));
            } else if i < p.len() {
                assert(r[i] == p[i]);
            }
        }
    }
}

/// Splitting a path that ends in `/` and a piece without `/` gives the
/// pieces before, then that piece.
proof fn lemma_split_join_one(q: Seq<char>, seg: Seq<char>)
    requires
        lacks(seg, sep()),
    ensures
        split_on(q.push(sep()) + seg, sep()) == split_on(q, sep()).push(seg),
    decreases seg.len(),
{
    let whole = q.push(sep()) + seg;
    if seg.len() == 0 {
        assert(whole =~= q.push(sep()));
        assert(whole.drop_last() =~= q);
        assert(whole.last() == sep());
        assert(seg =~= Seq::<char>::empty());
        assert(split_on(whole, sep()) == split_on(q, sep()).push(Seq::<char>::empty()));
    } else {
        let s2 = seg.drop_last();
        assert forall|j: int| 0 <= j < s2.len() implies s2[j] != sep() by {
            assert(s2[j] == seg[j]);
        }
        lemma_split_join_one(q, s2);
        assert(whole.drop_last() =~= q.push(sep()) + s2);
        assert(whole.last() == seg[seg.len() - 1]);
        assert(whole.last() != sep());
        let p = split_on(q, sep()).push(s2);
        assert(split_on(whole, sep()) == p.update(p.len() - 1, p.last().push(whole.last())));
        assert(s2.push(seg[seg.len() - 1]) =~= seg);
        assert(p.update(p.len() - 1, p.last().push(whole.last())) =~= split_on(q, sep()).push(seg));
    }
}

/// Splitting a joined path gives the empty root piece, then the components.
proof fn lemma_split_join(segs: Seq<Seq<char>>)
    requires
        forall|i: int| 0 <= i < segs.len() ==> lacks(#[trigger] segs[i], sep()),
    ensures
        split_on(join_segments(segs), sep()) == seq![Seq::<char>::empty()] + segs,
    decreases segs.len(),
{
    if segs.len() == 0 {
        assert(seq![Seq::<char>::empty()] + segs =~= seq![Seq::<char>::empty()]);
    } else {
        let init = segs.drop_last();
        assert forall|i: int| 0 <= i < init.len() implies lacks(#[trigger] init[i], sep()) by {
            assert(init[i] == segs[i]);
        }
        lemma_split_join(init);
        assert(lacks(segs[segs.len() - 1], sep()));
        lemma_split_join_one(join_segments(init), segs.last());
        assert((seq![Seq::<char>::empty()] + init).push(segs.last()) =~= seq![Seq::<char>::empty()] + segs);
    }
}

/// Canonicalizing the root piece and plain components rebuilds their join.
proof fn lemma_fold_join(segs: Seq<Seq<char>>)
    requires
        forall|i: int| 0 <= i < segs.len() ==> plain_segment(#[trigger] segs[i]),
    ensures
        canon_fold(seq![Seq::<char>::empty()] + segs) == join_segments(segs),
    decreases segs.len(),
{
    let all = seq![Seq::<char>::empty()] + segs;
    if segs.len() == 0 {
        assert(all.drop_last() =~= Seq::<Seq<char>>::empty());
        assert(all.last() =~= Seq::<char>::empty());
        assert(canon_fold(Seq::<Seq<char>>::empty()) == Seq::<char>::empty());
    } else {
        let init = segs.drop_last();
        assert forall|i: int| 0 <= i < init.len() implies plain_segment(#[trigger] init[i]) by {
            assert(init[i] == segs[i]);
        }
        lemma_fold_join(init);
        assert(all.drop_last() =~= seq![Seq::<char>::empty()] + init);
        assert(all.last() == segs.last());
        assert(plain_segment(segs[segs.len() - 1]));
        let last = segs.last();
        assert(path_is_relative(last)) by {
            assert(last[0] != sep());
        }
        assert(canon_fold(all) == canon_step(canon_fold(all.drop_last()), all.last()));
        assert(canon_step(join_segments(init), last) == join_segments(init).push(sep()) + last);
    }
}

/// Canonicalizing components without `/` gives the join of the components
/// it keeps, which are plain.
proof fn lemma_fold_segments(segs: Seq<Seq<char>>)
    requires
        forall|i: int| 0 <= i < segs.len() ==> lacks(#[trigger] segs[i], sep()),
    ensures
        canon_fold(segs) == join_segments(canon_segments(segs)),
        forall|i: int| 0 <= i < canon_segments(segs).len() ==> plain_segment(#[trigger] canon_segments(segs)[i]),
    decreases segs.len(),
{
    if segs.len() > 0 {
        let init = segs.drop_last();
        assert forall|i: int| 0 <= i < init.len() implies lacks(#[trigger] init[i], sep()) by {
            assert(init[i] == segs[i]);
        }
        lemma_fold_segments(init);
        let ps = canon_segments(init);
        let seg = segs.last();
        assert(lacks(segs[segs.len() - 1], sep()));
        if seg.len() == 0 || is_dot(seg) {
        } else if is_dot_dot(seg) {
            if ps.len() > 0 {
                let q = ps.drop_last();
                assert(plain_segment(ps[ps.len() - 1]));
                lemma_last_index_of_join(join_segments(q), sep(), ps.last());
                assert forall|i: int| 0 <= i < q.len() implies plain_segment(#[trigger] q[i]) by {
                    assert(q[i] == ps[i]);
                }
            } else {
                assert(join_segments(ps) =~= Seq::<char>::empty());
                assert(last_index_of(Seq::<char>::empty(), sep()) == -1);
            }
        } else {
            assert(path_is_relative(seg)) by {
                assert(seg[0] != sep());
            }
            let r = ps.push(seg);
            assert(r.drop_last() =~= ps);
            assert forall|i: int| 0 <= i < r.len() implies plain_segment(#[trigger] r[i]) by {
                if i < ps.len() {
                    assert(r[i] == ps[i]);
                }
            }
        }
    }
}

/// Canonicalizing a canonical path changes nothing.
pub proof fn law_canonical_idempotent(s: Seq<char>)
    ensures
        canonical(canonical(s)) == canonical(s),
{
    let segs = split_on(s, sep());
    lemma_split_on_lacks(s);
    lemma_fold_segments(segs);
    let ps = canon_segments(segs);
    assert forall|i: int| 0 <= i < ps.len() implies lacks(#[trigger] ps[i], sep()) by {
        assert(plain_segment(ps[i]));
    }
    lemma_split_join(ps);
    lemma_fold_join(ps);
}

} // verus!
