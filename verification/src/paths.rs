//! Path-string structure for the identity normalizer.
//!
//! A path is taken literally as a sequence of characters, with `/` as the
//! directory separator: the file name is whatever follows the last `/`, the
//! extension is whatever follows the last `.` of the file name, and a `.`
//! that starts the file name does not begin an extension (so a name like
//! `.config` has no extension).  No component normalization is attempted:
//! a path ending in `/`, `/.` or `/..` simply has no usable file name.

use vstd::prelude::*;

verus! {

/// The part of `p` after its last `/`; all of `p` when it has none.
pub open spec fn file_name_of(p: Seq<char>) -> Seq<char>
    decreases p.len(),
{
    if p.len() == 0 {
        Seq::empty()
    } else if p.last() == '/' {
        Seq::empty()
    } else {
        file_name_of(p.drop_last()).push(p.last())
    }
}

/// The index of the last `.` in `s`, or `-1` when there is none.
pub open spec fn last_dot_pos(s: Seq<char>) -> int
    decreases s.len(),
{
    if s.len() == 0 {
        -1
    } else if s.last() == '.' {
        s.len() - 1
    } else {
        last_dot_pos(s.drop_last())
    }
}

/// The file name without its extension.  A last `.` at position zero is
/// part of the stem, not an extension separator.
pub open spec fn stem_of(name: Seq<char>) -> Seq<char> {
    if last_dot_pos(name) <= 0 {
        name
    } else {
        name.take(last_dot_pos(name))
    }
}

/// The extension of the file name, when it has one.
pub open spec fn ext_of(name: Seq<char>) -> Option<Seq<char>> {
    if last_dot_pos(name) <= 0 {
        None
    } else {
        Some(name.subrange(last_dot_pos(name) + 1, name.len() as int))
    }
}

/// Whether `p` can be reduced to a usable file stem: its file name must be
/// nonempty and must not be one of the directory references `.` and `..`.
pub open spec fn has_stem(p: Seq<char>) -> bool {
    &&& file_name_of(p).len() > 0
    &&& file_name_of(p) != seq!['.']
    &&& file_name_of(p) != seq!['.', '.']
}

/// Header-like extensions.
pub open spec fn is_header_ext(e: Seq<char>) -> bool {
    e == seq!['h'] || e == seq!['h', 'p', 'p'] || e == seq!['h', 'x', 'x']
}

/// Source-like extensions.
pub open spec fn is_source_ext(e: Seq<char>) -> bool {
    e == seq!['c'] || e == seq!['c', 'p', 'p'] || e == seq!['c', 'x', 'x']
}

/// The key suffix that an extension contributes: `_hdr` for a header-like
/// extension, `_src` for a source-like one, nothing for any other.
pub open spec fn ext_tag(e: Seq<char>) -> Seq<char> {
    if is_header_ext(e) {
        seq!['_', 'h', 'd', 'r']
    } else if is_source_ext(e) {
        seq!['_', 's', 'r', 'c']
    } else {
        Seq::empty()
    }
}

/// The key suffix of a file name: a missing extension counts as header-like.
pub open spec fn tag_of(name: Seq<char>) -> Seq<char> {
    match ext_of(name) {
        None => seq!['_', 'h', 'd', 'r'],
        Some(e) => ext_tag(e),
    }
}

/// The canonical graph key of a path: its file stem plus its tag suffix.
pub open spec fn key_of(p: Seq<char>) -> Seq<char> {
    stem_of(file_name_of(p)) + tag_of(file_name_of(p))
}

/// Whether a scanned file takes part in the dependency forest at all: its
/// extension, if it has one, must be header-like or source-like.
pub open spec fn is_source_like(p: Seq<char>) -> bool {
    match ext_of(file_name_of(p)) {
        None => true,
        Some(e) => is_header_ext(e) || is_source_ext(e),
    }
}

/// `file_name_of` is the suffix that starts right after the last `/`.
pub proof fn lemma_file_name_suffix(p: Seq<char>, start: int)
    requires
        0 <= start <= p.len(),
        forall|j: int| start <= j < p.len() ==> p[j] != '/',
        start == 0 || p[start - 1] == '/',
    ensures
        file_name_of(p) == p.subrange(start, p.len() as int),
    decreases p.len(),
{
    if start == p.len() {
        if p.len() > 0 {
            assert(p.last() == '/');
        }
        assert(file_name_of(p) =~= p.subrange(start, p.len() as int));
    } else {
        assert(p.last() != '/');
        lemma_file_name_suffix(p.drop_last(), start);
        assert(file_name_of(p) =~= p.subrange(start, p.len() as int));
    }
}

/// `last_dot_pos` is the position of the dot that no later dot follows.
pub proof fn lemma_last_dot(s: Seq<char>, d: int)
    requires
        0 <= d < s.len(),
        s[d] == '.',
        forall|j: int| d < j < s.len() ==> s[j] != '.',
    ensures
        last_dot_pos(s) == d,
    decreases s.len(),
{
    if d < s.len() - 1 {
        assert(s.last() != '.');
        lemma_last_dot(s.drop_last(), d);
    }
}

/// Without any dot, `last_dot_pos` reports none.
pub proof fn lemma_no_dot(s: Seq<char>)
    requires
        forall|j: int| 0 <= j < s.len() ==> s[j] != '.',
    ensures
        last_dot_pos(s) == -1,
    decreases s.len(),
{
    if s.len() > 0 {
        lemma_no_dot(s.drop_last());
    }
}

/// Leading `/` separators removed.
pub open spec fn strip_slashes(s: Seq<char>) -> Seq<char>
    decreases s.len(),
{
    if s.len() > 0 && s[0] == '/' {
        strip_slashes(s.subrange(1, s.len() as int))
    } else {
        s
    }
}

/// The location of `path` relative to `dir`: what follows the `dir`
/// prefix, with the separators between them removed.
pub open spec fn rel_path(dir: Seq<char>, path: Seq<char>) -> Seq<char>
    recommends
        dir.len() <= path.len(),
{
    strip_slashes(path.subrange(dir.len() as int, path.len() as int))
}

/// `strip_slashes` is pinned down by the run of separators it removes.
pub proof fn lemma_strip_slashes(s: Seq<char>, m: int)
    requires
        0 <= m <= s.len(),
        forall|j: int| 0 <= j < m ==> s[j] == '/',
        m == s.len() || s[m] != '/',
    ensures
        strip_slashes(s) == s.subrange(m, s.len() as int),
    decreases m,
{
    if m == 0 {
        assert(s.subrange(0, s.len() as int) =~= s);
    } else {
        let s1 = s.subrange(1, s.len() as int);
        lemma_strip_slashes(s1, m - 1);
        assert(s1.subrange(m - 1, s1.len() as int) =~= s.subrange(m, s.len() as int));
    }
}

/// Computes [`rel_path`]: strips the directory prefix and the separators
/// after it.
pub fn relative_path(dir: &str, path: &str) -> (r: String)
    requires
        dir@.is_prefix_of(path@),
    ensures
        r@ == rel_path(dir@, path@),
{
    let dlen = dir.unicode_len();
    let plen = path.unicode_len();
    let mut m: usize = dlen;
    loop
        invariant_except_break
            dlen <= m <= plen,
            plen == path@.len(),
            forall|j: int| dlen <= j < m ==> path@[j] == '/',
        ensures
            dlen <= m <= plen,
            forall|j: int| dlen <= j < m ==> path@[j] == '/',
            m == plen || path@[m as int] != '/',
        decreases plen - m,
    {
        if m >= plen {
            break ;
        }
        if path.get_char(m) != '/' {
            break ;
        }
        m = m + 1;
    }
    let r = path.substring_char(m, plen).to_owned();
    proof {
        let rest = path@.subrange(dlen as int, plen as int);
        assert forall|j: int| 0 <= j < m - dlen implies rest[j] == '/' by {
            assert(rest[j] == path@[j + dlen]);
        }
        if m < plen {
            assert(rest[m - dlen] == path@[m as int]);
        }
        lemma_strip_slashes(rest, m as int - dlen as int);
        assert(rest.subrange(m - dlen, rest.len() as int) =~= path@.subrange(
            m as int,
            plen as int,
        ));
    }
    r
}

/// Locates the file name of `path` and its last dot: where the name
/// starts, and where its last `.` sits, when it has one.
pub(crate) fn scan_name(path: &str) -> (r: (usize, usize, bool))
    ensures
        r.0 <= path@.len(),
        file_name_of(path@) == path@.subrange(r.0 as int, path@.len() as int),
        r.2 ==> r.0 <= r.1 < path@.len() && last_dot_pos(file_name_of(path@)) == r.1 - r.0,
        !r.2 ==> last_dot_pos(file_name_of(path@)) == -1,
{
    let len = path.unicode_len();

    // the file name starts right after the last `/`
    let mut start: usize = 0;
    let mut i: usize = 0;
    while i < len
        invariant
            len == path@.len(),
            start <= i <= len,
            start == 0 || path@[start as int - 1] == '/',
            forall|j: int| start <= j < i ==> path@[j] != '/',
        decreases len - i,
    {
        if path.get_char(i) == '/' {
            start = i + 1;
        }
        i = i + 1;
    }
    proof {
        lemma_file_name_suffix(path@, start as int);
    }
    let ghost name = file_name_of(path@);

    // the last `.` of the name, if any
    let mut dot: usize = 0;
    let mut has_dot = false;
    let mut i2: usize = start;
    while i2 < len
        invariant
            len == path@.len(),
            start <= i2 <= len,
            has_dot ==> start <= dot < i2 && path@[dot as int] == '.',
            has_dot ==> forall|j: int| dot < j < i2 ==> path@[j] != '.',
            !has_dot ==> forall|j: int| start <= j < i2 ==> path@[j] != '.',
        decreases len - i2,
    {
        if path.get_char(i2) == '.' {
            dot = i2;
            has_dot = true;
        }
        i2 = i2 + 1;
    }
    proof {
        assert(name =~= path@.subrange(start as int, len as int));
        if has_dot {
            assert forall|j: int| (dot - start) < j < name.len() implies name[j] != '.' by {
                assert(name[j] == path@[j + start]);
            }
            lemma_last_dot(name, dot as int - start as int);
        } else {
            assert forall|j: int| 0 <= j < name.len() implies name[j] != '.' by {
                assert(name[j] == path@[j + start]);
            }
            lemma_no_dot(name);
        }
    }
    (start, dot, has_dot)
}

/// The key suffix that the extension beginning at `from` contributes.
///
/// `from` must lie just past a `.` of the file name, so that
/// `p[from..]` is exactly the extension.
pub fn classify_ext(p: &str, from: usize) -> (t: &'static str)
    requires
        from <= p@.len(),
    ensures
        t@ == ext_tag(p@.subrange(from as int, p@.len() as int)),
{
    let ghost e = p@.subrange(from as int, p@.len() as int);
    let len = p.unicode_len();
    let elen = len - from;
    if elen == 1 {
        let c = p.get_char(from);
        if c == 'h' {
            proof {
                assert(e =~= seq!['h']);
                reveal_strlit("_hdr");
            }
            "_hdr"
        } else if c == 'c' {
            proof {
                assert(e =~= seq!['c']);
                reveal_strlit("_src");
            }
            "_src"
        } else {
            proof {
                assert(!is_header_ext(e) && !is_source_ext(e)) by {
                    assert(e.len() == 1 && e[0] != 'h' && e[0] != 'c');
                }
                reveal_strlit("");
            }
            ""
        }
    } else if elen == 3 {
        let c1 = p.get_char(from);
        let c2 = p.get_char(from + 1);
        let c3 = p.get_char(from + 2);
        if c1 == 'h' && c2 == 'p' && c3 == 'p' {
            proof {
                assert(e =~= seq!['h', 'p', 'p']);
                reveal_strlit("_hdr");
            }
            "_hdr"
        } else if c1 == 'h' && c2 == 'x' && c3 == 'x' {
            proof {
                assert(e =~= seq!['h', 'x', 'x']);
                reveal_strlit("_hdr");
            }
            "_hdr"
        } else if c1 == 'c' && c2 == 'p' && c3 == 'p' {
            proof {
                assert(e =~= seq!['c', 'p', 'p']);
                reveal_strlit("_src");
            }
            "_src"
        } else if c1 == 'c' && c2 == 'x' && c3 == 'x' {
            proof {
                assert(e =~= seq!['c', 'x', 'x']);
                reveal_strlit("_src");
            }
            "_src"
        } else {
            proof {
                assert(e.len() == 3 && e[0] == c1 && e[1] == c2 && e[2] == c3);
                assert(!is_header_ext(e) && !is_source_ext(e));
                reveal_strlit("");
            }
            ""
        }
    } else {
        proof {
            assert(e.len() != 1 && e.len() != 3);
            reveal_strlit("");
        }
        ""
    }
}

} // verus!
