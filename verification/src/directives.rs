//! The line-oriented `#include` directive grammar, and its extractor.
//!
//! A line yields a dependency target when, after optional whitespace, it
//! carries the directive word followed by optional whitespace and a target
//! in quotes or angle brackets.  The target is the maximal nonempty run of
//! characters before the matching closing delimiter; a line that matches no
//! directive yields nothing, which is not an error for the extractor.

use vstd::prelude::*;
use vstd::string::StrSliceExecFns;

verus! {

/// The whitespace that may precede the directive and the target.
pub open spec fn is_space(c: char) -> bool {
    c == ' ' || c == '\t' || c == '\n' || c == '\r'
}

/// The first index at or after `i` holding a non-whitespace character, or
/// the length of `s` when only whitespace remains.
pub open spec fn ws_end(s: Seq<char>, i: int) -> int
    decreases s.len() - i,
{
    if 0 <= i < s.len() && is_space(s[i]) {
        ws_end(s, i + 1)
    } else {
        i
    }
}

/// The first index at or after `i` holding `c`, or the length of `s` when
/// `c` does not occur there.
pub open spec fn close_pos(s: Seq<char>, i: int, c: char) -> int
    decreases s.len() - i,
{
    if 0 <= i < s.len() {
        if s[i] == c {
            i
        } else {
            close_pos(s, i + 1, c)
        }
    } else {
        s.len() as int
    }
}

/// The directive word.
pub open spec fn directive_word() -> Seq<char> {
    seq!['#', 'i', 'n', 'c', 'l', 'u', 'd', 'e']
}

/// What parsing one line yields: the input left after the closing delimiter
/// and the target between the delimiters, or nothing when the line is no
/// directive.
pub open spec fn parse_line(s: Seq<char>) -> Option<(Seq<char>, Seq<char>)> {
    let i = ws_end(s, 0);
    if i + 8 <= s.len() && s.subrange(i, i + 8) == directive_word() {
        let j = ws_end(s, i + 8);
        if j < s.len() && (s[j] == '"' || s[j] == '<') {
            let close = if s[j] == '"' {
                '"'
            } else {
                '>'
            };
            let e = close_pos(s, j + 1, close);
            if j + 1 < e && e < s.len() {
                Some((s.subrange(e + 1, s.len() as int), s.subrange(j + 1, e)))
            } else {
                None
            }
        } else {
            None
        }
    } else {
        None
    }
}

/// A line as handed to the parser, with one trailing carriage return
/// removed: text is split at line feeds, and a carriage return directly
/// before a line feed belongs to the break, not to the line.
pub open spec fn strip_cr(l: Seq<char>) -> Seq<char> {
    if l.len() > 0 && l.last() == '\r' {
        l.drop_last()
    } else {
        l
    }
}

/// The targets that one line contributes.
pub open spec fn line_targets(l: Seq<char>) -> Seq<Seq<char>> {
    match parse_line(l) {
        Some(p) => seq![p.1],
        None => Seq::empty(),
    }
}

/// Every target of `s`, line by line and in order.  The text is split at
/// line feeds; a last line without a line feed keeps any trailing carriage
/// return, as a line-by-line reader of the text would hand it over.
pub open spec fn targets_of(s: Seq<char>) -> Seq<Seq<char>>
    decreases s.len(),
{
    if s.len() == 0 {
        Seq::empty()
    } else {
        let e = close_pos(s, 0, '\n');
        if 0 <= e < s.len() {
            line_targets(strip_cr(s.take(e))) + targets_of(s.subrange(e + 1, s.len() as int))
        } else {
            line_targets(s)
        }
    }
}

/// `ws_end` is pinned down by the run of whitespace it skips.
pub proof fn lemma_ws_end(s: Seq<char>, i: int, e: int)
    requires
        0 <= i <= e <= s.len(),
        forall|j: int| i <= j < e ==> is_space(#[trigger] s[j]),
        e == s.len() || !is_space(s[e]),
    ensures
        ws_end(s, i) == e,
    decreases e - i,
{
    if i < e {
        lemma_ws_end(s, i + 1, e);
    }
}

/// `close_pos` is pinned down by the run of other characters it skips.
pub proof fn lemma_close_pos(s: Seq<char>, i: int, e: int, c: char)
    requires
        0 <= i <= e <= s.len(),
        forall|j: int| i <= j < e ==> #[trigger] s[j] != c,
        e == s.len() || s[e] == c,
    ensures
        close_pos(s, i, c) == e,
    decreases e - i,
{
    if i < e {
        lemma_close_pos(s, i + 1, e, c);
    }
}

/// Skips whitespace: the first position at or after `from` that holds a
/// non-whitespace character, or the end of `s`.
fn skip_ws(s: &str, from: usize) -> (e: usize)
    requires
        from <= s@.len(),
    ensures
        from <= e <= s@.len(),
        e == ws_end(s@, from as int),
        e < s@.len() ==> !is_space(s@[e as int]),
{
    let len = s.unicode_len();
    let mut i: usize = from;
    loop
        invariant_except_break
            len == s@.len(),
            from <= i <= len,
            forall|j: int| from <= j < i ==> is_space(#[trigger] s@[j]),
        ensures
            from <= i <= len,
            forall|j: int| from <= j < i ==> is_space(#[trigger] s@[j]),
            i == len || !is_space(s@[i as int]),
        decreases len - i,
    {
        if i >= len {
            break ;
        }
        let c = s.get_char(i);
        if !(c == ' ' || c == '\t' || c == '\n' || c == '\r') {
            break ;
        }
        i = i + 1;
    }
    proof {
        lemma_ws_end(s@, from as int, i as int);
    }
    i
}

/// Finds the closing delimiter: the first position at or after `from` that
/// holds `c`, or the end of `s`.
fn find_close(s: &str, from: usize, c: char) -> (e: usize)
    requires
        from <= s@.len(),
    ensures
        from <= e <= s@.len(),
        e == close_pos(s@, from as int, c),
        forall|j: int| from <= j < e ==> #[trigger] s@[j] != c,
        e < s@.len() ==> s@[e as int] == c,
{
    let len = s.unicode_len();
    let mut i: usize = from;
    loop
        invariant_except_break
            len == s@.len(),
            from <= i <= len,
            forall|j: int| from <= j < i ==> #[trigger] s@[j] != c,
        ensures
            from <= i <= len,
            forall|j: int| from <= j < i ==> #[trigger] s@[j] != c,
            i == len || s@[i as int] == c,
        decreases len - i,
    {
        if i >= len {
            break ;
        }
        if s.get_char(i) == c {
            break ;
        }
        i = i + 1;
    }
    proof {
        lemma_close_pos(s@, from as int, i as int, c);
    }
    i
}

/// Parses one line as an `#include` directive.
///
/// On a match, returns the input left after the closing delimiter together
/// with the target between the delimiters, exactly as [`parse_line`] gives
/// them; any line that matches no directive is an error.
pub fn include_parser(line: &str) -> (r: Result<(String, String), &'static str>)
    ensures
        r is Ok <==> parse_line(line@) is Some,
        r matches Ok(p) ==> parse_line(line@) == Some((p.0@, p.1@)),
        r matches Err(m) ==> m@ == "no directive found"@,
{
    let len = line.unicode_len();
    let i = skip_ws(line, 0);
    if len - i < 8 {
        return Err("no directive found");
    }
    let word_ok = line.get_char(i) == '#' && line.get_char(i + 1) == 'i' && line.get_char(i + 2)
        == 'n' && line.get_char(i + 3) == 'c' && line.get_char(i + 4) == 'l' && line.get_char(
        i + 5,
    ) == 'u' && line.get_char(i + 6) == 'd' && line.get_char(i + 7) == 'e';
    if !word_ok {
        proof {
            assert(line@.subrange(i as int, i as int + 8) != directive_word()) by {
                if line@.subrange(i as int, i as int + 8) == directive_word() {
                    assert forall|j: int| 0 <= j < 8 implies line@.subrange(
                        i as int,
                        i as int + 8,
                    )[j] == directive_word()[j] by {}
                    assert(line@[i as int] == '#');
                    assert(line@[i as int + 1] == 'i');
                    assert(line@[i as int + 2] == 'n');
                    assert(line@[i as int + 3] == 'c');
                    assert(line@[i as int + 4] == 'l');
                    assert(line@[i as int + 5] == 'u');
                    assert(line@[i as int + 6] == 'd');
                    assert(line@[i as int + 7] == 'e');
                }
            }
        }
        return Err("no directive found");
    }
    proof {
        assert(line@.subrange(i as int, i as int + 8) =~= directive_word());
    }
    let j = skip_ws(line, i + 8);
    if j == len {
        return Err("no directive found");
    }
    let open = line.get_char(j);
    if !(open == '"' || open == '<') {
        return Err("no directive found");
    }
    let close = if open == '"' {
        '"'
    } else {
        '>'
    };
    let e = find_close(line, j + 1, close);
    if e == len || e == j + 1 {
        return Err("no directive found");
    }
    let rest = line.substring_char(e + 1, len).to_owned();
    let target = line.substring_char(j + 1, e).to_owned();
    Ok((rest, target))
}

/// Extracts, in order, every directive target of a text, line by line.
pub fn extract_includes(text: &str) -> (v: Vec<String>)
    ensures
        v.deep_view() == targets_of(text@),
{
    let len = text.unicode_len();
    let mut v: Vec<String> = Vec::new();
    let mut pos: usize = 0;
    proof {
        assert(text@.subrange(0, len as int) =~= text@);
    }
    while pos < len
        invariant
            len == text@.len(),
            pos <= len,
            targets_of(text@) == v.deep_view() + targets_of(
                text@.subrange(pos as int, len as int),
            ),
        decreases len - pos,
    {
        let ghost suffix = text@.subrange(pos as int, len as int);
        let e = find_close(text, pos, '\n');
        proof {
            assert forall|j: int| 0 <= j < e - pos implies #[trigger] suffix[j] != '\n' by {
                assert(suffix[j] == text@[j + pos]);
            }
            if e < len {
                assert(suffix[e - pos] == '\n');
            }
            lemma_close_pos(suffix, 0, e as int - pos as int, '\n');
        }
        let line_end: usize = if e < len && e > pos && text.get_char(e - 1) == '\r' {
            e - 1
        } else {
            e
        };
        let line = text.substring_char(pos, line_end);
        proof {
            if e < len {
                assert(line@ == strip_cr(suffix.take(e as int - pos as int))) by {
                    assert(suffix.take(e as int - pos as int) =~= text@.subrange(
                        pos as int,
                        e as int,
                    ));
                    if e > pos && text@[e as int - 1] == '\r' {
                        assert(line@ =~= suffix.take(e as int - pos as int).drop_last());
                    }
                }
            } else {
                assert(line@ =~= suffix);
            }
        }
        let ghost dv0 = v.deep_view();
        match include_parser(line) {
            Ok(p) => {
                let (_, target) = p;
                v.push(target);
                proof {
                    assert(v.deep_view() =~= dv0.push(target@));
                    assert(line_targets(line@) =~= seq![target@]);
                }
            },
            Err(_) => {
                proof {
                    assert(line_targets(line@) =~= Seq::<Seq<char>>::empty());
                }
            },
        }
        let next: usize = if e < len {
            e + 1
        } else {
            len
        };
        proof {
            if e < len {
                assert(suffix.subrange(
                    e as int - pos as int + 1,
                    suffix.len() as int,
                ) =~= text@.subrange(next as int, len as int));
                assert(targets_of(suffix) == line_targets(line@) + targets_of(
                    text@.subrange(next as int, len as int),
                ));
            } else {
                assert(targets_of(suffix) == line_targets(line@));
                assert(text@.subrange(next as int, len as int) =~= Seq::<char>::empty());
                assert(targets_of(suffix) =~= line_targets(line@) + targets_of(
                    text@.subrange(next as int, len as int),
                ));
            }
            assert(v.deep_view() + targets_of(text@.subrange(next as int, len as int)) =~= dv0
                + targets_of(suffix));
        }
        pos = next;
    }
    proof {
        assert(text@.subrange(pos as int, len as int) =~= Seq::<char>::empty());
        assert(v.deep_view() + targets_of(Seq::<char>::empty()) =~= v.deep_view());
    }
    v
}

} // verus!
