//! Resolution of relative references against the path of the file that holds
//! them.
use vstd::prelude::*;
use crate::text::{chars_of, push_all, same_chars, string_of};

verus! {

/// Path separators: `/` and `\`.
pub open spec fn is_separator(c: char) -> bool {
    c == '/' || c == '\\'
}

/// The segments of a path, split at every separator.
pub open spec fn segments(s: Seq<char>) -> Seq<Seq<char>>
    decreases s.len(),
{
    if s.len() == 0 {
        seq![Seq::empty()]
    } else {
        let p = segments(s.drop_last());
        if is_separator(s.last()) {
            p.push(Seq::empty())
        } else {
            p.drop_last().push(p.last().push(s.last()))
        }
    }
}

pub proof fn lemma_segments_nonempty(s: Seq<char>)
    ensures
        segments(s).len() >= 1,
    decreases s.len(),
{
    if s.len() > 0 {
        lemma_segments_nonempty(s.drop_last());
    }
}

/// Segments joined with `/`.
pub open spec fn joined(parts: Seq<Seq<char>>) -> Seq<char>
    decreases parts.len(),
{
    if parts.len() == 0 {
        Seq::empty()
    } else if parts.len() == 1 {
        parts[0]
    } else {
        joined(parts.drop_last()) + seq!['/'] + parts.last()
    }
}

/// The directory segments left after walking `parts` from `dir`: `.` is
/// skipped, `..` drops the last directory (nothing when none is left), any
/// other segment is appended.
pub open spec fn walk(dir: Seq<Seq<char>>, parts: Seq<Seq<char>>) -> Seq<Seq<char>>
    decreases parts.len(),
{
    if parts.len() == 0 {
        dir
    } else if parts[0] == seq!['.'] {
        walk(dir, parts.drop_first())
    } else if parts[0] == seq!['.', '.'] {
        walk(
            if dir.len() > 0 {
                dir.drop_last()
            } else {
                dir
            },
            parts.drop_first(),
        )
    } else {
        walk(dir.push(parts[0]), parts.drop_first())
    }
}

/// `href` resolved against the directory of `base_path` by standard segment
/// resolution; `..` segments beyond the top are ignored.
pub open spec fn resolved_path(href: Seq<char>, base_path: Seq<char>) -> Seq<char> {
    joined(walk(segments(base_path).drop_last(), segments(href)))
}

/// The views of a list of segments.
pub open spec fn seg_views(v: Seq<Vec<char>>) -> Seq<Seq<char>> {
    v.map_values(|x: Vec<char>| x@)
}

/// Splits a path at every `/` and `\`.
fn split_segments(s: &[char]) -> (r: Vec<Vec<char>>)
    ensures
        seg_views(r@) == segments(s@),
{
    let mut done: Vec<Vec<char>> = Vec::new();
    let mut cur: Vec<char> = Vec::new();
    let mut i: usize = 0;
    assert(s@.subrange(0, 0) =~= Seq::<char>::empty());
    assert(seg_views(done@).push(cur@) =~= segments(s@.subrange(0, 0)));
    while i < s.len()
        invariant
            i <= s@.len(),
            seg_views(done@).push(cur@) == segments(s@.subrange(0, i as int)),
        decreases s@.len() - i,
    {
        let c = s[i];
        let ghost prev = segments(s@.subrange(0, i as int));
        assert(s@.subrange(0, i + 1).drop_last() =~= s@.subrange(0, i as int));
        if c == '/' || c == '\\' {
            let ghost old_done = done@;
            done.push(cur);
            cur = Vec::new();
            assert(seg_views(done@) =~= seg_views(old_done).push(prev.last()));
            assert(seg_views(done@).push(cur@) =~= prev.push(Seq::empty()));
        } else {
            cur.push(c);
            assert(seg_views(done@).push(cur@) =~= prev.drop_last().push(prev.last().push(c)));
        }
        i += 1;
    }
    assert(s@.subrange(0, i as int) =~= s@);
    let ghost old_done = done@;
    done.push(cur);
    assert(seg_views(done@) =~= seg_views(old_done).push(cur@));
    done
}

/// Joins segments with `/`.
fn join_segments(parts: &[Vec<char>]) -> (r: Vec<char>)
    ensures
        r@ == joined(seg_views(parts@)),
{
    let mut out: Vec<char> = Vec::new();
    let mut i: usize = 0;
    while i < parts.len()
        invariant
            i <= parts@.len(),
            out@ == joined(seg_views(parts@).subrange(0, i as int)),
        decreases parts@.len() - i,
    {
        let ghost sub = seg_views(parts@).subrange(0, i + 1);
        assert(sub.drop_last() =~= seg_views(parts@).subrange(0, i as int));
        if i > 0 {
            out.push('/');
        }
        push_all(&mut out, parts[i].as_slice());
        if i == 0 {
            assert(out@ =~= joined(sub));
        } else {
            assert(out@ =~= joined(sub));
        }
        i += 1;
    }
    assert(seg_views(parts@).subrange(0, i as int) =~= seg_views(parts@));
    out
}

/// Resolve a relative href against a base file path.
///
/// e.g. `resolve_book_path("../Images/cover.jpg", "OEBPS/Text/ch1.xhtml")`
///      is `"OEBPS/Images/cover.jpg"`
pub fn resolve_book_path(href: &str, base_path: &str) -> (r: String)
    ensures
        r@ == resolved_path(href@, base_path@),
{
    let parts = split_segments(chars_of(href).as_slice());
    let mut stack = split_segments(chars_of(base_path).as_slice());
    proof {
        lemma_segments_nonempty(base_path@);
    }
    let ghost pv = seg_views(parts@);
    let ghost dir0 = segments(base_path@).drop_last();
    let ghost last = stack@.last();
    stack.pop();
    assert(seg_views(stack@) =~= dir0);
    let dot = vec!['.'];
    let dotdot = vec!['.', '.'];
    let mut i: usize = 0;
    assert(pv.subrange(0, pv.len() as int) =~= pv);
    while i < parts.len()
        invariant
            i <= parts@.len(),
            pv == seg_views(parts@),
            dot@ == seq!['.'],
            dotdot@ == seq!['.', '.'],
            walk(dir0, pv) == walk(seg_views(stack@), pv.subrange(i as int, pv.len() as int)),
        decreases parts@.len() - i,
    {
        let ghost rest = pv.subrange(i as int, pv.len() as int);
        assert(rest.drop_first() =~= pv.subrange(i + 1, pv.len() as int));
        assert(rest[0] == parts@[i as int]@);
        let ghost before = seg_views(stack@);
        if same_chars(parts[i].as_slice(), dot.as_slice()) {
        } else if same_chars(parts[i].as_slice(), dotdot.as_slice()) {
            if stack.len() > 0 {
                stack.pop();
                assert(seg_views(stack@) =~= before.drop_last());
            }
        } else {
            stack.push(copy_chars(parts[i].as_slice()));
            assert(seg_views(stack@) =~= before.push(rest[0]));
        }
        i += 1;
    }
    assert(pv.subrange(i as int, pv.len() as int) =~= Seq::<Seq<char>>::empty());
    let out = join_segments(stack.as_slice());
    string_of(out.as_slice())
}

/// A copy of a character sequence.
fn copy_chars(v: &[char]) -> (r: Vec<char>)
    ensures
        r@ == v@,
{
    let mut r: Vec<char> = Vec::new();
    push_all(&mut r, v);
    r
}

} // verus!
