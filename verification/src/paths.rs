//! Unix path arithmetic on character sequences: joining, the final
//! component, and its extension, with the meaning `std::path` gives them.

use vstd::prelude::*;
use crate::text::{chars_of, lemma_split_on_nonempty, same_chars, slice_chars, split_chars, split_on, views};

verus! {

/// `PathBuf::join` on Unix: an absolute `part` replaces `base`; otherwise a
/// `/` is inserted unless `base` is empty or already ends with one.
pub open spec fn path_join(base: Seq<char>, part: Seq<char>) -> Seq<char> {
    if part.len() > 0 && part[0] == '/' {
        part
    } else if base.len() == 0 || base.last() == '/' {
        base + part
    } else {
        base + seq!['/'] + part
    }
}

/// `PathBuf::join` on Unix.
pub fn join(base: &Vec<char>, part: &Vec<char>) -> (out: Vec<char>)
    ensures
        out@ == path_join(base@, part@),
{
    if part.len() > 0 && part[0] == '/' {
        return slice_chars(part, 0, part.len());
    }
    let mut out = slice_chars(base, 0, base.len());
    assert(out@ =~= base@);
    if base.len() > 0 && base[base.len() - 1] != '/' {
        out.push('/');
    }
    let ghost head = out@;
    let n = part.len();
    for i in 0..n
        invariant
            n == part.len(),
            out@ == head + part@.take(i as int),
    {
        out.push(part[i]);
        assert(head + part@.take(i + 1) =~= (head + part@.take(i as int)).push(part@[i as int]));
    }
    assert(part@.take(n as int) =~= part@);
    out
}

/// The last component that is neither empty nor `.`, scanning `segments`
/// from the end.
pub open spec fn last_component(segments: Seq<Seq<char>>) -> Option<Seq<char>>
    decreases segments.len(),
{
    if segments.len() == 0 {
        None
    } else if segments.last().len() == 0 || segments.last() == seq!['.'] {
        last_component(segments.drop_last())
    } else {
        Some(segments.last())
    }
}

/// `Path::file_name` on Unix: the final normal component; `None` when the
/// path ends in `..` or has no normal component (`/`, `.`, the empty path).
pub open spec fn file_name(p: Seq<char>) -> Option<Seq<char>> {
    match last_component(split_on(p, '/')) {
        Some(c) => if c == seq!['.', '.'] {
            None
        } else {
            Some(c)
        },
        None => None,
    }
}

/// Index of the last `c` in `s`.
pub open spec fn last_index_of(s: Seq<char>, c: char) -> Option<int>
    decreases s.len(),
{
    if s.len() == 0 {
        None
    } else if s.last() == c {
        Some(s.len() - 1)
    } else {
        last_index_of(s.drop_last(), c)
    }
}

/// `Path::extension`: the part of the file name after its last `.`; none
/// when the name has no `.` or its only `.` is the first character.
pub open spec fn extension(p: Seq<char>) -> Option<Seq<char>> {
    match file_name(p) {
        Some(f) => match last_index_of(f, '.') {
            Some(i) => if i == 0 {
                None
            } else {
                Some(f.skip(i + 1))
            },
            None => None,
        },
        None => None,
    }
}

proof fn lemma_last_component_take(segs: Seq<Seq<char>>, k: int)
    requires
        0 <= k <= segs.len(),
        forall|j: int|
            k <= j < segs.len() ==> (#[trigger] segs[j]).len() == 0 || segs[j] == seq!['.'],
    ensures
        last_component(segs) == last_component(segs.take(k)),
    decreases segs.len() - k,
{
    if k < segs.len() {
        lemma_last_component_take(segs, k + 1);
        assert(segs.take(k + 1).drop_last() =~= segs.take(k));
    } else {
        assert(segs.take(k) =~= segs);
    }
}

fn is_dot(v: &Vec<char>) -> (b: bool)
    ensures
        b == (v@ == seq!['.']),
{
    if v.len() == 1 && v[0] == '.' {
        assert(v@ =~= seq!['.']);
        true
    } else {
        false
    }
}

/// `Path::file_name` on Unix.
pub fn file_name_of(p: &Vec<char>) -> (r: Option<Vec<char>>)
    ensures
        match r {
            Some(v) => file_name(p@) == Some(v@),
            None => file_name(p@) is None,
        },
{
    let segs = split_chars(p, '/');
    let ghost sv = views(segs@);
    let mut k = segs.len();
    while k > 0 && (segs[k - 1].len() == 0 || is_dot(&segs[k - 1]))
        invariant
            k <= segs.len(),
            sv == views(segs@),
            forall|j: int|
                k <= j < sv.len() ==> (#[trigger] sv[j]).len() == 0 || sv[j] == seq!['.'],
        decreases k,
    {
        k = k - 1;
    }
    proof {
        lemma_last_component_take(sv, k as int);
    }
    if k == 0 {
        return None;
    }
    proof {
        assert(sv.take(k as int).last() == segs@[k - 1]@);
    }
    let last = &segs[k - 1];
    if last.len() == 2 && last[0] == '.' && last[1] == '.' {
        assert(last@ =~= seq!['.', '.']);
        None
    } else {
        Some(slice_chars(last, 0, last.len()))
    }
}

/// Index of the last `c` in `v`.
fn last_index(v: &Vec<char>, c: char) -> (r: Option<usize>)
    ensures
        match r {
            Some(i) => last_index_of(v@, c) == Some(i as int),
            None => last_index_of(v@, c) is None,
        },
        r matches Some(i) ==> i < v.len(),
{
    let mut k = v.len();
    assert(v@.take(k as int) =~= v@);
    while k > 0 && v[k - 1] != c
        invariant
            k <= v.len(),
            last_index_of(v@, c) == last_index_of(v@.take(k as int), c),
        decreases k,
    {
        assert(v@.take(k as int).drop_last() =~= v@.take(k - 1));
        k = k - 1;
    }
    if k == 0 {
        None
    } else {
        Some(k - 1)
    }
}

/// `Path::extension`.
pub fn extension_of(p: &Vec<char>) -> (r: Option<Vec<char>>)
    ensures
        match r {
            Some(v) => extension(p@) == Some(v@),
            None => extension(p@) is None,
        },
{
    match file_name_of(p) {
        None => None,
        Some(f) => match last_index(&f, '.') {
            None => None,
            Some(i) => if i == 0 {
                None
            } else {
                Some(slice_chars(&f, i + 1, f.len()))
            },
        },
    }
}

/// A piece between slashes that names a component: neither empty nor `.`.
pub open spec fn is_named_segment(s: Seq<char>) -> bool {
    s.len() > 0 && s != seq!['.']
}

/// The pieces of `segs` that name a component, in order.
pub open spec fn named_segments(segs: Seq<Seq<char>>) -> Seq<Seq<char>>
    decreases segs.len(),
{
    if segs.len() == 0 {
        Seq::empty()
    } else if is_named_segment(segs.last()) {
        named_segments(segs.drop_last()).push(segs.last())
    } else {
        named_segments(segs.drop_last())
    }
}

/// `Path::components` on Unix: the root, written `/`, when the path starts
/// with a slash; else `.` when the path is `.` or starts with `./`; then
/// every piece between slashes that is neither empty nor `.`. Repeated
/// slashes, a trailing slash and inner `.` pieces leave no trace.
pub open spec fn path_components(p: Seq<char>) -> Seq<Seq<char>> {
    let segs = split_on(p, '/');
    let head: Seq<Seq<char>> = if p.len() > 0 && p[0] == '/' {
        seq![seq!['/']]
    } else if segs[0] == seq!['.'] {
        seq![seq!['.']]
    } else {
        Seq::empty()
    };
    head + named_segments(segs)
}

/// Two paths are the same path, as `Path` compares them: they have the same
/// components.
pub open spec fn same_path(a: Seq<char>, b: Seq<char>) -> bool {
    path_components(a) == path_components(b)
}

/// `Path::components` on Unix, each component as characters.
pub fn components_of(p: &Vec<char>) -> (out: Vec<Vec<char>>)
    ensures
        views(out@) == path_components(p@),
{
    let segs = split_chars(p, '/');
    let ghost sv = views(segs@);
    proof {
        lemma_split_on_nonempty(p@, '/');
    }
    let mut out: Vec<Vec<char>> = Vec::new();
    if p.len() > 0 && p[0] == '/' {
        let mut root: Vec<char> = Vec::new();
        root.push('/');
        out.push(root);
        assert(views(out@) =~= seq![seq!['/']]);
    } else if is_dot(&segs[0]) {
        let mut dot: Vec<char> = Vec::new();
        dot.push('.');
        out.push(dot);
        assert(views(out@) =~= seq![seq!['.']]);
    } else {
        assert(views(out@) =~= Seq::<Seq<char>>::empty());
    }
    let ghost head = views(out@);
    assert(head + named_segments(sv.take(0)) =~= head);
    let n = segs.len();
    for i in 0..n
        invariant
            n == segs.len(),
            sv == views(segs@),
            views(out@) == head + named_segments(sv.take(i as int)),
    {
        assert(sv.take(i + 1).drop_last() =~= sv.take(i as int));
        assert(sv.take(i + 1).last() == segs@[i as int]@);
        if segs[i].len() > 0 && !is_dot(&segs[i]) {
            let ghost before = views(out@);
            let piece = slice_chars(&segs[i], 0, segs[i].len());
            assert(piece@ =~= segs@[i as int]@);
            out.push(piece);
            assert(views(out@) =~= before.push(piece@));
            assert(views(out@) =~= head + named_segments(sv.take(i + 1)));
        }
    }
    assert(sv.take(n as int) =~= sv);
    out
}

/// Whether two component lists are equal.
pub fn same_components(a: &Vec<Vec<char>>, b: &Vec<Vec<char>>) -> (r: bool)
    ensures
        r == (views(a@) == views(b@)),
{
    if a.len() != b.len() {
        assert(views(a@).len() != views(b@).len());
        return false;
    }
    let n = a.len();
    for i in 0..n
        invariant
            n == a.len() == b.len(),
            forall|k: int| 0 <= k < i ==> views(a@)[k] == views(b@)[k],
    {
        if !same_chars(&a[i], &b[i]) {
            assert(views(a@)[i as int] != views(b@)[i as int]);
            return false;
        }
    }
    assert(views(a@) =~= views(b@));
    true
}

/// Whether `a` and `b` are the same path (`Path`'s `==`).
pub fn same_path_chars(a: &Vec<char>, b: &Vec<char>) -> (r: bool)
    ensures
        r == same_path(a@, b@),
{
    if same_chars(a, b) {
        return true;
    }
    same_components(&components_of(a), &components_of(b))
}

/// Whether `a` and `b` are the same path (`Path`'s `==`).
pub fn same_path_str(a: &str, b: &str) -> (r: bool)
    ensures
        r == same_path(a@, b@),
{
    same_path_chars(&chars_of(a), &chars_of(b))
}

/// Characters after the last `c` do not move it.
pub proof fn lemma_last_index_append(a: Seq<char>, b: Seq<char>, c: char)
    requires
        !b.contains(c),
    ensures
        last_index_of(a + b, c) == last_index_of(a, c),
    decreases b.len(),
{
    if b.len() == 0 {
        assert(a + b =~= a);
    } else {
        assert(b[b.len() - 1] != c);
        assert(!b.drop_last().contains(c)) by {
            if b.drop_last().contains(c) {
                let k = choose|k: int| 0 <= k < b.drop_last().len() && b.drop_last()[k] == c;
                assert(b[k] == c);
            }
        }
        lemma_last_index_append(a, b.drop_last(), c);
        assert((a + b).drop_last() =~= a + b.drop_last());
        assert((a + b).last() == b.last());
    }
}

} // verus!
