//! Relative paths as texts with `/` separators, read the way `std::path::Path` reads them on Unix.
use vstd::prelude::*;
use crate::text::slice_of;

verus! {

/// Whether a path segment is an ordinary name (not empty, `.` or `..`).
pub open spec fn is_normal_segment(seg: Seq<char>) -> bool {
    seg.len() > 0 && seg != seq!['.'] && seg != seq!['.', '.']
}

/// Start of the segment that ends at `e`: one past the last `/` before `e`, or 0.
pub open spec fn seg_start(s: Seq<char>, e: int) -> int
    decreases e,
{
    if e <= 0 {
        0
    } else if s[e - 1] == '/' {
        e
    } else {
        seg_start(s, e - 1)
    }
}

/// End of the last component of `s[..e]`, skipping trailing separators and `.` segments.
pub open spec fn last_component_end(s: Seq<char>, e: int) -> Option<int>
    decreases e,
{
    if e <= 0 {
        None
    } else if s[e - 1] == '/' {
        last_component_end(s, e - 1)
    } else if s[e - 1] == '.' && (e == 1 || s[e - 2] == '/') {
        if e == 1 {
            None
        } else {
            last_component_end(s, e - 1)
        }
    } else {
        Some(e)
    }
}

/// The bounds of the last component of `s`, if it has one.
pub open spec fn last_component(s: Seq<char>) -> Option<(int, int)> {
    match last_component_end(s, s.len() as int) {
        None => None,
        Some(e) => Some((seg_start(s, e), e)),
    }
}

/// The bounds of the file name of `s` (`Path::file_name`): the last component unless it is `..`.
pub open spec fn file_name_bounds(s: Seq<char>) -> Option<(int, int)> {
    match last_component(s) {
        None => None,
        Some(r) => if s.subrange(r.0, r.1) == seq!['.', '.'] {
            None
        } else {
            Some(r)
        },
    }
}

/// `Path::file_name`.
pub open spec fn file_name_spec(s: Seq<char>) -> Option<Seq<char>> {
    match file_name_bounds(s) {
        None => None,
        Some(r) => Some(s.subrange(r.0, r.1)),
    }
}

/// Index of the last `.` in `n[..e]`, or -1.
pub open spec fn last_dot(n: Seq<char>, e: int) -> int
    decreases e,
{
    if e <= 0 {
        -1
    } else if n[e - 1] == '.' {
        e - 1
    } else {
        last_dot(n, e - 1)
    }
}

/// Length of the stem of a file name (`Path::file_stem`).
pub open spec fn stem_len(n: Seq<char>) -> int {
    let d = last_dot(n, n.len() as int);
    if d <= 0 {
        n.len() as int
    } else {
        d
    }
}

/// `Path::extension` of a file name.
pub open spec fn extension_of_name(n: Seq<char>) -> Option<Seq<char>> {
    let d = last_dot(n, n.len() as int);
    if d <= 0 {
        None
    } else {
        Some(n.subrange(d + 1, n.len() as int))
    }
}

/// `Path::file_stem`.
pub open spec fn file_stem_spec(s: Seq<char>) -> Option<Seq<char>> {
    match file_name_spec(s) {
        None => None,
        Some(n) => Some(n.subrange(0, stem_len(n))),
    }
}

/// `Path::extension`.
pub open spec fn extension_spec(s: Seq<char>) -> Option<Seq<char>> {
    match file_name_spec(s) {
        None => None,
        Some(n) => extension_of_name(n),
    }
}

proof fn lemma_seg_start(s: Seq<char>, e: int)
    requires
        0 <= e <= s.len(),
    ensures
        0 <= seg_start(s, e) <= e,
        forall|k: int| seg_start(s, e) <= k < e ==> s[k] != '/',
        seg_start(s, e) > 0 ==> s[seg_start(s, e) - 1] == '/',
    decreases e,
{
    if e > 0 && s[e - 1] != '/' {
        lemma_seg_start(s, e - 1);
    }
}

proof fn lemma_last_component_end(s: Seq<char>, e: int)
    requires
        0 <= e <= s.len(),
    ensures
        last_component_end(s, e) matches Some(x) ==> 0 < x <= e && s[x - 1] != '/',
    decreases e,
{
    if e > 0 {
        if s[e - 1] == '/' {
            lemma_last_component_end(s, e - 1);
        } else if s[e - 1] == '.' && (e == 1 || s[e - 2] == '/') {
            if e != 1 {
                lemma_last_component_end(s, e - 1);
            }
        }
    }
}

proof fn lemma_last_dot(n: Seq<char>, e: int)
    requires
        0 <= e <= n.len(),
    ensures
        -1 <= last_dot(n, e) < e,
        last_dot(n, e) >= 0 ==> n[last_dot(n, e)] == '.',
        forall|k: int| last_dot(n, e) < k < e ==> n[k] != '.',
    decreases e,
{
    if e > 0 && n[e - 1] != '.' {
        lemma_last_dot(n, e - 1);
    }
}

/// The bounds of the file name of `v`, if it has one.
pub fn file_name_range(v: &Vec<char>) -> (r: Option<(usize, usize)>)
    ensures
        match r {
            None => file_name_bounds(v@) is None,
            Some(b) => file_name_bounds(v@) == Some((b.0 as int, b.1 as int)) && b.0 <= b.1 <= v.len(),
        },
{
    let mut e: usize = v.len();
    let mut found = false;
    while e > 0 && !found
        invariant
            e <= v.len(),
            last_component_end(v@, v.len() as int) == (if found {
                Some(e as int)
            } else {
                last_component_end(v@, e as int)
            }),
            found ==> e > 0 && last_component_end(v@, e as int) == Some(e as int),
        decreases e + if found { 0int } else { 1int },
    {
        if v[e - 1] == '/' {
            e = e - 1;
        } else if v[e - 1] == '.' && (e == 1 || v[e - 2] == '/') {
            if e == 1 {
                e = 0;
            } else {
                e = e - 1;
            }
        } else {
            found = true;
        }
    }
    if !found {
        assert(last_component_end(v@, 0) is None);
        assert(last_component(v@) is None);
        return None;
    }
    let mut b = e;
    while b > 0 && v[b - 1] != '/'
        invariant
            b <= e <= v.len(),
            seg_start(v@, e as int) == seg_start(v@, b as int),
        decreases b,
    {
        b = b - 1;
    }
    proof {
        lemma_seg_start(v@, e as int);
    }
    assert(seg_start(v@, b as int) == b as int);
    assert(last_component(v@) == Some((b as int, e as int)));
    if e - b == 2 && v[b] == '.' && v[b + 1] == '.' {
        assert(v@.subrange(b as int, e as int) =~= seq!['.', '.']);
        assert(file_name_bounds(v@) is None);
        None
    } else {
        Some((b, e))
    }
}

/// `Path::new(path).file_name()`.
pub fn file_name_of(v: &Vec<char>) -> (r: Option<Vec<char>>)
    ensures
        match r {
            None => file_name_spec(v@) is None,
            Some(n) => file_name_spec(v@) == Some(n@),
        },
{
    match file_name_range(v) {
        None => None,
        Some((b, e)) => Some(slice_of(v, b, e)),
    }
}

/// Index of the last `.` in a file name, if there is one after its first character.
fn split_dot(n: &Vec<char>) -> (r: Option<usize>)
    ensures
        match r {
            None => last_dot(n@, n.len() as int) <= 0,
            Some(d) => last_dot(n@, n.len() as int) == d && 0 < d < n.len(),
        },
{
    proof {
        lemma_last_dot(n@, n.len() as int);
    }
    let mut e = n.len();
    while e > 0 && n[e - 1] != '.'
        invariant
            e <= n.len(),
            last_dot(n@, n.len() as int) == last_dot(n@, e as int),
        decreases e,
    {
        e = e - 1;
    }
    if e <= 1 {
        None
    } else {
        Some(e - 1)
    }
}

/// `Path::new(path).file_stem()`.
pub fn file_stem_of(v: &Vec<char>) -> (r: Option<Vec<char>>)
    ensures
        match r {
            None => file_stem_spec(v@) is None,
            Some(n) => file_stem_spec(v@) == Some(n@),
        },
{
    match file_name_of(v) {
        None => None,
        Some(n) => match split_dot(&n) {
            None => {
                assert(n@.subrange(0, n@.len() as int) =~= n@);
                Some(n)
            },
            Some(d) => Some(slice_of(&n, 0, d)),
        },
    }
}

/// `Path::new(path).extension()`.
pub fn extension_of(v: &Vec<char>) -> (r: Option<Vec<char>>)
    ensures
        match r {
            None => extension_spec(v@) is None,
            Some(x) => extension_spec(v@) == Some(x@),
        },
{
    match file_name_of(v) {
        None => None,
        Some(n) => match split_dot(&n) {
            None => None,
            Some(d) => Some(slice_of(&n, d + 1, n.len())),
        },
    }
}

/// Segments split at `/`, as a left fold: the finished segments and the one being read.
pub open spec fn seg_fold(s: Seq<char>) -> (Seq<Seq<char>>, Seq<char>)
    decreases s.len(),
{
    if s.len() == 0 {
        (seq![], seq![])
    } else {
        let prev = seg_fold(s.drop_last());
        if s.last() == '/' {
            (prev.0.push(prev.1), seq![])
        } else {
            (prev.0, prev.1.push(s.last()))
        }
    }
}

/// All segments of `s` between `/` separators, empty ones included.
pub open spec fn segments(s: Seq<char>) -> Seq<Seq<char>> {
    seg_fold(s).0.push(seg_fold(s).1)
}

/// The `Normal` components of a path (`Path::components` without root, `.` and `..`).
pub open spec fn normal_components(s: Seq<char>) -> Seq<Seq<char>> {
    segments(s).filter(|seg: Seq<char>| is_normal_segment(seg))
}

/// Parts joined with `/`.
pub open spec fn join_slash(parts: Seq<Seq<char>>) -> Seq<char>
    decreases parts.len(),
{
    if parts.len() == 0 {
        seq![]
    } else if parts.len() == 1 {
        parts[0]
    } else {
        join_slash(parts.drop_last()) + seq!['/'] + parts.last()
    }
}

/// The normal components of `s` joined with `/`.
pub open spec fn normalized_spec(s: Seq<char>) -> Seq<char> {
    join_slash(normal_components(s))
}

proof fn lemma_join_push(parts: Seq<Seq<char>>, x: Seq<char>)
    ensures
        join_slash(parts.push(x)) == if parts.len() == 0 {
            x
        } else {
            join_slash(parts) + seq!['/'] + x
        },
{
    assert(parts.push(x).drop_last() =~= parts);
}

fn is_normal_segment_exec(seg: &Vec<char>) -> (r: bool)
    ensures
        r == is_normal_segment(seg@),
{
    if seg.len() == 0 {
        return false;
    }
    if seg.len() == 1 && seg[0] == '.' {
        assert(seg@ =~= seq!['.']);
        return false;
    }
    if seg.len() == 2 && seg[0] == '.' && seg[1] == '.' {
        assert(seg@ =~= seq!['.', '.']);
        return false;
    }
    assert(seg@ != seq!['.']);
    assert(seg@ != seq!['.', '.']);
    true
}

proof fn lemma_filter_push(s: Seq<Seq<char>>, x: Seq<char>)
    ensures
        s.push(x).filter(|seg: Seq<char>| is_normal_segment(seg)) == if is_normal_segment(x) {
            s.filter(|seg: Seq<char>| is_normal_segment(seg)).push(x)
        } else {
            s.filter(|seg: Seq<char>| is_normal_segment(seg))
        },
{
    reveal(Seq::filter);
    assert(s.push(x).drop_last() =~= s);
}

/// The normal components of a path joined with `/` (`normalize_path`, `normalize_relative_path`).
pub fn normalize(v: &Vec<char>) -> (r: Vec<char>)
    ensures
        r@ == normalized_spec(v@),
{
    let mut out: Vec<char> = Vec::new();
    let mut cur: Vec<char> = Vec::new();
    let mut count: usize = 0;
    for i in 0..v.len()
        invariant
            cur@ == seg_fold(v@.take(i as int)).1,
            count <= i,
            count == seg_fold(v@.take(i as int)).0.filter(|seg: Seq<char>| is_normal_segment(seg)).len(),
            out@ == join_slash(seg_fold(v@.take(i as int)).0.filter(|seg: Seq<char>| is_normal_segment(seg))),
    {
        let ghost prev = seg_fold(v@.take(i as int));
        assert(v@.take(i + 1).drop_last() =~= v@.take(i as int));
        if v[i] == '/' {
            proof {
                lemma_filter_push(prev.0, prev.1);
            }
            if is_normal_segment_exec(&cur) {
                proof {
                    lemma_join_push(prev.0.filter(|seg: Seq<char>| is_normal_segment(seg)), prev.1);
                }
                if count > 0 {
                    out.push('/');
                }
                let ghost before = out@;
                for k in 0..cur.len()
                    invariant
                        out@ == before + cur@.take(k as int),
                {
                    out.push(cur[k]);
                    assert(cur@.take(k + 1) == cur@.take(k as int).push(cur@[k as int]));
                }
                assert(cur@.take(cur.len() as int) =~= cur@);
                if count > 0 {
                    assert(out@ =~= join_slash(prev.0.filter(|seg: Seq<char>| is_normal_segment(seg))) + seq!['/'] + prev.1);
                } else {
                    assert(out@ =~= prev.1);
                }
                count = count + 1;
            }
            cur = Vec::new();
        } else {
            cur.push(v[i]);
        }
    }
    assert(v@.take(v.len() as int) =~= v@);
    let ghost last = seg_fold(v@);
    proof {
        lemma_filter_push(last.0, last.1);
    }
    if is_normal_segment_exec(&cur) {
        proof {
            lemma_join_push(last.0.filter(|seg: Seq<char>| is_normal_segment(seg)), last.1);
        }
        if count > 0 {
            out.push('/');
        }
        let ghost before = out@;
        for k in 0..cur.len()
            invariant
                out@ == before + cur@.take(k as int),
        {
            out.push(cur[k]);
            assert(cur@.take(k + 1) == cur@.take(k as int).push(cur@[k as int]));
        }
        assert(cur@.take(cur.len() as int) =~= cur@);
        if count > 0 {
            assert(out@ =~= join_slash(last.0.filter(|seg: Seq<char>| is_normal_segment(seg))) + seq!['/'] + last.1);
        } else {
            assert(out@ =~= last.1);
        }
    }
    out
}


/// `s[i..i + 2]` is a `..` segment.
pub open spec fn dotdot_at(s: Seq<char>, i: int) -> bool {
    &&& 0 <= i
    &&& i + 2 <= s.len()
    &&& s[i] == '.'
    &&& s[i + 1] == '.'
    &&& (i == 0 || s[i - 1] == '/')
    &&& (i + 2 == s.len() || s[i + 2] == '/')
}

/// A path that stays below the directory it is joined to: not absolute, not starting with `.`,
/// and without a `..` segment (every component of `Path::components` is `Normal`).
pub open spec fn is_valid_relative(s: Seq<char>) -> bool {
    &&& !(s.len() > 0 && s[0] == '/')
    &&& !(s =~= seq!['.'] || (s.len() >= 2 && s[0] == '.' && s[1] == '/'))
    &&& forall|i: int| !dotdot_at(s, i)
}

/// Checks that `relative` is a valid project-relative path and hands it back.
pub fn relative_path(relative: &str) -> (r: Result<String, String>)
    ensures
        match r {
            Ok(p) => is_valid_relative(relative@) && p@ == relative@,
            Err(_) => !is_valid_relative(relative@),
        },
{
    let v = crate::text::chars_of(relative);
    let n = v.len();
    let invalid = "A project-relative path is invalid.";
    if n > 0 && v[0] == '/' {
        return Err(crate::text::owned(invalid));
    }
    if (n == 1 && v[0] == '.') || (n >= 2 && v[0] == '.' && v[1] == '/') {
        assert(n == 1 ==> v@ =~= seq!['.']);
        return Err(crate::text::owned(invalid));
    }
    assert(!(v@ =~= seq!['.'])) by {
        if v@ =~= seq!['.'] {
            assert(v@[0] == '.');
        }
    }
    for i in 0..n
        invariant
            n == v.len(),
            v@ == relative@,
            forall|k: int| 0 <= k < i ==> !dotdot_at(v@, k),
    {
        if i + 1 < n && v[i] == '.' && v[i + 1] == '.' && (i == 0 || v[i - 1] == '/') && (i + 2
            == n || v[i + 2] == '/') {
            assert(dotdot_at(v@, i as int));
            return Err(crate::text::owned(invalid));
        }
    }
    assert forall|i: int| !dotdot_at(v@, i) by {
        if 0 <= i < n {
        }
    }
    Ok(crate::text::owned(relative))
}

/// The longest prefix of `s` that takes at most `n` bytes in UTF-8.
pub open spec fn byte_prefix(s: Seq<char>, n: int) -> Seq<char>
    decreases s.len(),
{
    if s.len() == 0 || n < crate::detection::char_utf8_len(s[0]) {
        seq![]
    } else {
        seq![s[0]] + byte_prefix(s.drop_first(), n - crate::detection::char_utf8_len(s[0]))
    }
}

/// Whether `&s[..min(n, s.len())]` falls on a character boundary, so that slicing does not panic.
pub open spec fn prefix_on_boundary(s: Seq<char>, n: int) -> bool {
    crate::detection::utf8_len(byte_prefix(s, n)) == if crate::detection::utf8_len(s) < n {
        crate::detection::utf8_len(s)
    } else {
        n
    }
}

proof fn lemma_byte_prefix_step(s: Seq<char>, n: int, i: int)
    requires
        0 <= i < s.len(),
        n >= 0,
    ensures
        byte_prefix(s.subrange(i, s.len() as int), n) == if n < crate::detection::char_utf8_len(s[i]) {
            seq![]
        } else {
            seq![s[i]] + byte_prefix(
                s.subrange(i + 1, s.len() as int),
                n - crate::detection::char_utf8_len(s[i]),
            )
        },
{
    assert(s.subrange(i, s.len() as int).drop_first() =~= s.subrange(i + 1, s.len() as int));
}

/// `&s[..min(n, s.len())]`: the first `n` bytes of `s`, as whole characters.
pub fn prefix_bytes(s: &str, n: usize) -> (r: String)
    ensures
        r@ == byte_prefix(s@, n as int),
{
    let v = crate::text::chars_of(s);
    let mut out = String::new();
    let mut i: usize = 0;
    let mut left: usize = n;
    assert(v@.subrange(0, v@.len() as int) =~= v@);
    while i < v.len()
        invariant
            i <= v.len(),
            v@ == s@,
            out@ + byte_prefix(v@.subrange(i as int, v@.len() as int), left as int) == byte_prefix(
                v@,
                n as int,
            ),
        decreases v.len() - i,
    {
        let c = v[i];
        let x = c as u32;
        let w: usize = if x < 0x80 {
            1
        } else if x < 0x800 {
            2
        } else if x < 0x10000 {
            3
        } else {
            4
        };
        proof {
            lemma_byte_prefix_step(v@, left as int, i as int);
        }
        if left < w {
            assert(out@ + seq![] =~= out@);
            return out;
        }
        assert(w == crate::detection::char_utf8_len(c));
        let ghost before = out@;
        let ghost rest = byte_prefix(v@.subrange(i + 1, v@.len() as int), (left - w) as int);
        out.push(c);
        assert(out@ + rest =~= before + (seq![c] + rest));
        left = left - w;
        i = i + 1;
    }
    assert(v@.subrange(i as int, v@.len() as int) =~= Seq::<char>::empty());
    assert(out@ + seq![] =~= out@);
    out
}


/// The texts of a list of character vectors.
pub open spec fn views(parts: Seq<Vec<char>>) -> Seq<Seq<char>> {
    parts.map_values(|c: Vec<char>| c@)
}

/// The `Normal` components of a path, each as its characters.
pub fn components_of(v: &Vec<char>) -> (r: Vec<Vec<char>>)
    ensures
        views(r@) == normal_components(v@),
{
    let mut out: Vec<Vec<char>> = Vec::new();
    let mut cur: Vec<char> = Vec::new();
    for i in 0..v.len()
        invariant
            cur@ == seg_fold(v@.take(i as int)).1,
            views(out@) == seg_fold(v@.take(i as int)).0.filter(|seg: Seq<char>| is_normal_segment(seg)),
    {
        let ghost prev = seg_fold(v@.take(i as int));
        assert(v@.take(i + 1).drop_last() =~= v@.take(i as int));
        if v[i] == '/' {
            proof {
                lemma_filter_push(prev.0, prev.1);
            }
            if is_normal_segment_exec(&cur) {
                let ghost before = out@;
                out.push(cur);
                assert(views(out@) =~= views(before).push(prev.1));
            }
            cur = Vec::new();
        } else {
            cur.push(v[i]);
        }
    }
    assert(v@.take(v.len() as int) =~= v@);
    let ghost last = seg_fold(v@);
    proof {
        lemma_filter_push(last.0, last.1);
    }
    if is_normal_segment_exec(&cur) {
        let ghost before = out@;
        out.push(cur);
        assert(views(out@) =~= views(before).push(last.1));
    }
    out
}

/// `parts` joined with `/`.
pub fn join_parts(parts: &Vec<Vec<char>>) -> (r: Vec<char>)
    ensures
        r@ == join_slash(views(parts@)),
{
    let mut out: Vec<char> = Vec::new();
    for i in 0..parts.len()
        invariant
            out@ == join_slash(views(parts@.take(i as int))),
    {
        proof {
            lemma_join_push(views(parts@.take(i as int)), parts@[i as int]@);
        }
        assert(views(parts@.take(i + 1)) =~= views(parts@.take(i as int)).push(parts@[i as int]@));
        if i > 0 {
            out.push('/');
        }
        let ghost before = out@;
        let part = &parts[i];
        for k in 0..part.len()
            invariant
                out@ == before + part@.take(k as int),
        {
            out.push(part[k]);
            assert(part@.take(k + 1) == part@.take(k as int).push(part@[k as int]));
        }
        assert(part@.take(part.len() as int) =~= part@);
        if i > 0 {
            assert(out@ =~= join_slash(views(parts@.take(i as int))) + seq!['/'] + part@);
        } else {
            assert(views(parts@.take(0)) =~= Seq::<Seq<char>>::empty());
            assert(out@ =~= part@);
        }
    }
    assert(parts@.take(parts.len() as int) =~= parts@);
    out
}

/// The path of `name` in the directory of `path`: the normal components of `path` but the last,
/// then `name`, joined with `/` (`path.parent().join(name)`).
pub open spec fn sibling_path(path: Seq<char>, name: Seq<char>) -> Seq<char> {
    let comps = normal_components(path);
    let parent = if comps.len() > 0 {
        comps.drop_last()
    } else {
        comps
    };
    join_slash(parent.push(name))
}

/// The path of `name` in the directory of `path`.
pub fn sibling_of(path: &Vec<char>, name: Vec<char>) -> (r: Vec<char>)
    ensures
        r@ == sibling_path(path@, name@),
{
    let mut comps = components_of(path);
    let ghost all = views(comps@);
    if comps.len() > 0 {
        comps.pop();
        assert(views(comps@) =~= all.drop_last());
    }
    let ghost parent = views(comps@);
    comps.push(name);
    assert(views(comps@) =~= parent.push(name@));
    join_parts(&comps)
}

/// The name `{stem}{suffix}.{extension}` made from the file name of `path`, without the dot where
/// it has no extension; the stem is `image` where it has no file name.
pub open spec fn suffixed_name(path: Seq<char>, suffix: Seq<char>) -> Seq<char> {
    let stem = match file_stem_spec(path) {
        Some(s) => s,
        None => seq!['i', 'm', 'a', 'g', 'e'],
    };
    match extension_spec(path) {
        Some(e) => stem + suffix + seq!['.'] + e,
        None => stem + suffix,
    }
}

fn append(out: &mut Vec<char>, more: &Vec<char>)
    ensures
        final(out)@ == old(out)@ + more@,
{
    let ghost start = out@;
    for k in 0..more.len()
        invariant
            out@ == start + more@.take(k as int),
    {
        out.push(more[k]);
        assert(more@.take(k + 1) == more@.take(k as int).push(more@[k as int]));
    }
    assert(more@.take(more.len() as int) =~= more@);
}

/// The name `{stem}{suffix}.{extension}` for the file name of `path`.
pub fn suffixed_name_of(path: &Vec<char>, suffix: &Vec<char>) -> (r: Vec<char>)
    ensures
        r@ == suffixed_name(path@, suffix@),
{
    let mut out = match file_stem_of(path) {
        Some(s) => s,
        None => {
            let mut d: Vec<char> = Vec::new();
            d.push('i');
            d.push('m');
            d.push('a');
            d.push('g');
            d.push('e');
            assert(d@ =~= seq!['i', 'm', 'a', 'g', 'e']);
            d
        },
    };
    append(&mut out, suffix);
    match extension_of(path) {
        Some(e) => {
            out.push('.');
            append(&mut out, &e);
        },
        None => {},
    }
    out
}


/// `s` with each `\\` replaced by `/`.
pub open spec fn forward_slashes(s: Seq<char>) -> Seq<char> {
    s.map_values(|c: char| if c == '\\' { '/' } else { c })
}

/// `s` with each `\\` replaced by `/`.
pub fn to_forward_slashes(v: &Vec<char>) -> (r: Vec<char>)
    ensures
        r@ == forward_slashes(v@),
{
    let mut out: Vec<char> = Vec::new();
    for i in 0..v.len()
        invariant
            out@ == forward_slashes(v@.take(i as int)),
    {
        let c = if v[i] == '\\' { '/' } else { v[i] };
        out.push(c);
        assert(forward_slashes(v@.take(i + 1)) =~= forward_slashes(v@.take(i as int)).push(c));
    }
    assert(v@.take(v.len() as int) =~= v@);
    out
}

/// `PathBuf::set_extension(path, "txt")` read back with `/` separators: the path cut after the
/// stem of its file name, then `.txt`; a path without a file name stays as it is.
pub open spec fn with_txt_spec(s: Seq<char>) -> Seq<char> {
    forward_slashes(
        match file_name_bounds(s) {
            Some(b) => s.subrange(0, b.0 + stem_len(s.subrange(b.0, b.1))) + seq!['.', 't', 'x', 't'],
            None => s,
        },
    )
}

/// The label file path of an image path.
pub fn with_txt_extension(relative: &str) -> (r: String)
    ensures
        r@ == with_txt_spec(relative@),
{
    let v = crate::text::chars_of(relative);
    let cut: Vec<char> = match file_name_range(&v) {
        None => v,
        Some((b, e)) => {
            let name = slice_of(&v, b, e);
            let stem = match split_dot(&name) {
                Some(d) => d,
                None => name.len(),
            };
            assert(stem == stem_len(name@));
            let mut out = slice_of(&v, 0, b + stem);
            assert(v@.subrange(0, b + stem) =~= v@.subrange(0, b as int + stem_len(v@.subrange(b as int, e as int))));
            out.push('.');
            out.push('t');
            out.push('x');
            out.push('t');
            out
        },
    };
    crate::text::string_of(&to_forward_slashes(&cut))
}

} // verus!
