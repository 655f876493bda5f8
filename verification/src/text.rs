use vstd::prelude::*;

verus! {

/// `String::push` appends the character `ch` to `s`, as its documentation states.
pub assume_specification[ String::push ](s: &mut String, ch: char)
    ensures
        final(s)@ == old(s)@.push(ch),
;

/// The characters of `s`, in order.
pub fn chars_of(s: &str) -> (v: Vec<char>)
    ensures
        v@ == s@,
{
    let mut v: Vec<char> = Vec::new();
    for c in it: s.chars()
        invariant
            v@ == it.seq().take(it.index() as int),
            it.seq() == s@,
    {
        v.push(c);
    }
    v
}

/// A `String` holding the characters `v`.
pub fn string_of(v: &Vec<char>) -> (s: String)
    ensures
        s@ == v@,
{
    let mut s = String::new();
    for i in 0..v.len()
        invariant
            s@ == v@.take(i as int),
    {
        s.push(v[i]);
        assert(v@.take(i + 1) == v@.take(i as int).push(v@[i as int]));
    }
    assert(v@.take(v.len() as int) == v@);
    s
}

/// A `String` holding the characters `v[from..to]`.
pub fn string_of_range(v: &Vec<char>, from: usize, to: usize) -> (s: String)
    requires
        from <= to <= v.len(),
    ensures
        s@ == v@.subrange(from as int, to as int),
{
    let mut s = String::new();
    let mut i = from;
    while i < to
        invariant
            from <= i <= to <= v.len(),
            s@ == v@.subrange(from as int, i as int),
        decreases to - i,
    {
        s.push(v[i]);
        assert(v@.subrange(from as int, i + 1) == v@.subrange(from as int, i as int).push(
            v@[i as int],
        ));
        i = i + 1;
    }
    s
}

/// Appends the characters of `t` to `s`.
pub fn push_all(s: &mut String, t: &str)
    ensures
        final(s)@ == old(s)@ + t@,
{
    let cs = chars_of(t);
    let ghost start = s@;
    for i in 0..cs.len()
        invariant
            cs@ == t@,
            s@ == start + cs@.take(i as int),
    {
        s.push(cs[i]);
        assert(cs@.take(i + 1) == cs@.take(i as int).push(cs@[i as int]));
    }
    assert(cs@.take(cs.len() as int) == cs@);
}

/// The owned text of `s`.
pub fn owned(s: &str) -> (r: String)
    ensures
        r@ == s@,
{
    s.to_owned()
}

/// `char::is_whitespace`: the Unicode `White_Space` property.
pub open spec fn is_whitespace_spec(c: char) -> bool {
    let n = c as u32;
    (0x9 <= n <= 0xd) || n == 0x20 || n == 0x85 || n == 0xa0 || n == 0x1680 || (0x2000 <= n
        <= 0x200a) || n == 0x2028 || n == 0x2029 || n == 0x202f || n == 0x205f || n == 0x3000
}

/// Whether `c` is Unicode whitespace.
pub fn is_whitespace(c: char) -> (r: bool)
    ensures
        r == is_whitespace_spec(c),
{
    let n = c as u32;
    (0x9 <= n && n <= 0xd) || n == 0x20 || n == 0x85 || n == 0xa0 || n == 0x1680 || (0x2000 <= n
        && n <= 0x200a) || n == 0x2028 || n == 0x2029 || n == 0x202f || n == 0x205f || n == 0x3000
}

/// `char::is_control`: the general category `Cc`.
pub open spec fn is_control_spec(c: char) -> bool {
    let n = c as u32;
    n <= 0x1f || (0x7f <= n <= 0x9f)
}

/// Whether `c` is a control character.
pub fn is_control(c: char) -> (r: bool)
    ensures
        r == is_control_spec(c),
{
    let n = c as u32;
    n <= 0x1f || (0x7f <= n && n <= 0x9f)
}

/// The characters that a trim removes.
#[derive(Clone, Copy)]
pub enum TrimSet {
    Whitespace,
    Dot,
}

pub open spec fn trims(set: TrimSet, c: char) -> bool {
    match set {
        TrimSet::Whitespace => is_whitespace_spec(c),
        TrimSet::Dot => c == '.',
    }
}

fn trims_exec(set: TrimSet, c: char) -> (r: bool)
    ensures
        r == trims(set, c),
{
    match set {
        TrimSet::Whitespace => is_whitespace(c),
        TrimSet::Dot => c == '.',
    }
}

/// `s` without its leading characters of `set`.
pub open spec fn trim_start_spec(s: Seq<char>, set: TrimSet) -> Seq<char>
    decreases s.len(),
{
    if s.len() > 0 && trims(set, s[0]) {
        trim_start_spec(s.drop_first(), set)
    } else {
        s
    }
}

/// `s` without its trailing characters of `set`.
pub open spec fn trim_end_spec(s: Seq<char>, set: TrimSet) -> Seq<char>
    decreases s.len(),
{
    if s.len() > 0 && trims(set, s.last()) {
        trim_end_spec(s.drop_last(), set)
    } else {
        s
    }
}

/// `s` without leading and trailing characters of `set` (`str::trim`, `str::trim_matches`).
pub open spec fn trim_spec(s: Seq<char>, set: TrimSet) -> Seq<char> {
    trim_end_spec(trim_start_spec(s, set), set)
}

/// `str::trim` on a sequence of characters.
pub open spec fn trimmed(s: Seq<char>) -> Seq<char> {
    trim_spec(s, TrimSet::Whitespace)
}

proof fn lemma_trim_start_step(s: Seq<char>, set: TrimSet, i: int)
    requires
        0 <= i < s.len(),
        trims(set, s[i]),
    ensures
        trim_start_spec(s.subrange(i, s.len() as int), set) == trim_start_spec(
            s.subrange(i + 1, s.len() as int),
            set,
        ),
{
    assert(s.subrange(i, s.len() as int).drop_first() =~= s.subrange(i + 1, s.len() as int));
}

proof fn lemma_trim_end_step(s: Seq<char>, set: TrimSet, j: int)
    requires
        0 < j <= s.len(),
        trims(set, s[j - 1]),
    ensures
        trim_end_spec(s.subrange(0, j), set) == trim_end_spec(s.subrange(0, j - 1), set),
{
    assert(s.subrange(0, j).drop_last() =~= s.subrange(0, j - 1));
}

/// The bounds `lo..hi` of `v` once the characters of `set` are trimmed from both ends.
pub fn trim_bounds(v: &Vec<char>, set: TrimSet) -> (r: (usize, usize))
    ensures
        r.0 <= r.1 <= v.len(),
        v@.subrange(r.0 as int, r.1 as int) == trim_spec(v@, set),
{
    let n = v.len();
    let mut lo: usize = 0;
    assert(v@.subrange(0, n as int) =~= v@);
    while lo < n && trims_exec(set, v[lo])
        invariant
            lo <= n == v.len(),
            trim_start_spec(v@, set) == trim_start_spec(v@.subrange(lo as int, n as int), set),
        decreases n - lo,
    {
        proof {
            lemma_trim_start_step(v@, set, lo as int);
        }
        lo = lo + 1;
    }
    let ghost rest = v@.subrange(lo as int, n as int);
    assert(trim_start_spec(rest, set) == rest);
    let mut hi: usize = n;
    assert(rest.subrange(0, (hi - lo) as int) =~= rest);
    while hi > lo && trims_exec(set, v[hi - 1])
        invariant
            lo <= hi <= n == v.len(),
            rest == v@.subrange(lo as int, n as int),
            trim_end_spec(rest, set) == trim_end_spec(rest.subrange(0, (hi - lo) as int), set),
        decreases hi,
    {
        proof {
            lemma_trim_end_step(rest, set, (hi - lo) as int);
        }
        hi = hi - 1;
    }
    let ghost kept = rest.subrange(0, (hi - lo) as int);
    assert(kept =~= v@.subrange(lo as int, hi as int));
    assert(trim_end_spec(kept, set) == kept);
    (lo, hi)
}

/// `s.trim()` on a sequence of characters.
pub fn trim_chars(v: &Vec<char>) -> (r: Vec<char>)
    ensures
        r@ == trimmed(v@),
{
    let (lo, hi) = trim_bounds(v, TrimSet::Whitespace);
    slice_of(v, lo, hi)
}

/// The characters `v[from..to]`.
pub fn slice_of(v: &Vec<char>, from: usize, to: usize) -> (r: Vec<char>)
    requires
        from <= to <= v.len(),
    ensures
        r@ == v@.subrange(from as int, to as int),
{
    let mut r: Vec<char> = Vec::new();
    let mut i = from;
    while i < to
        invariant
            from <= i <= to <= v.len(),
            r@ == v@.subrange(from as int, i as int),
        decreases to - i,
    {
        r.push(v[i]);
        assert(v@.subrange(from as int, i + 1) == v@.subrange(from as int, i as int).push(
            v@[i as int],
        ));
        i = i + 1;
    }
    r
}

/// `s.trim()`.
pub fn trim(s: &str) -> (r: String)
    ensures
        r@ == trimmed(s@),
{
    let v = chars_of(s);
    let (lo, hi) = trim_bounds(&v, TrimSet::Whitespace);
    string_of_range(&v, lo, hi)
}

/// ASCII lower case of one character.
pub open spec fn ascii_lower_spec(c: char) -> char {
    if 'A' <= c <= 'Z' {
        ((c as u32) + 32) as char
    } else {
        c
    }
}

/// ASCII lower case of one character.
pub fn ascii_lower(c: char) -> (r: char)
    ensures
        r == ascii_lower_spec(c),
{
    if 'A' <= c && c <= 'Z' {
        let b = c as u8;
        ((b + 32) as char)
    } else {
        c
    }
}

/// Whether two texts are equal when ASCII letters are compared without case
/// (`str::eq_ignore_ascii_case`, and SQLite's `NOCASE` collation).
pub open spec fn eq_ignore_ascii_case_spec(a: Seq<char>, b: Seq<char>) -> bool {
    a.len() == b.len() && forall|i: int| 0 <= i < a.len() ==> ascii_lower_spec(a[i]) == ascii_lower_spec(b[i])
}

/// `str::eq_ignore_ascii_case`.
pub fn eq_ignore_ascii_case(a: &Vec<char>, b: &Vec<char>) -> (r: bool)
    ensures
        r == eq_ignore_ascii_case_spec(a@, b@),
{
    if a.len() != b.len() {
        return false;
    }
    let mut i: usize = 0;
    while i < a.len()
        invariant
            a.len() == b.len(),
            i <= a.len(),
            forall|k: int| 0 <= k < i ==> ascii_lower_spec(a@[k]) == ascii_lower_spec(b@[k]),
        decreases a.len() - i,
    {
        let x = a[i];
        let y = b[i];
        let lx = ascii_lower(x);
        let ly = ascii_lower(y);
        if lx != ly {
            return false;
        }
        i = i + 1;
    }
    true
}

/// ASCII lower case of a text (`str::to_ascii_lowercase`).
pub open spec fn ascii_lowercase_spec(s: Seq<char>) -> Seq<char> {
    s.map_values(|c: char| ascii_lower_spec(c))
}

/// `str::to_ascii_lowercase` on characters.
pub fn ascii_lowercase(v: &Vec<char>) -> (r: Vec<char>)
    ensures
        r@ == ascii_lowercase_spec(v@),
{
    let mut r: Vec<char> = Vec::new();
    for i in 0..v.len()
        invariant
            r@ == ascii_lowercase_spec(v@.take(i as int)),
    {
        let x = v[i];
        let lx = ascii_lower(x);
        r.push(lx);
        assert(ascii_lowercase_spec(v@.take(i + 1)) =~= ascii_lowercase_spec(v@.take(i as int)).push(lx));
    }
    assert(v@.take(v.len() as int) == v@);
    r
}

/// Whether `c` occurs in `s`.
pub fn contains_char(v: &Vec<char>, c: char) -> (r: bool)
    ensures
        r == v@.contains(c),
{
    for i in 0..v.len()
        invariant
            forall|k: int| 0 <= k < i ==> v@[k] != c,
    {
        if v[i] == c {
            return true;
        }
    }
    false
}

/// Whether two character sequences are equal.
pub fn chars_eq(a: &Vec<char>, b: &Vec<char>) -> (r: bool)
    ensures
        r == (a@ == b@),
{
    if a.len() != b.len() {
        return false;
    }
    for i in 0..a.len()
        invariant
            a.len() == b.len(),
            forall|k: int| 0 <= k < i ==> a@[k] == b@[k],
    {
        if a[i] != b[i] {
            return false;
        }
    }
    assert(a@ =~= b@);
    true
}

/// The full Unicode lower case of a text, as `str::to_lowercase` gives it.
pub uninterp spec fn unicode_lowercase(s: Seq<char>) -> Seq<char>;

/// Calls `str::to_lowercase`; the result is the Unicode lower case of `s`, a function of `s` alone.
#[verifier::external_body]
pub(crate) fn lowercase(s: &str) -> (r: String)
    ensures
        r@ == unicode_lowercase(s@),
{
    s.to_lowercase()
}


/// `a < b` in the order of Rust's `str` comparison: lexicographic by character.
pub open spec fn text_less(a: Seq<char>, b: Seq<char>) -> bool
    decreases a.len(),
{
    if a.len() == 0 {
        b.len() > 0
    } else if b.len() == 0 {
        false
    } else if a[0] != b[0] {
        (a[0] as u32) < (b[0] as u32)
    } else {
        text_less(a.drop_first(), b.drop_first())
    }
}

proof fn lemma_text_less_step(a: Seq<char>, b: Seq<char>, i: int)
    requires
        0 <= i < a.len(),
        i < b.len(),
        a[i] == b[i],
    ensures
        text_less(a.subrange(i, a.len() as int), b.subrange(i, b.len() as int)) == text_less(
            a.subrange(i + 1, a.len() as int),
            b.subrange(i + 1, b.len() as int),
        ),
{
    assert(a.subrange(i, a.len() as int).drop_first() =~= a.subrange(i + 1, a.len() as int));
    assert(b.subrange(i, b.len() as int).drop_first() =~= b.subrange(i + 1, b.len() as int));
}

/// Whether `a` comes before `b` in `str` order.
pub fn text_lt(a: &Vec<char>, b: &Vec<char>) -> (r: bool)
    ensures
        r == text_less(a@, b@),
{
    let mut i: usize = 0;
    assert(a@.subrange(0, a@.len() as int) =~= a@);
    assert(b@.subrange(0, b@.len() as int) =~= b@);
    while i < a.len() && i < b.len() && a[i] == b[i]
        invariant
            i <= a.len(),
            i <= b.len(),
            text_less(a@, b@) == text_less(a@.subrange(i as int, a@.len() as int), b@.subrange(i as int, b@.len() as int)),
        decreases a.len() - i,
    {
        proof {
            lemma_text_less_step(a@, b@, i as int);
        }
        i = i + 1;
    }
    let ghost ra = a@.subrange(i as int, a@.len() as int);
    let ghost rb = b@.subrange(i as int, b@.len() as int);
    if i == a.len() {
        assert(ra.len() == 0);
        i < b.len()
    } else if i == b.len() {
        assert(rb.len() == 0);
        false
    } else {
        assert(ra[0] == a@[i as int] && rb[0] == b@[i as int]);
        (a[i] as u32) < (b[i] as u32)
    }
}

/// Where a stable insertion puts `x` into `s`: before the first element that `x` comes before.
pub open spec fn insert_pos<T>(s: Seq<T>, x: T, before: spec_fn(T, T) -> bool) -> int
    decreases s.len(),
{
    if s.len() == 0 {
        0
    } else if before(x, s[0]) {
        0
    } else {
        1 + insert_pos(s.drop_first(), x, before)
    }
}

/// `s` sorted by a stable insertion sort: elements that `before` does not order keep their order.
pub open spec fn stable_sorted<T>(s: Seq<T>, before: spec_fn(T, T) -> bool) -> Seq<T>
    decreases s.len(),
{
    if s.len() == 0 {
        s
    } else {
        let p = stable_sorted(s.drop_last(), before);
        p.insert(insert_pos(p, s.last(), before), s.last())
    }
}

pub proof fn lemma_insert_pos_bound<T>(s: Seq<T>, x: T, before: spec_fn(T, T) -> bool)
    ensures
        0 <= insert_pos(s, x, before) <= s.len(),
    decreases s.len(),
{
    if s.len() > 0 && !before(x, s[0]) {
        lemma_insert_pos_bound(s.drop_first(), x, before);
    }
}

pub proof fn lemma_insert_pos_step<T>(s: Seq<T>, x: T, before: spec_fn(T, T) -> bool, j: int)
    requires
        0 <= j < s.len(),
        !before(x, s[j]),
    ensures
        insert_pos(s.subrange(j, s.len() as int), x, before) == 1 + insert_pos(
            s.subrange(j + 1, s.len() as int),
            x,
            before,
        ),
{
    assert(s.subrange(j, s.len() as int).drop_first() =~= s.subrange(j + 1, s.len() as int));
}

pub proof fn lemma_stable_sorted_len<T>(s: Seq<T>, before: spec_fn(T, T) -> bool)
    ensures
        stable_sorted(s, before).len() == s.len(),
    decreases s.len(),
{
    if s.len() > 0 {
        lemma_stable_sorted_len(s.drop_last(), before);
        lemma_insert_pos_bound(stable_sorted(s.drop_last(), before), s.last(), before);
    }
}


/// `x` goes after every element that it does not come before, and before the element at its place.
pub proof fn lemma_insert_pos_props<T>(s: Seq<T>, x: T, before: spec_fn(T, T) -> bool)
    ensures
        0 <= insert_pos(s, x, before) <= s.len(),
        forall|i: int| 0 <= i < insert_pos(s, x, before) ==> !before(x, #[trigger] s[i]),
        insert_pos(s, x, before) < s.len() ==> before(x, s[insert_pos(s, x, before)]),
    decreases s.len(),
{
    if s.len() > 0 && !before(x, s[0]) {
        let d = s.drop_first();
        lemma_insert_pos_props(d, x, before);
        assert forall|i: int| 0 <= i < insert_pos(s, x, before) implies !before(x, #[trigger] s[i]) by {
            if i > 0 {
                assert(s[i] == d[i - 1]);
            }
        }
        if insert_pos(s, x, before) < s.len() {
            assert(s[insert_pos(s, x, before)] == d[insert_pos(d, x, before)]);
        }
    }
}

/// Under a strict order, the stable sort leaves no element before one that comes before it.
pub proof fn lemma_stable_sorted_sorted<T>(s: Seq<T>, before: spec_fn(T, T) -> bool)
    requires
        forall|a: T, b: T| #[trigger] before(a, b) ==> !before(b, a),
        forall|a: T, b: T, c: T| #[trigger] before(a, b) && #[trigger] before(b, c) ==> before(a, c),
    ensures
        forall|i: int, j: int|
            0 <= i < j < stable_sorted(s, before).len() ==> !before(
                #[trigger] stable_sorted(s, before)[j],
                #[trigger] stable_sorted(s, before)[i],
            ),
    decreases s.len(),
{
    if s.len() > 0 {
        let d = s.drop_last();
        let x = s.last();
        lemma_stable_sorted_sorted(d, before);
        let p = stable_sorted(d, before);
        lemma_stable_sorted_len(d, before);
        lemma_insert_pos_props(p, x, before);
        let k = insert_pos(p, x, before);
        let r = p.insert(k, x);
        assert(stable_sorted(s, before) == r);
        assert forall|i: int, j: int| 0 <= i < j < r.len() implies !before(#[trigger] r[j], #[trigger] r[i]) by {
            if j < k {
                assert(r[i] == p[i] && r[j] == p[j]);
            } else if j == k {
                assert(r[i] == p[i] && r[j] == x);
            } else if i < k {
                assert(r[i] == p[i] && r[j] == p[j - 1]);
            } else if i == k {
                assert(r[i] == x && r[j] == p[j - 1]);
                assert(before(x, p[k]));
                if j - 1 > k {
                    assert(!before(p[j - 1], p[k]));
                }
            } else {
                assert(r[i] == p[i - 1] && r[j] == p[j - 1]);
            }
        }
    }
}

/// Every element of the sorted sequence is an element of `s`.
pub proof fn lemma_stable_sorted_member<T>(s: Seq<T>, before: spec_fn(T, T) -> bool, i: int)
    requires
        0 <= i < s.len(),
    ensures
        exists|m: int| 0 <= m < s.len() && stable_sorted(s, before)[i] == s[m],
    decreases s.len(),
{
    let d = s.drop_last();
    let p = stable_sorted(d, before);
    lemma_stable_sorted_len(d, before);
    let k = insert_pos(p, s.last(), before);
    lemma_insert_pos_bound(p, s.last(), before);
    let sorted = p.insert(k, s.last());
    assert(stable_sorted(s, before) == sorted);
    if i == k {
        assert(sorted[i] == s[s.len() - 1]);
    } else if i < k {
        lemma_stable_sorted_member(d, before, i);
        let m = choose|m: int| 0 <= m < d.len() && p[i] == d[m];
        assert(sorted[i] == p[i]);
        assert(s[m] == d[m]);
    } else {
        lemma_stable_sorted_member(d, before, i - 1);
        let m = choose|m: int| 0 <= m < d.len() && p[i - 1] == d[m];
        assert(sorted[i] == p[i - 1]);
        assert(s[m] == d[m]);
    }
}

/// A line as `str::lines` yields it once its line feed is cut: without a final carriage return.
pub open spec fn without_cr(l: Seq<char>) -> Seq<char> {
    if l.len() > 0 && l.last() == '\r' {
        l.drop_last()
    } else {
        l
    }
}

/// Lines as a left fold: the finished lines and the line being read.
pub open spec fn line_fold(s: Seq<char>) -> (Seq<Seq<char>>, Seq<char>)
    decreases s.len(),
{
    if s.len() == 0 {
        (seq![], seq![])
    } else {
        let prev = line_fold(s.drop_last());
        if s.last() == '\n' {
            (prev.0.push(without_cr(prev.1)), seq![])
        } else {
            (prev.0, prev.1.push(s.last()))
        }
    }
}

proof fn lemma_trim_start_push(s: Seq<char>, c: char, set: TrimSet)
    ensures
        trim_start_spec(s.push(c), set) == if trim_start_spec(s, set).len() == 0 && trims(set, c) {
            Seq::<char>::empty()
        } else {
            trim_start_spec(s, set).push(c)
        },
    decreases s.len(),
{
    if s.len() > 0 && trims(set, s[0]) {
        assert(s.push(c).drop_first() =~= s.drop_first().push(c));
        lemma_trim_start_push(s.drop_first(), c, set);
    } else if s.len() == 0 {
        assert(s.push(c).drop_first() =~= Seq::<char>::empty());
        assert(trim_start_spec(Seq::<char>::empty(), set) == Seq::<char>::empty());
        assert(s.push(c) =~= trim_start_spec(s, set).push(c));
    } else {
        assert(s.push(c)[0] == s[0]);
    }
}

/// A trailing character that is trimmed away changes nothing once the text is trimmed.
pub proof fn lemma_trim_drop_last(s: Seq<char>, set: TrimSet)
    requires
        s.len() > 0,
        trims(set, s.last()),
    ensures
        trim_spec(s, set) == trim_spec(s.drop_last(), set),
{
    let d = s.drop_last();
    assert(d.push(s.last()) =~= s);
    lemma_trim_start_push(d, s.last(), set);
    let t = trim_start_spec(d, set);
    if !(t.len() == 0) {
        assert(t.push(s.last()).drop_last() =~= t);
    }
}

/// A line read without its line feed trims to what it trims to with its carriage return cut.
pub proof fn lemma_trimmed_without_cr(l: Seq<char>)
    ensures
        trimmed(without_cr(l)) == trimmed(l),
{
    if l.len() > 0 && l.last() == '\r' {
        assert(is_whitespace_spec('\r'));
        lemma_trim_drop_last(l, TrimSet::Whitespace);
    }
}

/// Appending a line feed ends the last line: the lines of `s` with a line feed appended are those
/// of `s`, where the last one is given up to its carriage return, plus an empty line where `s`
/// ended with a line feed or was empty.
pub proof fn law_lines_final_line_feed(s: Seq<char>)
    ensures
        ({
            let f = line_fold(s);
            &&& lines_spec(s.push('\n')) == f.0.push(without_cr(f.1))
            &&& f.1.len() > 0 ==> lines_spec(s) == f.0.push(f.1)
            &&& f.1.len() == 0 ==> lines_spec(s) == f.0
        }),
{
    assert(s.push('\n').drop_last() =~= s);
}

/// `str::lines`: the text split at line feeds, each line without the carriage return before its
/// line feed, and no empty line after a final line feed.
pub open spec fn lines_spec(s: Seq<char>) -> Seq<Seq<char>> {
    let f = line_fold(s);
    if f.1.len() > 0 {
        f.0.push(f.1)
    } else {
        f.0
    }
}

/// `s.lines()`, each line as its characters.
pub fn lines_of(s: &str) -> (r: Vec<Vec<char>>)
    ensures
        crate::paths::views(r@) == lines_spec(s@),
{
    let v = chars_of(s);
    let mut out: Vec<Vec<char>> = Vec::new();
    let mut cur: Vec<char> = Vec::new();
    for i in 0..v.len()
        invariant
            v@ == s@,
            crate::paths::views(out@) == line_fold(v@.take(i as int)).0,
            cur@ == line_fold(v@.take(i as int)).1,
    {
        assert(v@.take(i + 1).drop_last() =~= v@.take(i as int));
        if v[i] == '\n' {
            let mut line = cur;
            if line.len() > 0 && line[line.len() - 1] == '\r' {
                line.pop();
            }
            let ghost before = out@;
            let ghost prev = line_fold(v@.take(i as int)).1;
            assert(line@ =~= without_cr(prev));
            out.push(line);
            assert(crate::paths::views(out@) =~= crate::paths::views(before).push(without_cr(prev)));
            cur = Vec::new();
        } else {
            cur.push(v[i]);
        }
    }
    assert(v@.take(v.len() as int) =~= v@);
    if cur.len() > 0 {
        let ghost before = out@;
        let ghost c = cur@;
        out.push(cur);
        assert(crate::paths::views(out@) =~= crate::paths::views(before).push(c));
    }
    out
}

/// `s` without its leading byte order marks (`trim_start_matches('\u{feff}')`).
pub open spec fn without_bom(s: Seq<char>) -> Seq<char>
    decreases s.len(),
{
    if s.len() > 0 && s[0] == '\u{feff}' {
        without_bom(s.drop_first())
    } else {
        s
    }
}

/// `s` without its leading byte order marks.
pub fn strip_bom(v: &Vec<char>) -> (r: Vec<char>)
    ensures
        r@ == without_bom(v@),
{
    let mut i: usize = 0;
    assert(v@.subrange(0, v@.len() as int) =~= v@);
    while i < v.len() && v[i] == '\u{feff}'
        invariant
            i <= v.len(),
            without_bom(v@) == without_bom(v@.subrange(i as int, v@.len() as int)),
        decreases v.len() - i,
    {
        assert(v@.subrange(i as int, v@.len() as int).drop_first() =~= v@.subrange(i + 1, v@.len() as int));
        i = i + 1;
    }
    slice_of(v, i, v.len())
}

} // verus!
