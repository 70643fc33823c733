use vstd::prelude::*;
use vstd::string::*;

verus! {

/// Whether a character has the Unicode White_Space property.
pub open spec fn white_space(c: char) -> bool {
    let u = c as u32;
    (0x09 <= u <= 0x0D) || u == 0x20 || u == 0x85 || u == 0xA0 || u == 0x1680 || (0x2000 <= u <= 0x200A)
        || u == 0x2028 || u == 0x2029 || u == 0x202F || u == 0x205F || u == 0x3000
}

/// Whether a character has the Unicode White_Space property.
pub fn is_white(c: char) -> (r: bool)
    ensures
        r == white_space(c),
{
    let u = c as u32;
    (0x09 <= u && u <= 0x0D) || u == 0x20 || u == 0x85 || u == 0xA0 || u == 0x1680 || (0x2000 <= u && u
        <= 0x200A) || u == 0x2028 || u == 0x2029 || u == 0x202F || u == 0x205F || u == 0x3000
}

/// First position at or after `i` that does not hold white space.
pub open spec fn skip_ws(s: Seq<char>, i: int) -> int
    decreases s.len() - i,
{
    if 0 <= i < s.len() && white_space(s[i]) {
        skip_ws(s, i + 1)
    } else {
        i
    }
}

/// End of `s.subrange(lo, j)` once its trailing white space is dropped.
pub open spec fn back_ws(s: Seq<char>, lo: int, j: int) -> int
    decreases j - lo,
{
    if lo < j && j <= s.len() && white_space(s[j - 1]) {
        back_ws(s, lo, j - 1)
    } else {
        j
    }
}

/// `s` with leading and trailing white space removed.
pub open spec fn trimmed(s: Seq<char>) -> Seq<char> {
    let a = skip_ws(s, 0);
    s.subrange(a, back_ws(s, a, s.len() as int))
}

proof fn lemma_skip_ws_bounds(s: Seq<char>, i: int)
    requires
        0 <= i <= s.len(),
    ensures
        i <= skip_ws(s, i) <= s.len(),
    decreases s.len() - i,
{
    if i < s.len() && white_space(s[i]) {
        lemma_skip_ws_bounds(s, i + 1);
    }
}

proof fn lemma_back_ws_bounds(s: Seq<char>, lo: int, j: int)
    requires
        0 <= lo <= j <= s.len(),
    ensures
        lo <= back_ws(s, lo, j) <= j,
    decreases j - lo,
{
    if lo < j && white_space(s[j - 1]) {
        lemma_back_ws_bounds(s, lo, j - 1);
    }
}

/// Removes leading and trailing white space.
pub fn trim(s: &str) -> (r: String)
    ensures
        r@ == trimmed(s@),
{
    let n = s.unicode_len();
    let mut a: usize = 0;
    while a < n && is_white(s.get_char(a))
        invariant
            n == s@.len(),
            a <= n,
            skip_ws(s@, 0) == skip_ws(s@, a as int),
        decreases n - a,
    {
        a = a + 1;
    }
    let mut b: usize = n;
    proof {
        lemma_skip_ws_bounds(s@, a as int);
    }
    while b > a && is_white(s.get_char(b - 1))
        invariant
            n == s@.len(),
            a <= b <= n,
            a == skip_ws(s@, 0),
            back_ws(s@, a as int, n as int) == back_ws(s@, a as int, b as int),
        decreases b,
    {
        b = b - 1;
    }
    String::from_str(s.substring_char(a, b))
}

/// Whether `s` starts with `p`.
pub open spec fn is_prefix_of<T>(p: Seq<T>, s: Seq<T>) -> bool {
    p.len() <= s.len() && s.subrange(0, p.len() as int) == p
}

/// Whether `s` ends with `p`.
pub open spec fn is_suffix_of<T>(p: Seq<T>, s: Seq<T>) -> bool {
    p.len() <= s.len() && s.subrange(s.len() - p.len(), s.len() as int) == p
}

/// Whether `s` starts with `p`.
pub fn starts_with(s: &str, p: &str) -> (r: bool)
    ensures
        r == is_prefix_of(p@, s@),
{
    let n = s.unicode_len();
    let m = p.unicode_len();
    if m > n {
        return false;
    }
    let mut i: usize = 0;
    while i < m
        invariant
            n == s@.len(),
            m == p@.len(),
            m <= n,
            i <= m,
            forall|k: int| 0 <= k < i ==> s@[k] == p@[k],
        decreases m - i,
    {
        if s.get_char(i) != p.get_char(i) {
            assert(s@.subrange(0, m as int)[i as int] != p@[i as int]);
            return false;
        }
        i = i + 1;
    }
    assert(s@.subrange(0, m as int) =~= p@);
    true
}

/// Whether `s` ends with `p`.
pub fn ends_with(s: &str, p: &str) -> (r: bool)
    ensures
        r == is_suffix_of(p@, s@),
{
    let n = s.unicode_len();
    let m = p.unicode_len();
    if m > n {
        return false;
    }
    let d = n - m;
    let mut i: usize = 0;
    while i < m
        invariant
            n == s@.len(),
            m == p@.len(),
            d == n - m,
            i <= m,
            forall|k: int| 0 <= k < i ==> s@[d + k] == p@[k],
        decreases m - i,
    {
        if s.get_char(d + i) != p.get_char(i) {
            assert(s@.subrange(d as int, n as int)[i as int] != p@[i as int]);
            return false;
        }
        i = i + 1;
    }
    assert(s@.subrange(d as int, n as int) =~= p@);
    true
}

/// Whether two strings hold the same characters.
pub fn same_str(a: &str, b: &str) -> (r: bool)
    ensures
        r == (a@ == b@),
{
    let n = a.unicode_len();
    if n != b.unicode_len() {
        return false;
    }
    let mut i: usize = 0;
    while i < n
        invariant
            n == a@.len(),
            n == b@.len(),
            i <= n,
            forall|k: int| 0 <= k < i ==> a@[k] == b@[k],
        decreases n - i,
    {
        if a.get_char(i) != b.get_char(i) {
            return false;
        }
        i = i + 1;
    }
    assert(a@ =~= b@);
    true
}

/// Every character of `s` is white space.
pub open spec fn all_white(s: Seq<char>) -> bool {
    forall|i: int| 0 <= i < s.len() ==> white_space(#[trigger] s[i])
}

/// `m` is empty or neither starts nor ends with white space.
pub open spec fn tight(m: Seq<char>) -> bool {
    m.len() == 0 || (!white_space(m[0]) && !white_space(m.last()))
}

proof fn lemma_skip_ws_at(s: Seq<char>, i: int, j: int)
    requires
        0 <= i <= j <= s.len(),
        forall|k: int| i <= k < j ==> white_space(#[trigger] s[k]),
        j == s.len() || !white_space(s[j]),
    ensures
        skip_ws(s, i) == j,
    decreases j - i,
{
    if i < j {
        lemma_skip_ws_at(s, i + 1, j);
    }
}

proof fn lemma_back_ws_at(s: Seq<char>, lo: int, k: int, j: int)
    requires
        0 <= lo <= k <= j <= s.len(),
        forall|x: int| k <= x < j ==> white_space(#[trigger] s[x]),
        k == lo || !white_space(s[k - 1]),
    ensures
        back_ws(s, lo, j) == k,
    decreases j - k,
{
    if k < j {
        lemma_back_ws_at(s, lo, k, j - 1);
    }
}

proof fn lemma_skip_ws_facts(s: Seq<char>, i: int)
    requires
        0 <= i <= s.len(),
    ensures
        i <= skip_ws(s, i) <= s.len(),
        forall|k: int| i <= k < skip_ws(s, i) ==> white_space(#[trigger] s[k]),
        skip_ws(s, i) == s.len() || !white_space(s[skip_ws(s, i)]),
    decreases s.len() - i,
{
    if i < s.len() && white_space(s[i]) {
        lemma_skip_ws_facts(s, i + 1);
    }
}

proof fn lemma_back_ws_facts(s: Seq<char>, lo: int, j: int)
    requires
        0 <= lo <= j <= s.len(),
    ensures
        lo <= back_ws(s, lo, j) <= j,
        forall|x: int| back_ws(s, lo, j) <= x < j ==> white_space(#[trigger] s[x]),
        back_ws(s, lo, j) == lo || !white_space(s[back_ws(s, lo, j) - 1]),
    decreases j - lo,
{
    if lo < j && white_space(s[j - 1]) {
        lemma_back_ws_facts(s, lo, j - 1);
    }
}

/// `s` is white space, then `trimmed(s)`, then white space.
pub proof fn lemma_trim_split(s: Seq<char>)
    ensures
        tight(trimmed(s)),
        exists|u: Seq<char>, v: Seq<char>| all_white(u) && all_white(v) && s == u + trimmed(s) + v,
{
    lemma_skip_ws_facts(s, 0);
    let a = skip_ws(s, 0);
    lemma_back_ws_facts(s, a, s.len() as int);
    let b = back_ws(s, a, s.len() as int);
    let u = s.subrange(0, a);
    let v = s.subrange(b, s.len() as int);
    assert(s == u + trimmed(s) + v) by {
        assert(s =~= u + s.subrange(a, b) + v);
    }
    assert(all_white(u));
    assert(all_white(v));
}

/// Trimming white space, then `m`, then white space gives `m` when `m` is
/// tight.
pub proof fn lemma_trim_of(u: Seq<char>, m: Seq<char>, v: Seq<char>)
    requires
        all_white(u),
        all_white(v),
        tight(m),
    ensures
        trimmed(u + m + v) == m,
{
    let s = u + m + v;
    if m.len() > 0 {
        assert(s[u.len() as int] == m[0]);
        lemma_skip_ws_at(s, 0, u.len() as int);
        let e: int = (u.len() + m.len()) as int;
        assert(s[e - 1] == m.last());
        lemma_back_ws_at(s, u.len() as int, e, s.len() as int);
        assert(s.subrange(u.len() as int, e) =~= m);
    } else {
        lemma_skip_ws_at(s, 0, s.len() as int);
        lemma_back_ws_at(s, s.len() as int, s.len() as int, s.len() as int);
        assert(s.subrange(s.len() as int, s.len() as int) =~= m);
    }
}

/// Trimming is idempotent.
pub proof fn lemma_trim_twice(s: Seq<char>)
    ensures
        trimmed(trimmed(s)) == trimmed(s),
{
    lemma_trim_split(s);
    let e = Seq::<char>::empty();
    lemma_trim_of(e, trimmed(s), e);
    assert(e + trimmed(s) + e =~= trimmed(s));
}

/// White space appended to a trimmed string is trimmed away again.
pub proof fn lemma_trim_append_white(s: Seq<char>, w: Seq<char>)
    requires
        all_white(w),
    ensures
        trimmed(trimmed(s) + w) == trimmed(s),
{
    lemma_trim_split(s);
    let e = Seq::<char>::empty();
    lemma_trim_of(e, trimmed(s), w);
    assert(e + trimmed(s) + w =~= trimmed(s) + w);
}

/// Trimming white space leaves nothing.
pub proof fn lemma_trim_white(w: Seq<char>)
    requires
        all_white(w),
    ensures
        trimmed(w).len() == 0,
{
    let e = Seq::<char>::empty();
    lemma_trim_of(w, e, e);
    assert(w + e + e =~= w);
}

} // verus!
