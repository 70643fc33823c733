use vstd::prelude::*;
use vstd::string::*;
use crate::node::{NodeView, ETreeNode, attr_value, opt_view};
use crate::text::same_str;
use crate::xpath::{Separator, NodeTest, Operand, CmpOp, Predicate, Segment, OpV, PredV, TestV, SegV, op_view, pred_view, test_view, seg_view, segs_view, parse_path};
use crate::tree::{ETree, spec_children, spec_descendant, spec_parent, named};

verus! {

/// The value of an operand.
pub enum SpecVal {
    Missing,
    Num(int),
    Str(Seq<char>),
}

pub enum Val {
    Missing,
    Num(i128),
    Str(String),
}

impl Val {
    pub open spec fn view(&self) -> SpecVal {
        match self {
            Val::Missing => SpecVal::Missing,
            Val::Num(n) => SpecVal::Num(*n as int),
            Val::Str(s) => SpecVal::Str(s@),
        }
    }
}

pub open spec fn digit_val(c: char) -> int {
    (c as u32 - '0' as u32) as int
}

/// The value of a run of decimal digits.
pub open spec fn digits_val(s: Seq<char>) -> int
    decreases s.len(),
{
    if s.len() == 0 {
        0
    } else {
        digits_val(s.drop_last()) * 10 + digit_val(s.last())
    }
}

pub open spec fn all_digits(s: Seq<char>) -> bool {
    forall|i: int| 0 <= i < s.len() ==> '0' <= #[trigger] s[i] <= '9'
}

/// A string read as a number: an optional `-` and one to eighteen digits.
pub open spec fn parse_num(s: Seq<char>) -> Option<int> {
    if s.len() > 0 && s[0] == '-' {
        let d = s.drop_first();
        if 0 < d.len() <= 18 && all_digits(d) {
            Some(-digits_val(d))
        } else {
            None
        }
    } else if 0 < s.len() <= 18 && all_digits(s) {
        Some(digits_val(s))
    } else {
        None
    }
}

/// Lexical order on characters' code points.
pub open spec fn lex_lt(a: Seq<char>, b: Seq<char>) -> bool
    decreases a.len(),
{
    if a.len() == 0 {
        b.len() > 0
    } else if b.len() == 0 {
        false
    } else if a[0] == b[0] {
        lex_lt(a.drop_first(), b.drop_first())
    } else {
        (a[0] as u32) < (b[0] as u32)
    }
}

/// Position of the first `.` at or after `j`, or the length.
pub open spec fn dot_pos(b: Seq<char>, j: int) -> int
    decreases b.len() - j,
{
    if 0 <= j < b.len() && b[j] != '.' {
        dot_pos(b, j + 1)
    } else {
        j
    }
}

/// A string read as a decimal number `m / 10^k`: an optional `-`, one or
/// more digits, and optionally `.` followed by one or more digits; at most
/// eighteen digits in all.
pub open spec fn parse_dec(s: Seq<char>) -> Option<(int, int)> {
    let neg = s.len() > 0 && s[0] == '-';
    let b = if neg { s.drop_first() } else { s };
    let k = dot_pos(b, 0);
    let ip = b.subrange(0, k);
    let fp = if k < b.len() { b.subrange(k + 1, b.len() as int) } else { Seq::<char>::empty() };
    if 0 < ip.len() && all_digits(ip) && all_digits(fp) && (k < b.len() ==> fp.len() > 0) && ip.len() + fp.len()
        <= 18 {
        let m = digits_val(ip) * pow10(fp.len()) + digits_val(fp);
        Some((if neg { -m } else { m }, fp.len() as int))
    } else {
        None
    }
}

/// A value read as a number `m / 10^k`.
pub open spec fn num_of(v: SpecVal) -> Option<(int, int)> {
    match v {
        SpecVal::Num(n) => Some((n, 0)),
        SpecVal::Str(s) => parse_dec(s),
        SpecVal::Missing => None,
    }
}

pub open spec fn cmp_int(a: int, op: CmpOp, b: int) -> bool {
    match op {
        CmpOp::Eq => a == b,
        CmpOp::Ne => a != b,
        CmpOp::Lt => a < b,
        CmpOp::Le => a <= b,
        CmpOp::Gt => a > b,
        CmpOp::Ge => a >= b,
    }
}

pub open spec fn cmp_str(a: Seq<char>, op: CmpOp, b: Seq<char>) -> bool {
    match op {
        CmpOp::Eq => a == b,
        CmpOp::Ne => a != b,
        CmpOp::Lt => lex_lt(a, b),
        CmpOp::Le => !lex_lt(b, a),
        CmpOp::Gt => lex_lt(b, a),
        CmpOp::Ge => !lex_lt(a, b),
    }
}

/// A comparison: numeric when both sides read as numbers, else lexical on
/// their text (a number by its decimal digits); false with a missing side.
pub open spec fn compare(a: SpecVal, op: CmpOp, b: SpecVal) -> bool {
    if num_of(a).is_some() && num_of(b).is_some() {
        let (ma, ka) = num_of(a).unwrap();
        let (mb, kb) = num_of(b).unwrap();
        cmp_int(ma * pow10(kb as nat), op, mb * pow10(ka as nat))
    } else {
        match (str_of(a), str_of(b)) {
            (Some(x), Some(y)) => cmp_str(x, op, y),
            _ => false,
        }
    }
}

pub open spec fn digit_char(d: int) -> char {
    if d == 0 { '0' } else if d == 1 { '1' } else if d == 2 { '2' } else if d == 3 { '3' } else if d == 4 { '4' }
    else if d == 5 { '5' } else if d == 6 { '6' } else if d == 7 { '7' } else if d == 8 { '8' } else { '9' }
}

/// The decimal digits of `n`.
pub open spec fn nat_str(n: nat) -> Seq<char>
    decreases n,
{
    if n < 10 {
        seq![digit_char(n as int)]
    } else {
        nat_str(n / 10).push(digit_char((n % 10) as int))
    }
}

/// A number written in decimal, with `-` when negative.
pub open spec fn num_str(n: int) -> Seq<char> {
    if n < 0 {
        seq!['-'] + nat_str((-n) as nat)
    } else {
        nat_str(n as nat)
    }
}

/// A value as text: a number by its decimal digits.
pub open spec fn str_of(v: SpecVal) -> Option<Seq<char>> {
    match v {
        SpecVal::Num(n) => Some(num_str(n)),
        SpecVal::Str(x) => Some(x),
        SpecVal::Missing => None,
    }
}

/// Where `t` stands in `tags`.
pub open spec fn tag_index(tags: Seq<Seq<char>>, t: Seq<char>, i: int) -> int
    decreases tags.len() - i,
{
    if i < 0 || i >= tags.len() || tags[i] == t {
        i
    } else {
        tag_index(tags, t, i + 1)
    }
}

/// The value of an operand for a candidate node at 1-based `pos` among
/// `last`, with `kids[i]` the text chosen for the child tag `tags[i]`.
pub open spec fn operand_val(o: OpV, n: NodeView, pos: int, last: int, tags: Seq<Seq<char>>, kids: Seq<Seq<char>>) -> SpecVal {
    match o {
        OpV::Text => SpecVal::Str(n.text_or_empty()),
        OpV::Attr(k) => match attr_value(n.attrs, k) {
            Some(v) => SpecVal::Str(v),
            None => SpecVal::Missing,
        },
        OpV::Child(t) => {
            let i = tag_index(tags, t, 0);
            if i < kids.len() && i < tags.len() {
                SpecVal::Str(kids[i])
            } else {
                SpecVal::Missing
            }
        },
        OpV::Num(v) => SpecVal::Num(v),
        OpV::Lit(x) => SpecVal::Str(x),
        OpV::Position => SpecVal::Num(pos),
        OpV::Last => SpecVal::Num(last),
        OpV::LastMinus(v) => SpecVal::Num(last - v),
    }
}

/// Whether a predicate holds of a candidate.
pub open spec fn holds(p: PredV, n: NodeView, pos: int, last: int, tags: Seq<Seq<char>>, kids: Seq<Seq<char>>) -> bool
    decreases p,
{
    match p {
        PredV::Or(a, b) => holds(*a, n, pos, last, tags, kids) || holds(*b, n, pos, last, tags, kids),
        PredV::And(a, b) => holds(*a, n, pos, last, tags, kids) && holds(*b, n, pos, last, tags, kids),
        PredV::Cmp(a, op, b) => compare(
            operand_val(a, n, pos, last, tags, kids),
            op,
            operand_val(b, n, pos, last, tags, kids),
        ),
        PredV::HasAttr(k) => attr_value(n.attrs, k).is_some(),
        PredV::AnyAttr => n.attrs.len() > 0,
    }
}

pub open spec fn add_tag(acc: Seq<Seq<char>>, t: Seq<char>) -> Seq<Seq<char>> {
    if acc.contains(t) {
        acc
    } else {
        acc.push(t)
    }
}

pub open spec fn operand_tags(o: OpV, acc: Seq<Seq<char>>) -> Seq<Seq<char>> {
    match o {
        OpV::Child(t) => add_tag(acc, t),
        _ => acc,
    }
}

/// The distinct child tags a predicate refers to, in order of appearance,
/// after those in `acc`.
pub open spec fn pred_tags(p: PredV, acc: Seq<Seq<char>>) -> Seq<Seq<char>>
    decreases p,
{
    match p {
        PredV::Or(a, b) => pred_tags(*b, pred_tags(*a, acc)),
        PredV::And(a, b) => pred_tags(*b, pred_tags(*a, acc)),
        PredV::Cmp(a, _, b) => operand_tags(b, operand_tags(a, acc)),
        _ => acc,
    }
}

/// Whether some choice of one child per tag, from `dim` on, makes the
/// predicate hold; `kids` holds the texts chosen for the tags before `dim`.
pub open spec fn some_combo(
    p: PredV,
    s: Seq<NodeView>,
    c: int,
    pos: int,
    last: int,
    tags: Seq<Seq<char>>,
    dim: int,
    kids: Seq<Seq<char>>,
) -> bool
    decreases tags.len() - dim, 1int, 0int,
{
    if dim < 0 || dim >= tags.len() {
        holds(p, s[c], pos, last, tags, kids)
    } else {
        let m = named(s, spec_children(s, c), tags[dim]);
        some_kid(p, s, c, pos, last, tags, dim, kids, m.len() as int)
    }
}

/// Whether one of the first `j` children named `tags[dim]`, chosen for that
/// tag, leads to a choice that makes the predicate hold.
pub open spec fn some_kid(
    p: PredV,
    s: Seq<NodeView>,
    c: int,
    pos: int,
    last: int,
    tags: Seq<Seq<char>>,
    dim: int,
    kids: Seq<Seq<char>>,
    j: int,
) -> bool
    decreases tags.len() - dim, 0int, j,
{
    if j <= 0 || dim < 0 || dim >= tags.len() {
        false
    } else {
        let m = named(s, spec_children(s, c), tags[dim]);
        some_kid(p, s, c, pos, last, tags, dim, kids, j - 1) || (j - 1 < m.len() && some_combo(
            p,
            s,
            c,
            pos,
            last,
            tags,
            dim + 1,
            kids.push(s[m[j - 1] as int].text_or_empty()),
        ))
    }
}

/// Whether a candidate at 1-based `pos` among `last` passes a predicate.
pub open spec fn accepts(p: PredV, s: Seq<NodeView>, c: int, pos: int, last: int) -> bool {
    some_combo(p, s, c, pos, last, pred_tags(p, Seq::empty()), 0, Seq::empty())
}

pub open spec fn name_test(t: TestV, n: NodeView) -> bool {
    match t {
        TestV::Name(x) => n.name() == x,
        TestV::Any => true,
        _ => false,
    }
}

/// Positions among `c` that pass a node test, in order.
pub open spec fn tested(s: Seq<NodeView>, c: Seq<usize>, t: TestV) -> Seq<usize>
    decreases c.len(),
{
    if c.len() == 0 {
        Seq::empty()
    } else if name_test(t, s[c.last() as int]) {
        tested(s, c.drop_last(), t).push(c.last())
    } else {
        tested(s, c.drop_last(), t)
    }
}

/// Positions among `c` that pass predicate `p`, each with its 1-based place
/// in `c` and `c`'s length.
pub open spec fn filtered(s: Seq<NodeView>, c: Seq<usize>, p: PredV, k: int) -> Seq<usize>
    decreases k,
{
    if k <= 0 || k > c.len() {
        Seq::empty()
    } else if accepts(p, s, c[k - 1] as int, k, c.len() as int) {
        filtered(s, c, p, k - 1).push(c[k - 1])
    } else {
        filtered(s, c, p, k - 1)
    }
}

/// The candidates gathered from `p` for a step: its children, or for `//`
/// its descendants. The context node itself is never a `//` candidate, so
/// `//ROOT` read from the root element does not find that element.
pub open spec fn gathered(s: Seq<NodeView>, g: SegV, p: int) -> Seq<usize> {
    if g.separator == Separator::Desc {
        spec_descendant(s, p)
    } else {
        spec_children(s, p)
    }
}

/// The positions one step reaches from `p`, in document order: `.` is `p`
/// itself, `..` its parent; otherwise the gathered candidates that pass the
/// node test and the predicate.
pub open spec fn step(s: Seq<NodeView>, g: SegV, p: int) -> Seq<usize> {
    if g.separator != Separator::Desc && g.node is Current {
        seq![p as usize]
    } else if g.separator != Separator::Desc && g.node is Parent {
        match spec_parent(s, p) {
            Some(q) => seq![q],
            None => Seq::empty(),
        }
    } else {
        let c = tested(s, gathered(s, g, p), g.node);
        match g.condition {
            None => c,
            Some(pr) => filtered(s, c, pr, c.len() as int),
        }
    }
}

/// A string read as a number (see `parse_num`).
pub fn to_num(s: &str) -> (r: Option<i128>)
    ensures
        r matches Some(y) ==> parse_num(s@) == Some(y as int),
        r.is_none() ==> parse_num(s@).is_none(),
{
    let n = s.unicode_len();
    let neg = n > 0 && s.get_char(0) == '-';
    let start: usize = if neg { 1 } else { 0 };
    let len = n - start;
    if len == 0 || len > 18 {
        proof {
            if neg {
                assert(s@.drop_first().len() == len);
            }
        }
        return None;
    }
    let ghost d = s@.subrange(start as int, n as int);
    proof {
        if neg {
            assert(d =~= s@.drop_first());
        } else {
            assert(d =~= s@);
        }
    }
    let mut v: i128 = 0;
    let mut i = start;
    proof {
        assert(s@.subrange(start as int, start as int) =~= Seq::<char>::empty());
        lemma_pow10_le(18);
    }
    while i < n
        invariant
            start <= i <= n,
            n == s@.len(),
            neg == (start == 1),
            neg == (s@.len() > 0 && s@[0] == '-'),
            start <= 1,
            neg ==> d == s@.drop_first(),
            !neg ==> d == s@,
            n - start <= 18,
            d == s@.subrange(start as int, n as int),
            all_digits(s@.subrange(start as int, i as int)),
            v == digits_val(s@.subrange(start as int, i as int)),
            0 <= v < pow10((i - start) as nat),
            pow10(18) == 1_000_000_000_000_000_000,
        decreases n - i,
    {
        let c = s.get_char(i);
        if !('0' <= c && c <= '9') {
            assert(d[i - start] == c);
            assert(!all_digits(d));
            return None;
        }
        proof {
            assert(s@.subrange(start as int, i + 1).drop_last() =~= s@.subrange(start as int, i as int));
            lemma_pow10_le((i - start + 1) as nat);
            lemma_pow10_mono((i - start + 1) as nat, 18);
            assert(v * 10 + digit_val(c) < pow10((i - start + 1) as nat)) by (nonlinear_arith)
                requires
                    v < pow10((i - start) as nat),
                    0 <= digit_val(c) < 10,
                    pow10((i - start + 1) as nat) == 10 * pow10((i - start) as nat),
            ;
        }
        v = v * 10 + (c as u32 - '0' as u32) as i128;
        i = i + 1;
        proof {
            assert forall|k: int| 0 <= k < s@.subrange(start as int, i as int).len() implies '0' <= #[trigger] s@.subrange(start as int, i as int)[k] <= '9' by {
                if k < i - 1 - start {
                    assert(s@.subrange(start as int, i as int)[k] == s@.subrange(start as int, i - 1)[k]);
                }
            }
        }
    }
    if neg {
        Some(-v)
    } else {
        Some(v)
    }
}

pub open spec fn pow10(n: nat) -> int
    decreases n,
{
    if n == 0 {
        1
    } else {
        10 * pow10((n - 1) as nat)
    }
}

proof fn lemma_pow10_le(n: nat)
    ensures
        pow10(n) == 10 * pow10((n - 1) as nat) || n == 0,
        0 < pow10(n),
        pow10(18) == 1_000_000_000_000_000_000,
    decreases n,
{
    reveal_with_fuel(pow10, 19);
    if n > 0 {
        lemma_pow10_le((n - 1) as nat);
    }
}

proof fn lemma_pow10_mono(a: nat, b: nat)
    requires
        a <= b,
    ensures
        pow10(a) <= pow10(b),
    decreases b,
{
    if a < b {
        lemma_pow10_mono(a, (b - 1) as nat);
        lemma_pow10_le((b - 1) as nat);
    }
}

fn cmp_ints(a: i128, op: CmpOp, b: i128) -> (r: bool)
    ensures
        r == cmp_int(a as int, op, b as int),
{
    match op {
        CmpOp::Eq => a == b,
        CmpOp::Ne => a != b,
        CmpOp::Lt => a < b,
        CmpOp::Le => a <= b,
        CmpOp::Gt => a > b,
        CmpOp::Ge => a >= b,
    }
}

/// `10^k`.
fn pow10_of(k: u32) -> (r: i128)
    requires
        k <= 18,
    ensures
        r == pow10(k as nat),
        0 < r <= 1_000_000_000_000_000_000,
{
    let mut r: i128 = 1;
    let mut i: u32 = 0;
    while i < k
        invariant
            i <= k <= 18,
            r == pow10(i as nat),
            0 < r <= pow10(i as nat),
        decreases k - i,
    {
        proof {
            lemma_pow10_le((i + 1) as nat);
            lemma_pow10_mono((i + 1) as nat, 18);
        }
        r = r * 10;
        i = i + 1;
    }
    proof {
        lemma_pow10_le(k as nat);
        lemma_pow10_mono(k as nat, 18);
    }
    r
}

/// A string read as a decimal number (see `parse_dec`).
pub fn to_dec(s: &str) -> (r: Option<(i128, u32)>)
    ensures
        match parse_dec(s@) {
            Some((m, k)) => r == Some((m as i128, k as u32)) && -1_000_000_000_000_000_000 < m
                < 1_000_000_000_000_000_000 && 0 <= k <= 18,
            None => r is None,
        },
{
    let n = s.unicode_len();
    let neg = n > 0 && s.get_char(0) == '-';
    let st: usize = if neg { 1 } else { 0 };
    let b = s.substring_char(st, n);
    proof {
        if neg {
            assert(b@ =~= s@.drop_first());
        } else {
            assert(b@ =~= s@);
        }
    }
    let bn = b.unicode_len();
    let mut k: usize = 0;
    while k < bn && b.get_char(k) != '.'
        invariant
            k <= bn == b@.len(),
            dot_pos(b@, 0) == dot_pos(b@, k as int),
        decreases bn - k,
    {
        k = k + 1;
    }
    let ip = b.substring_char(0, k);
    if k == 0 || ip.get_char(0) == '-' {
        return None;
    }
    let iv = match to_num(ip) {
        Some(x) => x,
        None => return None,
    };
    let ghost fps = if k < bn { b@.subrange(k + 1, bn as int) } else { Seq::<char>::empty() };
    let (fv, fl): (i128, usize) = if k < bn {
        let fp = b.substring_char(k + 1, bn);
        let fl = bn - k - 1;
        if fl == 0 || fp.get_char(0) == '-' {
            return None;
        }
        match to_num(fp) {
            Some(x) => (x, fl),
            None => return None,
        }
    } else {
        proof {
            assert(all_digits(fps));
        }
        (0, 0)
    };
    if k > 18 || fl > 18 - k {
        return None;
    }
    proof {
        lemma_digits_bound(ip@);
        lemma_digits_bound(fps);
        lemma_pow10_le(fl as nat);
        lemma_pow10_mono(fl as nat, (18 - k) as nat);
        lemma_pow10_mono(k as nat, 18);
        lemma_pow10_split(k as nat, fl as nat);
        assert((iv as int) * pow10(fl as nat) + (fv as int) < pow10((k + fl) as nat)) by (nonlinear_arith)
            requires
                0 <= iv < pow10(k as nat),
                0 <= fv < pow10(fl as nat),
                pow10((k + fl) as nat) == pow10(k as nat) * pow10(fl as nat),
        ;
        lemma_pow10_mono((k + fl) as nat, 18);
    }
    let m = iv * pow10_of(fl as u32) + fv;
    if neg {
        Some((-m, fl as u32))
    } else {
        Some((m, fl as u32))
    }
}

proof fn lemma_digits_bound(d: Seq<char>)
    requires
        all_digits(d),
    ensures
        0 <= digits_val(d) < pow10(d.len()),
    decreases d.len(),
{
    if d.len() > 0 {
        assert(all_digits(d.drop_last())) by {
            assert forall|i: int| 0 <= i < d.drop_last().len() implies '0' <= #[trigger] d.drop_last()[i] <= '9' by {
                assert(d.drop_last()[i] == d[i]);
            }
        }
        lemma_digits_bound(d.drop_last());
        lemma_pow10_le(d.len());
        assert(digits_val(d.drop_last()) * 10 + digit_val(d.last()) < pow10(d.len())) by (nonlinear_arith)
            requires
                0 <= digits_val(d.drop_last()) < pow10((d.len() - 1) as nat),
                0 <= digit_val(d.last()) < 10,
                pow10(d.len()) == 10 * pow10((d.len() - 1) as nat),
        ;
    }
}

proof fn lemma_pow10_split(a: nat, b: nat)
    ensures
        pow10(a + b) == pow10(a) * pow10(b),
    decreases b,
{
    if b > 0 {
        lemma_pow10_split(a, (b - 1) as nat);
        lemma_pow10_le(a + b);
        lemma_pow10_le(b);
        assert(pow10(a + b) == 10 * (pow10(a) * pow10((b - 1) as nat)));
        assert(10 * (pow10(a) * pow10((b - 1) as nat)) == pow10(a) * (10 * pow10((b - 1) as nat))) by (nonlinear_arith);
    }
}

/// Bound on the numbers that operands give.
pub open spec fn small(v: SpecVal) -> bool {
    v matches SpecVal::Num(n) ==> -0x40000000000000000 < n < 0x40000000000000000
}

fn val_num(v: &Val) -> (r: Option<(i128, u32)>)
    requires
        small(v.view()),
    ensures
        match num_of(v.view()) {
            Some((m, k)) => r == Some((m as i128, k as u32)) && -0x40000000000000000 < m < 0x40000000000000000 && 0 <= k <= 18,
            None => r is None,
        },
{
    match v {
        Val::Num(n) => Some((*n, 0)),
        Val::Str(s) => to_dec(s.as_str()),
        Val::Missing => None,
    }
}

/// Compares two values (see `compare`).
pub fn compare_vals(a: &Val, op: CmpOp, b: &Val) -> (r: bool)
    requires
        small(a.view()),
        small(b.view()),
    ensures
        r == compare(a.view(), op, b.view()),
{
    let x = val_num(a);
    let y = val_num(b);
    if x.is_some() && y.is_some() {
        let (ma, ka) = x.unwrap();
        let (mb, kb) = y.unwrap();
        let pa = pow10_of(ka);
        let pb = pow10_of(kb);
        assert(-0x40000000000000000 * 1_000_000_000_000_000_000 <= ma * pb <= 0x40000000000000000 * 1_000_000_000_000_000_000) by (nonlinear_arith)
            requires
                -0x40000000000000000 < ma < 0x40000000000000000,
                0 < pb <= 1_000_000_000_000_000_000,
        ;
        assert(-0x40000000000000000 * 1_000_000_000_000_000_000 <= mb * pa <= 0x40000000000000000 * 1_000_000_000_000_000_000) by (nonlinear_arith)
            requires
                -0x40000000000000000 < mb < 0x40000000000000000,
                0 < pa <= 1_000_000_000_000_000_000,
        ;
        return cmp_ints(ma * pb, op, mb * pa);
    }
    match (a, b) {
        (Val::Missing, _) => false,
        (_, Val::Missing) => false,
        _ => {
            let x = val_chars(a);
            let y = val_chars(b);
            cmp_chars(&x, op, &y)
        },
    }
}

fn digit_char_of(d: u128) -> (r: char)
    requires
        d < 10,
    ensures
        r == digit_char(d as int),
{
    if d == 0 { '0' } else if d == 1 { '1' } else if d == 2 { '2' } else if d == 3 { '3' } else if d == 4 { '4' }
    else if d == 5 { '5' } else if d == 6 { '6' } else if d == 7 { '7' } else if d == 8 { '8' } else { '9' }
}

/// The decimal digits of `n`.
pub fn nat_digits(n: u128) -> (r: Vec<char>)
    ensures
        r@ == nat_str(n as nat),
    decreases n,
{
    if n < 10 {
        let mut v: Vec<char> = Vec::new();
        v.push(digit_char_of(n));
        assert(v@ =~= seq![digit_char(n as int)]);
        v
    } else {
        let mut v = nat_digits(n / 10);
        v.push(digit_char_of(n % 10));
        v
    }
}

/// A value as text (see `str_of`).
fn val_chars(v: &Val) -> (r: Vec<char>)
    requires
        small(v.view()),
        !(v.view() is Missing),
    ensures
        r@ == str_of(v.view()).unwrap(),
{
    match v {
        Val::Str(x) => crate::xpath::chars_of(x.as_str()),
        Val::Num(n) => {
            if *n < 0 {
                let d = nat_digits((0 - *n) as u128);
                let mut r: Vec<char> = Vec::new();
                r.push('-');
                let mut i: usize = 0;
                while i < d.len()
                    invariant
                        i <= d@.len(),
                        r@ == seq!['-'] + d@.subrange(0, i as int),
                    decreases d@.len() - i,
                {
                    r.push(d[i]);
                    i = i + 1;
                    assert(r@ =~= seq!['-'] + d@.subrange(0, i as int));
                }
                assert(d@.subrange(0, i as int) =~= d@);
                r
            } else {
                nat_digits(*n as u128)
            }
        },
        Val::Missing => Vec::new(),
    }
}

/// Whether `a` comes before `b` in code-point order.
fn chars_lt(a: &Vec<char>, b: &Vec<char>) -> (r: bool)
    ensures
        r == lex_lt(a@, b@),
{
    let n = a.len();
    let m = b.len();
    let mut i: usize = 0;
    assert(a@.subrange(0, n as int) =~= a@);
    assert(b@.subrange(0, m as int) =~= b@);
    while i < n && i < m && a[i] == b[i]
        invariant
            n == a@.len(),
            m == b@.len(),
            i <= n,
            i <= m,
            lex_lt(a@, b@) == lex_lt(a@.subrange(i as int, n as int), b@.subrange(i as int, m as int)),
        decreases n - i,
    {
        proof {
            let x = a@.subrange(i as int, n as int);
            let y = b@.subrange(i as int, m as int);
            assert(x.drop_first() =~= a@.subrange(i + 1, n as int));
            assert(y.drop_first() =~= b@.subrange(i + 1, m as int));
        }
        i = i + 1;
    }
    if i >= n {
        i < m
    } else if i >= m {
        false
    } else {
        (a[i] as u32) < (b[i] as u32)
    }
}

fn chars_eq(a: &Vec<char>, b: &Vec<char>) -> (r: bool)
    ensures
        r == (a@ == b@),
{
    if a.len() != b.len() {
        return false;
    }
    let mut i: usize = 0;
    while i < a.len()
        invariant
            a@.len() == b@.len(),
            i <= a@.len(),
            forall|k: int| 0 <= k < i ==> a@[k] == b@[k],
        decreases a@.len() - i,
    {
        if a[i] != b[i] {
            return false;
        }
        i = i + 1;
    }
    assert(a@ =~= b@);
    true
}

fn cmp_chars(a: &Vec<char>, op: CmpOp, b: &Vec<char>) -> (r: bool)
    ensures
        r == cmp_str(a@, op, b@),
{
    match op {
        CmpOp::Eq => chars_eq(a, b),
        CmpOp::Ne => !chars_eq(a, b),
        CmpOp::Lt => chars_lt(a, b),
        CmpOp::Le => !chars_lt(b, a),
        CmpOp::Gt => chars_lt(b, a),
        CmpOp::Ge => !chars_lt(a, b),
    }
}

fn find_tag(tags: &Vec<String>, t: &str) -> (r: usize)
    ensures
        r == tag_index(tags@.map_values(|x: String| x@), t@, 0),
        r <= tags@.len(),
{
    let ghost tv = tags@.map_values(|x: String| x@);
    let mut i: usize = 0;
    while i < tags.len()
        invariant
            i <= tags@.len(),
            tv == tags@.map_values(|x: String| x@),
            tag_index(tv, t@, 0) == tag_index(tv, t@, i as int),
        decreases tags@.len() - i,
    {
        if same_str(tags[i].as_str(), t) {
            return i;
        }
        i = i + 1;
    }
    i
}

pub open spec fn strs(v: Seq<String>) -> Seq<Seq<char>> {
    v.map_values(|x: String| x@)
}

fn operand_value(o: &Operand, n: &ETreeNode, pos: usize, last: usize, tags: &Vec<String>, kids: &Vec<String>) -> (r: Val)
    ensures
        r.view() == operand_val(op_view(o), n@, pos as int, last as int, strs(tags@), strs(kids@)),
        small(r.view()),
{
    match o {
        Operand::Text => match &n.text {
            Some(t) => Val::Str(t.clone()),
            None => Val::Str(String::new()),
        },
        Operand::Attr(k) => match n.get_attr(k.as_str()) {
            Some(v) => Val::Str(v),
            None => Val::Missing,
        },
        Operand::Child(t) => {
            let i = find_tag(tags, t.as_str());
            if i < kids.len() && i < tags.len() {
                Val::Str(kids[i].clone())
            } else {
                Val::Missing
            }
        },
        Operand::Num(v) => Val::Num(*v as i128),
        Operand::Lit(s) => Val::Str(s.clone()),
        Operand::Position => Val::Num(pos as i128),
        Operand::Last => Val::Num(last as i128),
        Operand::LastMinus(v) => Val::Num(last as i128 - *v as i128),
    }
}

/// Evaluates a predicate for a candidate (see `holds`).
pub fn eval_pred(p: &Predicate, n: &ETreeNode, pos: usize, last: usize, tags: &Vec<String>, kids: &Vec<String>) -> (r: bool)
    ensures
        r == holds(pred_view(p), n@, pos as int, last as int, strs(tags@), strs(kids@)),
    decreases p,
{
    match p {
        Predicate::Or(a, b) => eval_pred(a, n, pos, last, tags, kids) || eval_pred(b, n, pos, last, tags, kids),
        Predicate::And(a, b) => eval_pred(a, n, pos, last, tags, kids) && eval_pred(b, n, pos, last, tags, kids),
        Predicate::Cmp(a, op, b) => {
            let x = operand_value(a, n, pos, last, tags, kids);
            let y = operand_value(b, n, pos, last, tags, kids);
            compare_vals(&x, *op, &y)
        },
        Predicate::HasAttr(k) => n.get_attr(k.as_str()).is_some(),
        Predicate::AnyAttr => n.attrs.len() > 0,
    }
}

fn add_tag_to(acc: &mut Vec<String>, t: &String)
    ensures
        strs(final(acc)@) == add_tag(strs(old(acc)@), t@),
{
    let ghost a = strs(acc@);
    let mut i: usize = 0;
    while i < acc.len()
        invariant
            i <= acc@.len(),
            a == strs(acc@),
            acc@ == old(acc)@,
            forall|k: int| 0 <= k < i ==> a[k] != t@,
        decreases acc@.len() - i,
    {
        if same_str(acc[i].as_str(), t.as_str()) {
            assert(a[i as int] == t@);
            return;
        }
        i = i + 1;
    }
    acc.push(t.clone());
    proof {
        assert(strs(acc@) =~= a.push(t@));
        assert(!a.contains(t@));
    }
}

fn operand_tags_to(o: &Operand, acc: &mut Vec<String>)
    ensures
        strs(final(acc)@) == operand_tags(op_view(o), strs(old(acc)@)),
{
    match o {
        Operand::Child(t) => add_tag_to(acc, t),
        _ => {},
    }
}

/// Collects the child tags a predicate refers to (see `pred_tags`).
pub fn collect_tags(p: &Predicate, acc: &mut Vec<String>)
    ensures
        strs(final(acc)@) == pred_tags(pred_view(p), strs(old(acc)@)),
    decreases p,
{
    match p {
        Predicate::Or(a, b) => {
            collect_tags(a, acc);
            collect_tags(b, acc);
        },
        Predicate::And(a, b) => {
            collect_tags(a, acc);
            collect_tags(b, acc);
        },
        Predicate::Cmp(a, _, b) => {
            operand_tags_to(a, acc);
            operand_tags_to(b, acc);
        },
        _ => {},
    }
}

fn text_of(n: &ETreeNode) -> (r: String)
    ensures
        r@ == n@.text_or_empty(),
{
    match &n.text {
        Some(t) => t.clone(),
        None => String::new(),
    }
}

/// Searches the choices of one child per tag, from `dim` on, for one that
/// makes the predicate hold; the last tag varies fastest.
fn search(
    p: &Predicate,
    tree: &ETree,
    c: usize,
    pos: usize,
    last: usize,
    tags: &Vec<String>,
    dim: usize,
    kids: &mut Vec<String>,
) -> (r: bool)
    requires
        c < tree.nodes().len(),
        dim <= tags@.len(),
    ensures
        r == some_combo(pred_view(p), tree.nodes(), c as int, pos as int, last as int, strs(tags@), dim as int, strs(old(kids)@)),
        final(kids)@ == old(kids)@,
    decreases tags@.len() - dim,
{
    if dim >= tags.len() {
        let n = tree.node(c).unwrap();
        return eval_pred(p, n, pos, last, tags, kids);
    }
    let m = tree.children_by_name(c, tags[dim].as_str());
    let _n = tree.len();
    let ghost s = tree.nodes();
    proof {
        crate::tree::lemma_named_bounds(s, spec_children(s, c as int), tags@[dim as int]@);
        crate::tree::lemma_children_bounds(s, c as int);
    }
    let mut k: usize = 0;
    while k < m.len()
        invariant
            k <= m@.len(),
            kids@ == old(kids)@,
            dim < tags@.len(),
            tags@.len() <= usize::MAX,
            c < s.len(),
            s == tree.nodes(),
            m@ == named(s, spec_children(s, c as int), strs(tags@)[dim as int]),
            forall|j: int| 0 <= j < m@.len() ==> m@[j] < s.len(),
            !some_kid(pred_view(p), s, c as int, pos as int, last as int, strs(tags@), dim as int, strs(old(kids)@), k as int),
        decreases m@.len() - k,
    {
        let n = tree.node(m[k]).unwrap();
        let t = text_of(n);
        kids.push(t);
        proof {
            assert(strs(kids@) =~= strs(old(kids)@).push(s[m@[k as int] as int].text_or_empty()));
        }
        let ok = search(p, tree, c, pos, last, tags, dim + 1, kids);
        kids.pop();
        proof {
            assert(kids@ =~= old(kids)@);
        }
        if ok {
            proof {
                lemma_some_kid_mono(pred_view(p), s, c as int, pos as int, last as int, strs(tags@), dim as int, strs(old(kids)@), k + 1, m@.len() as int);
            }
            return true;
        }
        k = k + 1;
    }
    false
}

proof fn lemma_some_kid_mono(
    p: PredV,
    s: Seq<NodeView>,
    c: int,
    pos: int,
    last: int,
    tags: Seq<Seq<char>>,
    dim: int,
    kids: Seq<Seq<char>>,
    i: int,
    j: int,
)
    requires
        i <= j,
        some_kid(p, s, c, pos, last, tags, dim, kids, i),
    ensures
        some_kid(p, s, c, pos, last, tags, dim, kids, j),
    decreases j - i,
{
    if i < j {
        lemma_some_kid_mono(p, s, c, pos, last, tags, dim, kids, i, j - 1);
    }
}

/// Whether a candidate passes a predicate (see `accepts`).
pub fn accept(p: &Predicate, tree: &ETree, c: usize, pos: usize, last: usize) -> (r: bool)
    requires
        c < tree.nodes().len(),
    ensures
        r == accepts(pred_view(p), tree.nodes(), c as int, pos as int, last as int),
{
    let mut tags: Vec<String> = Vec::new();
    proof {
        assert(strs(tags@) =~= Seq::<Seq<char>>::empty());
    }
    collect_tags(p, &mut tags);
    let mut kids: Vec<String> = Vec::new();
    proof {
        assert(strs(kids@) =~= Seq::<Seq<char>>::empty());
    }
    search(p, tree, c, pos, last, &tags, 0, &mut kids)
}

/// The positions one step reaches from `pos` (see `step`).
pub fn find_step(tree: &ETree, g: &Segment, pos: usize) -> (r: Vec<usize>)
    ensures
        r@ == step(tree.nodes(), seg_view(*g), pos as int),
{
    let ghost s = tree.nodes();
    let _n = tree.len();
    if g.separator != Separator::Desc {
        match g.node {
            NodeTest::Current => {
                let mut r: Vec<usize> = Vec::new();
                r.push(pos);
                assert(r@ =~= seq![pos]);
                return r;
            },
            NodeTest::Parent => {
                let mut r: Vec<usize> = Vec::new();
                match tree.parent(pos) {
                    Some(q) => {
                        r.push(q);
                        assert(r@ =~= seq![q]);
                    },
                    None => {
                        assert(r@ =~= Seq::<usize>::empty());
                    },
                }
                return r;
            },
            _ => {},
        }
    }
    let all = if g.separator == Separator::Desc {
        tree.descendant(pos)
    } else {
        tree.children(pos)
    };
    proof {
        crate::tree::lemma_children_bounds(s, pos as int);
        crate::tree::lemma_descendant_bounds(s, pos as int);
    }
    let mut c: Vec<usize> = Vec::new();
    let mut i: usize = 0;
    while i < all.len()
        invariant
            i <= all@.len(),
            s == tree.nodes(),
            all@ == gathered(s, seg_view(*g), pos as int),
            forall|j: int| 0 <= j < all@.len() ==> all@[j] < s.len(),
            c@ == tested(s, all@.subrange(0, i as int), test_view(&g.node)),
        decreases all@.len() - i,
    {
        let n = tree.node(all[i]).unwrap();
        proof {
            assert(all@.subrange(0, i + 1).drop_last() =~= all@.subrange(0, i as int));
        }
        let pass = match &g.node {
            NodeTest::Name(x) => {
                let nm = n.get_name();
                same_str(nm.as_str(), x.as_str())
            },
            NodeTest::Any => true,
            _ => false,
        };
        if pass {
            c.push(all[i]);
        }
        i = i + 1;
    }
    proof {
        assert(all@.subrange(0, i as int) =~= all@);
        lemma_tested_bounds(s, all@, test_view(&g.node));
    }
    match &g.condition {
        None => c,
        Some(pr) => {
            let mut out: Vec<usize> = Vec::new();
            let mut k: usize = 0;
            while k < c.len()
                invariant
                    k <= c@.len(),
                    s == tree.nodes(),
                    forall|j: int| 0 <= j < c@.len() ==> c@[j] < s.len(),
                    out@ == filtered(s, c@, pred_view(pr), k as int),
                decreases c@.len() - k,
            {
                if accept(pr, tree, c[k], k + 1, c.len()) {
                    out.push(c[k]);
                }
                k = k + 1;
            }
            out
        },
    }
}

pub proof fn lemma_tested_bounds(s: Seq<NodeView>, c: Seq<usize>, t: TestV)
    requires
        forall|j: int| 0 <= j < c.len() ==> c[j] < s.len(),
    ensures
        forall|j: int| 0 <= j < tested(s, c, t).len() ==> #[trigger] tested(s, c, t)[j] < s.len(),
    decreases c.len(),
{
    if c.len() > 0 {
        assert forall|j: int| 0 <= j < c.drop_last().len() implies c.drop_last()[j] < s.len() by {
            assert(c.drop_last()[j] == c[j]);
        }
        lemma_tested_bounds(s, c.drop_last(), t);
        let q = tested(s, c.drop_last(), t);
        assert forall|j: int| 0 <= j < tested(s, c, t).len() implies #[trigger] tested(s, c, t)[j] < s.len() by {
            if j < q.len() {
                assert(tested(s, c, t)[j] == q[j]);
            }
        }
    }
}

pub open spec fn ordered(r: Seq<usize>, fwd: bool) -> Seq<usize> {
    if fwd {
        r
    } else {
        r.reverse()
    }
}

/// The results of the steps from `i` on, started at `p`: each step's
/// positions in document order (reversed when `fwd` is false), each followed
/// through the rest of the path before the next.
pub open spec fn expand(s: Seq<NodeView>, segs: Seq<SegV>, p: usize, i: int, fwd: bool) -> Seq<usize>
    decreases segs.len() - i, 1int, 0int,
{
    if i < 0 || i >= segs.len() {
        seq![p]
    } else {
        expand_all(s, segs, ordered(step(s, segs[i], p as int), fwd), i + 1, fwd)
    }
}

pub open spec fn expand_all(s: Seq<NodeView>, segs: Seq<SegV>, xs: Seq<usize>, j: int, fwd: bool) -> Seq<usize>
    decreases segs.len() - j + 1, 0int, xs.len(),
{
    if xs.len() == 0 {
        Seq::empty()
    } else if j < 0 || j > segs.len() {
        xs
    } else {
        expand(s, segs, xs[0], j, fwd) + expand_all(s, segs, xs.drop_first(), j, fwd)
    }
}

/// Number of items a work item will be turned into, itself included.
pub open spec fn work(s: Seq<NodeView>, segs: Seq<SegV>, p: usize, i: int, fwd: bool) -> nat
    decreases segs.len() - i, 1int, 0int,
{
    if i < 0 || i >= segs.len() {
        1
    } else {
        1 + work_all(s, segs, ordered(step(s, segs[i], p as int), fwd), i + 1, fwd)
    }
}

pub open spec fn work_all(s: Seq<NodeView>, segs: Seq<SegV>, xs: Seq<usize>, j: int, fwd: bool) -> nat
    decreases segs.len() - j + 1, 0int, xs.len(),
{
    if xs.len() == 0 {
        0
    } else if j < 0 || j > segs.len() {
        xs.len()
    } else {
        work(s, segs, xs[0], j, fwd) + work_all(s, segs, xs.drop_first(), j, fwd)
    }
}

/// What a stack of work items yields, top first.
pub open spec fn pending(s: Seq<NodeView>, segs: Seq<SegV>, st: Seq<(usize, usize)>, fwd: bool) -> Seq<usize>
    decreases st.len(),
{
    if st.len() == 0 {
        Seq::empty()
    } else {
        expand(s, segs, st.last().0, st.last().1 as int, fwd) + pending(s, segs, st.drop_last(), fwd)
    }
}

pub open spec fn pending_work(s: Seq<NodeView>, segs: Seq<SegV>, st: Seq<(usize, usize)>, fwd: bool) -> nat
    decreases st.len(),
{
    if st.len() == 0 {
        0
    } else {
        work(s, segs, st.last().0, st.last().1 as int, fwd) + pending_work(s, segs, st.drop_last(), fwd)
    }
}

/// The path with its first step made explicit: a leading `.` is dropped, a
/// leading `..` reads from the parent, and a leading name reads like `//name`.
pub open spec fn normalized(segs: Seq<SegV>) -> Seq<SegV> {
    if segs.len() > 0 && segs[0].separator == Separator::Here {
        if segs[0].node is Current {
            segs.drop_first()
        } else if segs[0].node is Parent {
            segs.update(0, SegV { separator: Separator::Child, ..segs[0] })
        } else {
            segs.update(0, SegV { separator: Separator::Desc, ..segs[0] })
        }
    } else {
        segs
    }
}

/// The positions that match `path` read from `pos`, in the query order;
/// nothing when the path does not parse.
pub open spec fn query_results(s: Seq<NodeView>, path: Seq<char>, pos: usize, fwd: bool) -> Seq<usize> {
    match parse_path(path) {
        Some(v) => expand(s, normalized(v), pos, 0, fwd),
        None => Seq::empty(),
    }
}

/// The first item of a sequence, if any.
pub open spec fn first_of(r: Seq<usize>) -> Option<usize> {
    if r.len() > 0 {
        Some(r[0])
    } else {
        None
    }
}

/// Positions that match a path, produced one at a time from a work stack.
pub struct XPathIterator<'a> {
    tree: &'a ETree,
    direction: bool,
    path_list: Vec<Segment>,
    todo_list: Vec<(usize, usize)>,
}

impl<'a> XPathIterator<'a> {
    /// The positions still to come, in order.
    pub closed spec fn remaining(&self) -> Seq<usize> {
        pending(self.tree.nodes(), segs_view(self.path_list@), self.todo_list@, self.direction)
    }

    /// The steps of the path.
    pub closed spec fn segments(&self) -> Seq<SegV> {
        segs_view(self.path_list@)
    }

    pub closed spec fn forward(&self) -> bool {
        self.direction
    }

    pub closed spec fn doc(&self) -> Seq<NodeView> {
        self.tree.nodes()
    }

    /// Starts a query of `path` at `pos`: forward yields document order,
    /// otherwise reverse order. `None` exactly when the path does not derive
    /// from the grammar (see `parse_path`); its first step is made explicit
    /// (see `normalized`).
    pub fn new(tree: &'a ETree, path: &str, pos: usize, dir: bool) -> (r: Option<Self>)
        ensures
            parse_path(path@) is None <==> r is None,
            r matches Some(it) ==> it.doc() == tree.nodes() && it.forward() == dir && it.segments() == normalized(
                parse_path(path@).unwrap(),
            ) && it.remaining() == query_results(tree.nodes(), path@, pos, dir),
    {
        if !ETree::path_ok(path) {
            return None;
        }
        Some(XPathIterator::start(tree, path, pos, dir))
    }

    /// As `new`, with a path that does not parse yielding nothing.
    fn start(tree: &'a ETree, path: &str, pos: usize, dir: bool) -> (r: Self)
        ensures
            r.doc() == tree.nodes(),
            r.forward() == dir,
            r.segments() == match parse_path(path@) {
                Some(v) => normalized(v),
                None => Seq::empty(),
            },
            r.remaining() == query_results(tree.nodes(), path@, pos, dir),
    {
        match crate::xpath::xpath(path) {
            Some(segs) => {
                let mut segs = segs;
                let ghost v = segs_view(segs@);
                if segs[0].separator == Separator::Here {
                    match segs[0].node {
                        NodeTest::Current => {
                            segs.remove(0);
                            assert(segs_view(segs@) =~= v.drop_first());
                        },
                        NodeTest::Parent => {
                            segs[0].separator = Separator::Child;
                            assert(segs_view(segs@) =~= v.update(0, SegV { separator: Separator::Child, ..v[0] }));
                        },
                        _ => {
                            segs[0].separator = Separator::Desc;
                            assert(segs_view(segs@) =~= v.update(0, SegV { separator: Separator::Desc, ..v[0] }));
                        },
                    }
                } else {
                    assert(segs_view(segs@) == v);
                }
                let mut todo: Vec<(usize, usize)> = Vec::new();
                todo.push((pos, 0));
                let r = XPathIterator { tree, direction: dir, path_list: segs, todo_list: todo };
                proof {
                    let sv = segs_view(segs@);
                    let st = r.todo_list@;
                    assert(st.len() == 1);
                    assert(st.last() == (pos, 0usize));
                    assert(st.drop_last() =~= Seq::<(usize, usize)>::empty());
                    assert(pending(tree.nodes(), sv, st.drop_last(), dir) == Seq::<usize>::empty());
                    assert(expand(tree.nodes(), sv, pos, 0, dir) + Seq::<usize>::empty() =~= expand(tree.nodes(), sv, pos, 0, dir));
                    assert(r.remaining() == pending(tree.nodes(), sv, st, dir));
                }
                r
            },
            None => {
                let r = XPathIterator { tree, direction: dir, path_list: Vec::new(), todo_list: Vec::new() };
                assert(r.remaining() =~= Seq::<usize>::empty());
                assert(r.segments() =~= Seq::<SegV>::empty());
                r
            },
        }
    }

    /// The next matching position.
    pub fn next(&mut self) -> (r: Option<usize>)
        ensures
            final(self).doc() == old(self).doc(),
            final(self).segments() == old(self).segments(),
            final(self).forward() == old(self).forward(),
            old(self).remaining().len() == 0 ==> r.is_none() && final(self).remaining().len() == 0,
            old(self).remaining().len() > 0 ==> r == Some(old(self).remaining()[0]) && final(self).remaining()
                == old(self).remaining().drop_first(),
    {
        let ghost s = self.tree.nodes();
        let ghost segs = segs_view(self.path_list@);
        let ghost fwd = self.direction;
        let _l = self.path_list.len();
        while self.todo_list.len() > 0
            invariant
                segs.len() <= usize::MAX,
                s == self.tree.nodes(),
                segs == segs_view(self.path_list@),
                fwd == self.direction,
                self.tree == old(self).tree,
                self.path_list == old(self).path_list,
                self.direction == old(self).direction,
                pending(s, segs, self.todo_list@, fwd) == old(self).remaining(),
            decreases pending_work(s, segs, self.todo_list@, fwd),
        {
            let ghost st = self.todo_list@;
            let item = self.todo_list.pop().unwrap();
            proof {
                assert(self.todo_list@ == st.drop_last());
            }
            if item.1 >= self.path_list.len() {
                proof {
                    assert(expand(s, segs, item.0, item.1 as int, fwd) == seq![item.0]);
                    assert(old(self).remaining() == seq![item.0] + pending(s, segs, self.todo_list@, fwd));
                    assert(old(self).remaining().drop_first() =~= pending(s, segs, self.todo_list@, fwd));
                }
                return Some(item.0);
            }
            let result = find_step(self.tree, &self.path_list[item.1], item.0);
            let ghost o = ordered(result@, fwd);
            let ghost rest = self.todo_list@;
            let n = result.len();
            let mut k = n;
            proof {
                assert(o.subrange(n as int, n as int) =~= Seq::<usize>::empty());
                assert(rest =~= rest);
            }
            while k > 0
                invariant
                    k <= n,
                    segs.len() <= usize::MAX,
                    n == result@.len(),
                    o.len() == n,
                    o == ordered(result@, fwd),
                    item.1 < segs.len(),
                    s == self.tree.nodes(),
                    segs == segs_view(self.path_list@),
                    fwd == self.direction,
                    self.tree == old(self).tree,
                    self.path_list == old(self).path_list,
                    self.direction == old(self).direction,
                    pending(s, segs, self.todo_list@, fwd) == expand_all(s, segs, o.subrange(k as int, n as int), item.1 + 1, fwd)
                        + pending(s, segs, rest, fwd),
                    pending_work(s, segs, self.todo_list@, fwd) == work_all(s, segs, o.subrange(k as int, n as int), item.1 + 1, fwd)
                        + pending_work(s, segs, rest, fwd),
                decreases k,
            {
                let x = if self.direction { result[k - 1] } else { result[n - k] };
                assert(x == o[k - 1]);
                let ghost before = self.todo_list@;
                self.todo_list.push((x, item.1 + 1));
                proof {
                    assert(self.todo_list@.drop_last() == before);
                    let tail = o.subrange(k as int, n as int);
                    let wide = o.subrange(k - 1, n as int);
                    assert(wide.drop_first() =~= tail);
                    assert(wide[0] == x);
                    assert(expand_all(s, segs, wide, item.1 + 1, fwd) == expand(s, segs, x, item.1 + 1, fwd) + expand_all(s, segs, tail, item.1 + 1, fwd));
                    assert(pending(s, segs, self.todo_list@, fwd) =~= expand_all(s, segs, wide, item.1 + 1, fwd)
                        + pending(s, segs, rest, fwd));
                }
                k = k - 1;
            }
            proof {
                assert(o.subrange(0, n as int) =~= o);
                assert(pending(s, segs, st, fwd) == expand(s, segs, item.0, item.1 as int, fwd) + pending(s, segs, rest, fwd));
                assert(pending(s, segs, self.todo_list@, fwd) =~= pending(s, segs, st, fwd));
                assert(pending_work(s, segs, st, fwd) == work(s, segs, item.0, item.1 as int, fwd) + pending_work(s, segs, rest, fwd));
            }
        }
        None
    }
}

impl ETree {
    /// The first position that matches `path`, read from the root.
    pub fn find(&self, path: &str) -> (r: Option<usize>)
        ensures
            r == first_of(query_results(self.nodes(), path@, first_root(self), true)),
    {
        let p = self.root();
        assert(p == first_root(self));
        self.find_at(path, p)
    }

    /// The first position that matches `path`, read from `pos`.
    pub fn find_at(&self, path: &str, pos: usize) -> (r: Option<usize>)
        ensures
            r == first_of(query_results(self.nodes(), path@, pos, true)),
    {
        let mut it = self.find_at_iter(path, pos);
        it.next()
    }

    /// The positions that match `path` from the root, in document order.
    pub fn find_iter(&self, path: &str) -> (r: XPathIterator)
        ensures
            r.doc() == self.nodes(),
            r.forward(),
            r.remaining() == query_results(self.nodes(), path@, first_root(self), true),
    {
        let p = self.root();
        assert(p == first_root(self));
        self.find_at_iter(path, p)
    }

    /// The positions that match `path` from `pos`, in document order.
    pub fn find_at_iter(&self, path: &str, pos: usize) -> (r: XPathIterator)
        ensures
            r.doc() == self.nodes(),
            r.forward(),
            r.remaining() == query_results(self.nodes(), path@, pos, true),
    {
        XPathIterator::start(self, path, pos, true)
    }

    /// The last position that matches `path`, read from the root.
    pub fn rfind(&self, path: &str) -> (r: Option<usize>)
        ensures
            r == first_of(query_results(self.nodes(), path@, first_root(self), false)),
    {
        let p = self.root();
        assert(p == first_root(self));
        self.rfind_at(path, p)
    }

    /// The last position that matches `path`, read from `pos`.
    pub fn rfind_at(&self, path: &str, pos: usize) -> (r: Option<usize>)
        ensures
            r == first_of(query_results(self.nodes(), path@, pos, false)),
    {
        let mut it = self.rfind_at_iter(path, pos);
        it.next()
    }

    /// The positions that match `path` from the root, in reverse order.
    pub fn rfind_iter(&self, path: &str) -> (r: XPathIterator)
        ensures
            r.doc() == self.nodes(),
            !r.forward(),
            r.remaining() == query_results(self.nodes(), path@, first_root(self), false),
    {
        let p = self.root();
        assert(p == first_root(self));
        self.rfind_at_iter(path, p)
    }

    /// The positions that match `path` from `pos`, in reverse order.
    pub fn rfind_at_iter(&self, path: &str, pos: usize) -> (r: XPathIterator)
        ensures
            r.doc() == self.nodes(),
            !r.forward(),
            r.remaining() == query_results(self.nodes(), path@, pos, false),
    {
        XPathIterator::start(self, path, pos, false)
    }

    /// Whether `path` derives from the path grammar; a query of a path that
    /// does not is refused by `try_find_at`.
    pub fn path_ok(path: &str) -> (r: bool)
        ensures
            r == parse_path(path@) is Some,
    {
        crate::xpath::xpath(path).is_some()
    }

    /// The first position that matches `path` read from `pos`, or the
    /// failure to parse the path.
    pub fn try_find_at(&self, path: &str, pos: usize) -> (r: Result<Option<usize>, QueryError>)
        ensures
            parse_path(path@) is None ==> r == Err::<Option<usize>, QueryError>(QueryError::Malformed),
            parse_path(path@) is Some ==> r == Ok::<Option<usize>, QueryError>(first_of(query_results(self.nodes(), path@, pos, true))),
    {
        if !ETree::path_ok(path) {
            return Err(QueryError::Malformed);
        }
        Ok(self.find_at(path, pos))
    }
}

impl ETree {
    /// The first position that matches `path` read from the root, or the
    /// failure to parse the path.
    pub fn try_find(&self, path: &str) -> (r: Result<Option<usize>, QueryError>)
        ensures
            parse_path(path@) is None ==> r == Err::<Option<usize>, QueryError>(QueryError::Malformed),
            parse_path(path@) is Some ==> r == Ok::<Option<usize>, QueryError>(first_of(query_results(self.nodes(), path@, first_root(self), true))),
    {
        let p = self.root();
        assert(p == first_root(self));
        self.try_find_at(path, p)
    }

    /// The last position that matches `path` read from `pos`, or the
    /// failure to parse the path.
    pub fn try_rfind_at(&self, path: &str, pos: usize) -> (r: Result<Option<usize>, QueryError>)
        ensures
            parse_path(path@) is None ==> r == Err::<Option<usize>, QueryError>(QueryError::Malformed),
            parse_path(path@) is Some ==> r == Ok::<Option<usize>, QueryError>(first_of(query_results(self.nodes(), path@, pos, false))),
    {
        if !ETree::path_ok(path) {
            return Err(QueryError::Malformed);
        }
        Ok(self.rfind_at(path, pos))
    }
}

/// A path that does not derive from the path grammar.
#[derive(PartialEq, Eq, Structural, Clone, Copy, Debug)]
pub enum QueryError {
    Malformed,
}

pub open spec fn first_root(t: &ETree) -> usize {
    crate::tree::first_element(t.nodes(), 0) as usize
}

proof fn lemma_expand_all_append(s: Seq<NodeView>, segs: Seq<SegV>, a: Seq<usize>, b: Seq<usize>, j: int, fwd: bool)
    ensures
        expand_all(s, segs, a + b, j, fwd) == expand_all(s, segs, a, j, fwd) + expand_all(s, segs, b, j, fwd),
    decreases a.len(),
{
    if a.len() == 0 {
        assert(a + b =~= b);
        assert(Seq::<usize>::empty() + expand_all(s, segs, b, j, fwd) =~= expand_all(s, segs, b, j, fwd));
    } else if j < 0 || j > segs.len() {
        if b.len() == 0 {
            assert(a + b =~= a);
            assert(expand_all(s, segs, a, j, fwd) + Seq::<usize>::empty() =~= expand_all(s, segs, a, j, fwd));
        }
    } else {
        assert((a + b).drop_first() =~= a.drop_first() + b);
        assert((a + b)[0] == a[0]);
        lemma_expand_all_append(s, segs, a.drop_first(), b, j, fwd);
        assert(expand_all(s, segs, a + b, j, fwd) =~= expand_all(s, segs, a, j, fwd) + expand_all(s, segs, b, j, fwd));
    }
}

proof fn lemma_expand_rev(s: Seq<NodeView>, segs: Seq<SegV>, p: usize, i: int)
    ensures
        expand(s, segs, p, i, false) == expand(s, segs, p, i, true).reverse(),
    decreases segs.len() - i, 1int, 0int,
{
    if i < 0 || i >= segs.len() {
        assert(seq![p].reverse() =~= seq![p]);
    } else {
        let r = step(s, segs[i], p as int);
        lemma_expand_all_rev(s, segs, r, i + 1);
    }
}

proof fn lemma_expand_all_rev(s: Seq<NodeView>, segs: Seq<SegV>, xs: Seq<usize>, j: int)
    ensures
        expand_all(s, segs, xs.reverse(), j, false) == expand_all(s, segs, xs, j, true).reverse(),
    decreases segs.len() - j + 1, 0int, xs.len(),
{
    if xs.len() == 0 {
        assert(xs.reverse() =~= Seq::<usize>::empty());
        assert(Seq::<usize>::empty().reverse() =~= Seq::<usize>::empty());
    } else if j < 0 || j > segs.len() {
    } else {
        let x = xs[0];
        let t = xs.drop_first();
        assert(xs.reverse() =~= t.reverse() + seq![x]);
        lemma_expand_all_append(s, segs, t.reverse(), seq![x], j, false);
        lemma_expand_all_rev(s, segs, t, j);
        lemma_expand_rev(s, segs, x, j);
        let ex = expand(s, segs, x, j, true);
        let et = expand_all(s, segs, t, j, true);
        assert(seq![x].drop_first() =~= Seq::<usize>::empty());
        assert(expand_all(s, segs, seq![x].drop_first(), j, false) == Seq::<usize>::empty());
        assert(seq![x][0] == x);
        assert(expand(s, segs, x, j, false) + Seq::<usize>::empty() =~= expand(s, segs, x, j, false));
        assert(expand_all(s, segs, seq![x], j, false) =~= expand(s, segs, x, j, false));
        assert((ex + et).reverse() =~= et.reverse() + ex.reverse());
    }
}

/// A query read in reverse yields the forward results in reverse order.
pub proof fn lemma_reverse_query(s: Seq<NodeView>, path: Seq<char>, pos: usize)
    ensures
        query_results(s, path, pos, false) == query_results(s, path, pos, true).reverse(),
{
    match parse_path(path) {
        Some(v) => lemma_expand_rev(s, normalized(v), pos, 0),
        None => {
            assert(Seq::<usize>::empty().reverse() =~= Seq::<usize>::empty());
        },
    }
}

} // verus!
