use vstd::prelude::*;
use vstd::string::*;

verus! {

/// How a step reaches its candidates: the start itself (`""`), its
/// children (`/`) or its descendants (`//`).
#[derive(PartialEq, Eq, Structural, Clone, Copy, Debug)]
pub enum Separator {
    Here,
    Child,
    Desc,
}

/// What a step's candidates must be.
pub enum NodeTest {
    /// Elements of this qualified name.
    Name(String),
    /// `*`: any node.
    Any,
    /// `.`: the context node.
    Current,
    /// `..`: the parent of the context node.
    Parent,
}

pub enum Operand {
    /// `text()`
    Text,
    /// `@name`
    Attr(String),
    /// `name`: the text of a child with that name.
    Child(String),
    Num(i64),
    Lit(String),
    /// `position()`
    Position,
    /// `last()`
    Last,
    /// `last()-n`
    LastMinus(i64),
}

#[derive(PartialEq, Eq, Structural, Clone, Copy, Debug)]
pub enum CmpOp {
    Eq,
    Ne,
    Lt,
    Le,
    Gt,
    Ge,
}

pub enum Predicate {
    Or(Box<Predicate>, Box<Predicate>),
    And(Box<Predicate>, Box<Predicate>),
    Cmp(Operand, CmpOp, Operand),
    /// `@name`: the attribute is present.
    HasAttr(String),
    /// `@*`: some attribute is present.
    AnyAttr,
}

/// One step of a path.
pub struct Segment {
    pub separator: Separator,
    pub node: NodeTest,
    pub condition: Option<Predicate>,
}

pub open spec fn is_digit(c: char) -> bool {
    '0' <= c <= '9'
}

pub open spec fn is_name_start(c: char) -> bool {
    ('a' <= c <= 'z') || ('A' <= c <= 'Z') || c == '_'
}

pub open spec fn is_name_char(c: char) -> bool {
    is_name_start(c) || is_digit(c) || c == '-' || c == ':' || c == '.'
}

pub open spec fn is_word_char(c: char) -> bool {
    is_name_start(c) || is_digit(c)
}

/// An operand as a mathematical value.
pub enum OpV {
    Text,
    Attr(Seq<char>),
    Child(Seq<char>),
    Num(int),
    Lit(Seq<char>),
    Position,
    Last,
    LastMinus(int),
}

/// A predicate as a mathematical value.
pub enum PredV {
    Or(Box<PredV>, Box<PredV>),
    And(Box<PredV>, Box<PredV>),
    Cmp(OpV, CmpOp, OpV),
    HasAttr(Seq<char>),
    AnyAttr,
}

pub enum TestV {
    Name(Seq<char>),
    Any,
    Current,
    Parent,
}

/// A step as a mathematical value.
pub struct SegV {
    pub separator: Separator,
    pub node: TestV,
    pub condition: Option<PredV>,
}

pub open spec fn op_view(o: &Operand) -> OpV {
    match o {
        Operand::Text => OpV::Text,
        Operand::Attr(k) => OpV::Attr(k@),
        Operand::Child(t) => OpV::Child(t@),
        Operand::Num(v) => OpV::Num(*v as int),
        Operand::Lit(x) => OpV::Lit(x@),
        Operand::Position => OpV::Position,
        Operand::Last => OpV::Last,
        Operand::LastMinus(v) => OpV::LastMinus(*v as int),
    }
}

pub open spec fn pred_view(p: &Predicate) -> PredV
    decreases p,
{
    match p {
        Predicate::Or(a, b) => PredV::Or(Box::new(pred_view(a)), Box::new(pred_view(b))),
        Predicate::And(a, b) => PredV::And(Box::new(pred_view(a)), Box::new(pred_view(b))),
        Predicate::Cmp(a, op, b) => PredV::Cmp(op_view(a), *op, op_view(b)),
        Predicate::HasAttr(k) => PredV::HasAttr(k@),
        Predicate::AnyAttr => PredV::AnyAttr,
    }
}

pub open spec fn test_view(t: &NodeTest) -> TestV {
    match t {
        NodeTest::Name(x) => TestV::Name(x@),
        NodeTest::Any => TestV::Any,
        NodeTest::Current => TestV::Current,
        NodeTest::Parent => TestV::Parent,
    }
}

pub open spec fn seg_view(g: Segment) -> SegV {
    SegV {
        separator: g.separator,
        node: test_view(&g.node),
        condition: match g.condition {
            Some(p) => Some(pred_view(&p)),
            None => None,
        },
    }
}

pub open spec fn segs_view(v: Seq<Segment>) -> Seq<SegV> {
    v.map_values(|g: Segment| seg_view(g))
}

/// First position at or after `i` that is not a space.
pub open spec fn sp_skip(c: Seq<char>, i: int) -> int
    decreases c.len() - i,
{
    if 0 <= i < c.len() && c[i] == ' ' {
        sp_skip(c, i + 1)
    } else {
        i
    }
}

pub open spec fn sp_name_run(c: Seq<char>, j: int) -> int
    decreases c.len() - j,
{
    if 0 <= j < c.len() && is_name_char(c[j]) {
        sp_name_run(c, j + 1)
    } else {
        j
    }
}

/// End of the name that starts at `i`: a letter or `_`, then letters,
/// digits, `_`, `-`, `:` and `.`; `i` when there is none.
pub open spec fn sp_name_end(c: Seq<char>, i: int) -> int {
    if 0 <= i < c.len() && is_name_start(c[i]) {
        sp_name_run(c, i + 1)
    } else {
        i
    }
}

/// Whether the word `w` stands at `i`, not followed by a letter, digit or `_`.
pub open spec fn sp_keyword(c: Seq<char>, i: int, w: Seq<char>) -> bool {
    0 <= i && i + w.len() <= c.len() && c.subrange(i, i + w.len()) == w && !(i + w.len() < c.len()
        && is_word_char(c[i + w.len()]))
}

/// A run of digits from `j`, `v` being the value read so far from `i`;
/// refused once the value reaches 10^17 with a digit still to come.
pub open spec fn sp_digits(c: Seq<char>, i: int, j: int, v: int) -> Option<(int, int)>
    decreases c.len() - j,
{
    if 0 <= j < c.len() && is_digit(c[j]) {
        if v >= 100_000_000_000_000_000 {
            None
        } else {
            sp_digits(c, i, j + 1, v * 10 + (c[j] as u32 - '0' as u32) as int)
        }
    } else if j == i {
        None
    } else {
        Some((v, j))
    }
}

pub open spec fn sp_number(c: Seq<char>, i: int) -> Option<(int, int)> {
    sp_digits(c, i, i, 0)
}

/// First position at or after `j` that holds `q`, or the length.
pub open spec fn sp_find(c: Seq<char>, q: char, j: int) -> int
    decreases c.len() - j,
{
    if 0 <= j < c.len() && c[j] != q {
        sp_find(c, q, j + 1)
    } else {
        j
    }
}

pub open spec fn kw_text() -> Seq<char> {
    seq!['t', 'e', 'x', 't']
}

pub open spec fn kw_position() -> Seq<char> {
    seq!['p', 'o', 's', 'i', 't', 'i', 'o', 'n']
}

pub open spec fn kw_last() -> Seq<char> {
    seq!['l', 'a', 's', 't']
}

pub open spec fn kw_and() -> Seq<char> {
    seq!['a', 'n', 'd']
}

pub open spec fn kw_or() -> Seq<char> {
    seq!['o', 'r']
}

pub open spec fn at(c: Seq<char>, i: int, ch: char) -> bool {
    0 <= i < c.len() && c[i] == ch
}

/// `operand := "@" name | quoted string | ["-"] digits | "text()" |
/// "position()" | "last()" ["-" digits] | name`.
pub open spec fn sp_operand(c: Seq<char>, i: int) -> Option<(OpV, int)> {
    if at(c, i, '@') {
        let e = sp_name_end(c, i + 1);
        if e == i + 1 {
            None
        } else {
            Some((OpV::Attr(c.subrange(i + 1, e)), e))
        }
    } else if at(c, i, '\'') || at(c, i, '"') {
        let j = sp_find(c, c[i], i + 1);
        if j >= c.len() {
            None
        } else {
            Some((OpV::Lit(c.subrange(i + 1, j)), j + 1))
        }
    } else if at(c, i, '-') {
        match sp_number(c, i + 1) {
            Some((v, e)) => Some((OpV::Num(-v), e)),
            None => None,
        }
    } else if sp_number(c, i) is Some {
        let (v, e) = sp_number(c, i).unwrap();
        Some((OpV::Num(v), e))
    } else {
        let e = sp_name_end(c, i);
        if e == i {
            None
        } else if at(c, e, '(') && at(c, e + 1, ')') {
            let f = e + 2;
            if sp_keyword(c, i, kw_text()) {
                Some((OpV::Text, f))
            } else if sp_keyword(c, i, kw_position()) {
                Some((OpV::Position, f))
            } else if sp_keyword(c, i, kw_last()) {
                let g = sp_skip(c, f);
                if at(c, g, '-') {
                    match sp_number(c, sp_skip(c, g + 1)) {
                        Some((v, e2)) => Some((OpV::LastMinus(v), e2)),
                        None => None,
                    }
                } else {
                    Some((OpV::Last, f))
                }
            } else {
                None
            }
        } else {
            Some((OpV::Child(c.subrange(i, e)), e))
        }
    }
}

pub open spec fn sp_cmp(c: Seq<char>, i: int) -> Option<(CmpOp, int)> {
    if at(c, i, '=') {
        Some((CmpOp::Eq, i + 1))
    } else if at(c, i, '!') && at(c, i + 1, '=') {
        Some((CmpOp::Ne, i + 2))
    } else if at(c, i, '<') && at(c, i + 1, '=') {
        Some((CmpOp::Le, i + 2))
    } else if at(c, i, '<') {
        Some((CmpOp::Lt, i + 1))
    } else if at(c, i, '>') && at(c, i + 1, '=') {
        Some((CmpOp::Ge, i + 2))
    } else if at(c, i, '>') {
        Some((CmpOp::Gt, i + 1))
    } else {
        None
    }
}

/// An operand standing alone: a name of an attribute tests that it is
/// present; a number or `last()` (less a number) is a position.
pub open spec fn lone(a: OpV, e: int) -> Option<(PredV, int)> {
    match a {
        OpV::Attr(k) => Some((PredV::HasAttr(k), e)),
        OpV::Num(v) => Some((PredV::Cmp(OpV::Position, CmpOp::Eq, OpV::Num(v)), e)),
        OpV::Last => Some((PredV::Cmp(OpV::Position, CmpOp::Eq, OpV::Last), e)),
        OpV::LastMinus(v) => Some((PredV::Cmp(OpV::Position, CmpOp::Eq, OpV::LastMinus(v)), e)),
        _ => None,
    }
}

/// `term := "(" expr ")" | "@*" | operand [cmp operand]`, spaces allowed
/// between the parts.
pub open spec fn sp_term(c: Seq<char>, i0: int) -> Option<(PredV, int)>
    decreases c.len() - i0, 1int,
{
    let i = if sp_skip(c, i0) < i0 { i0 } else { sp_skip(c, i0) };
    if at(c, i, '(') {
        match sp_expr(c, i + 1) {
            Some((p, e0)) => {
                let e = sp_skip(c, e0);
                if at(c, e, ')') {
                    Some((p, e + 1))
                } else {
                    None
                }
            },
            None => None,
        }
    } else if at(c, i, '@') && at(c, i + 1, '*') {
        Some((PredV::AnyAttr, i + 2))
    } else {
        match sp_operand(c, i) {
            Some((a, e)) => {
                let g = sp_skip(c, e);
                match sp_cmp(c, g) {
                    Some((op, h)) => match sp_operand(c, sp_skip(c, h)) {
                        Some((b, f)) => Some((PredV::Cmp(a, op, b), f)),
                        None => None,
                    },
                    None => lone(a, e),
                }
            },
            None => None,
        }
    }
}

/// `and := term ("and" term)*`
pub open spec fn sp_and(c: Seq<char>, i: int) -> Option<(PredV, int)>
    decreases c.len() - i, 2int,
{
    match sp_term(c, i) {
        Some((p, e)) => if e <= i || e > c.len() {
            None
        } else {
            sp_and_more(c, p, e)
        },
        None => None,
    }
}

pub open spec fn sp_and_more(c: Seq<char>, p: PredV, e: int) -> Option<(PredV, int)>
    decreases c.len() - e, 3int,
{
    let g = sp_skip(c, e);
    if g < e || !sp_keyword(c, g, kw_and()) {
        Some((p, e))
    } else {
        match sp_term(c, g + 3) {
            Some((q, f)) => if f <= e || f > c.len() {
                None
            } else {
                sp_and_more(c, PredV::And(Box::new(p), Box::new(q)), f)
            },
            None => None,
        }
    }
}

/// `expr := and ("or" and)*`
pub open spec fn sp_expr(c: Seq<char>, i: int) -> Option<(PredV, int)>
    decreases c.len() - i, 4int,
{
    match sp_and(c, i) {
        Some((p, e)) => if e <= i || e > c.len() {
            None
        } else {
            sp_expr_more(c, p, e)
        },
        None => None,
    }
}

pub open spec fn sp_expr_more(c: Seq<char>, p: PredV, e: int) -> Option<(PredV, int)>
    decreases c.len() - e, 5int,
{
    let g = sp_skip(c, e);
    if g < e || !sp_keyword(c, g, kw_or()) {
        Some((p, e))
    } else {
        match sp_and(c, g + 2) {
            Some((q, f)) => if f <= e || f > c.len() {
                None
            } else {
                sp_expr_more(c, PredV::Or(Box::new(p), Box::new(q)), f)
            },
            None => None,
        }
    }
}

/// `segment := ("//" | "/" | "") ( ".." | "." | "*" | name ) ["[" expr "]"]`
pub open spec fn sp_segment(c: Seq<char>, i: int) -> Option<(SegV, int)> {
    let (sep, j) = if at(c, i, '/') && at(c, i + 1, '/') {
        (Separator::Desc, i + 2)
    } else if at(c, i, '/') {
        (Separator::Child, i + 1)
    } else {
        (Separator::Here, i)
    };
    let (node, k, ok) = if at(c, j, '.') && at(c, j + 1, '.') {
        (TestV::Parent, j + 2, true)
    } else if at(c, j, '.') {
        (TestV::Current, j + 1, true)
    } else if at(c, j, '*') {
        (TestV::Any, j + 1, true)
    } else {
        let e = sp_name_end(c, j);
        (TestV::Name(c.subrange(j, e)), e, e != j)
    };
    if !ok {
        None
    } else if at(c, k, '[') {
        match sp_expr(c, k + 1) {
            Some((p, e0)) => {
                let e = sp_skip(c, e0);
                if at(c, e, ']') {
                    Some((SegV { separator: sep, node, condition: Some(p) }, e + 1))
                } else {
                    None
                }
            },
            None => None,
        }
    } else {
        Some((SegV { separator: sep, node, condition: None }, k))
    }
}

/// The steps of the path from `i` on, when the rest of the path derives
/// from the grammar.
pub open spec fn sp_steps(c: Seq<char>, i: int) -> Option<Seq<SegV>>
    decreases c.len() - i,
{
    if i >= c.len() || i < 0 {
        Some(Seq::empty())
    } else {
        match sp_segment(c, i) {
            Some((g, e)) => if e <= i || e > c.len() {
                None
            } else {
                match sp_steps(c, e) {
                    Some(rest) => Some(seq![g] + rest),
                    None => None,
                }
            },
            None => None,
        }
    }
}

/// The steps of a path: `None` when the path is empty or does not derive
/// from the grammar.
pub open spec fn parse_path(c: Seq<char>) -> Option<Seq<SegV>> {
    if c.len() == 0 || c.len() + 4 > usize::MAX {
        None
    } else {
        sp_steps(c, 0)
    }
}

/// The characters of `s`.
pub fn chars_of(s: &str) -> (r: Vec<char>)
    ensures
        r@ == s@,
{
    let n = s.unicode_len();
    let mut r: Vec<char> = Vec::new();
    let mut i: usize = 0;
    while i < n
        invariant
            n == s@.len(),
            i <= n,
            r@ == s@.subrange(0, i as int),
        decreases n - i,
    {
        r.push(s.get_char(i));
        i = i + 1;
        assert(r@ =~= s@.subrange(0, i as int));
    }
    assert(r@ =~= s@);
    r
}

/// A reader over the characters of a path.
struct Cursor<'a> {
    src: &'a str,
    c: Vec<char>,
}

impl<'a> Cursor<'a> {
    spec fn ok(&self) -> bool {
        self.c@ == self.src@ && self.c@.len() + 4 <= usize::MAX
    }

    fn at(&self, i: usize, ch: char) -> (r: bool)
        ensures
            r == (i < self.c@.len() && self.c@[i as int] == ch),
    {
        i < self.c.len() && self.c[i] == ch
    }

    fn skip_space(&self, i: usize) -> (r: usize)
        requires
            self.ok(),
            i <= self.c@.len(),
        ensures
            i <= r <= self.c@.len(),
            r == sp_skip(self.c@, i as int),
    {
        let mut j = i;
        while j < self.c.len() && self.c[j] == ' '
            invariant
                i <= j <= self.c@.len(),
                sp_skip(self.c@, i as int) == sp_skip(self.c@, j as int),
            decreases self.c@.len() - j,
        {
            j = j + 1;
        }
        j
    }

    /// End of the name that starts at `i` (`i` when there is none).
    fn name_end(&self, i: usize) -> (r: usize)
        requires
            self.ok(),
            i <= self.c@.len(),
        ensures
            i <= r <= self.c@.len(),
            r > i ==> is_name_start(self.c@[i as int]),
            forall|k: int| i <= k < r ==> is_name_char(#[trigger] self.c@[k]),
            r == sp_name_end(self.c@, i as int),
    {
        if i >= self.c.len() || !(('a' <= self.c[i] && self.c[i] <= 'z') || ('A' <= self.c[i] && self.c[i] <= 'Z') || self.c[i] == '_') {
            return i;
        }
        let mut j = i + 1;
        while j < self.c.len() && name_char(self.c[j])
            invariant
                i < j <= self.c@.len(),
                is_name_start(self.c@[i as int]),
                forall|k: int| i <= k < j ==> is_name_char(#[trigger] self.c@[k]),
                sp_name_end(self.c@, i as int) == sp_name_run(self.c@, j as int),
            decreases self.c@.len() - j,
        {
            j = j + 1;
        }
        j
    }

    fn text(&self, a: usize, b: usize) -> (r: String)
        requires
            self.ok(),
            a <= b <= self.c@.len(),
        ensures
            r@ == self.c@.subrange(a as int, b as int),
    {
        String::from_str(self.src.substring_char(a, b))
    }

    /// Whether the word `w` stands at `i`, not followed by a name character.
    fn keyword(&self, i: usize, w: &str) -> (r: bool)
        requires
            self.ok(),
            i <= self.c@.len(),
        ensures
            r ==> i + w@.len() <= self.c@.len(),
            r == sp_keyword(self.c@, i as int, w@),
    {
        let n = w.unicode_len();
        if n > self.c.len() - i {
            return false;
        }
        let mut k: usize = 0;
        while k < n
            invariant
                self.ok(),
                n == w@.len(),
                i + n <= self.c@.len(),
                k <= n,
                forall|x: int| 0 <= x < k ==> self.c@[i + x] == w@[x],
            decreases n - k,
        {
            assert(i + k < self.c@.len());
            if self.c[i + k] != w.get_char(k) {
                assert(self.c@.subrange(i as int, i + n)[k as int] != w@[k as int]);
                return false;
            }
            k = k + 1;
        }
        let e = i + n;
        assert(self.c@.subrange(i as int, e as int) =~= w@);
        !(e < self.c.len() && {
            let ch = self.c[e];
            ('a' <= ch && ch <= 'z') || ('A' <= ch && ch <= 'Z') || ch == '_' || ('0' <= ch && ch <= '9')
        })
    }

    /// A run of digits at `i`, as a number; at most 18 digits.
    fn number(&self, i: usize) -> (r: Option<(i64, usize)>)
        requires
            self.ok(),
            i <= self.c@.len(),
        ensures
            r matches Some((v, e)) ==> i < e <= self.c@.len() && 0 <= v,
            r matches Some((x, e)) ==> sp_number(self.c@, i as int) == Some((x as int, e as int)),
            r is None ==> sp_number(self.c@, i as int) is None,
    {
        let mut j = i;
        let mut v: i64 = 0;
        while j < self.c.len() && '0' <= self.c[j] && self.c[j] <= '9'
            invariant
                i <= j <= self.c@.len(),
                0 <= v < 1_000_000_000_000_000_000,
                sp_number(self.c@, i as int) == sp_digits(self.c@, i as int, j as int, v as int),
            decreases self.c@.len() - j,
        {
            if v >= 100_000_000_000_000_000 {
                return None;
            }
            let d = (self.c[j] as u32 - '0' as u32) as i64;
            v = v * 10 + d;
            j = j + 1;
        }
        if j == i {
            None
        } else {
            Some((v, j))
        }
    }

    fn operand(&self, i: usize) -> (r: Option<(Operand, usize)>)
        requires
            self.ok(),
            i <= self.c@.len(),
        ensures
            r matches Some((_, e)) ==> i < e <= self.c@.len(),
            match sp_operand(self.c@, i as int) {
                Some((a, e)) => r matches Some((o, e2)) && op_view(&o) == a && e2 == e,
                None => r is None,
            },
    {
        proof {
            reveal_strlit("text");
            reveal_strlit("position");
            reveal_strlit("last");
            assert("text"@ =~= kw_text());
            assert("position"@ =~= kw_position());
            assert("last"@ =~= kw_last());
        }
        if self.at(i, '@') {
            let e = self.name_end(i + 1);
            if e == i + 1 {
                return None;
            }
            return Some((Operand::Attr(self.text(i + 1, e)), e));
        }
        if self.at(i, '\'') || self.at(i, '"') {
            let q = self.c[i];
            let mut j = i + 1;
            while j < self.c.len() && self.c[j] != q
                invariant
                    i < j <= self.c@.len(),
                    q == self.c@[i as int],
                    sp_find(self.c@, q, i + 1) == sp_find(self.c@, q, j as int),
                decreases self.c@.len() - j,
            {
                j = j + 1;
            }
            if j >= self.c.len() {
                return None;
            }
            return Some((Operand::Lit(self.text(i + 1, j)), j + 1));
        }
        if self.at(i, '-') {
            return match self.number(i + 1) {
                Some((v, e)) => Some((Operand::Num(-v), e)),
                None => None,
            };
        }
        if let Some((v, e)) = self.number(i) {
            return Some((Operand::Num(v), e));
        }
        let e = self.name_end(i);
        if e == i {
            return None;
        }
        if self.at(e, '(') && self.at(e + 1, ')') {
            let f = e + 2;
            if self.keyword(i, "text") {
                return Some((Operand::Text, f));
            } else if self.keyword(i, "position") {
                return Some((Operand::Position, f));
            } else if self.keyword(i, "last") {
                let g = self.skip_space(f);
                if self.at(g, '-') {
                    let h = self.skip_space(g + 1);
                    if let Some((v, e2)) = self.number(h) {
                        return Some((Operand::LastMinus(v), e2));
                    }
                    return None;
                }
                return Some((Operand::Last, f));
            }
            return None;
        }
        Some((Operand::Child(self.text(i, e)), e))
    }

    fn cmp_op(&self, i: usize) -> (r: Option<(CmpOp, usize)>)
        requires
            self.ok(),
            i <= self.c@.len(),
        ensures
            r matches Some((_, e)) ==> i < e <= self.c@.len(),
            match sp_cmp(self.c@, i as int) {
                Some((op, e)) => r == Some((op, e as usize)),
                None => r is None,
            },
    {
        if self.at(i, '=') {
            Some((CmpOp::Eq, i + 1))
        } else if self.at(i, '!') && self.at(i + 1, '=') {
            Some((CmpOp::Ne, i + 2))
        } else if self.at(i, '<') && self.at(i + 1, '=') {
            Some((CmpOp::Le, i + 2))
        } else if self.at(i, '<') {
            Some((CmpOp::Lt, i + 1))
        } else if self.at(i, '>') && self.at(i + 1, '=') {
            Some((CmpOp::Ge, i + 2))
        } else if self.at(i, '>') {
            Some((CmpOp::Gt, i + 1))
        } else {
            None
        }
    }

    /// `term := "(" expr ")" | "@*" | "@" name | operand (cmp operand)?`; an
    /// operand alone is a position: `[2]`, `[last()]`, `[last()-1]`.
    fn term(&self, i: usize) -> (r: Option<(Predicate, usize)>)
        requires
            self.ok(),
            i <= self.c@.len(),
        ensures
            r matches Some((_, e)) ==> i < e <= self.c@.len(),
            match sp_term(self.c@, i as int) {
                Some((p, e)) => r matches Some((q, e2)) && pred_view(&q) == p && e2 == e,
                None => r is None,
            },
        decreases self.c@.len() - i, 0nat,
    {
        let i = self.skip_space(i);
        if self.at(i, '(') {
            return match self.expr(i + 1) {
                Some((p, e)) => {
                    let e = self.skip_space(e);
                    if self.at(e, ')') {
                        Some((p, e + 1))
                    } else {
                        None
                    }
                },
                None => None,
            };
        }
        if self.at(i, '@') && self.at(i + 1, '*') {
            return Some((Predicate::AnyAttr, i + 2));
        }
        let (a, e) = match self.operand(i) {
            Some(x) => x,
            None => return None,
        };
        let g = self.skip_space(e);
        match self.cmp_op(g) {
            Some((op, h)) => {
                let h = self.skip_space(h);
                match self.operand(h) {
                    Some((b, f)) => Some((Predicate::Cmp(a, op, b), f)),
                    None => None,
                }
            },
            None => match a {
                Operand::Attr(k) => Some((Predicate::HasAttr(k), e)),
                Operand::Num(v) => Some((Predicate::Cmp(Operand::Position, CmpOp::Eq, Operand::Num(v)), e)),
                Operand::Last => Some((Predicate::Cmp(Operand::Position, CmpOp::Eq, Operand::Last), e)),
                Operand::LastMinus(v) => Some((Predicate::Cmp(Operand::Position, CmpOp::Eq, Operand::LastMinus(v)), e)),
                _ => None,
            },
        }
    }

    /// `and := term ("and" term)*`
    fn and_expr(&self, i: usize) -> (r: Option<(Predicate, usize)>)
        requires
            self.ok(),
            i <= self.c@.len(),
        ensures
            r matches Some((_, e)) ==> i < e <= self.c@.len(),
            match sp_and(self.c@, i as int) {
                Some((p, e)) => r matches Some((q, e2)) && pred_view(&q) == p && e2 == e,
                None => r is None,
            },
        decreases self.c@.len() - i, 1nat,
    {
        let (mut p, mut e) = match self.term(i) {
            Some(x) => x,
            None => return None,
        };
        proof {
            reveal_strlit("and");
            assert("and"@ =~= kw_and());
        }
        loop
            invariant
                self.ok(),
                i < e <= self.c@.len(),
                "and"@ == kw_and(),
                sp_and(self.c@, i as int) == sp_and_more(self.c@, pred_view(&p), e as int),
            decreases self.c@.len() - e,
        {
            let g = self.skip_space(e);
            if !self.keyword(g, "and") {
                return Some((p, e));
            }
            match self.term(g + 3) {
                Some((q, f)) => {
                    p = Predicate::And(Box::new(p), Box::new(q));
                    e = f;
                },
                None => return None,
            }
        }
    }

    /// `expr := and ("or" and)*`
    fn expr(&self, i: usize) -> (r: Option<(Predicate, usize)>)
        requires
            self.ok(),
            i <= self.c@.len(),
        ensures
            r matches Some((_, e)) ==> i < e <= self.c@.len(),
            match sp_expr(self.c@, i as int) {
                Some((p, e)) => r matches Some((q, e2)) && pred_view(&q) == p && e2 == e,
                None => r is None,
            },
        decreases self.c@.len() - i, 2nat,
    {
        let (mut p, mut e) = match self.and_expr(i) {
            Some(x) => x,
            None => return None,
        };
        proof {
            reveal_strlit("or");
            assert("or"@ =~= kw_or());
        }
        loop
            invariant
                self.ok(),
                i < e <= self.c@.len(),
                "or"@ == kw_or(),
                sp_expr(self.c@, i as int) == sp_expr_more(self.c@, pred_view(&p), e as int),
            decreases self.c@.len() - e,
        {
            let g = self.skip_space(e);
            if !self.keyword(g, "or") {
                return Some((p, e));
            }
            match self.and_expr(g + 2) {
                Some((q, f)) => {
                    p = Predicate::Or(Box::new(p), Box::new(q));
                    e = f;
                },
                None => return None,
            }
        }
    }

    /// One step at `i`.
    fn segment(&self, i: usize) -> (r: Option<(Segment, usize)>)
        requires
            self.ok(),
            i < self.c@.len(),
        ensures
            r matches Some((_, e)) ==> i < e <= self.c@.len(),
            match sp_segment(self.c@, i as int) {
                Some((g, e)) => r matches Some((sg, e2)) && seg_view(sg) == g && e2 == e,
                None => r is None,
            },
    {
        let (separator, j) = if self.at(i, '/') && self.at(i + 1, '/') {
            (Separator::Desc, i + 2)
        } else if self.at(i, '/') {
            (Separator::Child, i + 1)
        } else {
            (Separator::Here, i)
        };
        let (node, k) = if self.at(j, '.') && self.at(j + 1, '.') {
            (NodeTest::Parent, j + 2)
        } else if self.at(j, '.') {
            (NodeTest::Current, j + 1)
        } else if self.at(j, '*') {
            (NodeTest::Any, j + 1)
        } else {
            let e = self.name_end(j);
            if e == j {
                return None;
            }
            (NodeTest::Name(self.text(j, e)), e)
        };
        if self.at(k, '[') {
            match self.expr(k + 1) {
                Some((p, e)) => {
                    let e = self.skip_space(e);
                    if self.at(e, ']') {
                        Some((Segment { separator, node, condition: Some(p) }, e + 1))
                    } else {
                        None
                    }
                },
                None => None,
            }
        } else {
            Some((Segment { separator, node, condition: None }, k))
        }
    }
}

fn name_char(ch: char) -> (r: bool)
    ensures
        r == is_name_char(ch),
{
    ('a' <= ch && ch <= 'z') || ('A' <= ch && ch <= 'Z') || ch == '_' || ('0' <= ch && ch <= '9') || ch == '-'
        || ch == ':' || ch == '.'
}

/// Splits a path into its steps. A path that does not parse whole gives
/// `None`.
pub fn xpath(path: &str) -> (r: Option<Vec<Segment>>)
    ensures
        path@.len() == 0 ==> r.is_none(),
        r matches Some(v) ==> v@.len() > 0,
        match parse_path(path@) {
            Some(v) => r matches Some(x) && segs_view(x@) == v,
            None => r is None,
        },
{
    let cur = Cursor { src: path, c: chars_of(path) };
    if cur.c.len() > usize::MAX - 4 {
        return None;
    }
    let mut out: Vec<Segment> = Vec::new();
    let mut i: usize = 0;
    while i < cur.c.len()
        invariant
            cur.ok(),
            cur.c@ == path@,
            i <= cur.c@.len(),
            i > 0 ==> out@.len() > 0,
            i == 0 ==> out@.len() == 0,
            sp_steps(cur.c@, 0) == match sp_steps(cur.c@, i as int) {
                Some(rest) => Some(segs_view(out@) + rest),
                None => None::<Seq<SegV>>,
            },
        decreases cur.c@.len() - i,
    {
        match cur.segment(i) {
            Some((s, e)) => {
                let ghost o = out@;
                out.push(s);
                proof {
                    assert(segs_view(out@) =~= segs_view(o) + seq![seg_view(s)]);
                    match sp_steps(cur.c@, e as int) {
                        Some(rest) => {
                            assert(segs_view(o) + (seq![seg_view(s)] + rest) =~= segs_view(out@) + rest);
                        },
                        None => {},
                    }
                }
                i = e;
            },
            None => return None,
        }
    }
    if out.len() == 0 {
        None
    } else {
        Some(out)
    }
}

} // verus!
