use vstd::prelude::*;
use vstd::string::*;

verus! {

/// The only kind of value the machine handles.
pub type Value = i32;

#[derive(Debug, Clone, Copy, PartialEq, Eq, Structural)]
pub enum Error {
    DivisionByZero,
    StackUnderflow,
    UnknownWord,
    InvalidWord,
}

// ---------------------------------------------------------------------------
// Tokens
// ---------------------------------------------------------------------------

/// The characters with the Unicode `White_Space` property: what separates tokens.
pub open spec fn is_space(c: char) -> bool {
    ('\u{9}' <= c && c <= '\u{d}') || c == ' ' || c == '\u{85}' || c == '\u{a0}'
        || c == '\u{1680}' || ('\u{2000}' <= c && c <= '\u{200a}') || c == '\u{2028}'
        || c == '\u{2029}' || c == '\u{202f}' || c == '\u{205f}' || c == '\u{3000}'
}

/// ASCII case folding: upper-case ASCII letters become lower case, all else is kept.
pub open spec fn lower(c: char) -> char {
    if 'A' <= c && c <= 'Z' {
        ((c as u8) + 32u8) as char
    } else {
        c
    }
}

pub open spec fn flush(cur: Seq<char>) -> Seq<Seq<char>> {
    if cur.len() == 0 {
        seq![]
    } else {
        seq![cur]
    }
}

/// Splits `s` at white space, continuing a token `cur` that is already under way;
/// every token comes out case-folded.
pub open spec fn split_from(s: Seq<char>, cur: Seq<char>) -> Seq<Seq<char>>
    decreases s.len(),
{
    if s.len() == 0 {
        flush(cur)
    } else if is_space(s[0]) {
        flush(cur) + split_from(s.drop_first(), seq![])
    } else {
        split_from(s.drop_first(), cur.push(lower(s[0])))
    }
}

/// The case-folded tokens of a line, in order.
pub open spec fn tokens_of(s: Seq<char>) -> Seq<Seq<char>> {
    split_from(s, seq![])
}

pub open spec fn views(v: Seq<Vec<char>>) -> Seq<Seq<char>> {
    v.map_values(|t: Vec<char>| t@)
}

pub(crate) fn is_space_char(c: char) -> (r: bool)
    ensures
        r == is_space(c),
{
    ('\u{9}' <= c && c <= '\u{d}') || c == ' ' || c == '\u{85}' || c == '\u{a0}'
        || c == '\u{1680}' || ('\u{2000}' <= c && c <= '\u{200a}') || c == '\u{2028}'
        || c == '\u{2029}' || c == '\u{202f}' || c == '\u{205f}' || c == '\u{3000}'
}

pub(crate) fn lower_char(c: char) -> (r: char)
    ensures
        r == lower(c),
{
    if 'A' <= c && c <= 'Z' {
        ((c as u8) + 32u8) as char
    } else {
        c
    }
}

/// Splits a line into case-folded tokens.
pub fn tokenize(input: &str) -> (r: Vec<Vec<char>>)
    ensures
        views(r@) == tokens_of(input@),
{
    let n = input.unicode_len();
    let ghost s = input@;
    let mut toks: Vec<Vec<char>> = Vec::new();
    let mut cur: Vec<char> = Vec::new();
    let mut i: usize = 0;
    assert(s.subrange(0, n as int) =~= s);
    assert(views(toks@) + split_from(s, cur@) =~= split_from(s, seq![]));
    while i < n
        invariant
            n == s.len(),
            s == input@,
            i <= n,
            views(toks@) + split_from(s.subrange(i as int, n as int), cur@) == tokens_of(s),
        decreases n - i,
    {
        let c = input.get_char(i);
        let ghost rest = s.subrange(i as int, n as int);
        assert(rest.drop_first() =~= s.subrange(i + 1, n as int));
        assert(rest[0] == c);
        if is_space_char(c) {
            let ghost before = views(toks@);
            let ghost old_cur = cur@;
            if cur.len() > 0 {
                toks.push(cur);
            }
            assert(views(toks@) =~= before + flush(old_cur));
            cur = Vec::new();
            assert(before + (flush(old_cur) + split_from(s.subrange(i + 1, n as int), seq![]))
                =~= (before + flush(old_cur)) + split_from(s.subrange(i + 1, n as int), seq![]));
        } else {
            cur.push(lower_char(c));
        }
        i = i + 1;
    }
    proof {
        assert(s.subrange(n as int, n as int) =~= Seq::<char>::empty());
    }
    let ghost before = views(toks@);
    let ghost last = cur@;
    if cur.len() > 0 {
        toks.push(cur);
    }
    assert(views(toks@) =~= before + flush(last));
    toks
}

// ---------------------------------------------------------------------------
// Integer literals
// ---------------------------------------------------------------------------

pub open spec fn is_digit(c: char) -> bool {
    '0' <= c && c <= '9'
}

pub open spec fn all_digits(t: Seq<char>) -> bool {
    forall|i: int| 0 <= i < t.len() ==> is_digit(#[trigger] t[i])
}

/// The number that a string of decimal digits spells.
pub open spec fn digits_value(t: Seq<char>) -> int
    decreases t.len(),
{
    if t.len() == 0 {
        0
    } else {
        digits_value(t.drop_last()) * 10 + (t.last() as int - '0' as int)
    }
}

/// What a token means as an integer literal: plain decimal digits with an
/// optional leading `-`, whose value fits in a `Value`.
pub open spec fn literal_value(t: Seq<char>) -> Option<Value> {
    if t.len() > 0 && all_digits(t) && digits_value(t) <= i32::MAX {
        Some(digits_value(t) as i32)
    } else if t.len() > 1 && t[0] == '-' && all_digits(t.drop_first()) && -digits_value(
        t.drop_first(),
    ) >= i32::MIN {
        Some((-digits_value(t.drop_first())) as i32)
    } else {
        None
    }
}

proof fn lemma_digits_prefix(t: Seq<char>, j: int)
    requires
        all_digits(t),
        0 <= j <= t.len(),
    ensures
        0 <= digits_value(t.take(j)) <= digits_value(t),
    decreases t.len(),
{
    if j == t.len() {
        assert(t.take(j) =~= t);
        if t.len() > 0 {
            lemma_digits_prefix(t.drop_last(), j - 1);
        }
    } else {
        let p = t.drop_last();
        assert(all_digits(p));
        lemma_digits_prefix(p, j);
        assert(p.take(j) =~= t.take(j));
        lemma_digits_prefix(p, p.len() as int);
        assert(is_digit(t[t.len() - 1]));
    }
}

/// Reads the digits `t[start..]` as a number, if they are all digits and the
/// number is at most `bound`.
fn read_digits(t: &Vec<char>, start: usize, bound: i64) -> (r: Option<i64>)
    requires
        start <= t.len(),
        0 <= bound < 0x1_0000_0000,
    ensures
        match r {
            Some(v) => all_digits(t@.skip(start as int)) && v == digits_value(t@.skip(start as int))
                && 0 <= v <= bound,
            None => !all_digits(t@.skip(start as int)) || digits_value(t@.skip(start as int))
                > bound,
        },
{
    let ghost u = t@.skip(start as int);
    let mut acc: i64 = 0;
    let mut big = false;
    let mut i = start;
    while i < t.len()
        invariant
            start <= i <= t.len(),
            u == t@.skip(start as int),
            all_digits(u.take(i - start)),
            !big ==> acc == digits_value(u.take(i - start)) && 0 <= acc <= bound,
            big ==> digits_value(u.take(i - start)) > bound,
            0 <= bound < 0x1_0000_0000,
        decreases t.len() - i,
    {
        let c = t[i];
        let ghost k = i - start;
        assert(u.take(k + 1).drop_last() =~= u.take(k));
        assert(u[k] == c);
        if !('0' <= c && c <= '9') {
            assert(!is_digit(u[k]));
            return None;
        }
        assert(all_digits(u.take(k + 1)));
        let d = (c as u32 - '0' as u32) as i64;
        if !big {
            acc = acc * 10 + d;
            if acc > bound {
                big = true;
            }
        } else {
            proof {
                lemma_digits_prefix(u.take(k + 1), k);
                assert(u.take(k + 1).take(k) =~= u.take(k));
            }
        }
        i = i + 1;
    }
    assert(u.take(i - start) =~= u);
    if big {
        None
    } else {
        Some(acc)
    }
}

proof fn lemma_skip_digits(t: Seq<char>)
    requires
        t.len() > 0,
    ensures
        t.skip(0) == t,
        t.skip(1) == t.drop_first(),
{
    assert(t.skip(0) =~= t);
    assert(t.skip(1) =~= t.drop_first());
}

/// Reads a token as an integer literal.
fn parse_literal(t: &Vec<char>) -> (r: Option<Value>)
    ensures
        r == literal_value(t@),
{
    if t.len() == 0 {
        return None;
    }
    proof {
        lemma_skip_digits(t@);
    }
    if t[0] == '-' {
        if t.len() == 1 {
            return None;
        }
        assert(!is_digit(t@[0]));
        match read_digits(t, 1, 0x8000_0000) {
            Some(v) => Some((-v) as i32),
            None => None,
        }
    } else {
        match read_digits(t, 0, 0x7fff_ffff) {
            Some(v) => Some(v as i32),
            None => None,
        }
    }
}

// ---------------------------------------------------------------------------
// Built-in operations
// ---------------------------------------------------------------------------

#[derive(Debug, Clone, Copy, PartialEq, Eq, Structural)]
pub enum BuiltinOp {
    Add,
    Sub,
    Mul,
    Div,
    Dup,
    Drop,
    Swap,
    Over,
}

/// The built-in operator that a (case-folded) token names.
pub open spec fn builtin_of(t: Seq<char>) -> Option<BuiltinOp> {
    if t == seq!['+'] {
        Some(BuiltinOp::Add)
    } else if t == seq!['-'] {
        Some(BuiltinOp::Sub)
    } else if t == seq!['*'] {
        Some(BuiltinOp::Mul)
    } else if t == seq!['/'] {
        Some(BuiltinOp::Div)
    } else if t == seq!['d', 'u', 'p'] {
        Some(BuiltinOp::Dup)
    } else if t == seq!['d', 'r', 'o', 'p'] {
        Some(BuiltinOp::Drop)
    } else if t == seq!['s', 'w', 'a', 'p'] {
        Some(BuiltinOp::Swap)
    } else if t == seq!['o', 'v', 'e', 'r'] {
        Some(BuiltinOp::Over)
    } else {
        None
    }
}

fn builtin_named(t: &Vec<char>) -> (r: Option<BuiltinOp>)
    ensures
        r == builtin_of(t@),
{
    if t.len() == 1 {
        assert(t@ =~= seq![t[0]]);
        let c = t[0];
        if c == '+' {
            Some(BuiltinOp::Add)
        } else if c == '-' {
            Some(BuiltinOp::Sub)
        } else if c == '*' {
            Some(BuiltinOp::Mul)
        } else if c == '/' {
            Some(BuiltinOp::Div)
        } else {
            None
        }
    } else if t.len() == 3 {
        assert(t@ =~= seq![t[0], t[1], t[2]]);
        if t[0] == 'd' && t[1] == 'u' && t[2] == 'p' {
            Some(BuiltinOp::Dup)
        } else {
            None
        }
    } else if t.len() == 4 {
        assert(t@ =~= seq![t[0], t[1], t[2], t[3]]);
        if t[0] == 'd' && t[1] == 'r' && t[2] == 'o' && t[3] == 'p' {
            Some(BuiltinOp::Drop)
        } else if t[0] == 's' && t[1] == 'w' && t[2] == 'a' && t[3] == 'p' {
            Some(BuiltinOp::Swap)
        } else if t[0] == 'o' && t[1] == 'v' && t[2] == 'e' && t[3] == 'r' {
            Some(BuiltinOp::Over)
        } else {
            None
        }
    } else {
        None
    }
}

pub open spec fn is_arith(op: BuiltinOp) -> bool {
    op is Add || op is Sub || op is Mul || op is Div
}

/// Division truncating toward zero; the one quotient that does not fit,
/// `i32::MIN / -1`, wraps around to `i32::MIN`.
pub open spec fn quotient(a: Value, b: Value) -> Value {
    match a.checked_div(b) {
        Some(q) => q,
        None => i32::MIN,
    }
}

/// The value an arithmetic operator computes from the operand pushed earlier
/// (`a`) and the one pushed last (`b`), wrapping around on overflow.
pub open spec fn arith_value(op: BuiltinOp, a: Value, b: Value) -> Value {
    match op {
        BuiltinOp::Add => vstd::wrapping::i32_specs::wrapping_add(a, b),
        BuiltinOp::Sub => vstd::wrapping::i32_specs::wrapping_sub(a, b),
        BuiltinOp::Mul => vstd::wrapping::i32_specs::wrapping_mul(a, b),
        _ => quotient(a, b),
    }
}

/// What a built-in does to the stack: the stack afterwards, and the error if it
/// failed. An arithmetic operator pops its operands one at a time before it
/// checks them, so a failure leaves them popped.
pub open spec fn apply_builtin(op: BuiltinOp, st: Seq<Value>) -> (Seq<Value>, Option<Error>) {
    let n = st.len();
    if is_arith(op) {
        if n == 0 {
            (st, Some(Error::StackUnderflow))
        } else if n == 1 {
            (seq![], Some(Error::StackUnderflow))
        } else if op is Div && st[n - 1] == 0 {
            (st.take(n - 2), Some(Error::DivisionByZero))
        } else {
            (st.take(n - 2).push(arith_value(op, st[n - 2], st[n - 1])), None)
        }
    } else {
        match op {
            BuiltinOp::Dup => if n == 0 {
                (st, Some(Error::StackUnderflow))
            } else {
                (st.push(st[n - 1]), None)
            },
            BuiltinOp::Drop => if n == 0 {
                (st, Some(Error::StackUnderflow))
            } else {
                (st.drop_last(), None)
            },
            BuiltinOp::Swap => if n < 2 {
                (st, Some(Error::StackUnderflow))
            } else {
                (st.take(n - 2).push(st[n - 1]).push(st[n - 2]), None)
            },
            _ => if n < 2 {
                (st, Some(Error::StackUnderflow))
            } else {
                (st.push(st[n - 2]), None)
            },
        }
    }
}

// ---------------------------------------------------------------------------
// Compiled bodies
// ---------------------------------------------------------------------------

/// One step of a compiled word body.
#[derive(Debug, Clone, Copy, PartialEq, Eq, Structural)]
pub enum Step {
    /// Push a constant.
    Literal(Value),
    /// Run a built-in operator.
    Builtin(BuiltinOp),
    /// Run the body stored in the given slot of the arena: the version of a word
    /// that was current when this step was compiled.
    Reference(usize),
}

/// Every reference inside a body points to a body stored before it, so
/// running a body always terminates.
pub open spec fn arena_wf(arena: Seq<Seq<Step>>) -> bool {
    forall|i: int, k: int|
        0 <= i < arena.len() && 0 <= k < arena[i].len() && (#[trigger] arena[i][k]) is Reference
            ==> arena[i][k]->Reference_0 < i
}

/// The outcome of running `arena[i]` from its `k`-th step on the stack `st`:
/// the stack afterwards, and the error that stopped it, if any.
pub open spec fn run_body(arena: Seq<Seq<Step>>, i: nat, k: nat, st: Seq<Value>) -> (
    Seq<Value>,
    Option<Error>,
)
    decreases i, arena[i as int].len() - k,
{
    if i >= arena.len() || k >= arena[i as int].len() {
        (st, None)
    } else {
        let r = match arena[i as int][k as int] {
            Step::Literal(v) => (st.push(v), None),
            Step::Builtin(op) => apply_builtin(op, st),
            Step::Reference(j) => if j < i {
                run_body(arena, j as nat, 0, st)
            } else {
                (st, Some(Error::InvalidWord))
            },
        };
        if r.1 is Some {
            r
        } else {
            run_body(arena, i, k + 1, r.0)
        }
    }
}

pub open spec fn err_of(r: Result<(), Error>) -> Option<Error> {
    match r {
        Ok(()) => None,
        Err(e) => Some(e),
    }
}

// ---------------------------------------------------------------------------
// The machine
// ---------------------------------------------------------------------------

/// A word of the dictionary, as seen in specifications: its name and the arena
/// slots of its versions, oldest first.
pub struct Entry {
    pub name: Seq<char>,
    pub versions: Seq<usize>,
}

/// The state of a machine, as seen in specifications.
pub struct Model {
    pub stack: Seq<Value>,
    pub arena: Seq<Seq<Step>>,
    pub dict: Seq<Entry>,
}

/// Every word has a name of its own, and every version of every word is a
/// stored body.
pub open spec fn dict_wf(dict: Seq<Entry>, n: nat) -> bool {
    &&& forall|w: int|
        0 <= w < dict.len() ==> (#[trigger] dict[w]).versions.len() > 0 && forall|v: int|
            0 <= v < dict[w].versions.len() ==> (#[trigger] dict[w].versions[v]) < n
    &&& forall|a: int, b: int| 0 <= a < b < dict.len() ==> (#[trigger] dict[a]).name != (#[trigger] dict[b]).name
}

proof fn lemma_find_word_none(dict: Seq<Entry>, name: Seq<char>, w: int)
    requires
        0 <= w,
        find_word(dict, name, w) is None,
    ensures
        forall|x: int| w <= x < dict.len() ==> (#[trigger] dict[x]).name != name,
    decreases dict.len() - w,
{
    if w < dict.len() {
        lemma_find_word_none(dict, name, w + 1);
    }
}

pub open spec fn model_wf(m: Model) -> bool {
    arena_wf(m.arena) && dict_wf(m.dict, m.arena.len())
}

/// The position of the word called `name` in the dictionary, searching from `w`.
pub open spec fn find_word(dict: Seq<Entry>, name: Seq<char>, w: int) -> Option<int>
    decreases dict.len() - w,
{
    if w < 0 || w >= dict.len() {
        None
    } else if dict[w].name == name {
        Some(w)
    } else {
        find_word(dict, name, w + 1)
    }
}

/// The arena slot of the newest version of the word called `name`.
pub open spec fn latest(dict: Seq<Entry>, name: Seq<char>) -> Option<usize> {
    match find_word(dict, name, 0) {
        Some(w) => Some(dict[w].versions.last()),
        None => None,
    }
}

pub open spec fn is_colon(t: Seq<char>) -> bool {
    t == seq![':']
}

pub open spec fn is_semicolon(t: Seq<char>) -> bool {
    t == seq![';']
}

/// What a token inside a definition compiles to: a built-in first, then an
/// integer literal, then the newest version of a word that exists now.
pub open spec fn compile_step(m: Model, t: Seq<char>) -> Option<Step> {
    if let Some(op) = builtin_of(t) {
        Some(Step::Builtin(op))
    } else if let Some(v) = literal_value(t) {
        Some(Step::Literal(v))
    } else if is_colon(t) {
        None
    } else if let Some(b) = latest(m.dict, t) {
        Some(Step::Reference(b))
    } else {
        None
    }
}

/// Stores `body` as a new version of the word `name`: a new slot at the end of
/// the arena, appended to the word's versions, or to a new word.
pub open spec fn commit(m: Model, name: Seq<char>, body: Seq<Step>) -> Model {
    let slot = m.arena.len() as usize;
    Model {
        stack: m.stack,
        arena: m.arena.push(body),
        dict: match find_word(m.dict, name, 0) {
            Some(w) => m.dict.update(w, Entry { name, versions: m.dict[w].versions.push(slot) }),
            None => m.dict.push(Entry { name, versions: seq![slot] }),
        },
    }
}

/// Where the reading of a line stands.
pub enum Phase {
    /// Tokens are run as they come.
    Executing,
    /// A `:` was read; the next token names the word.
    Naming,
    /// The body of the word `name` is being compiled.
    Defining(Seq<char>, Seq<Step>),
}

/// What one token does, in the given phase: the new state, the new phase and
/// the error that stops the line, if any.
pub open spec fn step(m: Model, p: Phase, t: Seq<char>) -> (Model, Phase, Option<Error>) {
    match p {
        Phase::Executing => if let Some(b) = latest(m.dict, t) {
            let r = run_body(m.arena, b as nat, 0, m.stack);
            (Model { stack: r.0, ..m }, Phase::Executing, r.1)
        } else if let Some(op) = builtin_of(t) {
            let r = apply_builtin(op, m.stack);
            (Model { stack: r.0, ..m }, Phase::Executing, r.1)
        } else if let Some(v) = literal_value(t) {
            (Model { stack: m.stack.push(v), ..m }, Phase::Executing, None)
        } else if is_colon(t) {
            (m, Phase::Naming, None)
        } else {
            (m, Phase::Executing, Some(Error::UnknownWord))
        },
        Phase::Naming => if literal_value(t) is Some {
            (m, p, Some(Error::InvalidWord))
        } else {
            (m, Phase::Defining(t, seq![]), None)
        },
        Phase::Defining(name, body) => if is_semicolon(t) {
            (commit(m, name, body), Phase::Executing, None)
        } else if let Some(s) = compile_step(m, t) {
            (m, Phase::Defining(name, body.push(s)), None)
        } else {
            (m, p, Some(Error::InvalidWord))
        },
    }
}

/// The outcome of reading `toks[i..]` from state `m` in phase `p`: the state
/// afterwards and the error that stopped the reading, if any. A line that ends
/// inside a definition is an `InvalidWord`.
pub open spec fn eval_from(m: Model, p: Phase, toks: Seq<Seq<char>>, i: nat) -> (
    Model,
    Option<Error>,
)
    decreases toks.len() - i,
{
    if i >= toks.len() {
        if p is Executing {
            (m, None)
        } else {
            (m, Some(Error::InvalidWord))
        }
    } else {
        let r = step(m, p, toks[i as int]);
        if r.2 is Some {
            (r.0, r.2)
        } else {
            eval_from(r.0, r.1, toks, i + 1)
        }
    }
}

/// The outcome of evaluating a line on a machine in state `m`.
pub open spec fn evaluation(m: Model, line: Seq<char>) -> (Model, Option<Error>) {
    eval_from(m, Phase::Executing, tokens_of(line), 0)
}

#[derive(Debug)]
struct Word {
    name: Vec<char>,
    versions: Vec<usize>,
}

impl Word {
    closed spec fn entry(&self) -> Entry {
        Entry { name: self.name@, versions: self.versions@ }
    }
}

/// A stack machine with a dictionary of user-defined words.
#[derive(Debug)]
pub struct Forth {
    stack: Vec<Value>,
    bodies: Vec<Vec<Step>>,
    words: Vec<Word>,
}

impl Forth {
    pub closed spec fn model(&self) -> Model {
        Model {
            stack: self.stack@,
            arena: self.bodies@.map_values(|b: Vec<Step>| b@),
            dict: self.words@.map_values(|w: Word| w.entry()),
        }
    }

    pub closed spec fn wf(&self) -> bool {
        model_wf(self.model())
    }

    spec fn keeps_dict(&self, other: &Forth) -> bool {
        self.bodies == other.bodies && self.words == other.words
    }

    /// An empty machine: no values, no words.
    pub fn new() -> (r: Forth)
        ensures
            r.wf(),
            r.model().stack == Seq::<Value>::empty(),
            r.model().arena == Seq::<Seq<Step>>::empty(),
            r.model().dict == Seq::<Entry>::empty(),
    {
        let r = Forth { stack: Vec::new(), bodies: Vec::new(), words: Vec::new() };
        assert(r.model().arena =~= Seq::<Seq<Step>>::empty());
        assert(r.model().dict =~= Seq::<Entry>::empty());
        r
    }

    /// The values on the stack, bottom first.
    pub fn stack(&self) -> (r: &[Value])
        ensures
            r@ == self.model().stack,
    {
        self.stack.as_slice()
    }

    fn len(&self) -> (r: usize)
        ensures
            r == self.model().stack.len(),
    {
        self.stack.len()
    }

    fn push(&mut self, v: Value)
        ensures
            final(self).keeps_dict(old(self)),
            final(self).stack@ == old(self).stack@.push(v),
    {
        self.stack.push(v);
    }

    fn pop(&mut self) -> (r: Result<Value, Error>)
        ensures
            final(self).keeps_dict(old(self)),
            match r {
                Ok(v) => old(self).stack@.len() > 0 && v == old(self).stack@.last()
                    && final(self).stack@ == old(self).stack@.drop_last(),
                Err(e) => old(self).stack@.len() == 0 && e == Error::StackUnderflow
                    && final(self).stack@ == old(self).stack@,
            },
    {
        match self.stack.pop() {
            Some(v) => Ok(v),
            None => Err(Error::StackUnderflow),
        }
    }

    /// Pops two operands and pushes what `op` computes from them.
    fn arith(&mut self, op: BuiltinOp) -> (r: Result<(), Error>)
        requires
            is_arith(op),
        ensures
            final(self).keeps_dict(old(self)),
            (final(self).stack@, err_of(r)) == apply_builtin(op, old(self).stack@),
    {
        let ghost st = self.stack@;
        let v1 = match self.pop() {
            Ok(v) => v,
            Err(e) => return Err(e),
        };
        let v2 = match self.pop() {
            Ok(v) => v,
            Err(e) => {
                assert(self.stack@ =~= seq![]);
                return Err(e);
            },
        };
        assert(self.stack@ =~= st.take(st.len() - 2));
        let r = match op {
            BuiltinOp::Add => v2.wrapping_add(v1),
            BuiltinOp::Sub => v2.wrapping_sub(v1),
            BuiltinOp::Mul => v2.wrapping_mul(v1),
            _ => {
                if v1 == 0 {
                    return Err(Error::DivisionByZero);
                }
                match v2.checked_div(v1) {
                    Some(q) => q,
                    None => i32::MIN,
                }
            },
        };
        self.push(r);
        Ok(())
    }

    fn add(&mut self) -> (r: Result<(), Error>)
        ensures
            final(self).keeps_dict(old(self)),
            (final(self).stack@, err_of(r)) == apply_builtin(BuiltinOp::Add, old(self).stack@),
    {
        self.arith(BuiltinOp::Add)
    }

    fn sub(&mut self) -> (r: Result<(), Error>)
        ensures
            final(self).keeps_dict(old(self)),
            (final(self).stack@, err_of(r)) == apply_builtin(BuiltinOp::Sub, old(self).stack@),
    {
        self.arith(BuiltinOp::Sub)
    }

    fn mul(&mut self) -> (r: Result<(), Error>)
        ensures
            final(self).keeps_dict(old(self)),
            (final(self).stack@, err_of(r)) == apply_builtin(BuiltinOp::Mul, old(self).stack@),
    {
        self.arith(BuiltinOp::Mul)
    }

    fn div(&mut self) -> (r: Result<(), Error>)
        ensures
            final(self).keeps_dict(old(self)),
            (final(self).stack@, err_of(r)) == apply_builtin(BuiltinOp::Div, old(self).stack@),
    {
        self.arith(BuiltinOp::Div)
    }

    fn drop(&mut self) -> (r: Result<(), Error>)
        ensures
            final(self).keeps_dict(old(self)),
            (final(self).stack@, err_of(r)) == apply_builtin(BuiltinOp::Drop, old(self).stack@),
    {
        match self.pop() {
            Ok(_) => Ok(()),
            Err(e) => Err(e),
        }
    }

    fn dup(&mut self) -> (r: Result<(), Error>)
        ensures
            final(self).keeps_dict(old(self)),
            (final(self).stack@, err_of(r)) == apply_builtin(BuiltinOp::Dup, old(self).stack@),
    {
        let n = self.len();
        if n == 0 {
            return Err(Error::StackUnderflow);
        }
        let v = self.stack[n - 1];
        self.push(v);
        Ok(())
    }

    fn over(&mut self) -> (r: Result<(), Error>)
        ensures
            final(self).keeps_dict(old(self)),
            (final(self).stack@, err_of(r)) == apply_builtin(BuiltinOp::Over, old(self).stack@),
    {
        let n = self.len();
        if n < 2 {
            return Err(Error::StackUnderflow);
        }
        let v = self.stack[n - 2];
        self.push(v);
        Ok(())
    }

    fn swap(&mut self) -> (r: Result<(), Error>)
        ensures
            final(self).keeps_dict(old(self)),
            (final(self).stack@, err_of(r)) == apply_builtin(BuiltinOp::Swap, old(self).stack@),
    {
        let ghost st = self.stack@;
        let n = self.len();
        if n < 2 {
            return Err(Error::StackUnderflow);
        }
        let b = self.stack.pop().unwrap();
        let a = self.stack.pop().unwrap();
        assert(self.stack@ =~= st.take(n - 2));
        self.push(b);
        self.push(a);
        Ok(())
    }

    fn apply(&mut self, op: BuiltinOp) -> (r: Result<(), Error>)
        ensures
            final(self).keeps_dict(old(self)),
            (final(self).stack@, err_of(r)) == apply_builtin(op, old(self).stack@),
    {
        match op {
            BuiltinOp::Add => self.add(),
            BuiltinOp::Sub => self.sub(),
            BuiltinOp::Mul => self.mul(),
            BuiltinOp::Div => self.div(),
            BuiltinOp::Dup => self.dup(),
            BuiltinOp::Drop => self.drop(),
            BuiltinOp::Swap => self.swap(),
            BuiltinOp::Over => self.over(),
        }
    }

    /// Runs the body stored in slot `b` of the arena.
    fn run(&mut self, b: usize) -> (r: Result<(), Error>)
        requires
            old(self).wf(),
            b < old(self).model().arena.len(),
        ensures
            final(self).keeps_dict(old(self)),
            (final(self).stack@, err_of(r)) == run_body(
                old(self).model().arena,
                b as nat,
                0,
                old(self).stack@,
            ),
        decreases b,
    {
        let ghost arena = self.model().arena;
        let ghost st0 = self.stack@;
        let ghost before = *self;
        let n = self.bodies[b].len();
        let mut k: usize = 0;
        while k < n
            invariant
                before == *old(self),
                st0 == old(self).stack@,
                self.keeps_dict(&before),
                self.wf(),
                arena == self.model().arena,
                b < arena.len(),
                n == arena[b as int].len(),
                k <= n,
                run_body(arena, b as nat, k as nat, self.stack@) == run_body(
                    arena,
                    b as nat,
                    0,
                    st0,
                ),
            decreases n - k,
        {
            let step = self.bodies[b][k];
            assert(step == arena[b as int][k as int]);
            let r = match step {
                Step::Literal(v) => {
                    self.push(v);
                    Ok(())
                },
                Step::Builtin(op) => self.apply(op),
                Step::Reference(j) => self.run(j),
            };
            if r.is_err() {
                return r;
            }
            k = k + 1;
        }
        Ok(())
    }
}

impl Default for Forth {
    fn default() -> (r: Forth)
        ensures
            r.wf(),
            r.model().stack == Seq::<Value>::empty(),
            r.model().arena == Seq::<Seq<Step>>::empty(),
            r.model().dict == Seq::<Entry>::empty(),
    {
        Forth::new()
    }
}

fn same_chars(a: &Vec<char>, b: &Vec<char>) -> (r: bool)
    ensures
        r == (a@ == b@),
{
    if a.len() != b.len() {
        return false;
    }
    let mut i: usize = 0;
    while i < a.len()
        invariant
            a.len() == b.len(),
            i <= a.len(),
            forall|j: int| 0 <= j < i ==> a@[j] == b@[j],
        decreases a.len() - i,
    {
        if a[i] != b[i] {
            return false;
        }
        i = i + 1;
    }
    assert(a@ =~= b@);
    true
}

fn copy_chars(a: &Vec<char>) -> (r: Vec<char>)
    ensures
        r@ == a@,
{
    let mut r: Vec<char> = Vec::new();
    let mut i: usize = 0;
    while i < a.len()
        invariant
            i <= a.len(),
            r@ == a@.take(i as int),
        decreases a.len() - i,
    {
        r.push(a[i]);
        i = i + 1;
        assert(r@ =~= a@.take(i as int));
    }
    assert(a@.take(i as int) =~= a@);
    r
}

fn is_single(t: &Vec<char>, c: char) -> (r: bool)
    ensures
        r == (t@ == seq![c]),
{
    if t.len() == 1 {
        assert(t@ == seq![c] <==> t@ =~= seq![c]);
        t[0] == c
    } else {
        false
    }
}

/// Reading state of `eval` as a `Phase`.
enum Mode {
    Executing,
    Naming,
    Defining,
}

spec fn phase_of(mode: Mode, name: Seq<char>, body: Seq<Step>) -> Phase {
    match mode {
        Mode::Executing => Phase::Executing,
        Mode::Naming => Phase::Naming,
        Mode::Defining => Phase::Defining(name, body),
    }
}

/// Every reference in a body under construction points to a stored body.
spec fn body_wf(body: Seq<Step>, n: nat) -> bool {
    forall|k: int| 0 <= k < body.len() && (#[trigger] body[k]) is Reference ==> body[k]->Reference_0 < n
}

impl Forth {
    /// The position of the word called `name`.
    fn find_word(&self, name: &Vec<char>) -> (r: Option<usize>)
        ensures
            match r {
                Some(w) => w < self.model().dict.len() && find_word(self.model().dict, name@, 0) == Some(
                    w as int,
                ) && self.model().dict[w as int].name == name@,
                None => find_word(self.model().dict, name@, 0) is None,
            },
    {
        let ghost dict = self.model().dict;
        let mut w: usize = 0;
        while w < self.words.len()
            invariant
                dict == self.model().dict,
                w <= self.words.len(),
                find_word(dict, name@, w as int) == find_word(dict, name@, 0),
            decreases self.words.len() - w,
        {
            assert(dict[w as int] == self.words[w as int].entry());
            assert(dict.len() == self.words.len());
            if same_chars(&self.words[w].name, name) {
                return Some(w);
            }
            w = w + 1;
        }
        None
    }

    /// The arena slot of the newest version of the word called `name`.
    fn latest(&self, name: &Vec<char>) -> (r: Option<usize>)
        requires
            self.wf(),
        ensures
            r == latest(self.model().dict, name@),
            r matches Some(b) ==> b < self.model().arena.len(),
    {
        match self.find_word(name) {
            Some(w) => {
                let ghost dict = self.model().dict;
                assert(dict[w as int] == self.words[w as int].entry());
                let vs = &self.words[w].versions;
                let b = vs[vs.len() - 1];
                assert(dict[w as int].versions[vs.len() - 1] == b);
                Some(b)
            },
            None => None,
        }
    }

    /// Compiles one token of a definition body.
    fn compile(&self, t: &Vec<char>) -> (r: Option<Step>)
        requires
            self.wf(),
        ensures
            r == compile_step(self.model(), t@),
            r matches Some(Step::Reference(b)) ==> b < self.model().arena.len(),
    {
        if let Some(op) = builtin_named(t) {
            Some(Step::Builtin(op))
        } else if let Some(v) = parse_literal(t) {
            Some(Step::Literal(v))
        } else if is_single(t, ':') {
            None
        } else if let Some(b) = self.latest(t) {
            Some(Step::Reference(b))
        } else {
            None
        }
    }

    /// Stores `body` as the newest version of the word `name`.
    fn define(&mut self, name: Vec<char>, body: Vec<Step>)
        requires
            old(self).wf(),
            body_wf(body@, old(self).model().arena.len()),
        ensures
            final(self).wf(),
            final(self).model() == commit(old(self).model(), name@, body@),
    {
        let ghost m = self.model();
        let slot = self.bodies.len();
        let found = self.find_word(&name);
        self.bodies.push(body);
        assert(self.model().arena =~= m.arena.push(body@));
        match found {
            Some(w) => {
                let mut word = self.words.remove(w);
                word.versions.push(slot);
                self.words.insert(w, word);
                assert(self.model().dict =~= m.dict.update(
                    w as int,
                    Entry { name: name@, versions: m.dict[w as int].versions.push(slot) },
                ));
            },
            None => {
                proof {
                    lemma_find_word_none(m.dict, name@, 0);
                }
                let mut versions: Vec<usize> = Vec::new();
                versions.push(slot);
                assert(versions@ =~= seq![slot]);
                self.words.push(Word { name, versions });
                assert(self.model().dict =~= m.dict.push(Entry { name: name@, versions: seq![slot] }));
            },
        }
        assert forall|i: int, k: int|
            0 <= i < self.model().arena.len() && 0 <= k < self.model().arena[i].len()
                && (#[trigger] self.model().arena[i][k]) is Reference implies
                self.model().arena[i][k]->Reference_0 < i by {
            if i < m.arena.len() {
                assert(self.model().arena[i] == m.arena[i]);
            }
        }
        assert forall|w: int| 0 <= w < self.model().dict.len() implies
            (#[trigger] self.model().dict[w]).versions.len() > 0 && forall|v: int|
            0 <= v < self.model().dict[w].versions.len() ==>
            (#[trigger] self.model().dict[w].versions[v]) < self.model().arena.len() by {
            if w < m.dict.len() {
                assert(m.dict[w].versions.len() > 0);
            }
        }
        assert forall|a: int, b: int| 0 <= a < b < self.model().dict.len() implies (#[trigger] self.model().dict[a]).name
            != (#[trigger] self.model().dict[b]).name by {
            if b < m.dict.len() {
                assert(m.dict[a].name != m.dict[b].name);
            }
            if a < m.dict.len() {
                assert(self.model().dict[a].name == m.dict[a].name);
            }
        }
    }

    /// Evaluates one line: its tokens are read left to right, and reading stops
    /// at the first error. What was done before the error stays done.
    pub fn eval(&mut self, input: &str) -> (r: Result<(), Error>)
        requires
            old(self).wf(),
        ensures
            final(self).wf(),
            (final(self).model(), err_of(r)) == evaluation(old(self).model(), input@),
    {
        let toks = tokenize(input);
        let ghost ts = tokens_of(input@);
        let ghost m0 = self.model();
        let mut mode = Mode::Executing;
        let mut name: Vec<char> = Vec::new();
        let mut body: Vec<Step> = Vec::new();
        let mut i: usize = 0;
        while i < toks.len()
            invariant
                self.wf(),
                m0 == old(self).model(),
                ts == tokens_of(input@),
                views(toks@) == ts,
                i <= toks.len(),
                body_wf(body@, self.model().arena.len()),
                eval_from(self.model(), phase_of(mode, name@, body@), ts, i as nat) == eval_from(
                    m0,
                    Phase::Executing,
                    ts,
                    0,
                ),
            decreases toks.len() - i,
        {
            let t = &toks[i];
            assert(ts[i as int] == t@);
            let ghost m = self.model();
            match mode {
                Mode::Executing => {
                    if let Some(b) = self.latest(t) {
                        let r = self.run(b);
                        assert(self.model() == Model { stack: self.stack@, ..m });
                        if r.is_err() {
                            return r;
                        }
                    } else if let Some(op) = builtin_named(t) {
                        let r = self.apply(op);
                        assert(self.model() == Model { stack: self.stack@, ..m });
                        if r.is_err() {
                            return r;
                        }
                    } else if let Some(v) = parse_literal(t) {
                        self.push(v);
                        assert(self.model() == Model { stack: self.stack@, ..m });
                    } else if is_single(t, ':') {
                        mode = Mode::Naming;
                    } else {
                        return Err(Error::UnknownWord);
                    }
                },
                Mode::Naming => {
                    if parse_literal(t).is_some() {
                        return Err(Error::InvalidWord);
                    }
                    name = copy_chars(t);
                    body = Vec::new();
                    assert(body@ =~= seq![]);
                    mode = Mode::Defining;
                },
                Mode::Defining => {
                    if is_single(t, ';') {
                        self.define(name, body);
                        name = Vec::new();
                        body = Vec::new();
                        assert(body_wf(body@, self.model().arena.len()));
                        mode = Mode::Executing;
                    } else {
                        match self.compile(t) {
                            Some(s) => {
                                body.push(s);
                                assert(body_wf(body@, self.model().arena.len()));
                            },
                            None => return Err(Error::InvalidWord),
                        }
                    }
                },
            }
            i = i + 1;
        }
        match mode {
            Mode::Executing => Ok(()),
            _ => Err(Error::InvalidWord),
        }
    }
}

// ---------------------------------------------------------------------------
// Laws
// ---------------------------------------------------------------------------

/// Two lines that differ at most in the case of ASCII letters.
pub open spec fn same_folded(a: Seq<char>, b: Seq<char>) -> bool {
    a.len() == b.len() && forall|i: int| 0 <= i < a.len() ==> lower(#[trigger] a[i]) == lower(b[i])
}

proof fn lemma_fold_keeps_space(c: char, d: char)
    requires
        lower(c) == lower(d),
    ensures
        is_space(c) == is_space(d),
{
    if 'A' <= c && c <= 'Z' {
        assert('a' <= lower(c) && lower(c) <= 'z');
    }
    if 'A' <= d && d <= 'Z' {
        assert('a' <= lower(d) && lower(d) <= 'z');
    }
}

proof fn lemma_split_folded(a: Seq<char>, b: Seq<char>, cur: Seq<char>)
    requires
        same_folded(a, b),
    ensures
        split_from(a, cur) == split_from(b, cur),
    decreases a.len(),
{
    if a.len() > 0 {
        assert(lower(a[0]) == lower(b[0]));
        lemma_fold_keeps_space(a[0], b[0]);
        assert(same_folded(a.drop_first(), b.drop_first())) by {
            assert forall|i: int| 0 <= i < a.drop_first().len() implies lower(
                #[trigger] a.drop_first()[i],
            ) == lower(b.drop_first()[i]) by {
                assert(lower(a[i + 1]) == lower(b[i + 1]));
            }
        }
        lemma_split_folded(a.drop_first(), b.drop_first(), seq![]);
        lemma_split_folded(a.drop_first(), b.drop_first(), cur.push(lower(a[0])));
    }
}

/// Evaluation ignores the case of letters: two lines that differ only in the
/// case of ASCII letters have the same effect on any machine.
pub proof fn lemma_case_insensitive(m: Model, a: Seq<char>, b: Seq<char>)
    requires
        same_folded(a, b),
    ensures
        evaluation(m, a) == evaluation(m, b),
{
    lemma_split_folded(a, b, seq![]);
}

proof fn lemma_run_prefix(arena: Seq<Seq<Step>>, extra: Seq<Seq<Step>>, i: nat, k: nat, st: Seq<Value>)
    requires
        i < arena.len(),
    ensures
        run_body(arena + extra, i, k, st) == run_body(arena, i, k, st),
    decreases i, arena[i as int].len() - k,
{
    let all = arena + extra;
    assert(all[i as int] == arena[i as int]);
    if k < arena[i as int].len() {
        let r = match arena[i as int][k as int] {
            Step::Literal(v) => (st.push(v), None),
            Step::Builtin(op) => apply_builtin(op, st),
            Step::Reference(j) => if j < i {
                run_body(arena, j as nat, 0, st)
            } else {
                (st, Some(Error::InvalidWord))
            },
        };
        if let Step::Reference(j) = arena[i as int][k as int] {
            if j < i {
                lemma_run_prefix(arena, extra, j as nat, 0, st);
            }
        }
        if r.1 is None {
            lemma_run_prefix(arena, extra, i, k + 1, r.0);
        }
    }
}

proof fn lemma_eval_extends(m: Model, p: Phase, toks: Seq<Seq<char>>, i: nat)
    ensures
        m.arena.len() <= eval_from(m, p, toks, i).0.arena.len(),
        eval_from(m, p, toks, i).0.arena.take(m.arena.len() as int) == m.arena,
    decreases toks.len() - i,
{
    let after = eval_from(m, p, toks, i).0;
    if i >= toks.len() {
        assert(after.arena.take(m.arena.len() as int) =~= m.arena);
    } else {
        let r = step(m, p, toks[i as int]);
        assert(m.arena.len() <= r.0.arena.len() && r.0.arena.take(m.arena.len() as int) =~= m.arena);
        if r.2 is Some {
        } else {
            lemma_eval_extends(r.0, r.1, toks, i + 1);
            assert(after.arena.take(m.arena.len() as int) =~= r.0.arena.take(
                r.0.arena.len() as int,
            ).take(m.arena.len() as int));
        }
    }
}

/// Definitions never change what an existing body does: after any line, a body
/// that was stored before it runs exactly as it did. This is what keeps a word
/// bound to the versions of the words it used when it was defined, even when
/// those words are defined again later, or in terms of themselves.
pub proof fn lemma_history_kept(m: Model, line: Seq<char>, b: nat, st: Seq<Value>)
    requires
        b < m.arena.len(),
    ensures
        run_body(evaluation(m, line).0.arena, b, 0, st) == run_body(m.arena, b, 0, st),
{
    let after = evaluation(m, line).0.arena;
    lemma_eval_extends(m, Phase::Executing, tokens_of(line), 0);
    let extra = after.skip(m.arena.len() as int);
    assert(after =~= m.arena + extra);
    lemma_run_prefix(m.arena, extra, b, 0, st);
}

} // verus!
