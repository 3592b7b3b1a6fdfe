//! The parser: a stack machine from tokens to one composition.
//!
//! The stack holds operators that still wait for a body, finished
//! expressions, and at most one open quote mark. `z` closes the innermost
//! open operator with the expressions after it; a pair of `q` marks a body;
//! at the end every operator still open takes what follows it, or the empty
//! composition.

use vstd::prelude::*;
use crate::func::{DoubleFunc, Func, FuncM, HigherFunc, func_views, identity};
use crate::lexer::{BoundToken, Token};

verus! {

/// An entry of the parser's stack.
#[derive(Debug)]
pub enum Entry {
    Higher(HigherFunc),
    Double(DoubleFunc),
    DoubleHalf(DoubleFunc, Func),
    Func(Func),
    Quote,
}

/// The model of a stack entry.
pub enum EntryM {
    Higher(HigherFunc),
    Double(DoubleFunc),
    DoubleHalf(DoubleFunc, FuncM),
    Func(FuncM),
    Quote,
}

impl View for Entry {
    type V = EntryM;

    open spec fn view(&self) -> EntryM {
        match *self {
            Entry::Higher(h) => EntryM::Higher(h),
            Entry::Double(d) => EntryM::Double(d),
            Entry::DoubleHalf(d, f) => EntryM::DoubleHalf(d, f@),
            Entry::Func(f) => EntryM::Func(f@),
            Entry::Quote => EntryM::Quote,
        }
    }
}

/// The models of a stack.
pub open spec fn entry_views(s: Seq<Entry>) -> Seq<EntryM> {
    Seq::new(s.len(), |i: int| s[i]@)
}

pub open spec fn higher(h: HigherFunc, body: FuncM) -> FuncM {
    FuncM::Higher(h, Box::new(body))
}

pub open spec fn double(d: DoubleFunc, left: FuncM, right: FuncM) -> FuncM {
    FuncM::Double(d, Box::new(left), Box::new(right))
}

/// `z`: pops finished expressions up to the innermost open operator and
/// closes it with them as its body.
pub open spec fn close_bind(stack: Seq<EntryM>, buf: Seq<FuncM>) -> Option<Seq<EntryM>>
    decreases stack.len(),
{
    if stack.len() == 0 {
        None
    } else {
        let rest = stack.drop_last();
        match stack.last() {
            EntryM::Func(f) => close_bind(rest, seq![f] + buf),
            EntryM::Higher(h) => Some(rest.push(EntryM::Func(higher(h, FuncM::Bound(buf))))),
            EntryM::Double(d) => Some(rest.push(EntryM::DoubleHalf(d, FuncM::Bound(buf)))),
            EntryM::DoubleHalf(d, l) => Some(rest.push(EntryM::Func(double(d, l, FuncM::Bound(buf))))),
            EntryM::Quote => None,
        }
    }
}

/// Closes the operator under the quote mark with the quoted body.
pub open spec fn attach_quote(rest: Seq<EntryM>, body: FuncM) -> Option<Seq<EntryM>> {
    if rest.len() == 0 {
        None
    } else {
        let r2 = rest.drop_last();
        match rest.last() {
            EntryM::Higher(h) => Some(r2.push(EntryM::Func(higher(h, body)))),
            EntryM::Double(d) => Some(r2.push(EntryM::DoubleHalf(d, body))),
            EntryM::DoubleHalf(d, l) => Some(r2.push(EntryM::Func(double(d, l, body)))),
            EntryM::Func(prev) => if r2.len() > 0 && r2.last() is Double {
                Some(r2.drop_last().push(EntryM::Func(double(r2.last()->Double_0, prev, body))))
            } else {
                None
            },
            EntryM::Quote => None,
        }
    }
}

/// Puts `f` in front of the body, letting `f` take the body's first
/// expression as its own body; an empty body gives `empty`.
pub open spec fn absorb_first(buf: Seq<FuncM>, f: spec_fn(FuncM) -> FuncM, empty: FuncM) -> Seq<FuncM> {
    if buf.len() == 0 {
        seq![empty]
    } else {
        seq![f(buf[0])] + buf.skip(1)
    }
}

/// The second `q` of a pair: pops back to the first, closing each operator
/// met on the way with the expression just after it (or an empty body), and
/// then closes the operator under the quote with what lies between.
pub open spec fn close_quote(stack: Seq<EntryM>, buf: Seq<FuncM>) -> Option<Seq<EntryM>>
    decreases stack.len(),
{
    if stack.len() == 0 {
        None
    } else {
        let rest = stack.drop_last();
        match stack.last() {
            EntryM::Func(f) => close_quote(rest, seq![f] + buf),
            EntryM::Higher(h) => close_quote(
                rest,
                absorb_first(buf, |g: FuncM| higher(h, g), higher(h, identity())),
            ),
            EntryM::Double(d) => if buf.len() == 0 {
                close_quote(rest, seq![double(d, identity(), identity())])
            } else {
                let g = buf[0];
                close_quote(
                    rest,
                    absorb_first(buf.skip(1), |k: FuncM| double(d, g, k), double(d, g, identity())),
                )
            },
            EntryM::DoubleHalf(d, l) => close_quote(
                rest,
                absorb_first(buf, |k: FuncM| double(d, l, k), double(d, l, identity())),
            ),
            EntryM::Quote => attach_quote(rest, FuncM::Bound(buf)),
        }
    }
}

/// How many quote marks the stack holds.
pub open spec fn quote_entries(s: Seq<EntryM>) -> nat
    decreases s.len(),
{
    if s.len() == 0 {
        0
    } else {
        quote_entries(s.drop_last()) + if s.last() is Quote {
            1nat
        } else {
            0nat
        }
    }
}

/// The index of the first entry that is not a finished expression.
pub open spec fn first_open(s: Seq<EntryM>) -> int
    decreases s.len(),
{
    if s.len() == 0 || !(s[0] is Func) {
        0
    } else {
        1 + first_open(s.skip(1))
    }
}

/// A quote mark: the first of a pair is pushed, the second closes the body.
pub open spec fn quote_step(stack: Seq<EntryM>) -> Option<Seq<EntryM>> {
    let q = quote_entries(stack);
    if q == 0 {
        Some(stack.push(EntryM::Quote))
    } else if q == 1 {
        close_quote(stack, Seq::empty())
    } else {
        None
    }
}

/// One token's effect on the stack; `None` where the program is ill-formed.
pub open spec fn step(stack: Seq<EntryM>, tok: Token) -> Option<Seq<EntryM>> {
    match tok {
        Token::Basic(p) => Some(stack.push(EntryM::Func(FuncM::Basic(p)))),
        Token::Higher(h) => Some(stack.push(EntryM::Higher(h))),
        Token::Double(d) => Some(stack.push(EntryM::Double(d))),
        Token::Bound(BoundToken::Bound1) => close_bind(stack, Seq::empty()),
        Token::Bound(BoundToken::BoundQuote) => quote_step(stack),
        Token::Bound(BoundToken::SoloQuote) => {
            let p = first_open(stack);
            if quote_entries(stack) > 0 || p >= stack.len() {
                None
            } else {
                quote_step(stack.insert(p + 1, EntryM::Quote))
            }
        },
    }
}

/// The stack after all the tokens.
pub open spec fn run_tokens(toks: Seq<Token>, stack: Seq<EntryM>) -> Option<Seq<EntryM>>
    decreases toks.len(),
{
    if toks.len() == 0 {
        Some(stack)
    } else {
        match step(stack, toks[0]) {
            Some(s) => run_tokens(toks.skip(1), s),
            None => None,
        }
    }
}

/// A finished expression meets the open operators: each open operator on
/// top takes it as its body; an open two-body operator keeps it as its first
/// body and waits. What no operator takes is the second component.
pub open spec fn absorb(open: Seq<EntryM>, f: FuncM) -> (Seq<EntryM>, Option<FuncM>)
    decreases open.len(),
{
    if open.len() == 0 {
        (open, Some(f))
    } else {
        let rest = open.drop_last();
        match open.last() {
            EntryM::Higher(h) => absorb(rest, higher(h, f)),
            EntryM::Double(d) => (rest.push(EntryM::DoubleHalf(d, f)), None),
            EntryM::DoubleHalf(d, l) => absorb(rest, double(d, l, f)),
            _ => (open, Some(f)),
        }
    }
}

/// Walks the final stack from the bottom: the open operators that remain,
/// and the top-level expressions.
pub open spec fn finish(stack: Seq<EntryM>, open: Seq<EntryM>, out: Seq<FuncM>) -> Option<(Seq<EntryM>, Seq<FuncM>)>
    decreases stack.len(),
{
    if stack.len() == 0 {
        Some((open, out))
    } else {
        match stack[0] {
            EntryM::Func(f) => {
                let (o2, e) = absorb(open, f);
                finish(stack.skip(1), o2, if e is Some { out.push(e->0) } else { out })
            },
            EntryM::Quote => None,
            _ => finish(stack.skip(1), open.push(stack[0]), out),
        }
    }
}

/// Closes the operators still open, innermost first, starting from `w`.
pub open spec fn close_open(open: Seq<EntryM>, w: FuncM) -> FuncM
    decreases open.len(),
{
    if open.len() == 0 {
        w
    } else {
        let rest = open.drop_last();
        match open.last() {
            EntryM::Higher(h) => close_open(rest, higher(h, w)),
            EntryM::Double(d) => close_open(rest, double(d, w, identity())),
            EntryM::DoubleHalf(d, l) => close_open(rest, double(d, l, w)),
            _ => w,
        }
    }
}

/// The expression a token sequence parses to, or `None` if it is ill-formed.
pub open spec fn parse_spec(toks: Seq<Token>) -> Option<FuncM> {
    match run_tokens(toks, Seq::empty()) {
        None => None,
        Some(stack) => match finish(stack, Seq::empty(), Seq::empty()) {
            None => None,
            Some(r) => {
                let (open, out) = r;
                Some(FuncM::Bound(
                    if open.len() == 0 {
                        out
                    } else {
                        out.push(close_open(open, identity()))
                    },
                ))
            },
        },
    }
}


proof fn lemma_pop_views(before: Seq<Entry>, after: Seq<Entry>)
    requires
        before.len() > 0,
        after == before.drop_last(),
    ensures
        entry_views(after) == entry_views(before).drop_last(),
        entry_views(before).last() == before.last()@,
{
    assert(entry_views(after) =~= entry_views(before).drop_last());
}

proof fn lemma_push_views(before: Seq<Entry>, e: Entry)
    ensures
        entry_views(before.push(e)) == entry_views(before).push(e@),
{
    assert(entry_views(before.push(e)) =~= entry_views(before).push(e@));
}

fn higher_of(h: HigherFunc, body: Func) -> (r: Func)
    ensures
        r@ == higher(h, body@),
{
    Func::Higher(h, Box::new(body))
}

fn double_of(d: DoubleFunc, left: Func, right: Func) -> (r: Func)
    ensures
        r@ == double(d, left@, right@),
{
    Func::Double(d, Box::new(left), Box::new(right))
}

fn push_entry(input: Vec<Entry>, e: Entry) -> (r: Vec<Entry>)
    ensures
        entry_views(r@) == entry_views(input@).push(e@),
{
    let mut stack = input;
    proof {
        lemma_push_views(stack@, e);
    }
    stack.push(e);
    stack
}

/// Puts `f` in front of the buffer.
fn buf_prepend(input: Vec<Func>, f: Func) -> (r: Vec<Func>)
    ensures
        func_views(r@) == seq![f@] + func_views(input@),
{
    let ghost before = input@;
    let mut buf = input;
    buf.insert(0, f);
    assert(func_views(buf@) =~= seq![f@] + func_views(before));
    buf
}

/// Takes the first expression out of a nonempty buffer.
fn buf_take_first(input: Vec<Func>) -> (r: (Func, Vec<Func>))
    requires
        input@.len() > 0,
    ensures
        r.0@ == func_views(input@)[0],
        func_views(r.1@) == func_views(input@).skip(1),
{
    let ghost before = input@;
    let mut buf = input;
    let g = buf.remove(0);
    assert(func_views(buf@) =~= func_views(before).skip(1));
    (g, buf)
}

fn close_bind_exec(input: Vec<Entry>) -> (r: Option<Vec<Entry>>)
    ensures
        match r {
            Some(s) => close_bind(entry_views(input@), Seq::empty()) == Some(entry_views(s@)),
            None => close_bind(entry_views(input@), Seq::empty()) is None,
        },
{
    let ghost goal = close_bind(entry_views(input@), Seq::empty());
    let mut stack = input;
    let mut buf: Vec<Func> = Vec::new();
    assert(func_views(buf@) =~= Seq::<FuncM>::empty());
    loop
        invariant
            close_bind(entry_views(stack@), func_views(buf@)) == goal,
            goal == close_bind(entry_views(input@), Seq::empty()),
        decreases stack@.len(),
    {
        let ghost before = stack@;
        match stack.pop() {
            None => {
                return None;
            },
            Some(e) => {
                proof {
                    lemma_pop_views(before, stack@);
                }
                match e {
                    Entry::Func(f) => {
                        buf = buf_prepend(buf, f);
                    },
                    Entry::Higher(h) => {
                        let body = Func::bound(buf);
                        return Some(push_entry(stack, Entry::Func(higher_of(h, body))));
                    },
                    Entry::Double(d) => {
                        let body = Func::bound(buf);
                        return Some(push_entry(stack, Entry::DoubleHalf(d, body)));
                    },
                    Entry::DoubleHalf(d, l) => {
                        let body = Func::bound(buf);
                        return Some(push_entry(stack, Entry::Func(double_of(d, l, body))));
                    },
                    Entry::Quote => {
                        return None;
                    },
                }
            },
        }
    }
}

fn attach_quote_exec(input: Vec<Entry>, body: Func) -> (r: Option<Vec<Entry>>)
    ensures
        match r {
            Some(s) => attach_quote(entry_views(input@), body@) == Some(entry_views(s@)),
            None => attach_quote(entry_views(input@), body@) is None,
        },
{
    let mut stack = input;
    let ghost before = stack@;
    match stack.pop() {
        None => None,
        Some(e) => {
            proof {
                lemma_pop_views(before, stack@);
            }
            match e {
                Entry::Higher(h) => Some(push_entry(stack, Entry::Func(higher_of(h, body)))),
                Entry::Double(d) => Some(push_entry(stack, Entry::DoubleHalf(d, body))),
                Entry::DoubleHalf(d, l) => Some(push_entry(stack, Entry::Func(double_of(d, l, body)))),
                Entry::Quote => None,
                Entry::Func(prev) => {
                    let ghost before2 = stack@;
                    match stack.pop() {
                        Some(Entry::Double(d)) => {
                            proof {
                                lemma_pop_views(before2, stack@);
                            }
                            Some(push_entry(stack, Entry::Func(double_of(d, prev, body))))
                        },
                        Some(other) => {
                            proof {
                                lemma_pop_views(before2, stack@);
                            }
                            None
                        },
                        None => None,
                    }
                },
            }
        },
    }
}

fn close_quote_exec(input: Vec<Entry>) -> (r: Option<Vec<Entry>>)
    ensures
        match r {
            Some(s) => close_quote(entry_views(input@), Seq::empty()) == Some(entry_views(s@)),
            None => close_quote(entry_views(input@), Seq::empty()) is None,
        },
{
    let ghost goal = close_quote(entry_views(input@), Seq::empty());
    let mut stack = input;
    let mut buf: Vec<Func> = Vec::new();
    assert(func_views(buf@) =~= Seq::<FuncM>::empty());
    loop
        invariant
            close_quote(entry_views(stack@), func_views(buf@)) == goal,
            goal == close_quote(entry_views(input@), Seq::empty()),
        decreases stack@.len(),
    {
        let ghost before = stack@;
        let ghost bv = func_views(buf@);
        match stack.pop() {
            None => {
                return None;
            },
            Some(e) => {
                proof {
                    lemma_pop_views(before, stack@);
                }
                match e {
                    Entry::Func(f) => {
                        buf = buf_prepend(buf, f);
                    },
                    Entry::Higher(h) => {
                        if buf.len() == 0 {
                            buf.push(higher_of(h, Func::empty()));
                            assert(func_views(buf@) =~= seq![higher(h, identity())]);
                        } else {
                            let (g, rest) = buf_take_first(buf);
                            buf = buf_prepend(rest, higher_of(h, g));
                            assert(func_views(buf@) =~= absorb_first(bv, |g: FuncM| higher(h, g), higher(h, identity())));
                        }
                    },
                    Entry::Double(d) => {
                        if buf.len() == 0 {
                            buf.push(double_of(d, Func::empty(), Func::empty()));
                            assert(func_views(buf@) =~= seq![double(d, identity(), identity())]);
                        } else {
                            let (g, rest) = buf_take_first(buf);
                            let ghost gv = g@;
                            let ghost rv = func_views(rest@);
                            if rest.len() == 0 {
                                buf = rest;
                                buf.push(double_of(d, g, Func::empty()));
                                assert(func_views(buf@) =~= absorb_first(rv, |k: FuncM| double(d, gv, k), double(d, gv, identity())));
                            } else {
                                let (k, rest2) = buf_take_first(rest);
                                buf = buf_prepend(rest2, double_of(d, g, k));
                                assert(func_views(buf@) =~= absorb_first(rv, |k: FuncM| double(d, gv, k), double(d, gv, identity())));
                            }
                        }
                    },
                    Entry::DoubleHalf(d, l) => {
                        let ghost lv = l@;
                        if buf.len() == 0 {
                            buf.push(double_of(d, l, Func::empty()));
                            assert(func_views(buf@) =~= seq![double(d, lv, identity())]);
                        } else {
                            let (g, rest) = buf_take_first(buf);
                            buf = buf_prepend(rest, double_of(d, l, g));
                            assert(func_views(buf@) =~= absorb_first(bv, |k: FuncM| double(d, lv, k), double(d, lv, identity())));
                        }
                    },
                    Entry::Quote => {
                        let body = Func::bound(buf);
                        return attach_quote_exec(stack, body);
                    },
                }
            },
        }
    }
}


fn count_quotes(stack: &Vec<Entry>) -> (r: usize)
    ensures
        r == quote_entries(entry_views(stack@)),
{
    let ghost v = entry_views(stack@);
    let mut count: usize = 0;
    let mut k: usize = 0;
    while k < stack.len()
        invariant
            v == entry_views(stack@),
            k <= stack@.len(),
            count == quote_entries(v.subrange(0, k as int)),
            count <= k,
        decreases stack@.len() - k,
    {
        assert(v.subrange(0, k as int + 1).drop_last() =~= v.subrange(0, k as int));
        match &stack[k] {
            Entry::Quote => {
                count += 1;
            },
            _ => {},
        }
        k += 1;
    }
    assert(v.subrange(0, v.len() as int) =~= v);
    count
}

fn first_open_exec(stack: &Vec<Entry>) -> (r: usize)
    ensures
        r == first_open(entry_views(stack@)),
        r <= stack@.len(),
{
    let ghost v = entry_views(stack@);
    let mut f: usize = 0;
    assert(v.skip(0) =~= v);
    while f < stack.len()
        invariant
            v == entry_views(stack@),
            f <= v.len(),
            first_open(v) == f + first_open(v.skip(f as int)),
        decreases v.len() - f,
    {
        match &stack[f] {
            Entry::Func(_) => {},
            _ => {
                return f;
            },
        }
        assert(v.skip(f as int).skip(1) =~= v.skip(f as int + 1));
        f += 1;
    }
    f
}

fn quote_step_exec(input: Vec<Entry>) -> (r: Option<Vec<Entry>>)
    ensures
        match r {
            Some(s) => quote_step(entry_views(input@)) == Some(entry_views(s@)),
            None => quote_step(entry_views(input@)) is None,
        },
{
    let q = count_quotes(&input);
    if q == 0 {
        Some(push_entry(input, Entry::Quote))
    } else if q == 1 {
        close_quote_exec(input)
    } else {
        None
    }
}

fn step_exec(input: Vec<Entry>, tok: Token) -> (r: Option<Vec<Entry>>)
    ensures
        match r {
            Some(s) => step(entry_views(input@), tok) == Some(entry_views(s@)),
            None => step(entry_views(input@), tok) is None,
        },
{
    match tok {
        Token::Basic(p) => Some(push_entry(input, Entry::Func(Func::Basic(p)))),
        Token::Higher(h) => Some(push_entry(input, Entry::Higher(h))),
        Token::Double(d) => Some(push_entry(input, Entry::Double(d))),
        Token::Bound(BoundToken::Bound1) => close_bind_exec(input),
        Token::Bound(BoundToken::BoundQuote) => quote_step_exec(input),
        Token::Bound(BoundToken::SoloQuote) => {
            let q = count_quotes(&input);
            let p = first_open_exec(&input);
            if q > 0 || p >= input.len() {
                return None;
            }
            let ghost before = input@;
            let mut stack = input;
            stack.insert(p + 1, Entry::Quote);
            assert(entry_views(stack@) =~= entry_views(before).insert(p + 1, EntryM::Quote));
            quote_step_exec(stack)
        },
    }
}

fn absorb_exec(input: Vec<Entry>, f: Func) -> (r: (Vec<Entry>, Option<Func>))
    ensures
        absorb(entry_views(input@), f@) == (entry_views(r.0@), match r.1 {
            Some(g) => Some(g@),
            None => None::<FuncM>,
        }),
{
    let ghost goal = absorb(entry_views(input@), f@);
    let mut open = input;
    let mut w = f;
    loop
        invariant
            goal == absorb(entry_views(input@), f@),
            absorb(entry_views(open@), w@) == goal,
        decreases open@.len(),
    {
        let ghost before = open@;
        match open.pop() {
            None => {
                return (open, Some(w));
            },
            Some(e) => {
                proof {
                    lemma_pop_views(before, open@);
                }
                match e {
                    Entry::Higher(h) => {
                        w = higher_of(h, w);
                    },
                    Entry::Double(d) => {
                        return (push_entry(open, Entry::DoubleHalf(d, w)), None);
                    },
                    Entry::DoubleHalf(d, l) => {
                        w = double_of(d, l, w);
                    },
                    other => {
                        proof {
                            lemma_push_views(open@, other);
                            assert(open@.push(other) =~= before);
                        }
                        open.push(other);
                        return (open, Some(w));
                    },
                }
            },
        }
    }
}

fn close_open_exec(input: Vec<Entry>, start: Func) -> (r: Func)
    ensures
        r@ == close_open(entry_views(input@), start@),
{
    let ghost goal = close_open(entry_views(input@), start@);
    let mut open = input;
    let mut w = start;
    loop
        invariant
            goal == close_open(entry_views(input@), start@),
            close_open(entry_views(open@), w@) == goal,
        decreases open@.len(),
    {
        let ghost before = open@;
        match open.pop() {
            None => {
                return w;
            },
            Some(e) => {
                proof {
                    lemma_pop_views(before, open@);
                }
                match e {
                    Entry::Higher(h) => {
                        w = higher_of(h, w);
                    },
                    Entry::Double(d) => {
                        w = double_of(d, w, Func::empty());
                    },
                    Entry::DoubleHalf(d, l) => {
                        w = double_of(d, l, w);
                    },
                    _ => {
                        return w;
                    },
                }
            },
        }
    }
}

/// Parses a token sequence into one composition; `None` where the program is
/// ill-formed (a `z` or a quote with nothing to close).
pub fn parse(tokens: Vec<Token>) -> (r: Option<Func>)
    ensures
        match r {
            Some(f) => parse_spec(tokens@) == Some(f@),
            None => parse_spec(tokens@) is None,
        },
{
    let mut stack: Vec<Entry> = Vec::new();
    assert(entry_views(stack@) =~= Seq::<EntryM>::empty());
    let mut i: usize = 0;
    assert(tokens@.skip(0) =~= tokens@);
    while i < tokens.len()
        invariant
            i <= tokens@.len(),
            run_tokens(tokens@, Seq::empty()) == run_tokens(tokens@.skip(i as int), entry_views(stack@)),
        decreases tokens@.len() - i,
    {
        let t = tokens[i];
        assert(tokens@.skip(i as int)[0] == t);
        assert(tokens@.skip(i as int).skip(1) =~= tokens@.skip(i as int + 1));
        match step_exec(stack, t) {
            Some(s) => {
                stack = s;
            },
            None => {
                return None;
            },
        }
        i += 1;
    }
    let ghost fin = entry_views(stack@);
    assert(tokens@.skip(i as int).len() == 0);
    assert(run_tokens(tokens@, Seq::empty()) == Some(fin));
    let mut open: Vec<Entry> = Vec::new();
    let mut out: Vec<Func> = Vec::new();
    assert(entry_views(open@) =~= Seq::<EntryM>::empty());
    assert(func_views(out@) =~= Seq::<FuncM>::empty());
    while stack.len() > 0
        invariant
            finish(fin, Seq::empty(), Seq::empty()) == finish(entry_views(stack@), entry_views(open@), func_views(out@)),
            run_tokens(tokens@, Seq::empty()) == Some(fin),
        decreases stack@.len(),
    {
        let ghost before = stack@;
        let e = stack.remove(0);
        assert(entry_views(stack@) =~= entry_views(before).skip(1));
        assert(entry_views(before)[0] == e@);
        match e {
            Entry::Func(f) => {
                let (o2, extra) = absorb_exec(open, f);
                open = o2;
                match extra {
                    Some(g) => {
                        let ghost ov = func_views(out@);
                        out.push(g);
                        assert(func_views(out@) =~= ov.push(g@));
                    },
                    None => {},
                }
            },
            Entry::Quote => {
                return None;
            },
            other => {
                open = push_entry(open, other);
            },
        }
    }
    if open.len() > 0 {
        let last = close_open_exec(open, Func::empty());
        let ghost ov = func_views(out@);
        out.push(last);
        assert(func_views(out@) =~= ov.push(last@));
    }
    Some(Func::bound(out))
}

} // verus!
