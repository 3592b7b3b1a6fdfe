//! The evaluator: each expression applied forward, or inverted.
//!
//! Every step of evaluation spends one unit of a step budget, so that each
//! evaluation is a terminating function of its budget. `Func::execute`
//! starts from `STEP_LIMIT`, a budget no real run reaches; a run that used
//! it all would give the error value "Step limit reached".

use vstd::prelude::*;
use crate::basic::{basic_forward, basic_inverse, error, find_error, first_error, has_error};
use crate::integer::{Integer, int_add, int_cmp};
use crate::func::{DoubleFunc, Func, FuncM, HigherFunc, func_views, lemma_bound_view};
use crate::value::{Object, Val, as_seq, lemma_list_view, lemma_views_push, truthy, val_cmp, views};

verus! {

/// The step budget of `Func::execute`.
pub const STEP_LIMIT: u64 = 18446744073709551615;

/// What a run that spent its whole budget gives.
pub open spec fn limit() -> Val {
    error("Step limit reached")
}

/// `x` in front of a list; an error stays as it is.
pub open spec fn prepend(x: Val, rest: Val) -> Val {
    match rest {
        Val::List(s) => Val::List(seq![x] + s),
        _ => rest,
    }
}

/// The elements whose test result is truthy, in order.
pub open spec fn select(xs: Seq<Val>, tests: Seq<Val>) -> Seq<Val>
    decreases xs.len(),
{
    if xs.len() == 0 {
        xs
    } else {
        select(xs.drop_last(), tests) + if truthy(tests[xs.len() - 1]) {
            seq![xs.last()]
        } else {
            Seq::empty()
        }
    }
}

/// Stable insertion: `x` goes after every entry whose key is not above its own.
pub open spec fn insert_sorted(s: Seq<(Val, int)>, x: (Val, int)) -> Seq<(Val, int)>
    decreases s.len(),
{
    if s.len() == 0 || val_cmp(s.last().0, x.0) <= 0 {
        s.push(x)
    } else {
        insert_sorted(s.drop_last(), x).push(s.last())
    }
}

/// Stable sort of the entries by key.
pub open spec fn sort_pairs(s: Seq<(Val, int)>) -> Seq<(Val, int)>
    decreases s.len(),
{
    if s.len() == 0 {
        s
    } else {
        insert_sorted(sort_pairs(s.drop_last()), s.last())
    }
}

/// Each key with its position.
pub open spec fn keyed(keys: Seq<Val>) -> Seq<(Val, int)> {
    Seq::new(keys.len(), |i: int| (keys[i], i))
}

/// The positions in the order that stably sorts the keys.
pub open spec fn order_perm(keys: Seq<Val>) -> Seq<int> {
    let sp = sort_pairs(keyed(keys));
    Seq::new(sp.len(), |k: int| sp[k].1)
}

/// The elements taken in the order of `perm`.
pub open spec fn permute(xs: Seq<Val>, perm: Seq<int>) -> Seq<Val> {
    Seq::new(perm.len(), |k: int| xs[perm[k]])
}

/// The first `k` elements written to the positions `perm` names, over `xs`.
pub open spec fn scatter(xs: Seq<Val>, perm: Seq<int>, k: nat) -> Seq<Val>
    decreases k,
{
    if k == 0 {
        xs
    } else {
        scatter(xs, perm, (k - 1) as nat).update(perm[k - 1], xs[k - 1])
    }
}

/// How Repeat reads its argument: the number of times, and the start.
pub open spec fn repeat_args(v: Val) -> (Val, Val) {
    match v {
        Val::List(l) => if l.len() == 0 {
            (v, v)
        } else if l.len() == 1 {
            (l[0], l[0])
        } else {
            (l[0], l[1])
        },
        _ => (v, v),
    }
}

/// The body, or its inverse when `inv` is set.
pub open spec fn apply(body: FuncM, inv: bool, v: Val, fuel: nat) -> Val
    decreases fuel, 1nat,
{
    if fuel == 0 {
        limit()
    } else if inv {
        inverse(body, v, (fuel - 1) as nat)
    } else {
        forward(body, v, (fuel - 1) as nat)
    }
}

/// The expression applied to `v`.
pub open spec fn forward(f: FuncM, v: Val, fuel: nat) -> Val
    decreases fuel, 1nat,
{
    if fuel == 0 {
        limit()
    } else {
        match f {
            FuncM::Basic(p) => basic_forward(p, v),
            FuncM::Higher(h, b) => higher_forward(h, *b, false, v, (fuel - 1) as nat),
            FuncM::Double(d, l, r) => double_forward(d, *l, *r, false, v, (fuel - 1) as nat),
            FuncM::Bound(fs) => bound_forward(fs, v, (fuel - 1) as nat),
        }
    }
}

/// The expression's inverse applied to `v`.
pub open spec fn inverse(f: FuncM, v: Val, fuel: nat) -> Val
    decreases fuel, 1nat,
{
    if fuel == 0 {
        limit()
    } else {
        match f {
            FuncM::Basic(p) => basic_inverse(p, v),
            FuncM::Higher(h, b) => higher_inverse(h, *b, v, (fuel - 1) as nat),
            FuncM::Double(d, l, r) => double_forward(d, *l, *r, true, v, (fuel - 1) as nat),
            FuncM::Bound(fs) => bound_inverse(fs, v, (fuel - 1) as nat),
        }
    }
}

/// A composition: the last expression first.
pub open spec fn bound_forward(fs: Seq<FuncM>, v: Val, fuel: nat) -> Val
    decreases fuel, 1nat,
{
    if fs.len() == 0 {
        v
    } else if fuel == 0 {
        limit()
    } else {
        bound_forward(fs.drop_last(), forward(fs.last(), v, (fuel - 1) as nat), (fuel - 1) as nat)
    }
}

/// A composition's inverse: the inverses, the first expression first.
pub open spec fn bound_inverse(fs: Seq<FuncM>, v: Val, fuel: nat) -> Val
    decreases fuel, 1nat,
{
    if fs.len() == 0 {
        v
    } else if fuel == 0 {
        limit()
    } else {
        bound_inverse(fs.skip(1), inverse(fs[0], v, (fuel - 1) as nat), (fuel - 1) as nat)
    }
}

/// The body applied to each element.
pub open spec fn results(b: FuncM, inv: bool, xs: Seq<Val>, fuel: nat) -> Seq<Val>
    decreases fuel, 2nat,
{
    Seq::new(xs.len(), |i: int| apply(b, inv, xs[i], fuel))
}

/// A one-body operator, with its body inverted when `inv` is set.
pub open spec fn higher_forward(h: HigherFunc, b: FuncM, inv: bool, v: Val, fuel: nat) -> Val
    decreases fuel, 1nat,
{
    if fuel == 0 {
        limit()
    } else {
        let f = (fuel - 1) as nat;
        match h {
            HigherFunc::MapEach => if v is Error {
                v
            } else {
                let rs = results(b, inv, as_seq(v), f);
                if has_error(rs) {
                    first_error(rs)
                } else {
                    Val::List(rs)
                }
            },
            HigherFunc::Filter => if v is Error {
                v
            } else {
                let xs = as_seq(v);
                Val::List(select(xs, results(b, inv, xs, f)))
            },
            HigherFunc::Order => if v is Error {
                v
            } else {
                let xs = as_seq(v);
                Val::List(permute(xs, order_perm(results(b, inv, xs, f))))
            },
            HigherFunc::FixedPoint => fixed_iter(b, inv, v, Seq::empty(), f),
            HigherFunc::Inverse => apply(b, !inv, v, f),
            HigherFunc::Repeat => repeat(b, inv, v, f),
        }
    }
}

/// A one-body operator's inverse.
pub open spec fn higher_inverse(h: HigherFunc, b: FuncM, v: Val, fuel: nat) -> Val
    decreases fuel, 1nat,
{
    if fuel == 0 {
        limit()
    } else {
        let f = (fuel - 1) as nat;
        match h {
            HigherFunc::Order => if v is Error {
                v
            } else {
                let xs = as_seq(v);
                let perm = order_perm(results(b, false, xs, f));
                Val::List(scatter(xs, perm, perm.len()))
            },
            HigherFunc::Inverse => apply(b, false, v, f),
            _ => higher_forward(h, b, true, v, f),
        }
    }
}

/// From `cur`, the values met until one repeats or an error appears.
pub open spec fn fixed_iter(b: FuncM, inv: bool, cur: Val, seen: Seq<Val>, fuel: nat) -> Val
    decreases fuel, 1nat,
{
    if cur is Error || seen.contains(cur) {
        Val::List(seen)
    } else if fuel == 0 {
        limit()
    } else {
        fixed_iter(b, inv, apply(b, inv, cur, (fuel - 1) as nat), seen.push(cur), (fuel - 1) as nat)
    }
}

/// The body applied `k` times in a row, each result in turn.
pub open spec fn iterate(b: FuncM, inv: bool, cur: Val, k: int, fuel: nat) -> Val
    decreases fuel, 1nat,
{
    if k <= 0 {
        Val::List(Seq::empty())
    } else if fuel == 0 {
        limit()
    } else {
        let next = apply(b, inv, cur, (fuel - 1) as nat);
        prepend(next, iterate(b, inv, next, k - 1, (fuel - 1) as nat))
    }
}

/// Repeat: a list of times gives the start and as many results; a
/// non-negative integer gives that many results; anything else nothing.
pub open spec fn repeat(b: FuncM, inv: bool, v: Val, fuel: nat) -> Val
    decreases fuel, 1nat,
{
    if fuel == 0 {
        limit()
    } else {
        let (times, start) = repeat_args(v);
        let f = (fuel - 1) as nat;
        match times {
            Val::List(l) => prepend(start, iterate(b, inv, start, l.len() as int, f)),
            Val::Int(k) => if k < 0 {
                Val::List(Seq::empty())
            } else {
                iterate(b, inv, start, k, f)
            },
            Val::Error(_) => Val::List(Seq::empty()),
        }
    }
}

/// While: the values met while the test holds, the first failing one too.
pub open spec fn while_iter(l: FuncM, r: FuncM, inv: bool, cur: Val, fuel: nat) -> Val
    decreases fuel, 1nat,
{
    if cur is Error {
        Val::List(Seq::empty())
    } else if fuel == 0 {
        limit()
    } else if !truthy(apply(l, inv, cur, (fuel - 1) as nat)) {
        Val::List(seq![cur])
    } else {
        prepend(cur, while_iter(l, r, inv, apply(r, inv, cur, (fuel - 1) as nat), (fuel - 1) as nat))
    }
}

/// A two-body operator, with its bodies inverted when `inv` is set.
pub open spec fn double_forward(d: DoubleFunc, l: FuncM, r: FuncM, inv: bool, v: Val, fuel: nat) -> Val
    decreases fuel, 1nat,
{
    if fuel == 0 {
        limit()
    } else {
        let f = (fuel - 1) as nat;
        match d {
            DoubleFunc::While => while_iter(l, r, inv, v, f),
            DoubleFunc::Bifurcate => {
                let a = apply(l, inv, v, f);
                let c = apply(r, inv, v, f);
                if a is Error {
                    a
                } else if c is Error {
                    c
                } else {
                    Val::List(seq![a, c])
                }
            },
        }
    }
}


/// The values of `s` in front of a list; an error stays as it is.
pub open spec fn prefix_with(s: Seq<Val>, rest: Val) -> Val {
    match rest {
        Val::List(t) => Val::List(s + t),
        _ => rest,
    }
}

proof fn lemma_prefix_step(s: Seq<Val>, x: Val, rest: Val)
    ensures
        prefix_with(s, prepend(x, rest)) == prefix_with(s.push(x), rest),
{
    match rest {
        Val::List(t) => {
            assert(s + (seq![x] + t) =~= s.push(x) + t);
        },
        _ => {},
    }
}

proof fn lemma_insert_at(s: Seq<(Val, int)>, x: (Val, int), pos: int)
    requires
        0 <= pos <= s.len(),
        forall|j: int| pos <= j < s.len() ==> val_cmp(#[trigger] s[j].0, x.0) > 0,
        pos > 0 ==> val_cmp(s[pos - 1].0, x.0) <= 0,
    ensures
        insert_sorted(s, x) == s.insert(pos, x),
    decreases s.len(),
{
    if pos == s.len() {
        assert(s.push(x) =~= s.insert(pos, x));
    } else {
        let d = s.drop_last();
        lemma_insert_at(d, x, pos);
        assert(d.insert(pos, x).push(s.last()) =~= s.insert(pos, x));
    }
}

fn limit_object() -> (r: Object)
    ensures
        r@ == limit(),
{
    Object::error("Step limit reached")
}

fn contains_exec(seen: &Vec<Object>, x: &Object) -> (r: bool)
    ensures
        r == views(seen@).contains(x@),
{
    let mut k: usize = 0;
    while k < seen.len()
        invariant
            k <= seen@.len(),
            forall|i: int| 0 <= i < k ==> views(seen@)[i] != x@,
        decreases seen@.len() - k,
    {
        if seen[k].equals(x) {
            assert(views(seen@)[k as int] == x@);
            return true;
        }
        k += 1;
    }
    false
}

/// The positions of the keys in the order that stably sorts them.
fn sort_indices(keys: &Vec<Object>) -> (r: Vec<usize>)
    ensures
        r@.len() == keys@.len(),
        forall|k: int| 0 <= k < r@.len() ==> r@[k] < keys@.len(),
        Seq::new(r@.len(), |k: int| r@[k] as int) == order_perm(views(keys@)),
{
    let ghost kv = views(keys@);
    let ghost pairs = keyed(kv);
    let n = keys.len();
    let mut sorted: Vec<usize> = Vec::new();
    let mut i: usize = 0;
    assert(Seq::new(sorted@.len(), |k: int| (kv[sorted@[k] as int], sorted@[k] as int)) =~= sort_pairs(pairs.subrange(0, 0)));
    while i < n
        invariant
            n == keys@.len(),
            kv == views(keys@),
            pairs == keyed(kv),
            i <= n,
            sorted@.len() == i,
            forall|k: int| 0 <= k < sorted@.len() ==> sorted@[k] < i,
            Seq::new(sorted@.len(), |k: int| (kv[sorted@[k] as int], sorted@[k] as int)) == sort_pairs(pairs.subrange(0, i as int)),
        decreases n - i,
    {
        let ghost sp = Seq::new(sorted@.len(), |k: int| (kv[sorted@[k] as int], sorted@[k] as int));
        let mut pos: usize = sorted.len();
        while pos > 0 && keys[sorted[pos - 1]].compare(&keys[i]) > 0
            invariant
                n == keys@.len(),
                kv == views(keys@),
                i < n,
                pos <= sorted@.len(),
                sorted@.len() == i,
                forall|k: int| 0 <= k < sorted@.len() ==> sorted@[k] < i,
                sp == Seq::new(sorted@.len(), |k: int| (kv[sorted@[k] as int], sorted@[k] as int)),
                forall|j: int| pos <= j < sp.len() ==> val_cmp(#[trigger] sp[j].0, kv[i as int]) > 0,
            decreases pos,
        {
            pos -= 1;
        }
        proof {
            lemma_insert_at(sp, (kv[i as int], i as int), pos as int);
            assert(pairs.subrange(0, i as int + 1).drop_last() =~= pairs.subrange(0, i as int));
            assert(pairs.subrange(0, i as int + 1).last() == (kv[i as int], i as int));
        }
        sorted.insert(pos, i);
        i += 1;
        assert(Seq::new(sorted@.len(), |k: int| (kv[sorted@[k] as int], sorted@[k] as int)) =~= sp.insert(pos as int, (kv[(i - 1) as int], (i - 1) as int)));
    }
    assert(pairs.subrange(0, n as int) =~= pairs);
    assert(Seq::new(sorted@.len(), |k: int| sorted@[k] as int) =~= order_perm(kv));
    sorted
}

/// The body, or its inverse when `inv` is set.
fn apply_exec(body: &Func, inv: bool, v: Object, fuel: u64) -> (r: Object)
    ensures
        r@ == apply(body@, inv, v@, fuel as nat),
    decreases fuel, 0nat,
{
    if fuel == 0 {
        limit_object()
    } else if inv {
        body.inverse_with(v, fuel - 1)
    } else {
        body.forward_with(v, fuel - 1)
    }
}

fn bound_forward_exec(fs: &Vec<Func>, arg: Object, fuel: u64) -> (r: Object)
    ensures
        r@ == bound_forward(func_views(fs@), arg@, fuel as nat),
    decreases fuel, 0nat,
{
    let ghost fv = func_views(fs@);
    let mut cur = arg;
    let mut f = fuel;
    let mut i = fs.len();
    assert(fv.subrange(0, i as int) =~= fv);
    loop
        invariant
            fv == func_views(fs@),
            i <= fs@.len(),
            f <= fuel,
            bound_forward(fv, arg@, fuel as nat) == bound_forward(fv.subrange(0, i as int), cur@, f as nat),
        decreases f,
    {
        if i == 0 {
            return cur;
        }
        if f == 0 {
            return limit_object();
        }
        let ghost sub = fv.subrange(0, i as int);
        assert(sub.drop_last() =~= fv.subrange(0, i - 1));
        cur = fs[i - 1].forward_with(cur, f - 1);
        f -= 1;
        i -= 1;
    }
}

fn bound_inverse_exec(fs: &Vec<Func>, arg: Object, fuel: u64) -> (r: Object)
    ensures
        r@ == bound_inverse(func_views(fs@), arg@, fuel as nat),
    decreases fuel, 0nat,
{
    let ghost fv = func_views(fs@);
    let mut cur = arg;
    let mut f = fuel;
    let mut i: usize = 0;
    assert(fv.skip(0) =~= fv);
    loop
        invariant
            fv == func_views(fs@),
            i <= fs@.len(),
            f <= fuel,
            bound_inverse(fv, arg@, fuel as nat) == bound_inverse(fv.skip(i as int), cur@, f as nat),
        decreases f,
    {
        if i == fs.len() {
            return cur;
        }
        if f == 0 {
            return limit_object();
        }
        assert(fv.skip(i as int).skip(1) =~= fv.skip(i as int + 1));
        cur = fs[i].inverse_with(cur, f - 1);
        f -= 1;
        i += 1;
    }
}

impl Func {
    /// Applies the expression to `arg`, within the step budget `fuel`.
    pub fn forward_with(&self, arg: Object, fuel: u64) -> (r: Object)
        ensures
            r@ == forward(self@, arg@, fuel as nat),
        decreases fuel, 0nat,
    {
        if fuel == 0 {
            return limit_object();
        }
        match self {
            Func::Basic(p) => p.execute(arg),
            Func::Higher(h, b) => h.execute(&**b, false, arg, fuel - 1),
            Func::Double(d, l, r) => d.execute(&**l, &**r, false, arg, fuel - 1),
            Func::Bound(fs) => {
                proof {
                    lemma_bound_view(*fs);
                }
                bound_forward_exec(fs, arg, fuel - 1)
            },
        }
    }

    /// Applies the expression's inverse to `arg`, within the step budget `fuel`.
    pub fn inverse_with(&self, arg: Object, fuel: u64) -> (r: Object)
        ensures
            r@ == inverse(self@, arg@, fuel as nat),
        decreases fuel, 0nat,
    {
        if fuel == 0 {
            return limit_object();
        }
        match self {
            Func::Basic(p) => p.inverse_execute(arg),
            Func::Higher(h, b) => h.inverse_execute(&**b, arg, fuel - 1),
            Func::Double(d, l, r) => d.execute(&**l, &**r, true, arg, fuel - 1),
            Func::Bound(fs) => {
                proof {
                    lemma_bound_view(*fs);
                }
                bound_inverse_exec(fs, arg, fuel - 1)
            },
        }
    }

    /// Applies the expression to `arg`.
    pub fn execute(&self, arg: Object) -> (r: Object)
        ensures
            r@ == forward(self@, arg@, STEP_LIMIT as nat),
    {
        self.forward_with(arg, STEP_LIMIT)
    }

    /// Applies the expression's inverse to `arg`.
    pub fn inverse_execute(&self, arg: Object) -> (r: Object)
        ensures
            r@ == inverse(self@, arg@, STEP_LIMIT as nat),
    {
        self.inverse_with(arg, STEP_LIMIT)
    }
}


fn prefix_object(out: Vec<Object>, rest: Object) -> (r: Object)
    ensures
        r@ == prefix_with(views(out@), rest@),
{
    match rest {
        Object::List(t) => {
            proof {
                lemma_list_view(t);
            }
            let ghost ov = views(out@);
            let ghost tv = views(t@);
            let mut out = out;
            let mut t = t;
            out.append(&mut t);
            assert(views(out@) =~= ov + tv);
            Object::list(out)
        },
        other => other,
    }
}

fn iterate_exec(body: &Func, inv: bool, start: Object, k: &Integer, fuel: u64) -> (r: Object)
    ensures
        r@ == iterate(body@, inv, start@, k.value(), fuel as nat),
    decreases fuel, 0nat,
{
    let ghost goal = iterate(body@, inv, start@, k.value(), fuel as nat);
    let one = Integer::from_u64(1);
    let mut out: Vec<Object> = Vec::new();
    let mut cur = start;
    let mut j = Integer::zero();
    let mut f = fuel;
    assert(views(out@) =~= Seq::<Val>::empty());
    assert(prefix_with(Seq::empty(), goal) == goal);
    loop
        invariant
            goal == iterate(body@, inv, start@, k.value(), fuel as nat),
            one.value() == 1,
            f <= fuel,
            goal == prefix_with(views(out@), iterate(body@, inv, cur@, k.value() - j.value(), f as nat)),
        decreases f,
    {
        if int_cmp(&j, k) >= 0 {
            assert(views(out@) + Seq::<Val>::empty() =~= views(out@));
            return Object::list(out);
        }
        if f == 0 {
            return limit_object();
        }
        let next = apply_exec(body, inv, cur, f - 1);
        let c = next.copy();
        proof {
            lemma_prefix_step(views(out@), next@, iterate(body@, inv, next@, k.value() - j.value() - 1, (f - 1) as nat));
            lemma_views_push(out@, c);
        }
        out.push(c);
        cur = next;
        j = int_add(&j, &one);
        f -= 1;
    }
}

fn while_exec(l: &Func, r: &Func, inv: bool, start: Object, fuel: u64) -> (res: Object)
    ensures
        res@ == while_iter(l@, r@, inv, start@, fuel as nat),
    decreases fuel, 0nat,
{
    let ghost goal = while_iter(l@, r@, inv, start@, fuel as nat);
    let mut out: Vec<Object> = Vec::new();
    let mut cur = start;
    let mut f = fuel;
    assert(views(out@) =~= Seq::<Val>::empty());
    assert(prefix_with(Seq::empty(), goal) == goal);
    loop
        invariant
            goal == while_iter(l@, r@, inv, start@, fuel as nat),
            f <= fuel,
            goal == prefix_with(views(out@), while_iter(l@, r@, inv, cur@, f as nat)),
        decreases f,
    {
        if cur.is_error() {
            assert(views(out@) + Seq::<Val>::empty() =~= views(out@));
            return Object::list(out);
        }
        if f == 0 {
            return limit_object();
        }
        let test = apply_exec(l, inv, cur.copy(), f - 1);
        if !test.is_truthy() {
            let ghost ov = views(out@);
            proof {
                lemma_views_push(out@, cur);
            }
            out.push(cur);
            assert(ov + seq![views(out@).last()] =~= views(out@));
            return Object::list(out);
        }
        let next = apply_exec(r, inv, cur.copy(), f - 1);
        proof {
            lemma_prefix_step(views(out@), cur@, while_iter(l@, r@, inv, next@, (f - 1) as nat));
            lemma_views_push(out@, cur);
        }
        out.push(cur);
        cur = next;
        f -= 1;
    }
}

fn fixed_point_exec(body: &Func, inv: bool, start: Object, fuel: u64) -> (r: Object)
    ensures
        r@ == fixed_iter(body@, inv, start@, Seq::empty(), fuel as nat),
    decreases fuel, 0nat,
{
    let ghost goal = fixed_iter(body@, inv, start@, Seq::empty(), fuel as nat);
    let mut seen: Vec<Object> = Vec::new();
    let mut cur = start;
    let mut f = fuel;
    assert(views(seen@) =~= Seq::<Val>::empty());
    loop
        invariant
            goal == fixed_iter(body@, inv, start@, Seq::empty(), fuel as nat),
            f <= fuel,
            goal == fixed_iter(body@, inv, cur@, views(seen@), f as nat),
        decreases f,
    {
        if cur.is_error() || contains_exec(&seen, &cur) {
            return Object::list(seen);
        }
        if f == 0 {
            return limit_object();
        }
        let next = apply_exec(body, inv, cur.copy(), f - 1);
        proof {
            lemma_views_push(seen@, cur);
        }
        seen.push(cur);
        cur = next;
        f -= 1;
    }
}

fn repeat_exec(body: &Func, inv: bool, v: Object, fuel: u64) -> (r: Object)
    ensures
        r@ == repeat(body@, inv, v@, fuel as nat),
    decreases fuel, 0nat,
{
    if fuel == 0 {
        return limit_object();
    }
    let (times, start) = match v {
        Object::List(l) => {
            proof {
                lemma_list_view(l);
            }
            if l.len() == 0 {
                (Object::list(Vec::new()), Object::list(l))
            } else if l.len() == 1 {
                (l[0].copy(), l[0].copy())
            } else {
                (l[0].copy(), l[1].copy())
            }
        },
        other => (other.copy(), other),
    };
    proof {
        if v@ is List && v@->List_0.len() == 0 {
            assert(views(Seq::<Object>::empty()) =~= v@->List_0);
        }
    }
    match times {
        Object::List(tl) => {
            proof {
                lemma_list_view(tl);
            }
            let k = Integer::from_u64(tl.len() as u64);
            let rest = iterate_exec(body, inv, start.copy(), &k, fuel - 1);
            let mut out: Vec<Object> = Vec::new();
            proof {
                lemma_views_push(out@, start);
            }
            out.push(start);
            assert(views(out@) =~= seq![start@]);
            prefix_object(out, rest)
        },
        Object::Int(k) => {
            if k.is_negative() {
                let e: Vec<Object> = Vec::new();
                assert(views(e@) =~= Seq::<Val>::empty());
                Object::list(e)
            } else {
                iterate_exec(body, inv, start, &k, fuel - 1)
            }
        },
        Object::Error(_) => {
            let e: Vec<Object> = Vec::new();
            assert(views(e@) =~= Seq::<Val>::empty());
            Object::list(e)
        },
    }
}

impl HigherFunc {
    /// The list of results, or the first error among them.
    pub fn first_error(arg: Vec<Object>) -> (r: Object)
        ensures
            r@ == if has_error(views(arg@)) {
                first_error(views(arg@))
            } else {
                Val::List(views(arg@))
            },
    {
        match find_error(&arg) {
            Some(e) => e,
            None => Object::list(arg),
        }
    }

    /// Applies the operator with `body`, inverted when `inverted` is set,
    /// within the step budget `fuel`.
    pub fn execute(&self, body: &Func, inverted: bool, arg: Object, fuel: u64) -> (r: Object)
        ensures
            r@ == higher_forward(*self, body@, inverted, arg@, fuel as nat),
        decreases fuel, 0nat,
    {
        if fuel == 0 {
            return limit_object();
        }
        let f = fuel - 1;
        match self {
            HigherFunc::MapEach => {
                if arg.is_error() {
                    return arg;
                }
                let xs = arg.to_list();
                HigherFunc::first_error(keys_exec(body, inverted, &xs, f))
            },
            HigherFunc::Filter => {
                if arg.is_error() {
                    return arg;
                }
                let xs = arg.to_list();
                let tests = keys_exec(body, inverted, &xs, f);
                Object::list(select_exec(&xs, &tests))
            },
            HigherFunc::Order => {
                if arg.is_error() {
                    return arg;
                }
                let xs = arg.to_list();
                let keys = keys_exec(body, inverted, &xs, f);
                let perm = sort_indices(&keys);
                Object::list(permute_exec(&xs, &perm))
            },
            HigherFunc::FixedPoint => fixed_point_exec(body, inverted, arg, f),
            HigherFunc::Inverse => apply_exec(body, !inverted, arg, f),
            HigherFunc::Repeat => repeat_exec(body, inverted, arg, f),
        }
    }

    /// Applies the operator's inverse with `body`, within the step budget `fuel`.
    pub fn inverse_execute(&self, body: &Func, arg: Object, fuel: u64) -> (r: Object)
        ensures
            r@ == higher_inverse(*self, body@, arg@, fuel as nat),
        decreases fuel, 0nat,
    {
        if fuel == 0 {
            return limit_object();
        }
        let f = fuel - 1;
        match self {
            HigherFunc::Order => {
                if arg.is_error() {
                    return arg;
                }
                let xs = arg.to_list();
                let keys = keys_exec(body, false, &xs, f);
                let perm = sort_indices(&keys);
                Object::list(scatter_exec(&xs, &perm))
            },
            HigherFunc::Inverse => apply_exec(body, false, arg, f),
            _ => self.execute(body, true, arg, f),
        }
    }
}

impl DoubleFunc {
    /// Applies the operator with `left` and `right`, inverted when `inverted`
    /// is set, within the step budget `fuel`.
    pub fn execute(&self, left: &Func, right: &Func, inverted: bool, arg: Object, fuel: u64) -> (r: Object)
        ensures
            r@ == double_forward(*self, left@, right@, inverted, arg@, fuel as nat),
        decreases fuel, 0nat,
    {
        if fuel == 0 {
            return limit_object();
        }
        let f = fuel - 1;
        match self {
            DoubleFunc::While => while_exec(left, right, inverted, arg, f),
            DoubleFunc::Bifurcate => {
                let a = apply_exec(left, inverted, arg.copy(), f);
                let c = apply_exec(right, inverted, arg, f);
                if a.is_error() {
                    a
                } else if c.is_error() {
                    c
                } else {
                    pair_of(a, c)
                }
            },
        }
    }

    /// Applies the operator's inverse: the operator with both bodies inverted.
    pub fn inverse_execute(&self, left: &Func, right: &Func, arg: Object, fuel: u64) -> (r: Object)
        ensures
            r@ == double_forward(*self, left@, right@, true, arg@, fuel as nat),
    {
        self.execute(left, right, true, arg, fuel)
    }
}

fn pair_of(a: Object, b: Object) -> (r: Object)
    ensures
        r@ == Val::List(seq![a@, b@]),
{
    let mut v: Vec<Object> = Vec::new();
    proof {
        lemma_views_push(v@, a);
    }
    v.push(a);
    proof {
        lemma_views_push(v@, b);
    }
    v.push(b);
    assert(views(v@) =~= seq![a@, b@]);
    Object::list(v)
}

fn keys_exec(body: &Func, inv: bool, xs: &Vec<Object>, fuel: u64) -> (r: Vec<Object>)
    ensures
        views(r@) == results(body@, inv, views(xs@), fuel as nat),
    decreases fuel, 1nat,
{
    let ghost xv = views(xs@);
    let ghost goal = results(body@, inv, xv, fuel as nat);
    let mut keys: Vec<Object> = Vec::new();
    let mut k: usize = 0;
    while k < xs.len()
        invariant
            xv == views(xs@),
            goal == results(body@, inv, xv, fuel as nat),
            k <= xs@.len(),
            views(keys@) == goal.subrange(0, k as int),
        decreases xs@.len() - k,
    {
        let y = apply_exec(body, inv, xs[k].copy(), fuel);
        proof {
            lemma_views_push(keys@, y);
        }
        keys.push(y);
        k += 1;
        assert(views(keys@) =~= goal.subrange(0, k as int));
    }
    assert(goal.subrange(0, xv.len() as int) =~= goal);
    keys
}

fn permute_exec(xs: &Vec<Object>, perm: &Vec<usize>) -> (r: Vec<Object>)
    requires
        forall|k: int| 0 <= k < perm@.len() ==> perm@[k] < xs@.len(),
    ensures
        views(r@) == permute(views(xs@), Seq::new(perm@.len(), |k: int| perm@[k] as int)),
{
    let ghost goal = permute(views(xs@), Seq::new(perm@.len(), |k: int| perm@[k] as int));
    let mut out: Vec<Object> = Vec::new();
    let mut k: usize = 0;
    while k < perm.len()
        invariant
            forall|k: int| 0 <= k < perm@.len() ==> perm@[k] < xs@.len(),
            goal == permute(views(xs@), Seq::new(perm@.len(), |k: int| perm@[k] as int)),
            k <= perm@.len(),
            views(out@) == goal.subrange(0, k as int),
        decreases perm@.len() - k,
    {
        let c = xs[perm[k]].copy();
        proof {
            lemma_views_push(out@, c);
        }
        out.push(c);
        k += 1;
        assert(views(out@) =~= goal.subrange(0, k as int));
    }
    assert(goal.subrange(0, perm@.len() as int) =~= goal);
    out
}

fn scatter_exec(xs: &Vec<Object>, perm: &Vec<usize>) -> (r: Vec<Object>)
    requires
        perm@.len() == xs@.len(),
        forall|k: int| 0 <= k < perm@.len() ==> perm@[k] < xs@.len(),
    ensures
        views(r@) == scatter(views(xs@), Seq::new(perm@.len(), |k: int| perm@[k] as int), perm@.len()),
{
    let ghost p = Seq::new(perm@.len(), |k: int| perm@[k] as int);
    let mut out: Vec<Object> = Vec::new();
    let mut i: usize = 0;
    while i < xs.len()
        invariant
            i <= xs@.len(),
            views(out@) == views(xs@).subrange(0, i as int),
        decreases xs@.len() - i,
    {
        let c = xs[i].copy();
        proof {
            lemma_views_push(out@, c);
        }
        out.push(c);
        i += 1;
        assert(views(out@) =~= views(xs@).subrange(0, i as int));
    }
    assert(views(xs@).subrange(0, xs@.len() as int) =~= views(xs@));
    let mut k: usize = 0;
    while k < perm.len()
        invariant
            perm@.len() == xs@.len(),
            forall|k: int| 0 <= k < perm@.len() ==> perm@[k] < xs@.len(),
            p == Seq::new(perm@.len(), |k: int| perm@[k] as int),
            out@.len() == xs@.len(),
            k <= perm@.len(),
            views(out@) == scatter(views(xs@), p, k as nat),
        decreases perm@.len() - k,
    {
        let ghost ov = views(out@);
        let c = xs[k].copy();
        out.set(perm[k], c);
        assert(views(out@) =~= ov.update(p[k as int], views(xs@)[k as int]));
        k += 1;
    }
    out
}


fn select_exec(xs: &Vec<Object>, tests: &Vec<Object>) -> (r: Vec<Object>)
    requires
        tests@.len() == xs@.len(),
    ensures
        views(r@) == select(views(xs@), views(tests@)),
{
    let ghost xv = views(xs@);
    let ghost tv = views(tests@);
    let mut out: Vec<Object> = Vec::new();
    let mut k: usize = 0;
    while k < xs.len()
        invariant
            tests@.len() == xs@.len(),
            xv == views(xs@),
            tv == views(tests@),
            k <= xs@.len(),
            views(out@) == select(xv.subrange(0, k as int), tv),
        decreases xs@.len() - k,
    {
        assert(xv.subrange(0, k as int + 1).drop_last() =~= xv.subrange(0, k as int));
        if tests[k].is_truthy() {
            let c = xs[k].copy();
            proof {
                lemma_views_push(out@, c);
            }
            out.push(c);
        }
        assert(views(out@) =~= select(xv.subrange(0, k as int + 1), tv));
        k += 1;
    }
    assert(xv.subrange(0, xv.len() as int) =~= xv);
    out
}

} // verus!
