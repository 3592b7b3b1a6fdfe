//! The primitives, forward and inverse, on integers and lists.

use vstd::prelude::*;
use vstd::arithmetic::power2::{lemma2_to64, lemma2_to64_rest, lemma_pow2_strictly_increases, lemma_pow2_unfold, pow2};
use crate::func::BasicFunc;
use crate::integer::{
    Integer, binary_of, int_add, int_binary, int_cmp, int_div, int_mul, int_pow2, int_rem, int_sub,
    magnitude, trunc_div, trunc_rem,
};
use crate::value::{Object, Val, as_seq, lemma_list_view, lemma_views_push, range_seq, views};

verus! {

/// Whether every element is an integer.
pub open spec fn all_int(l: Seq<Val>) -> bool {
    forall|i: int| 0 <= i < l.len() ==> (#[trigger] l[i]) is Int
}

/// Whether some element is an error.
pub open spec fn has_error(l: Seq<Val>) -> bool {
    exists|i: int| 0 <= i < l.len() && (#[trigger] l[i]) is Error
}

/// The first error among the elements.
pub open spec fn first_error(l: Seq<Val>) -> Val
    decreases l.len(),
{
    if l.len() == 0 {
        Val::List(l)
    } else if l[0] is Error {
        l[0]
    } else {
        first_error(l.skip(1))
    }
}

/// The sum of the integer elements.
pub open spec fn int_sum(l: Seq<Val>) -> int
    decreases l.len(),
{
    if l.len() == 0 {
        0
    } else {
        int_sum(l.drop_last()) + match l.last() {
            Val::Int(n) => n,
            _ => 0,
        }
    }
}

/// The product of the integer elements.
pub open spec fn int_product(l: Seq<Val>) -> int
    decreases l.len(),
{
    if l.len() == 0 {
        1
    } else {
        int_product(l.drop_last()) * match l.last() {
            Val::Int(n) => n,
            _ => 1,
        }
    }
}

/// One level of nesting removed: lists are spliced in, other elements kept.
pub open spec fn flatten(l: Seq<Val>) -> Seq<Val>
    decreases l.len(),
{
    if l.len() == 0 {
        l
    } else {
        flatten(l.drop_last()) + match l.last() {
            Val::List(m) => m,
            x => seq![x],
        }
    }
}

/// Integers as values.
pub open spec fn int_vals(s: Seq<int>) -> Seq<Val> {
    Seq::new(s.len(), |i: int| Val::Int(s[i]))
}

/// The number that big-endian binary digits spell; every element must be
/// an integer.
pub open spec fn bits_number(l: Seq<Val>) -> int
    decreases l.len(),
{
    if l.len() == 0 {
        0
    } else {
        2 * bits_number(l.drop_last()) + match l.last() {
            Val::Int(b) => b,
            _ => 0,
        }
    }
}

/// Whether every element equals the last one.
pub open spec fn all_equal(l: Seq<Val>) -> bool {
    forall|i: int| 0 <= i < l.len() ==> #[trigger] l[i] == l.last()
}

/// An error value with the given reason.
pub open spec fn error(reason: &str) -> Val {
    Val::Error(reason@)
}

/// What the primitive gives on an integer, a list or an error. Errors pass
/// through unchanged. Sum adds a list only when every element is an
/// integer; any other list, errors included, is flattened one level.
/// Product gives the first error of a list that holds one and is not all
/// integers. A primitive with no meaning on its argument gives an error value.
pub open spec fn basic_forward(p: BasicFunc, v: Val) -> Val {
    match v {
        Val::Error(_) => v,
        Val::Int(n) => match p {
            BasicFunc::Head => Val::Int(n + 1),
            BasicFunc::Tail => Val::Int(n - 1),
            BasicFunc::Sum => Val::Int(if n == 0 { 1 } else { 0 }),
            BasicFunc::Product => Val::List(int_vals(prime_factors(magnitude(n) as nat))),
            BasicFunc::PowerSet => if n < 0 {
                error("Negative exponent in power set")
            } else if n > 4294967295 {
                error("Exponent too large in power set")
            } else {
                Val::Int(pow2(n as nat) as int)
            },
            BasicFunc::Length => Val::List(int_vals(binary_of(magnitude(n) as nat))),
            BasicFunc::Negate => Val::Int(-n),
            BasicFunc::Equal => error("Equal of an integer"),
            BasicFunc::Combine => error("Combine of an integer"),
            BasicFunc::AllPair => Val::List(pair_each(v, range_seq(n))),
        },
        Val::List(l) => match p {
            BasicFunc::Head => if l.len() == 0 {
                error("Head of empty list")
            } else {
                l[0]
            },
            BasicFunc::Tail => if l.len() == 0 {
                error("Tail of empty list")
            } else {
                Val::List(l.skip(1))
            },
            BasicFunc::Sum => if all_int(l) {
                Val::Int(int_sum(l))
            } else {
                Val::List(flatten(l))
            },
            BasicFunc::Product => if all_int(l) {
                Val::Int(int_product(l))
            } else if has_error(l) {
                first_error(l)
            } else {
                Val::List(lists(cartesian(Seq::new(l.len(), |i: int| as_seq(l[i])))))
            },
            BasicFunc::PowerSet => if l.len() >= 64 {
                error("Power set too large")
            } else {
                Val::List(Seq::new(pow2(l.len()) as nat, |i: int| Val::List(subset(l, i as nat))))
            },
            BasicFunc::Length => Val::Int(l.len() as int),
            BasicFunc::Negate => Val::List(l.reverse()),
            BasicFunc::Equal => Val::Int(if all_equal(l) { 1 } else { 0 }),
            BasicFunc::Combine => if has_error(l) {
                first_error(l)
            } else {
                Val::List(Seq::new(longest(l), |i: int| Val::List(row(l, i))))
            },
            BasicFunc::AllPair => all_pair_list(l),
        },
    }
}

/// Trial division of `work` from `d` upward: the prime factors in
/// ascending order, each as often as it divides.
pub open spec fn factors_from(work: nat, d: nat) -> Seq<int>
    decreases work, work - d,
{
    if d < 2 || work < 2 {
        Seq::empty()
    } else if d * d > work {
        seq![work as int]
    } else if work % d == 0 {
        proof {
            assert(work / d < work) by (nonlinear_arith)
                requires
                    d >= 2,
                    work >= 2,
            ;
        }
        seq![d as int] + factors_from(work / d, d)
    } else {
        proof {
            assert(d < work) by (nonlinear_arith)
                requires
                    d >= 2,
                    d * d <= work,
            ;
        }
        factors_from(work, d + 1)
    }
}

/// The prime factors of `n`, ascending, with multiplicity; none below 2.
pub open spec fn prime_factors(n: nat) -> Seq<int> {
    factors_from(n, 2)
}

/// Each element as a list value.
pub open spec fn lists(s: Seq<Seq<Val>>) -> Seq<Val> {
    Seq::new(s.len(), |i: int| Val::List(s[i]))
}

/// Each staged selection extended by each element of `sub`.
pub open spec fn extend_each(staged: Seq<Seq<Val>>, sub: Seq<Val>) -> Seq<Seq<Val>>
    decreases staged.len(),
{
    if staged.len() == 0 {
        staged
    } else {
        extend_each(staged.drop_last(), sub) + Seq::new(sub.len(), |j: int| staged.last().push(sub[j]))
    }
}

/// All ordered selections of one element from each sequence.
pub open spec fn cartesian(seqs: Seq<Seq<Val>>) -> Seq<Seq<Val>>
    decreases seqs.len(),
{
    if seqs.len() == 0 {
        seq![Seq::empty()]
    } else {
        extend_each(cartesian(seqs.drop_last()), seqs.last())
    }
}

/// The elements of `l` whose position's bit is set in `i`.
pub open spec fn subset(l: Seq<Val>, i: nat) -> Seq<Val>
    decreases l.len(),
{
    if l.len() == 0 {
        l
    } else {
        subset(l.drop_last(), i) + if (i / pow2((l.len() - 1) as nat)) % 2 == 1 {
            seq![l.last()]
        } else {
            Seq::empty()
        }
    }
}

/// The length of the longest element: an integer counts as one.
pub open spec fn longest(l: Seq<Val>) -> nat
    decreases l.len(),
{
    if l.len() == 0 {
        0
    } else {
        let w = match l.last() {
            Val::List(m) => m.len(),
            _ => 1,
        };
        let rest = longest(l.drop_last());
        if w > rest {
            w
        } else {
            rest
        }
    }
}

/// Row `i` of the combination: each list's `i`-th item, and each integer
/// in row zero.
pub open spec fn row(l: Seq<Val>, i: int) -> Seq<Val>
    decreases l.len(),
{
    if l.len() == 0 {
        l
    } else {
        row(l.drop_last(), i) + match l.last() {
            Val::List(m) => if 0 <= i < m.len() {
                seq![m[i]]
            } else {
                Seq::empty()
            },
            x => if i == 0 {
                seq![x]
            } else {
                Seq::empty()
            },
        }
    }
}

/// `[x, e]` for each `e`.
pub open spec fn pair_each(x: Val, s: Seq<Val>) -> Seq<Val> {
    Seq::new(s.len(), |i: int| Val::List(seq![x, s[i]]))
}

/// `[e, y]` for each `e`.
pub open spec fn pair_each_with(s: Seq<Val>, y: Val) -> Seq<Val> {
    Seq::new(s.len(), |i: int| Val::List(seq![s[i], y]))
}

/// A one-element result is unwrapped.
pub open spec fn unwrap_single(out: Seq<Val>) -> Val {
    if out.len() == 1 {
        out[0]
    } else {
        Val::List(out)
    }
}

/// Whether some element after the first is a list.
pub open spec fn list_after_first(l: Seq<Val>) -> bool {
    exists|i: int| 1 <= i < l.len() && (#[trigger] l[i]) is List
}

/// AllPair on a list.
pub open spec fn all_pair_list(l: Seq<Val>) -> Val {
    if l.len() >= 2 && list_after_first(l) {
        let rest = l.skip(1);
        unwrap_single(Seq::new(rest.len(), |i: int| Val::List(pair_each(l[0], as_seq(rest[i])))))
    } else if l.len() >= 2 && l[0] is List {
        let rest = l.remove(1);
        unwrap_single(Seq::new(rest.len(), |i: int| Val::List(pair_each_with(as_seq(rest[i]), l[1]))))
    } else {
        Val::List(pair_each(Val::List(l), l))
    }
}


fn int_object(n: Integer) -> (r: Object)
    ensures
        r@ == Val::Int(n.value()),
{
    Object::Int(n)
}

fn small_int(n: u64) -> (r: Object)
    ensures
        r@ == Val::Int(n as int),
{
    Object::Int(Integer::from_u64(n))
}

/// Copies of the elements from `from` on.
fn copy_from(l: &Vec<Object>, from: usize) -> (r: Vec<Object>)
    requires
        from <= l@.len(),
    ensures
        views(r@) == views(l@).skip(from as int),
{
    let mut out: Vec<Object> = Vec::new();
    let mut k: usize = from;
    while k < l.len()
        invariant
            from <= k <= l@.len(),
            views(out@) == views(l@).subrange(from as int, k as int),
        decreases l@.len() - k,
    {
        let c = l[k].copy();
        proof {
            lemma_views_push(out@, c);
        }
        out.push(c);
        k += 1;
        assert(views(out@) =~= views(l@).subrange(from as int, k as int));
    }
    assert(views(l@).subrange(from as int, l@.len() as int) =~= views(l@).skip(from as int));
    out
}

fn is_all_int(l: &Vec<Object>) -> (r: bool)
    ensures
        r == all_int(views(l@)),
{
    let mut k: usize = 0;
    while k < l.len()
        invariant
            k <= l@.len(),
            forall|i: int| 0 <= i < k ==> (#[trigger] views(l@)[i]) is Int,
        decreases l@.len() - k,
    {
        match &l[k] {
            Object::Int(_) => {},
            _ => {
                assert(!(views(l@)[k as int] is Int));
                return false;
            },
        }
        k += 1;
    }
    true
}

/// The first error of the list, if it has one.
pub fn find_error(l: &Vec<Object>) -> (r: Option<Object>)
    ensures
        match r {
            Some(e) => has_error(views(l@)) && e@ == first_error(views(l@)),
            None => !has_error(views(l@)),
        },
{
    let ghost v = views(l@);
    let mut k: usize = 0;
    assert(v.skip(0) =~= v);
    while k < l.len()
        invariant
            v == views(l@),
            k <= l@.len(),
            forall|i: int| 0 <= i < k ==> !((#[trigger] v[i]) is Error),
            first_error(v) == first_error(v.skip(k as int)) || k == 0,
            k == 0 ==> v.skip(k as int) == v,
        decreases l@.len() - k,
    {
        if l[k].is_error() {
            assert(v.skip(k as int)[0] == v[k as int]);
            return Some(l[k].copy());
        }
        assert(v.skip(k as int).skip(1) =~= v.skip(k as int + 1));
        k += 1;
    }
    None
}

fn sum_ints(l: &Vec<Object>) -> (r: Integer)
    requires
        all_int(views(l@)),
    ensures
        r.value() == int_sum(views(l@)),
{
    let ghost v = views(l@);
    let mut total = Integer::zero();
    let mut k: usize = 0;
    while k < l.len()
        invariant
            v == views(l@),
            all_int(v),
            k <= l@.len(),
            total.value() == int_sum(v.subrange(0, k as int)),
        decreases l@.len() - k,
    {
        assert(v.subrange(0, k as int + 1).drop_last() =~= v.subrange(0, k as int));
        assert(v[k as int] is Int);
        match &l[k] {
            Object::Int(x) => {
                total = int_add(&total, x);
            },
            _ => {},
        }
        k += 1;
    }
    assert(v.subrange(0, v.len() as int) =~= v);
    total
}

fn product_ints(l: &Vec<Object>) -> (r: Integer)
    requires
        all_int(views(l@)),
    ensures
        r.value() == int_product(views(l@)),
{
    let ghost v = views(l@);
    let mut total = Integer::from_u64(1);
    let mut k: usize = 0;
    while k < l.len()
        invariant
            v == views(l@),
            all_int(v),
            k <= l@.len(),
            total.value() == int_product(v.subrange(0, k as int)),
        decreases l@.len() - k,
    {
        assert(v.subrange(0, k as int + 1).drop_last() =~= v.subrange(0, k as int));
        assert(v[k as int] is Int);
        match &l[k] {
            Object::Int(x) => {
                total = int_mul(&total, x);
            },
            _ => {},
        }
        k += 1;
    }
    assert(v.subrange(0, v.len() as int) =~= v);
    total
}

fn flatten_exec(l: &Vec<Object>) -> (r: Vec<Object>)
    ensures
        views(r@) == flatten(views(l@)),
{
    let ghost v = views(l@);
    let mut out: Vec<Object> = Vec::new();
    let mut k: usize = 0;
    while k < l.len()
        invariant
            v == views(l@),
            k <= l@.len(),
            views(out@) == flatten(v.subrange(0, k as int)),
        decreases l@.len() - k,
    {
        assert(v.subrange(0, k as int + 1).drop_last() =~= v.subrange(0, k as int));
        assert(v.subrange(0, k as int + 1).last() == v[k as int]);
        match &l[k] {
            Object::List(m) => {
                proof {
                    lemma_list_view(*m);
                }
                let mut inner = copy_from(m, 0);
                assert(views(m@).skip(0) =~= views(m@));
                let ghost ov = views(out@);
                let ghost iv = views(inner@);
                out.append(&mut inner);
                assert(views(out@) =~= ov + iv);
            },
            other => {
                let ghost ov = views(out@);
                out.push(other.copy());
                assert(views(out@) =~= ov + seq![v[k as int]]);
            },
        }
        k += 1;
    }
    assert(v.subrange(0, v.len() as int) =~= v);
    out
}

fn binary_list(n: &Integer) -> (r: Vec<Object>)
    ensures
        views(r@) == int_vals(binary_of(magnitude(n.value()) as nat)),
{
    let bits = int_binary(n);
    let ghost b = binary_of(magnitude(n.value()) as nat);
    let mut out: Vec<Object> = Vec::new();
    let mut k: usize = 0;
    while k < bits.len()
        invariant
            bits@.len() == b.len(),
            forall|i: int| 0 <= i < bits@.len() ==> bits@[i] as int == #[trigger] b[i],
            k <= bits@.len(),
            views(out@) == int_vals(b).subrange(0, k as int),
        decreases bits@.len() - k,
    {
        let c = small_int(bits[k] as u64);
        proof {
            lemma_views_push(out@, c);
        }
        out.push(c);
        k += 1;
        assert(views(out@) =~= int_vals(b).subrange(0, k as int));
    }
    assert(int_vals(b).subrange(0, b.len() as int) =~= int_vals(b));
    out
}

fn factor_list(n: &Integer) -> (r: Vec<Object>)
    ensures
        views(r@) == int_vals(prime_factors(magnitude(n.value()) as nat)),
{
    let mut work = n.abs();
    let two = Integer::from_u64(2);
    let one = Integer::from_u64(1);
    let mut out: Vec<Object> = Vec::new();
    if int_cmp(&work, &two) < 0 {
        assert(views(out@) =~= int_vals(prime_factors(magnitude(n.value()) as nat)));
        return out;
    }
    let mut j = Integer::from_u64(2);
    let ghost goal = int_vals(prime_factors(magnitude(n.value()) as nat));
    assert(views(out@) + int_vals(factors_from(work.value() as nat, j.value() as nat)) =~= goal);
    loop
        invariant
            one.value() == 1,
            j.value() >= 2,
            work.value() >= 2,
            goal == int_vals(prime_factors(magnitude(n.value()) as nat)),
            views(out@) + int_vals(factors_from(work.value() as nat, j.value() as nat)) == goal,
        decreases work.value(), work.value() - j.value(),
    {
        let sq = int_mul(&j, &j);
        if int_cmp(&sq, &work) > 0 {
            let ghost ov = views(out@);
            out.push(Object::Int(work));
            assert(views(out@) =~= ov + int_vals(seq![work.value()]));
            assert(int_vals(seq![work.value()]) =~= seq![Val::Int(work.value())]);
            return out;
        }
        let m = int_rem(&work, &j);
        proof {
            let w = work.value();
            let d = j.value();
            assert(trunc_rem(w, d) == w % d) by (nonlinear_arith)
                requires
                    w >= 2,
                    d >= 2,
                    trunc_div(w, d) == w / d,
            {
            }
        }
        if m.is_zero() {
            let ghost ov = views(out@);
            let ghost fw = factors_from(work.value() as nat, j.value() as nat);
            let q = int_div(&work, &j);
            out.push(Object::Int(j.copy()));
            proof {
                let w = work.value();
                let d = j.value();
                assert(q.value() == w / d);
                assert(w / d >= 2) by (nonlinear_arith)
                    requires
                        d >= 2,
                        d * d <= w,
                ;
                assert(w / d < w) by (nonlinear_arith)
                    requires
                        d >= 2,
                        w >= 2,
                ;
                assert(int_vals(fw) =~= seq![Val::Int(d)] + int_vals(factors_from((w / d) as nat, d as nat)));
                assert(views(out@) =~= ov + seq![Val::Int(d)]);
            }
            work = q;
        } else {
            proof {
                let w = work.value();
                let d = j.value();
                assert(d < w) by (nonlinear_arith)
                    requires
                        d >= 2,
                        d * d <= w,
                ;
            }
            j = int_add(&j, &one);
        }
    }
}


/// The value taken as a sequence, where an error gives nothing.
fn seq_of(x: &Object) -> (r: Vec<Object>)
    ensures
        views(r@) == as_seq(x@),
{
    if x.is_error() {
        let r: Vec<Object> = Vec::new();
        assert(views(r@) =~= as_seq(x@));
        r
    } else {
        x.copy().to_list()
    }
}

fn pair(a: Object, b: Object) -> (r: Object)
    ensures
        r@ == Val::List(seq![a@, b@]),
{
    let mut v: Vec<Object> = Vec::new();
    proof {
        lemma_views_push(v@, a);
    }
    v.push(a);
    proof {
        lemma_views_push(v@, b);
    }
    v.push(b);
    assert(views(v@) =~= seq![a@, b@]);
    Object::list(v)
}

/// `[x, e]` for each `e` of `s`, or `[e, x]` when `x_first` is false.
fn pairs_with(x: &Object, s: &Vec<Object>, x_first: bool) -> (r: Vec<Object>)
    ensures
        views(r@) == if x_first {
            pair_each(x@, views(s@))
        } else {
            pair_each_with(views(s@), x@)
        },
{
    let ghost goal = if x_first {
        pair_each(x@, views(s@))
    } else {
        pair_each_with(views(s@), x@)
    };
    let mut out: Vec<Object> = Vec::new();
    let mut k: usize = 0;
    while k < s.len()
        invariant
            k <= s@.len(),
            goal == if x_first {
                pair_each(x@, views(s@))
            } else {
                pair_each_with(views(s@), x@)
            },
            views(out@) == goal.subrange(0, k as int),
        decreases s@.len() - k,
    {
        let p = if x_first {
            pair(x.copy(), s[k].copy())
        } else {
            pair(s[k].copy(), x.copy())
        };
        proof {
            lemma_views_push(out@, p);
        }
        out.push(p);
        k += 1;
        assert(views(out@) =~= goal.subrange(0, k as int));
    }
    assert(goal.subrange(0, s@.len() as int) =~= goal);
    out
}

fn unwrap_single_exec(out: Vec<Object>) -> (r: Object)
    ensures
        r@ == unwrap_single(views(out@)),
{
    if out.len() == 1 {
        let mut out = out;
        out.remove(0)
    } else {
        Object::list(out)
    }
}

fn all_pair_exec(l: &Vec<Object>) -> (r: Object)
    ensures
        r@ == all_pair_list(views(l@)),
{
    let ghost v = views(l@);
    let n = l.len();
    let mut later_list = false;
    let mut k: usize = 1;
    while k < n
        invariant
            v == views(l@),
            n == l@.len(),
            1 <= k,
            later_list ==> list_after_first(v),
            !later_list ==> forall|i: int| 1 <= i < k && i < n ==> !((#[trigger] v[i]) is List),
        decreases n - k,
    {
        match &l[k] {
            Object::List(_) => {
                assert(v[k as int] is List);
                later_list = true;
            },
            _ => {},
        }
        k += 1;
    }
    if n >= 2 && later_list {
        let mut out: Vec<Object> = Vec::new();
        let ghost rest = v.skip(1);
        let ghost goal = Seq::new(rest.len(), |i: int| Val::List(pair_each(v[0], as_seq(rest[i]))));
        let mut j: usize = 1;
        while j < n
            invariant
                v == views(l@),
                n == l@.len(),
                n >= 2,
                1 <= j <= n,
                rest == v.skip(1),
                goal == Seq::new(rest.len(), |i: int| Val::List(pair_each(v[0], as_seq(rest[i])))),
                views(out@) == goal.subrange(0, j - 1),
            decreases n - j,
        {
            let s = seq_of(&l[j]);
            let ps = pairs_with(&l[0], &s, true);
            let item = Object::list(ps);
            proof {
                lemma_views_push(out@, item);
            }
            out.push(item);
            j += 1;
            assert(views(out@) =~= goal.subrange(0, j - 1));
        }
        assert(goal.subrange(0, n - 1) =~= goal);
        unwrap_single_exec(out)
    } else if n >= 2 && l[0].is_list() {
        let mut out: Vec<Object> = Vec::new();
        let ghost rest = v.remove(1);
        let ghost goal = Seq::new(rest.len(), |i: int| Val::List(pair_each_with(as_seq(rest[i]), v[1])));
        let mut j: usize = 0;
        while j < n
            invariant
                v == views(l@),
                n == l@.len(),
                n >= 2,
                j <= n,
                rest == v.remove(1),
                goal == Seq::new(rest.len(), |i: int| Val::List(pair_each_with(as_seq(rest[i]), v[1]))),
                views(out@) == goal.subrange(0, if j <= 1 { j as int } else { j - 1 }),
            decreases n - j,
        {
            if j != 1 {
                let s = seq_of(&l[j]);
                let ps = pairs_with(&l[1], &s, false);
                let item = Object::list(ps);
                proof {
                    lemma_views_push(out@, item);
                }
                out.push(item);
                assert(views(out@) =~= goal.subrange(0, if j == 0 { 1 } else { j as int }));
            }
            j += 1;
        }
        assert(goal.subrange(0, n - 1) =~= goal);
        unwrap_single_exec(out)
    } else {
        let whole = Object::list(copy_from(l, 0));
        assert(v.skip(0) =~= v);
        Object::list(pairs_with(&whole, l, true))
    }
}

fn reverse_exec(l: &Vec<Object>) -> (r: Vec<Object>)
    ensures
        views(r@) == views(l@).reverse(),
{
    let ghost v = views(l@);
    let mut out: Vec<Object> = Vec::new();
    let mut k: usize = l.len();
    while k > 0
        invariant
            v == views(l@),
            k <= l@.len(),
            views(out@) == v.reverse().subrange(0, l@.len() - k),
        decreases k,
    {
        k -= 1;
        let c = l[k].copy();
        proof {
            lemma_views_push(out@, c);
        }
        out.push(c);
        assert(views(out@) =~= v.reverse().subrange(0, l@.len() - k));
    }
    assert(v.reverse().subrange(0, v.len() as int) =~= v.reverse());
    out
}

fn all_equal_exec(l: &Vec<Object>) -> (r: bool)
    ensures
        r == all_equal(views(l@)),
{
    let ghost v = views(l@);
    let n = l.len();
    if n == 0 {
        return true;
    }
    let mut k: usize = 0;
    while k < n
        invariant
            v == views(l@),
            n == l@.len(),
            n > 0,
            k <= n,
            forall|i: int| 0 <= i < k ==> #[trigger] v[i] == v.last(),
        decreases n - k,
    {
        if !l[k].equals(&l[n - 1]) {
            assert(v[k as int] != v.last());
            return false;
        }
        k += 1;
    }
    true
}

fn longest_exec(l: &Vec<Object>) -> (r: usize)
    ensures
        r as nat == longest(views(l@)),
{
    let ghost v = views(l@);
    let mut best: usize = 0;
    let mut k: usize = 0;
    while k < l.len()
        invariant
            v == views(l@),
            k <= l@.len(),
            best as nat == longest(v.subrange(0, k as int)),
        decreases l@.len() - k,
    {
        assert(v.subrange(0, k as int + 1).drop_last() =~= v.subrange(0, k as int));
        let w: usize = match &l[k] {
            Object::List(m) => {
                proof {
                    lemma_list_view(*m);
                }
                m.len()
            },
            _ => 1,
        };
        if w > best {
            best = w;
        }
        k += 1;
    }
    assert(v.subrange(0, v.len() as int) =~= v);
    best
}

fn row_exec(l: &Vec<Object>, i: usize) -> (r: Vec<Object>)
    ensures
        views(r@) == row(views(l@), i as int),
{
    let ghost v = views(l@);
    let mut out: Vec<Object> = Vec::new();
    let mut k: usize = 0;
    while k < l.len()
        invariant
            v == views(l@),
            k <= l@.len(),
            views(out@) == row(v.subrange(0, k as int), i as int),
        decreases l@.len() - k,
    {
        assert(v.subrange(0, k as int + 1).drop_last() =~= v.subrange(0, k as int));
        let ghost ov = views(out@);
        match &l[k] {
            Object::List(m) => {
                proof {
                    lemma_list_view(*m);
                }
                if i < m.len() {
                    let c = m[i].copy();
                    proof {
                        lemma_views_push(out@, c);
                    }
                    out.push(c);
                }
            },
            other => {
                if i == 0 {
                    let c = other.copy();
                    proof {
                        lemma_views_push(out@, c);
                    }
                    out.push(c);
                }
            },
        }
        assert(views(out@) =~= row(v.subrange(0, k as int + 1), i as int));
        k += 1;
    }
    assert(v.subrange(0, v.len() as int) =~= v);
    out
}

fn combine_exec(l: &Vec<Object>) -> (r: Vec<Object>)
    ensures
        views(r@) == Seq::new(longest(views(l@)), |i: int| Val::List(row(views(l@), i))),
{
    let ghost goal = Seq::new(longest(views(l@)), |i: int| Val::List(row(views(l@), i)));
    let n = longest_exec(l);
    let mut out: Vec<Object> = Vec::new();
    let mut i: usize = 0;
    while i < n
        invariant
            n as nat == longest(views(l@)),
            goal == Seq::new(longest(views(l@)), |i: int| Val::List(row(views(l@), i))),
            i <= n,
            views(out@) == goal.subrange(0, i as int),
        decreases n - i,
    {
        let item = Object::list(row_exec(l, i));
        proof {
            lemma_views_push(out@, item);
        }
        out.push(item);
        i += 1;
        assert(views(out@) =~= goal.subrange(0, i as int));
    }
    assert(goal.subrange(0, n as int) =~= goal);
    out
}


/// The models of a run of lists.
pub open spec fn nested_views(s: Seq<Vec<Object>>) -> Seq<Seq<Val>> {
    Seq::new(s.len(), |i: int| views(s[i]@))
}

proof fn lemma_nested_push(s: Seq<Vec<Object>>, x: Vec<Object>)
    ensures
        nested_views(s.push(x)) == nested_views(s).push(views(x@)),
{
    assert(nested_views(s.push(x)) =~= nested_views(s).push(views(x@)));
}

fn extend_exec(staged: &Vec<Vec<Object>>, sub: &Vec<Object>) -> (r: Vec<Vec<Object>>)
    ensures
        nested_views(r@) == extend_each(nested_views(staged@), views(sub@)),
{
    let ghost st = nested_views(staged@);
    let ghost sb = views(sub@);
    let mut next: Vec<Vec<Object>> = Vec::new();
    let mut a: usize = 0;
    while a < staged.len()
        invariant
            st == nested_views(staged@),
            sb == views(sub@),
            a <= staged@.len(),
            nested_views(next@) == extend_each(st.subrange(0, a as int), sb),
        decreases staged@.len() - a,
    {
        let ghost base = nested_views(next@);
        assert(st.subrange(0, a as int + 1).drop_last() =~= st.subrange(0, a as int));
        assert(st.subrange(0, a as int + 1).last() == st[a as int]);
        let mut b: usize = 0;
        while b < sub.len()
            invariant
                st == nested_views(staged@),
                sb == views(sub@),
                a < staged@.len(),
                b <= sub@.len(),
                nested_views(next@) == base + Seq::new(b as nat, |j: int| st[a as int].push(sb[j])),
            decreases sub@.len() - b,
        {
            let mut item = copy_from(&staged[a], 0);
            assert(views(staged@[a as int]@).skip(0) =~= views(staged@[a as int]@));
            let c = sub[b].copy();
            proof {
                lemma_views_push(item@, c);
            }
            item.push(c);
            proof {
                lemma_nested_push(next@, item);
            }
            next.push(item);
            b += 1;
            assert(nested_views(next@) =~= base + Seq::new(b as nat, |j: int| st[a as int].push(sb[j])));
        }
        a += 1;
    }
    assert(st.subrange(0, st.len() as int) =~= st);
    next
}

fn cartesian_exec(l: &Vec<Object>) -> (r: Vec<Object>)
    ensures
        views(r@) == lists(cartesian(Seq::new(l@.len(), |i: int| as_seq(views(l@)[i])))),
{
    let ghost seqs = Seq::new(l@.len(), |i: int| as_seq(views(l@)[i]));
    let mut staged: Vec<Vec<Object>> = Vec::new();
    let first: Vec<Object> = Vec::new();
    proof {
        lemma_nested_push(staged@, first);
    }
    staged.push(first);
    assert(nested_views(staged@) =~= cartesian(seqs.subrange(0, 0))) by {
        assert(views(Seq::<Object>::empty()) =~= Seq::<Val>::empty());
    }
    let mut k: usize = 0;
    while k < l.len()
        invariant
            seqs == Seq::new(l@.len(), |i: int| as_seq(views(l@)[i])),
            k <= l@.len(),
            nested_views(staged@) == cartesian(seqs.subrange(0, k as int)),
        decreases l@.len() - k,
    {
        let sub = seq_of(&l[k]);
        staged = extend_exec(&staged, &sub);
        assert(seqs.subrange(0, k as int + 1).drop_last() =~= seqs.subrange(0, k as int));
        k += 1;
    }
    assert(seqs.subrange(0, seqs.len() as int) =~= seqs);
    let ghost all = cartesian(seqs);
    let mut out: Vec<Object> = Vec::new();
    let mut i: usize = 0;
    while i < staged.len()
        invariant
            nested_views(staged@) == all,
            i <= staged@.len(),
            views(out@) == lists(all).subrange(0, i as int),
        decreases staged@.len() - i,
    {
        let item = Object::list(copy_from(&staged[i], 0));
        assert(views(staged@[i as int]@).skip(0) =~= views(staged@[i as int]@));
        proof {
            lemma_views_push(out@, item);
        }
        out.push(item);
        i += 1;
        assert(views(out@) =~= lists(all).subrange(0, i as int));
    }
    assert(lists(all).subrange(0, all.len() as int) =~= lists(all));
    out
}

fn subset_exec(l: &Vec<Object>, i: u64) -> (r: Vec<Object>)
    requires
        l@.len() < 64,
    ensures
        views(r@) == subset(views(l@), i as nat),
{
    let ghost v = views(l@);
    let mut out: Vec<Object> = Vec::new();
    let mut p: u64 = 1;
    let mut k: usize = 0;
    proof {
        lemma2_to64();
        lemma2_to64_rest();
    }
    while k < l.len()
        invariant
            v == views(l@),
            l@.len() < 64,
            k <= l@.len(),
            k < l@.len() ==> p as nat == pow2(k as nat),
            p > 0,
            views(out@) == subset(v.subrange(0, k as int), i as nat),
        decreases l@.len() - k,
    {
        assert(v.subrange(0, k as int + 1).drop_last() =~= v.subrange(0, k as int));
        if (i / p) % 2 == 1 {
            let c = l[k].copy();
            proof {
                lemma_views_push(out@, c);
            }
            out.push(c);
        }
        assert(views(out@) =~= subset(v.subrange(0, k as int + 1), i as nat));
        if k + 1 < l.len() {
            proof {
                lemma_pow2_unfold((k + 1) as nat);
                lemma_pow2_strictly_increases((k + 1) as nat, 63);
                lemma2_to64_rest();
            }
            p = p * 2;
        }
        k += 1;
    }
    assert(v.subrange(0, v.len() as int) =~= v);
    out
}

fn power_set_exec(l: &Vec<Object>) -> (r: Vec<Object>)
    requires
        l@.len() < 64,
    ensures
        views(r@) == Seq::new(pow2(l@.len()) as nat, |i: int| Val::List(subset(views(l@), i as nat))),
{
    let ghost goal = Seq::new(pow2(l@.len()) as nat, |i: int| Val::List(subset(views(l@), i as nat)));
    let mut num: u64 = 1;
    let mut e: usize = 0;
    proof {
        lemma2_to64();
    }
    while e < l.len()
        invariant
            l@.len() < 64,
            e <= l@.len(),
            num as nat == pow2(e as nat),
        decreases l@.len() - e,
    {
        proof {
            lemma_pow2_unfold((e + 1) as nat);
            lemma_pow2_strictly_increases((e + 1) as nat, 64);
            lemma2_to64_rest();
        }
        num = num * 2;
        e += 1;
    }
    let mut out: Vec<Object> = Vec::new();
    let mut i: u64 = 0;
    while i < num
        invariant
            l@.len() < 64,
            num as nat == pow2(l@.len()),
            goal == Seq::new(pow2(l@.len()) as nat, |i: int| Val::List(subset(views(l@), i as nat))),
            i <= num,
            views(out@) == goal.subrange(0, i as int),
        decreases num - i,
    {
        let item = Object::list(subset_exec(l, i));
        proof {
            lemma_views_push(out@, item);
        }
        out.push(item);
        i += 1;
        assert(views(out@) =~= goal.subrange(0, i as int));
    }
    assert(goal.subrange(0, num as int) =~= goal);
    out
}


/// Whether `n` is a prime.
pub open spec fn is_prime(n: int) -> bool {
    n >= 2 && forall|d: int| 2 <= d < n ==> #[trigger] (n % d) != 0
}

/// What the primitive's inverse gives. Sum's inverse wraps any value in a
/// list; otherwise errors pass through unchanged. On an integer, Head's
/// inverse subtracts one and Tail's adds one; Product's tells whether the
/// integer is prime. Where no inverse is defined the result is an error value.
pub open spec fn basic_inverse(p: BasicFunc, v: Val) -> Val {
    match p {
        BasicFunc::Sum => Val::List(seq![v]),
        _ => match v {
            Val::Error(_) => v,
            Val::Int(n) => match p {
                BasicFunc::Head => Val::Int(n - 1),
                BasicFunc::Tail => Val::Int(n + 1),
                BasicFunc::Product => Val::Int(if is_prime(n) { 1 } else { 0 }),
                _ => error("No inverse of this primitive on an integer"),
            },
            Val::List(l) => match p {
                BasicFunc::Head => if l.len() == 0 {
                    error("End (inverse head) of empty list")
                } else {
                    l.last()
                },
                BasicFunc::Tail => if l.len() == 0 {
                    error("Inverse tail of empty list")
                } else {
                    Val::List(l.drop_last())
                },
                BasicFunc::Product => if l.len() == 2 && l[0] is Int && l[1] is Int {
                    if l[1]->Int_0 == 0 {
                        error("Divide by zero")
                    } else {
                        Val::List(seq![
                            Val::Int(trunc_div(l[0]->Int_0, l[1]->Int_0)),
                            Val::Int(trunc_rem(l[0]->Int_0, l[1]->Int_0)),
                        ])
                    }
                } else {
                    error("Inverse product needs two integers")
                },
                BasicFunc::Length => if all_int(l) {
                    Val::Int(bits_number(l))
                } else {
                    error("Inverse length needs integers")
                },
                _ => error("No inverse of this primitive on a list"),
            },
        },
    }
}

pub proof fn lemma_small_divisor(n: int, d: int)
    requires
        2 <= d < n,
        n % d == 0,
    ensures
        exists|e: int| 2 <= e && e * e <= n && #[trigger] (n % e) == 0,
{
    let q = n / d;
    assert(n == d * q) by (nonlinear_arith)
        requires
            n % d == 0,
            d > 0,
            q == n / d,
    ;
    assert(q >= 2) by (nonlinear_arith)
        requires
            n == d * q,
            d < n,
            d >= 2,
    ;
    if d * d <= n {
        assert(2 <= d && d * d <= n && n % d == 0);
    } else {
        assert(q * q <= n) by (nonlinear_arith)
            requires
                n == d * q,
                d * d > n,
                q >= 2,
                d >= 2,
        ;
        assert(n % q == 0) by (nonlinear_arith)
            requires
                n == d * q,
                q >= 2,
        ;
        assert(2 <= q && q * q <= n && n % q == 0);
    }
}

fn prime_test(n: &Integer) -> (r: bool)
    ensures
        r == is_prime(n.value()),
{
    let two = Integer::from_u64(2);
    let one = Integer::from_u64(1);
    if int_cmp(n, &two) < 0 {
        return false;
    }
    let mut d = Integer::from_u64(2);
    loop
        invariant
            n.value() >= 2,
            one.value() == 1,
            d.value() >= 2,
            forall|e: int| 2 <= e < d.value() ==> #[trigger] (n.value() % e) != 0,
        decreases n.value() - d.value(),
    {
        let sq = int_mul(&d, &d);
        if int_cmp(&sq, n) > 0 {
            proof {
                let nv = n.value();
                let dv = d.value();
                assert forall|e: int| 2 <= e && e * e <= nv implies #[trigger] (nv % e) != 0 by {
                    if e >= dv {
                        assert(e * e >= dv * dv) by (nonlinear_arith)
                            requires
                                e >= dv,
                                dv >= 2,
                        ;
                    }
                }
                if !is_prime(nv) {
                    let w = choose|w: int| 2 <= w < nv && #[trigger] (nv % w) == 0;
                    lemma_small_divisor(nv, w);
                }
            }
            return true;
        }
        let m = int_rem(n, &d);
        proof {
            let w = n.value();
            let dv = d.value();
            assert(trunc_rem(w, dv) == w % dv) by (nonlinear_arith)
                requires
                    w >= 2,
                    dv >= 2,
                    trunc_div(w, dv) == w / dv,
            {
            }
            assert(dv < w) by (nonlinear_arith)
                requires
                    dv >= 2,
                    dv * dv <= w,
            ;
        }
        if m.is_zero() {
            return false;
        }
        d = int_add(&d, &one);
    }
}

fn bits_exec(l: &Vec<Object>) -> (r: Integer)
    requires
        all_int(views(l@)),
    ensures
        r.value() == bits_number(views(l@)),
{
    let ghost v = views(l@);
    let two = Integer::from_u64(2);
    let mut total = Integer::zero();
    let mut k: usize = 0;
    while k < l.len()
        invariant
            v == views(l@),
            all_int(v),
            two.value() == 2,
            k <= l@.len(),
            total.value() == bits_number(v.subrange(0, k as int)),
        decreases l@.len() - k,
    {
        assert(v.subrange(0, k as int + 1).drop_last() =~= v.subrange(0, k as int));
        assert(v[k as int] is Int);
        match &l[k] {
            Object::Int(b) => {
                let doubled = int_mul(&total, &two);
                total = int_add(&doubled, b);
            },
            _ => {},
        }
        k += 1;
    }
    assert(v.subrange(0, v.len() as int) =~= v);
    total
}

impl BasicFunc {
    /// Applies the primitive.
    pub fn execute(&self, arg: Object) -> (r: Object)
        ensures
            r@ == basic_forward(*self, arg@),
    {
        match arg {
            Object::Error(_) => arg,
            Object::Int(n) => match self {
                BasicFunc::Head => int_object(int_add(&n, &Integer::from_u64(1))),
                BasicFunc::Tail => int_object(int_sub(&n, &Integer::from_u64(1))),
                BasicFunc::Sum => small_int(if n.is_zero() { 1 } else { 0 }),
                BasicFunc::Product => Object::list(factor_list(&n)),
                BasicFunc::PowerSet => {
                    if n.is_negative() {
                        Object::error("Negative exponent in power set")
                    } else if int_cmp(&n, &Integer::from_u64(4294967295)) > 0 {
                        Object::error("Exponent too large in power set")
                    } else {
                        let e = n.to_u32();
                        int_object(int_pow2(e))
                    }
                },
                BasicFunc::Length => Object::list(binary_list(&n)),
                BasicFunc::Negate => int_object(n.neg()),
                BasicFunc::Equal => Object::error("Equal of an integer"),
                BasicFunc::Combine => Object::error("Combine of an integer"),
                BasicFunc::AllPair => {
                    let whole = Object::Int(n.copy());
                    let s = Object::Int(n).to_list();
                    Object::list(pairs_with(&whole, &s, true))
                },
            },
            Object::List(l) => {
                proof {
                    lemma_list_view(l);
                }
                let ghost v = views(l@);
                match self {
                    BasicFunc::Head => {
                        if l.len() == 0 {
                            Object::error("Head of empty list")
                        } else {
                            let mut l = l;
                            l.remove(0)
                        }
                    },
                    BasicFunc::Tail => {
                        if l.len() == 0 {
                            Object::error("Tail of empty list")
                        } else {
                            Object::list(copy_from(&l, 1))
                        }
                    },
                    BasicFunc::Sum => {
                        if is_all_int(&l) {
                            int_object(sum_ints(&l))
                        } else {
                            Object::list(flatten_exec(&l))
                        }
                    },
                    BasicFunc::Product => {
                        if is_all_int(&l) {
                            int_object(product_ints(&l))
                        } else {
                            match find_error(&l) {
                                Some(e) => e,
                                None => Object::list(cartesian_exec(&l)),
                            }
                        }
                    },
                    BasicFunc::PowerSet => {
                        if l.len() >= 64 {
                            Object::error("Power set too large")
                        } else {
                            Object::list(power_set_exec(&l))
                        }
                    },
                    BasicFunc::Length => small_int(l.len() as u64),
                    BasicFunc::Negate => Object::list(reverse_exec(&l)),
                    BasicFunc::Equal => small_int(if all_equal_exec(&l) { 1 } else { 0 }),
                    BasicFunc::Combine => {
                        match find_error(&l) {
                            Some(e) => e,
                            None => Object::list(combine_exec(&l)),
                        }
                    },
                    BasicFunc::AllPair => all_pair_exec(&l),
                }
            },
        }
    }

    /// Applies the primitive's inverse.
    pub fn inverse_execute(&self, arg: Object) -> (r: Object)
        ensures
            r@ == basic_inverse(*self, arg@),
    {
        if let BasicFunc::Sum = self {
            let mut v: Vec<Object> = Vec::new();
            proof {
                lemma_views_push(v@, arg);
            }
            v.push(arg);
            assert(views(v@) =~= seq![arg@]);
            return Object::list(v);
        }
        match arg {
            Object::Error(_) => arg,
            Object::Int(n) => match self {
                BasicFunc::Head => int_object(int_sub(&n, &Integer::from_u64(1))),
                BasicFunc::Tail => int_object(int_add(&n, &Integer::from_u64(1))),
                BasicFunc::Product => small_int(if prime_test(&n) { 1 } else { 0 }),
                _ => Object::error("No inverse of this primitive on an integer"),
            },
            Object::List(l) => {
                proof {
                    lemma_list_view(l);
                }
                let ghost v = views(l@);
                match self {
                    BasicFunc::Head => {
                        if l.len() == 0 {
                            Object::error("End (inverse head) of empty list")
                        } else {
                            let mut l = l;
                            l.pop().unwrap()
                        }
                    },
                    BasicFunc::Tail => {
                        if l.len() == 0 {
                            Object::error("Inverse tail of empty list")
                        } else {
                            let mut l = l;
                            let ghost before = l@;
                            l.pop();
                            assert(views(l@) =~= views(before).drop_last());
                            Object::list(l)
                        }
                    },
                    BasicFunc::Product => {
                        if l.len() == 2 {
                            match (&l[0], &l[1]) {
                                (Object::Int(num), Object::Int(den)) => {
                                    if den.is_zero() {
                                        Object::error("Divide by zero")
                                    } else {
                                        let q = int_object(int_div(num, den));
                                        let m = int_object(int_rem(num, den));
                                        pair(q, m)
                                    }
                                },
                                _ => Object::error("Inverse product needs two integers"),
                            }
                        } else {
                            Object::error("Inverse product needs two integers")
                        }
                    },
                    BasicFunc::Length => {
                        if is_all_int(&l) {
                            int_object(bits_exec(&l))
                        } else {
                            Object::error("Inverse length needs integers")
                        }
                    },
                    _ => Object::error("No inverse of this primitive on a list"),
                }
            },
        }
    }
}

} // verus!
