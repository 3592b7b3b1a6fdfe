//! Laws that relate several evaluations, proved over the evaluator's model.

use vstd::prelude::*;
use crate::basic::{all_int, bits_number, factors_from, has_error, int_vals, is_prime, prime_factors};
use vstd::arithmetic::div_mod::{lemma_fundamental_div_mod, lemma_mod_multiples_basic};
use crate::func::{BasicFunc, FuncM, HigherFunc};
use crate::integer::{binary_of, decimal_of, digit_char, digits_number, int_text, is_digit};
use crate::eval::{
    apply, forward, higher_forward, higher_inverse, insert_sorted, inverse, keyed, order_perm, permute, results,
    sort_pairs,
};
use crate::value::{
    Val, as_seq, digits_end, items_text, read_items, read_text, read_value, seq_cmp, val_cmp, val_text,
};

verus! {

proof fn lemma_bits_of_binary(n: nat)
    ensures
        all_int(int_vals(binary_of(n))),
        bits_number(int_vals(binary_of(n))) == n,
    decreases n,
{
    if n >= 2 {
        lemma_bits_of_binary(n / 2);
        let b = binary_of(n / 2);
        let s = int_vals(binary_of(n));
        assert(s.drop_last() =~= int_vals(b));
        assert(s.last() == Val::Int((n % 2) as int));
        assert(bits_number(s) == 2 * bits_number(int_vals(b)) + (n % 2) as int);
        assert(2 * (n / 2) + n % 2 == n);
    } else {
        let s = int_vals(binary_of(n));
        assert(s.drop_last() =~= Seq::<Val>::empty());
        assert(s.last() == Val::Int(n as int));
        assert(bits_number(s) == 2 * bits_number(s.drop_last()) + n);
    }
}

/// Length's inverse undoes Length on every non-negative integer: the binary
/// digits read back give the number.
pub proof fn law_length_round_trip(n: int, fuel: nat)
    requires
        n >= 0,
        fuel >= 1,
    ensures
        inverse(
            FuncM::Basic(BasicFunc::Length),
            forward(FuncM::Basic(BasicFunc::Length), Val::Int(n), fuel),
            fuel,
        ) == Val::Int(n),
{
    lemma_bits_of_binary(n as nat);
}

/// Head undoes Tail and Tail undoes Head on every integer.
pub proof fn law_head_tail_integer(n: int, fuel: nat)
    requires
        fuel >= 1,
    ensures
        forward(FuncM::Basic(BasicFunc::Head), forward(FuncM::Basic(BasicFunc::Tail), Val::Int(n), fuel), fuel)
            == Val::Int(n),
        forward(FuncM::Basic(BasicFunc::Tail), forward(FuncM::Basic(BasicFunc::Head), Val::Int(n), fuel), fuel)
            == Val::Int(n),
{
}

/// Inverting a primitive twice gives the primitive: `Inverse(Inverse(p))`
/// applies `p`, given the few steps of budget that the two wrappers spend.
pub proof fn law_double_inverse(p: BasicFunc, v: Val, fuel: nat)
    requires
        fuel >= 7,
    ensures
        forward(
            FuncM::Higher(
                HigherFunc::Inverse,
                Box::new(FuncM::Higher(HigherFunc::Inverse, Box::new(FuncM::Basic(p)))),
            ),
            v,
            fuel,
        ) == forward(FuncM::Basic(p), v, fuel),
{
    let b = FuncM::Basic(p);
    let inner = FuncM::Higher(HigherFunc::Inverse, Box::new(b));
    assert(forward(FuncM::Higher(HigherFunc::Inverse, Box::new(inner)), v, fuel)
        == higher_forward(HigherFunc::Inverse, inner, false, v, (fuel - 1) as nat));
    assert(higher_forward(HigherFunc::Inverse, inner, false, v, (fuel - 1) as nat)
        == apply(inner, true, v, (fuel - 2) as nat));
    assert(apply(inner, true, v, (fuel - 2) as nat) == inverse(inner, v, (fuel - 3) as nat));
    assert(inverse(inner, v, (fuel - 3) as nat) == higher_inverse(HigherFunc::Inverse, b, v, (fuel - 4) as nat));
    assert(higher_inverse(HigherFunc::Inverse, b, v, (fuel - 4) as nat) == apply(b, false, v, (fuel - 5) as nat));
    assert(apply(b, false, v, (fuel - 5) as nat) == forward(b, v, (fuel - 6) as nat));
}


/// Map keeps the length: where the body gives no error on any element of
/// the argument's sequence, Map gives the list of the body's results, as
/// long as that sequence.
pub proof fn law_map_keeps_length(p: FuncM, v: Val, fuel: nat)
    requires
        fuel >= 2,
        !(v is Error),
        forall|i: int| 0 <= i < as_seq(v).len() ==> !(#[trigger] apply(p, false, as_seq(v)[i], (fuel - 2) as nat) is Error),
    ensures
        forward(FuncM::Higher(HigherFunc::MapEach, Box::new(p)), v, fuel) is List,
        forward(FuncM::Higher(HigherFunc::MapEach, Box::new(p)), v, fuel)->List_0.len() == as_seq(v).len(),
{
    let rs = results(p, false, as_seq(v), (fuel - 2) as nat);
    assert(!has_error(rs)) by {
        if has_error(rs) {
            let i = choose|i: int| 0 <= i < rs.len() && (#[trigger] rs[i]) is Error;
            assert(rs[i] == apply(p, false, as_seq(v)[i], (fuel - 2) as nat));
        }
    }
}

proof fn lemma_cmp_antisym(a: Val, b: Val)
    ensures
        val_cmp(a, b) == -val_cmp(b, a),
    decreases a,
{
    match a {
        Val::List(x) => match b {
            Val::List(y) => lemma_seq_cmp_antisym(x, y),
            _ => {},
        },
        _ => {},
    }
}

proof fn lemma_seq_cmp_antisym(x: Seq<Val>, y: Seq<Val>)
    ensures
        seq_cmp(x, y) == -seq_cmp(y, x),
    decreases x,
{
    if x.len() > 0 && y.len() > 0 {
        lemma_cmp_antisym(x[0], y[0]);
        lemma_seq_cmp_antisym(x.subrange(1, x.len() as int), y.subrange(1, y.len() as int));
    }
}

proof fn lemma_cmp_refl(a: Val)
    ensures
        val_cmp(a, a) == 0,
    decreases a,
{
    if let Val::List(x) = a {
        lemma_seq_cmp_refl(x);
    }
}

proof fn lemma_seq_cmp_refl(x: Seq<Val>)
    ensures
        seq_cmp(x, x) == 0,
    decreases x,
{
    if x.len() > 0 {
        lemma_cmp_refl(x[0]);
        lemma_seq_cmp_refl(x.subrange(1, x.len() as int));
    }
}

/// `a <= b` and `b <= c` give `a <= c`.
pub open spec fn chains(a: Val, b: Val, c: Val) -> bool {
    val_cmp(a, b) <= 0 && val_cmp(b, c) <= 0 ==> val_cmp(a, c) <= 0
}

/// `chains` for every order of the three values.
pub open spec fn chains_all(a: Val, b: Val, c: Val) -> bool {
    &&& chains(a, b, c)
    &&& chains(a, c, b)
    &&& chains(b, a, c)
    &&& chains(b, c, a)
    &&& chains(c, a, b)
    &&& chains(c, b, a)
}

pub open spec fn seq_chains(a: Seq<Val>, b: Seq<Val>, c: Seq<Val>) -> bool {
    seq_cmp(a, b) <= 0 && seq_cmp(b, c) <= 0 ==> seq_cmp(a, c) <= 0
}

pub open spec fn seq_chains_all(a: Seq<Val>, b: Seq<Val>, c: Seq<Val>) -> bool {
    &&& seq_chains(a, b, c)
    &&& seq_chains(a, c, b)
    &&& seq_chains(b, a, c)
    &&& seq_chains(b, c, a)
    &&& seq_chains(c, a, b)
    &&& seq_chains(c, b, a)
}

proof fn lemma_cmp_trans(a: Val, b: Val, c: Val)
    ensures
        chains_all(a, b, c),
    decreases a,
{
    lemma_cmp_antisym(a, b);
    lemma_cmp_antisym(a, c);
    lemma_cmp_antisym(b, c);
    if let Val::List(x) = a {
        if let Val::List(y) = b {
            if let Val::List(z) = c {
                lemma_seq_trans(x, y, z);
            }
        }
    }
}

proof fn lemma_seq_trans(x: Seq<Val>, y: Seq<Val>, z: Seq<Val>)
    ensures
        seq_chains_all(x, y, z),
    decreases x,
{
    if x.len() > 0 && y.len() > 0 && z.len() > 0 {
        lemma_cmp_trans(x[0], y[0], z[0]);
        lemma_cmp_antisym(x[0], y[0]);
        lemma_cmp_antisym(x[0], z[0]);
        lemma_cmp_antisym(y[0], z[0]);
        lemma_seq_trans(
            x.subrange(1, x.len() as int),
            y.subrange(1, y.len() as int),
            z.subrange(1, z.len() as int),
        );
    }
}

/// The order on values is a total preorder: every value is equal to
/// itself, swapping the two sides turns the result over, and it is
/// transitive.
pub proof fn law_total_order(a: Val, b: Val, c: Val)
    ensures
        val_cmp(a, a) == 0,
        val_cmp(a, b) == -val_cmp(b, a),
        -1 <= val_cmp(a, b) <= 1,
        val_cmp(a, b) <= 0 && val_cmp(b, c) <= 0 ==> val_cmp(a, c) <= 0,
{
    lemma_cmp_refl(a);
    lemma_cmp_antisym(a, b);
    lemma_cmp_range(a, b);
    lemma_cmp_trans(a, b, c);
}

proof fn lemma_cmp_range(a: Val, b: Val)
    ensures
        -1 <= val_cmp(a, b) <= 1,
    decreases a,
{
    if let Val::List(x) = a {
        if let Val::List(y) = b {
            lemma_seq_cmp_range(x, y);
        }
    }
}

proof fn lemma_seq_cmp_range(x: Seq<Val>, y: Seq<Val>)
    ensures
        -1 <= seq_cmp(x, y) <= 1,
    decreases x,
{
    if x.len() > 0 && y.len() > 0 {
        lemma_cmp_range(x[0], y[0]);
        lemma_seq_cmp_range(x.subrange(1, x.len() as int), y.subrange(1, y.len() as int));
    }
}

/// Neighbouring keys are in order.
pub open spec fn sorted_adj(s: Seq<(Val, int)>) -> bool {
    forall|i: int| 0 <= i < s.len() - 1 ==> val_cmp(#[trigger] s[i].0, s[i + 1].0) <= 0
}

/// Every entry holds the key of its position.
pub open spec fn entries_of(s: Seq<(Val, int)>, keys: Seq<Val>) -> bool {
    forall|j: int| 0 <= j < s.len() ==> 0 <= (#[trigger] s[j]).1 < keys.len() && s[j].0 == keys[s[j].1]
}

proof fn lemma_insert_sorted(s: Seq<(Val, int)>, x: (Val, int), keys: Seq<Val>)
    requires
        sorted_adj(s),
        entries_of(s, keys),
        0 <= x.1 < keys.len(),
        x.0 == keys[x.1],
    ensures
        sorted_adj(insert_sorted(s, x)),
        entries_of(insert_sorted(s, x), keys),
        insert_sorted(s, x).len() == s.len() + 1,
        insert_sorted(s, x).last() == x || (s.len() > 0 && insert_sorted(s, x).last() == s.last()),
    decreases s.len(),
{
    if s.len() == 0 || val_cmp(s.last().0, x.0) <= 0 {
        assert(insert_sorted(s, x) == s.push(x));
    } else {
        let d = s.drop_last();
        lemma_insert_sorted(d, x, keys);
        let r = insert_sorted(d, x);
        lemma_cmp_antisym(s.last().0, x.0);
        assert(insert_sorted(s, x) == r.push(s.last()));
        if d.len() > 0 && r.last() == d.last() {
            assert(s[s.len() - 2] == d.last());
        }
        assert forall|i: int| 0 <= i < r.len() implies val_cmp(#[trigger] r.push(s.last())[i].0, r.push(s.last())[i + 1].0) <= 0 by {
            if i < r.len() - 1 {
                assert(r.push(s.last())[i] == r[i]);
                assert(r.push(s.last())[i + 1] == r[i + 1]);
            }
        }
    }
}

proof fn lemma_sort_pairs(s: Seq<(Val, int)>, keys: Seq<Val>)
    requires
        entries_of(s, keys),
    ensures
        sorted_adj(sort_pairs(s)),
        entries_of(sort_pairs(s), keys),
        sort_pairs(s).len() == s.len(),
    decreases s.len(),
{
    if s.len() > 0 {
        lemma_sort_pairs(s.drop_last(), keys);
        lemma_insert_sorted(sort_pairs(s.drop_last()), s.last(), keys);
    }
}

proof fn lemma_sorted_fixed(s: Seq<(Val, int)>)
    requires
        sorted_adj(s),
    ensures
        sort_pairs(s) == s,
    decreases s.len(),
{
    if s.len() > 0 {
        let d = s.drop_last();
        lemma_sorted_fixed(d);
        if d.len() > 0 {
            assert(val_cmp(s[s.len() - 2].0, s[s.len() - 1].0) <= 0);
        }
        assert(d.push(s.last()) =~= s);
    }
}

/// Entries with equal neighbouring keys keep their positions' order.
pub open spec fn stable_adj(s: Seq<(Val, int)>) -> bool {
    forall|i: int| 0 <= i < s.len() - 1 && val_cmp(#[trigger] s[i].0, s[i + 1].0) == 0 ==> s[i].1 < s[i + 1].1
}

proof fn lemma_insert_stable(s: Seq<(Val, int)>, x: (Val, int))
    requires
        sorted_adj(s),
        stable_adj(s),
        forall|j: int| 0 <= j < s.len() ==> (#[trigger] s[j]).1 < x.1,
    ensures
        stable_adj(insert_sorted(s, x)),
        insert_sorted(s, x).last() == x || (s.len() > 0 && insert_sorted(s, x).last() == s.last()),
        insert_sorted(s, x).to_multiset() == s.to_multiset().insert(x),
    decreases s.len(),
{
    s.to_multiset_ensures();
    if s.len() == 0 || val_cmp(s.last().0, x.0) <= 0 {
        assert(insert_sorted(s, x) == s.push(x));
    } else {
        let d = s.drop_last();
        assert(d.push(s.last()) =~= s);
        d.to_multiset_ensures();
        lemma_insert_stable(d, x);
        let r = insert_sorted(d, x);
        r.to_multiset_ensures();
        lemma_cmp_antisym(s.last().0, x.0);
        assert(insert_sorted(s, x) == r.push(s.last()));
        if d.len() > 0 && r.last() == d.last() {
            assert(s[s.len() - 2] == d.last());
        }
        assert forall|i: int| 0 <= i < r.len() && val_cmp(#[trigger] r.push(s.last())[i].0, r.push(s.last())[i + 1].0) == 0
            implies r.push(s.last())[i].1 < r.push(s.last())[i + 1].1 by {
            if i < r.len() - 1 {
                assert(r.push(s.last())[i] == r[i]);
                assert(r.push(s.last())[i + 1] == r[i + 1]);
            }
        }
    }
}

proof fn lemma_keyed_sort(keys: Seq<Val>)
    ensures
        sorted_adj(sort_pairs(keyed(keys))),
        stable_adj(sort_pairs(keyed(keys))),
        entries_of(sort_pairs(keyed(keys)), keys),
        sort_pairs(keyed(keys)).to_multiset() == keyed(keys).to_multiset(),
    decreases keys.len(),
{
    let kd = keyed(keys);
    assert(entries_of(kd, keys));
    lemma_sort_pairs(kd, keys);
    if keys.len() > 0 {
        let kp = keys.drop_last();
        assert(kd.drop_last() =~= keyed(kp));
        lemma_keyed_sort(kp);
        let sd = sort_pairs(keyed(kp));
        let x = kd.last();
        lemma_insert_stable(sd, x);
        kd.drop_last().to_multiset_ensures();
        assert(kd.drop_last().push(x) =~= kd);
    }
}

/// Order is a stable sort: the positions of the argument's sequence are
/// rearranged so that the body's results are in order, and positions whose
/// results are equal keep their order.
pub proof fn law_order_is_stable_sort(p: FuncM, v: Val, fuel: nat)
    requires
        fuel >= 2,
        !(v is Error),
    ensures
        ({
            let xs = as_seq(v);
            let keys = results(p, false, xs, (fuel - 2) as nat);
            let sp = sort_pairs(keyed(keys));
            &&& forward(FuncM::Higher(HigherFunc::Order, Box::new(p)), v, fuel) == Val::List(permute(xs, order_perm(keys)))
            &&& sp.to_multiset() == keyed(keys).to_multiset()
            &&& order_perm(keys) == Seq::new(sp.len(), |k: int| sp[k].1)
            &&& forall|i: int| 0 <= i < sp.len() - 1 ==> val_cmp(#[trigger] sp[i].0, sp[i + 1].0) <= 0
            &&& forall|i: int| 0 <= i < sp.len() - 1 && val_cmp(#[trigger] sp[i].0, sp[i + 1].0) == 0 ==> sp[i].1 < sp[i + 1].1
        }),
{
    let keys = results(p, false, as_seq(v), (fuel - 2) as nat);
    lemma_keyed_sort(keys);
}

/// Order is idempotent: ordering a second time by the same body changes
/// nothing, because the first result is already stably sorted by its keys.
pub proof fn law_order_idempotent(p: FuncM, v: Val, fuel: nat)
    ensures
        forward(
            FuncM::Higher(HigherFunc::Order, Box::new(p)),
            forward(FuncM::Higher(HigherFunc::Order, Box::new(p)), v, fuel),
            fuel,
        ) == forward(FuncM::Higher(HigherFunc::Order, Box::new(p)), v, fuel),
{
    let o = FuncM::Higher(HigherFunc::Order, Box::new(p));
    if fuel >= 2 && !(v is Error) {
        let f = (fuel - 2) as nat;
        let xs = as_seq(v);
        let keys = results(p, false, xs, f);
        let sp = sort_pairs(keyed(keys));
        assert(entries_of(keyed(keys), keys));
        lemma_sort_pairs(keyed(keys), keys);
        let perm = order_perm(keys);
        let ys = permute(xs, perm);
        assert(forward(o, v, fuel) == Val::List(ys));
        let keys2 = results(p, false, ys, f);
        assert forall|k: int| 0 <= k < keys2.len() implies #[trigger] keys2[k] == sp[k].0 by {
            assert(ys[k] == xs[perm[k]]);
        }
        let kd2 = keyed(keys2);
        assert(sorted_adj(kd2)) by {
            assert forall|i: int| 0 <= i < kd2.len() - 1 implies val_cmp(#[trigger] kd2[i].0, kd2[i + 1].0) <= 0 by {
                assert(kd2[i].0 == sp[i].0);
                assert(kd2[i + 1].0 == sp[i + 1].0);
            }
        }
        lemma_sorted_fixed(kd2);
        assert(as_seq(Val::List(ys)) == ys);
        assert(permute(ys, order_perm(keys2)) =~= ys);
    }
}


/// A value with no error anywhere in it: one that has a printed form that
/// reads back.
pub open spec fn printable(v: Val) -> bool
    decreases v,
{
    match v {
        Val::Error(_) => false,
        Val::Int(_) => true,
        Val::List(l) => all_printable(l),
    }
}

/// Every value of the sequence is printable.
pub open spec fn all_printable(l: Seq<Val>) -> bool
    decreases l,
{
    if l.len() == 0 {
        true
    } else {
        printable(l[0]) && all_printable(l.subrange(1, l.len() as int))
    }
}

proof fn lemma_decimal(m: nat)
    ensures
        decimal_of(m).len() >= 1,
        forall|i: int| 0 <= i < decimal_of(m).len() ==> is_digit(#[trigger] decimal_of(m)[i]),
        digits_number(decimal_of(m)) == m,
    decreases m,
{
    if m >= 10 {
        lemma_decimal(m / 10);
        let s = decimal_of(m);
        assert(s.drop_last() =~= decimal_of(m / 10));
        assert(s.last() == digit_char(m % 10));
        assert(forall|i: int| 0 <= i < s.len() - 1 ==> s[i] == decimal_of(m / 10)[i]);
        assert((digit_char(m % 10) as nat) - 48 == m % 10);
        assert(digits_number(s) == 10 * digits_number(decimal_of(m / 10)) + m % 10);
    } else {
        let s = decimal_of(m);
        assert(s.drop_last() =~= Seq::<char>::empty());
        assert((digit_char(m) as nat) - 48 == m);
        assert(digits_number(s) == 10 * digits_number(s.drop_last()) + m);
    }
}

/// The first character of a printed value opens a list or an integer.
proof fn lemma_text_start(v: Val)
    requires
        printable(v),
    ensures
        val_text(v).len() >= 1,
        val_text(v)[0] == '[' || val_text(v)[0] == '-' || is_digit(val_text(v)[0]),
        v is List ==> val_text(v)[0] == '[',
        val_text(v).last() == ']' || is_digit(val_text(v).last()),
{
    match v {
        Val::Int(n) => {
            if n < 0 {
                lemma_decimal((-n) as nat);
                assert(val_text(v) == seq!['-'] + decimal_of((-n) as nat));
            } else {
                lemma_decimal(n as nat);
            }
        },
        Val::List(l) => {},
        Val::Error(_) => {},
    }
}

proof fn lemma_items_front(l: Seq<Val>)
    requires
        l.len() >= 2,
    ensures
        items_text(l) == val_text(l[0]) + ", "@ + items_text(l.subrange(1, l.len() as int)),
    decreases l.len(),
{
    let rest = l.subrange(1, l.len() as int);
    if l.len() == 2 {
        assert(l.subrange(0, 1).len() == 1);
        assert(items_text(l.subrange(0, 1)) == val_text(l[0]));
        assert(rest.len() == 1);
        assert(items_text(rest) == val_text(l[1]));
    } else {
        let d = l.subrange(0, l.len() - 1);
        lemma_items_front(d);
        assert(d.subrange(1, d.len() as int) =~= rest.subrange(0, rest.len() - 1));
        assert(rest[rest.len() - 1] == l[l.len() - 1]);
        assert(d[0] == l[0]);
        assert(items_text(l) == items_text(d) + ", "@ + val_text(l[l.len() - 1]));
        assert(items_text(rest) == items_text(rest.subrange(0, rest.len() - 1)) + ", "@ + val_text(rest[rest.len() - 1]));
    }
}

proof fn lemma_digits_end_run(s: Seq<char>, p: int, e: int)
    requires
        0 <= p <= e <= s.len(),
        forall|i: int| p <= i < e ==> is_digit(#[trigger] s[i]),
        e == s.len() || !is_digit(s[e]),
    ensures
        digits_end(s, p) == e,
    decreases e - p,
{
    if p < e {
        lemma_digits_end_run(s, p + 1, e);
    }
}

proof fn lemma_read_value(s: Seq<char>, p: int, v: Val)
    requires
        printable(v),
        0 <= p,
        p + val_text(v).len() <= s.len(),
        s.subrange(p, p + val_text(v).len()) == val_text(v),
        p + val_text(v).len() == s.len() || !is_digit(s[p + val_text(v).len()]),
    ensures
        read_value(s, p) == Some((v, p + val_text(v).len())),
    decreases v, 1int,
{
    let t = val_text(v);
    let e = p + t.len();
    lemma_text_start(v);
    assert(s[p] == t[0]);
    match v {
        Val::Int(n) => {
            let q = if n < 0 { p + 1 } else { p };
            let m = if n < 0 { (-n) as nat } else { n as nat };
            lemma_decimal(m);
            assert(t == int_text(n));
            assert forall|i: int| q <= i < e implies is_digit(#[trigger] s[i]) by {
                assert(s[i] == t[i - p]);
                if n < 0 {
                    assert(t[i - p] == decimal_of(m)[i - p - 1]);
                } else {
                    assert(t[i - p] == decimal_of(m)[i - p]);
                }
            }
            if n < 0 {
                assert(t[0] == '-');
            } else {
                assert(t[0] == decimal_of(m)[0]);
            }
            lemma_digits_end_run(s, q, e);
            assert(s.subrange(p, e) == t);
            if n < 0 {
                assert(t.skip(1) =~= decimal_of(m));
            }
        },
        Val::List(l) => {
            assert(t == seq!['['] + items_text(l) + seq![']']);
            if l.len() == 0 {
                assert(items_text(l) == Seq::<char>::empty());
                assert(s[p + 1] == t[1]);
                assert(l =~= Seq::<Val>::empty());
            } else {
                assert(s.subrange(p + 1, e) =~= items_text(l) + seq![']']) by {
                    assert forall|i: int| 0 <= i < e - p - 1 implies #[trigger] s.subrange(p + 1, e)[i] == (items_text(l) + seq![']'])[i] by {
                        assert(s[p + 1 + i] == t[i + 1]);
                    }
                }
                lemma_read_items(s, p + 1, Seq::empty(), l);
                assert(Seq::<Val>::empty() + l =~= l);
            }
        },
        Val::Error(_) => {},
    }
}

proof fn lemma_read_items(s: Seq<char>, q: int, acc: Seq<Val>, l: Seq<Val>)
    requires
        l.len() > 0,
        all_printable(l),
        0 <= q,
        q + items_text(l).len() + 1 <= s.len(),
        s.subrange(q, q + items_text(l).len() + 1) == items_text(l) + seq![']'],
    ensures
        read_items(s, q, acc) == Some((Val::List(acc + l), q + items_text(l).len() + 1)),
    decreases l, 0int,
{
    let v0 = l[0];
    let t0 = val_text(v0);
    let e = q + t0.len();
    let rest = l.subrange(1, l.len() as int);
    lemma_text_start(v0);
    if l.len() == 1 {
        assert(items_text(l) == t0);
        assert(s[e] == (items_text(l) + seq![']'])[t0.len() as int]);
        assert(s[e] == ']');
        assert(s.subrange(q, e) =~= t0) by {
            assert forall|i: int| 0 <= i < t0.len() implies #[trigger] s.subrange(q, e)[i] == t0[i] by {
                assert(s[q + i] == (items_text(l) + seq![']'])[i]);
            }
        }
        lemma_read_value(s, q, v0);
        assert(s[q] == t0[0]);
        assert(acc.push(v0) =~= acc + l);
    } else {
        lemma_items_front(l);
        let tr = items_text(rest);
        assert(items_text(l) == t0 + ", "@ + tr);
        let whole = items_text(l) + seq![']'];
        assert(s.subrange(q, e) =~= t0) by {
            assert forall|i: int| 0 <= i < t0.len() implies #[trigger] s.subrange(q, e)[i] == t0[i] by {
                assert(s[q + i] == whole[i]);
            }
        }
        reveal_strlit(", ");
        assert(s[e] == whole[t0.len() as int]);
        assert(s[e + 1] == whole[t0.len() as int + 1]);
        assert(s[e] == ',');
        assert(s[e + 1] == ' ');
        lemma_read_value(s, q, v0);
        assert(s[q] == t0[0]);
        assert(s.subrange(e + 2, e + 2 + tr.len() + 1) =~= tr + seq![']']) by {
            assert forall|i: int| 0 <= i < tr.len() + 1 implies #[trigger] s.subrange(e + 2, e + 2 + tr.len() + 1)[i] == (tr + seq![']'])[i] by {
                assert(s[e + 2 + i] == whole[t0.len() as int + 2 + i]);
            }
        }
        lemma_read_items(s, e + 2, acc.push(v0), rest);
        assert(acc.push(v0) + rest =~= acc + l);
    }
}

/// Printing then reading gives the value back, for every value without an
/// error in it.
pub proof fn law_text_round_trip(v: Val)
    requires
        printable(v),
    ensures
        read_text(val_text(v)) == Some(v),
{
    let t = val_text(v);
    lemma_text_start(v);
    assert(t.subrange(0, t.len() as int) =~= t);
    lemma_read_value(t, 0, v);
}


/// The product of the integers, first to last.
pub open spec fn seq_product(s: Seq<int>) -> int
    decreases s.len(),
{
    if s.len() == 0 {
        1
    } else {
        s[0] * seq_product(s.skip(1))
    }
}

proof fn lemma_divides_through(work: int, d: int, e: int)
    requires
        2 <= e,
        2 <= d,
        work % d == 0,
        d % e == 0,
    ensures
        work % e == 0,
{
    lemma_fundamental_div_mod(work, d);
    lemma_fundamental_div_mod(d, e);
    let q = work / d;
    let r = d / e;
    assert(work == e * (r * q)) by (nonlinear_arith)
        requires
            work == d * q,
            d == e * r,
    ;
    lemma_mod_multiples_basic(r * q, e);
    assert((r * q) * e == e * (r * q)) by (nonlinear_arith);
}

proof fn lemma_factors_from(work: nat, d: nat)
    requires
        2 <= d <= work,
        forall|e: int| 2 <= e < d ==> #[trigger] (work as int % e) != 0,
    ensures
        seq_product(factors_from(work, d)) == work,
        forall|i: int| 0 <= i < factors_from(work, d).len() ==> is_prime(#[trigger] factors_from(work, d)[i]),
        forall|i: int| 0 <= i < factors_from(work, d).len() ==> #[trigger] factors_from(work, d)[i] >= d,
        forall|i: int| 0 <= i < factors_from(work, d).len() - 1 ==> #[trigger] factors_from(work, d)[i] <= factors_from(work, d)[i + 1],
    decreases work, work - d,
{
    let f = factors_from(work, d);
    if d * d > work {
        assert(f == seq![work as int]);
        assert(f.skip(1) =~= Seq::<int>::empty());
        assert(seq_product(f) == work * seq_product(f.skip(1)));
        if !is_prime(work as int) {
            let w = choose|w: int| 2 <= w < work && #[trigger] (work as int % w) == 0;
            crate::basic::lemma_small_divisor(work as int, w);
            let e = choose|e: int| 2 <= e && e * e <= work && #[trigger] (work as int % e) == 0;
            assert(e < d) by (nonlinear_arith)
                requires
                    e * e <= work,
                    d * d > work,
                    e >= 2,
                    d >= 2,
            ;
        }
        assert(f.skip(1) =~= Seq::<int>::empty());
    } else if work % d == 0 {
        let q = work / d;
        assert(q >= d) by (nonlinear_arith)
            requires
                d * d <= work,
                d >= 2,
                q == work / d,
        ;
        assert(q < work) by (nonlinear_arith)
            requires
                d >= 2,
                work >= 2,
                q == work / d,
        ;
        assert(work == d * q) by {
            lemma_fundamental_div_mod(work as int, d as int);
        }
        lemma_mod_multiples_basic(d as int, q as int);
        assert((d * q) as int == work as int);
        assert(work as int % q as int == 0);
        assert forall|e: int| 2 <= e < d implies #[trigger] (q as int % e) != 0 by {
            if q as int % e == 0 {
                lemma_divides_through(work as int, q as int, e);
            }
        }
        lemma_factors_from(q, d);
        assert forall|e: int| 2 <= e < d implies #[trigger] (d as int % e) != 0 by {
            if d as int % e == 0 {
                lemma_divides_through(work as int, d as int, e);
            }
        }
        let rest = factors_from(q, d);
        assert(f == seq![d as int] + rest);
        assert(f.skip(1) =~= rest);
        assert(seq_product(f) == d * seq_product(rest));
        assert forall|i: int| 0 <= i < f.len() - 1 implies #[trigger] f[i] <= f[i + 1] by {
            if i > 0 {
                assert(f[i] == rest[i - 1]);
            }
            assert(f[i + 1] == rest[i]);
        }
    } else {
        assert(d < work) by (nonlinear_arith)
            requires
                d >= 2,
                d * d <= work,
        ;
        lemma_factors_from(work, d + 1);
    }
}

/// Product on an integer gives its prime factors: for `n >= 2` each factor
/// is prime, they come in ascending order, and they multiply to `n`; below
/// two there are none.
pub proof fn law_prime_factors(n: nat)
    ensures
        n < 2 ==> prime_factors(n).len() == 0,
        n >= 2 ==> seq_product(prime_factors(n)) == n,
        forall|i: int| 0 <= i < prime_factors(n).len() ==> is_prime(#[trigger] prime_factors(n)[i]),
        forall|i: int| 0 <= i < prime_factors(n).len() - 1 ==> #[trigger] prime_factors(n)[i] <= prime_factors(n)[i + 1],
{
    if n >= 2 {
        lemma_factors_from(n, 2);
    }
}

} // verus!
