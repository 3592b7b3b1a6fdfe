//! Values: integers of any size, nested lists, and error values.

use vstd::prelude::*;
use crate::integer::{
    Integer, int_add, int_cmp, int_from_chars, int_text, int_text_value, int_to_text, is_digit, is_int_text,
    magnitude,
};
use vstd::string::StringExecFns;

verus! {

/// The mathematical model of a value.
pub enum Val {
    Int(int),
    List(Seq<Val>),
    Error(Seq<char>),
}

/// A value: an integer, a list of values, or an error with its reason.
#[derive(Debug, PartialEq, Eq, Hash)]
pub enum Object {
    Int(Integer),
    List(Vec<Object>),
    Error(String),
}

/// The model of a value.
pub open spec fn object_val(o: Object) -> Val
    decreases o,
{
    match o {
        Object::Int(i) => Val::Int(i.value()),
        Object::List(l) => Val::List(
            Seq::new(l.len() as nat, |k: int| if 0 <= k < l.len() { object_val(l[k]) } else { Val::Int(0) }),
        ),
        Object::Error(e) => Val::Error(e@),
    }
}

impl Clone for Object {
    fn clone(&self) -> (r: Object)
        ensures
            r@ == self@,
    {
        self.copy()
    }
}

impl View for Object {
    type V = Val;

    open spec fn view(&self) -> Val {
        object_val(*self)
    }
}

/// The models of a run of values.
pub open spec fn views(s: Seq<Object>) -> Seq<Val> {
    Seq::new(s.len(), |i: int| s[i]@)
}

/// Integers are true when nonzero, lists when nonempty, errors never.
pub open spec fn truthy(v: Val) -> bool {
    match v {
        Val::Int(n) => n != 0,
        Val::List(l) => l.len() > 0,
        Val::Error(_) => false,
    }
}

/// `0, 1, ..., n-1` for `n >= 0`, and `|n|-1, ..., 1, 0` for `n < 0`.
pub open spec fn range_seq(n: int) -> Seq<Val> {
    if n >= 0 {
        Seq::new(n as nat, |i: int| Val::Int(i))
    } else {
        Seq::new((-n) as nat, |i: int| Val::Int(-n - 1 - i))
    }
}

/// A value taken as a sequence: a list's elements, or an integer's range.
pub open spec fn as_seq(v: Val) -> Seq<Val> {
    match v {
        Val::Int(n) => range_seq(n),
        Val::List(l) => l,
        Val::Error(_) => Seq::empty(),
    }
}

/// The total order on values, as -1, 0 or 1: integers before lists before
/// errors; integers by value, lists lexicographically, errors all equal.
pub open spec fn val_cmp(a: Val, b: Val) -> int
    decreases a,
{
    match a {
        Val::Int(x) => match b {
            Val::Int(y) => if x < y {
                -1
            } else if x == y {
                0
            } else {
                1
            },
            _ => -1,
        },
        Val::List(x) => match b {
            Val::Int(_) => 1,
            Val::List(y) => seq_cmp(x, y),
            Val::Error(_) => -1,
        },
        Val::Error(_) => match b {
            Val::Error(_) => 0,
            _ => 1,
        },
    }
}

/// The lexicographic order on sequences of values, a prefix first.
pub open spec fn seq_cmp(x: Seq<Val>, y: Seq<Val>) -> int
    decreases x,
{
    if x.len() == 0 {
        if y.len() == 0 {
            0
        } else {
            -1
        }
    } else if y.len() == 0 {
        1
    } else {
        let c = val_cmp(x[0], y[0]);
        if c != 0 {
            c
        } else {
            seq_cmp(x.subrange(1, x.len() as int), y.subrange(1, y.len() as int))
        }
    }
}

/// The printed form of a value.
pub open spec fn val_text(v: Val) -> Seq<char>
    decreases v,
{
    match v {
        Val::Int(n) => int_text(n),
        Val::List(l) => seq!['['] + items_text(l) + seq![']'],
        Val::Error(e) => "Error: "@ + e,
    }
}

/// The printed forms of the values, separated by a comma and a space.
pub open spec fn items_text(l: Seq<Val>) -> Seq<char>
    decreases l,
{
    if l.len() == 0 {
        Seq::empty()
    } else if l.len() == 1 {
        val_text(l[0])
    } else {
        items_text(l.subrange(0, l.len() - 1)) + ", "@ + val_text(l[l.len() - 1])
    }
}

pub proof fn lemma_list_view(l: Vec<Object>)
    ensures
        Object::List(l)@ == Val::List(views(l@)),
{
    assert(object_val(Object::List(l))->List_0 =~= views(l@));
}

pub proof fn lemma_views_push(s: Seq<Object>, x: Object)
    ensures
        views(s.push(x)) == views(s).push(x@),
{
    assert(views(s.push(x)) =~= views(s).push(x@));
}

/// The end of the run of decimal digits that starts at `p`.
pub open spec fn digits_end(s: Seq<char>, p: int) -> int
    decreases s.len() - p,
{
    if 0 <= p < s.len() && is_digit(s[p]) {
        digits_end(s, p + 1)
    } else {
        p
    }
}

/// Reads one value of the text grammar from position `p`: an integer (an
/// optional minus sign and decimal digits) or a list (`[`, the items
/// separated by `, `, `]`). Gives the value and the position after it.
pub open spec fn read_value(s: Seq<char>, p: int) -> Option<(Val, int)>
    decreases s.len() - p, 0int,
{
    if p < 0 || p >= s.len() {
        None
    } else if s[p] == '[' {
        read_items(s, p + 1, Seq::empty())
    } else {
        let q = if s[p] == '-' {
            p + 1
        } else {
            p
        };
        let e = digits_end(s, q);
        if e <= q {
            None
        } else {
            Some((Val::Int(int_text_value(s.subrange(p, e))), e))
        }
    }
}

/// Reads the rest of a list from position `p`, after the items `acc`.
pub open spec fn read_items(s: Seq<char>, p: int, acc: Seq<Val>) -> Option<(Val, int)>
    decreases s.len() - p, 1int,
{
    if p < 0 || p >= s.len() {
        None
    } else if acc.len() == 0 && s[p] == ']' {
        Some((Val::List(acc), p + 1))
    } else {
        match read_value(s, p) {
            None => None,
            Some(r) => {
                let (v, e) = r;
                if e < s.len() && s[e] == ']' {
                    Some((Val::List(acc.push(v)), e + 1))
                } else if p < e && e + 1 < s.len() && s[e] == ',' && s[e + 1] == ' ' {
                    read_items(s, e + 2, acc.push(v))
                } else {
                    None
                }
            },
        }
    }
}

/// The value a whole text reads as; the empty text is the empty list.
pub open spec fn read_text(s: Seq<char>) -> Option<Val> {
    if s.len() == 0 {
        Some(Val::List(Seq::empty()))
    } else {
        match read_value(s, 0) {
            Some(r) => if r.1 == s.len() {
                Some(r.0)
            } else {
                None
            },
            None => None,
        }
    }
}

proof fn lemma_digits_end(s: Seq<char>, p: int)
    requires
        0 <= p <= s.len(),
    ensures
        p <= digits_end(s, p) <= s.len(),
        forall|i: int| p <= i < digits_end(s, p) ==> is_digit(#[trigger] s[i]),
    decreases s.len() - p,
{
    if p < s.len() && is_digit(s[p]) {
        lemma_digits_end(s, p + 1);
    }
}

proof fn lemma_seq_cmp_step(x: Seq<Val>, y: Seq<Val>, k: int)
    requires
        0 <= k < x.len(),
        k < y.len(),
        val_cmp(x[k], y[k]) == 0,
    ensures
        seq_cmp(x.subrange(k, x.len() as int), y.subrange(k, y.len() as int))
            == seq_cmp(x.subrange(k + 1, x.len() as int), y.subrange(k + 1, y.len() as int)),
{
    let xs = x.subrange(k, x.len() as int);
    let ys = y.subrange(k, y.len() as int);
    assert(xs.subrange(1, xs.len() as int) =~= x.subrange(k + 1, x.len() as int));
    assert(ys.subrange(1, ys.len() as int) =~= y.subrange(k + 1, y.len() as int));
}

impl Object {
    /// Whether the value counts as true.
    pub fn is_truthy(&self) -> (r: bool)
        ensures
            r == truthy(self@),
    {
        match self {
            Object::Int(i) => !i.is_zero(),
            Object::List(l) => l.len() > 0,
            Object::Error(_) => false,
        }
    }

    /// Whether the value is an error.
    pub fn is_error(&self) -> (r: bool)
        ensures
            r == (self@ is Error),
    {
        match self {
            Object::Error(_) => true,
            _ => false,
        }
    }

    /// Whether the value is a list.
    pub fn is_list(&self) -> (r: bool)
        ensures
            r == (self@ is List),
    {
        match self {
            Object::List(_) => true,
            _ => false,
        }
    }

    /// A list of values.
    pub fn list(items: Vec<Object>) -> (r: Object)
        ensures
            r@ == Val::List(views(items@)),
    {
        proof {
            lemma_list_view(items);
        }
        Object::List(items)
    }

    /// An error value with the given reason.
    pub fn error(reason: &str) -> (r: Object)
        ensures
            r@ == Val::Error(reason@),
    {
        Object::Error(String::from_str(reason))
    }

    /// A separate value equal to this one.
    pub fn copy(&self) -> (r: Object)
        ensures
            r@ == self@,
        decreases self,
    {
        match self {
            Object::Int(i) => Object::Int(i.copy()),
            Object::Error(e) => Object::Error(e.clone()),
            Object::List(x) => {
                let mut out: Vec<Object> = Vec::new();
                let mut k: usize = 0;
                while k < x.len()
                    invariant
                        *self == Object::List(*x),
                        k <= x@.len(),
                        out@.len() == k,
                        forall|j: int| 0 <= j < k ==> out@[j]@ == x@[j]@,
                    decreases x@.len() - k,
                {
                    proof {
                        assert(decreases_to!(*self => self->List_0));
                        assert(decreases_to!(self->List_0 => self->List_0[k as int]));
                    }
                    let c = x[k].copy();
                    out.push(c);
                    k += 1;
                }
                proof {
                    lemma_list_view(*x);
                    assert(views(out@) =~= views(x@));
                }
                Object::list(out)
            },
        }
    }

    /// Whether the two values are equal.
    pub fn equals(&self, other: &Object) -> (r: bool)
        ensures
            r == (self@ == other@),
        decreases self,
    {
        match (self, other) {
            (Object::Int(a), Object::Int(b)) => int_cmp(a, b) == 0,
            (Object::Error(a), Object::Error(b)) => {
                a.eq(b)
            },
            (Object::List(x), Object::List(y)) => {
                proof {
                    lemma_list_view(*x);
                    lemma_list_view(*y);
                }
                if x.len() != y.len() {
                    assert(views(x@).len() != views(y@).len());
                    return false;
                }
                let mut k: usize = 0;
                while k < x.len()
                    invariant
                        *self == Object::List(*x),
                        *other == Object::List(*y),
                        self@ == Val::List(views(x@)),
                        other@ == Val::List(views(y@)),
                        k <= x@.len(),
                        x@.len() == y@.len(),
                        forall|j: int| 0 <= j < k ==> views(x@)[j] == views(y@)[j],
                    decreases x@.len() - k,
                {
                    proof {
                        assert(decreases_to!(*self => self->List_0));
                        assert(decreases_to!(self->List_0 => self->List_0[k as int]));
                    }
                    if !x[k].equals(&y[k]) {
                        assert(views(x@)[k as int] != views(y@)[k as int]);
                        return false;
                    }
                    k += 1;
                }
                assert(views(x@) =~= views(y@));
                true
            },
            (Object::Int(_), _) | (Object::List(_), _) | (Object::Error(_), _) => false,
        }
    }

    /// The order of the two values, as -1, 0 or 1.
    pub fn compare(&self, other: &Object) -> (r: i8)
        ensures
            r as int == val_cmp(self@, other@),
        decreases self,
    {
        match self {
            Object::Int(a) => match other {
                Object::Int(b) => int_cmp(a, b),
                _ => -1,
            },
            Object::Error(_) => match other {
                Object::Error(_) => 0,
                _ => 1,
            },
            Object::List(x) => match other {
                Object::Int(_) => 1,
                Object::Error(_) => -1,
                Object::List(y) => {
                    proof {
                        lemma_list_view(*x);
                        lemma_list_view(*y);
                        assert(views(x@).subrange(0, x@.len() as int) =~= views(x@));
                        assert(views(y@).subrange(0, y@.len() as int) =~= views(y@));
                    }
                    let mut k: usize = 0;
                    while k < x.len() && k < y.len()
                        invariant
                            *self == Object::List(*x),
                            self@ == Val::List(views(x@)),
                            other@ == Val::List(views(y@)),
                            k <= x@.len(),
                            k <= y@.len(),
                            seq_cmp(views(x@), views(y@)) == seq_cmp(
                                views(x@).subrange(k as int, x@.len() as int),
                                views(y@).subrange(k as int, y@.len() as int),
                            ),
                        decreases x@.len() - k,
                    {
                        proof {
                            assert(decreases_to!(*self => self->List_0));
                        assert(decreases_to!(self->List_0 => self->List_0[k as int]));
                        }
                        let c = x[k].compare(&y[k]);
                        if c != 0 {
                            proof {
                                let xs = views(x@).subrange(k as int, x@.len() as int);
                                assert(xs[0] == views(x@)[k as int]);
                            }
                            return c;
                        }
                        proof {
                            lemma_seq_cmp_step(views(x@), views(y@), k as int);
                        }
                        k += 1;
                    }
                    proof {
                        assert(views(x@).subrange(k as int, x@.len() as int).len() == x@.len() - k);
                        assert(views(y@).subrange(k as int, y@.len() as int).len() == y@.len() - k);
                    }
                    if k < y.len() {
                        -1
                    } else if k < x.len() {
                        1
                    } else {
                        0
                    }
                },
            },
        }
    }

    /// The value taken as a sequence: a list's elements; for an integer `n`,
    /// `0, 1, ..., n-1` when `n >= 0` and `|n|-1, ..., 1, 0` when `n < 0`.
    pub fn to_list(self) -> (r: Vec<Object>)
        requires
            !(self@ is Error),
        ensures
            views(r@) == as_seq(self@),
    {
        match self {
            Object::List(l) => {
                proof {
                    lemma_list_view(l);
                }
                l
            },
            Object::Error(_) => Vec::new(),
            Object::Int(n) => {
                let target = n.abs();
                let one = Integer::from_u64(1);
                let mut up: Vec<Object> = Vec::new();
                let mut j = Integer::zero();
                while int_cmp(&j, &target) < 0
                    invariant
                        0 <= j.value() <= target.value(),
                        target.value() == magnitude(n.value()),
                        one.value() == 1,
                        up@.len() == j.value(),
                        forall|i: int| 0 <= i < up@.len() ==> up@[i]@ == Val::Int(i),
                    decreases target.value() - j.value(),
                {
                    up.push(Object::Int(j.copy()));
                    j = int_add(&j, &one);
                }
                if !n.is_negative() {
                    assert(views(up@) =~= range_seq(n.value()));
                    return up;
                }
                let ghost full = up@;
                let mut down: Vec<Object> = Vec::new();
                while up.len() > 0
                    invariant
                        up@ == full.subrange(0, up@.len() as int),
                        down@.len() + up@.len() == full.len(),
                        forall|i: int| 0 <= i < down@.len() ==> down@[i] == full[full.len() - 1 - i],
                    decreases up@.len(),
                {
                    let last = up.pop().unwrap();
                    down.push(last);
                }
                assert(views(down@) =~= range_seq(n.value()));
                down
            },
        }
    }

    /// Reads a value from text in the printed form; `None` where the text is
    /// not one value of that form. The empty text is the empty list.
    pub fn from_str(text: &str) -> (r: Option<Object>)
        ensures
            match r {
                Some(o) => read_text(text@) == Some(o@),
                None => read_text(text@) is None,
            },
    {
        let n = text.unicode_len();
        let mut cs: Vec<char> = Vec::new();
        let mut i: usize = 0;
        while i < n
            invariant
                n == text@.len(),
                i <= n,
                cs@ == text@.subrange(0, i as int),
            decreases n - i,
        {
            cs.push(text.get_char(i));
            i += 1;
        }
        assert(cs@ =~= text@);
        if n == 0 {
            let e: Vec<Object> = Vec::new();
            assert(views(e@) =~= Seq::<Val>::empty());
            return Some(Object::list(e));
        }
        match read_value_exec(&cs, 0) {
            Some((o, e)) => {
                if e == n {
                    Some(o)
                } else {
                    None
                }
            },
            None => None,
        }
    }

    /// The printed form: integers in decimal, lists in brackets with their
    /// items separated by `, `, errors as `Error: ` and the reason.
    pub fn to_text(&self) -> (r: String)
        ensures
            r@ == val_text(self@),
        decreases self,
    {
        match self {
            Object::Int(i) => int_to_text(i),
            Object::Error(e) => {
                proof {
                    reveal_strlit("Error: ");
                }
                let mut out = String::from_str("Error: ");
                out.append(e.as_str());
                out
            },
            Object::List(x) => {
                proof {
                    lemma_list_view(*x);
                }
                proof {
                    reveal_strlit("[");
                    assert(views(x@).subrange(0, 0) =~= Seq::<Val>::empty());
                }
                let mut out = String::from_str("[");
                let mut k: usize = 0;
                while k < x.len()
                    invariant
                        *self == Object::List(*x),
                        self@ == Val::List(views(x@)),
                        k <= x@.len(),
                        out@ == seq!['['] + items_text(views(x@).subrange(0, k as int)),
                    decreases x@.len() - k,
                {
                    proof {
                        reveal_strlit(", ");
                        let s = views(x@).subrange(0, k as int + 1);
                        assert(s.subrange(0, s.len() - 1) =~= views(x@).subrange(0, k as int));
                    }
                    if k > 0 {
                        out.append(", ");
                    }
                    proof {
                        assert(decreases_to!(*self => self->List_0));
                        assert(decreases_to!(self->List_0 => self->List_0[k as int]));
                    }
                    let t = x[k].to_text();
                    out.append(t.as_str());
                    k += 1;
                }
                proof {
                    reveal_strlit("]");
                }
                out.append("]");
                assert(views(x@).subrange(0, x@.len() as int) =~= views(x@));
                out
            },
        }
    }
}


fn digits_end_exec(cs: &Vec<char>, p: usize) -> (r: usize)
    requires
        p <= cs@.len(),
    ensures
        r as int == digits_end(cs@, p as int),
{
    let mut e = p;
    while e < cs.len() && '0' <= cs[e] && cs[e] <= '9'
        invariant
            p <= e <= cs@.len(),
            digits_end(cs@, p as int) == digits_end(cs@, e as int),
        decreases cs@.len() - e,
    {
        e += 1;
    }
    e
}

fn read_value_exec(cs: &Vec<char>, p: usize) -> (r: Option<(Object, usize)>)
    ensures
        match r {
            Some(x) => read_value(cs@, p as int) == Some((x.0@, x.1 as int)),
            None => read_value(cs@, p as int) is None,
        },
    decreases cs@.len() - p, 0int,
{
    if p >= cs.len() {
        return None;
    }
    if cs[p] == '[' {
        return read_items_exec(cs, p + 1);
    }
    let q = if cs[p] == '-' {
        p + 1
    } else {
        p
    };
    let e = digits_end_exec(cs, q);
    if e <= q {
        return None;
    }
    proof {
        lemma_digits_end(cs@, q as int);
        let t = cs@.subrange(p as int, e as int);
        if cs@[p as int] == '-' {
            assert(t.skip(1) =~= cs@.subrange(q as int, e as int));
            assert forall|i: int| 0 <= i < t.skip(1).len() implies is_digit(#[trigger] t.skip(1)[i]) by {
                assert(t.skip(1)[i] == cs@[q + i]);
            }
        } else {
            assert forall|i: int| 0 <= i < t.len() implies is_digit(#[trigger] t[i]) by {
                assert(t[i] == cs@[p + i]);
            }
        }
        assert(is_int_text(t));
    }
    match int_from_chars(cs, p, e) {
        Some(v) => Some((Object::Int(v), e)),
        None => None,
    }
}

fn read_items_exec(cs: &Vec<char>, start: usize) -> (r: Option<(Object, usize)>)
    ensures
        match r {
            Some(x) => read_items(cs@, start as int, Seq::empty()) == Some((x.0@, x.1 as int)),
            None => read_items(cs@, start as int, Seq::empty()) is None,
        },
    decreases cs@.len() - start, 1int,
{
    let ghost goal = read_items(cs@, start as int, Seq::empty());
    let mut items: Vec<Object> = Vec::new();
    let mut p = start;
    assert(views(items@) =~= Seq::<Val>::empty());
    loop
        invariant
            start <= p,
            goal == read_items(cs@, start as int, Seq::empty()),
            goal == read_items(cs@, p as int, views(items@)),
            items@.len() > 0 ==> p > start,
        decreases cs@.len() - p,
    {
        if p >= cs.len() {
            return None;
        }
        if items.len() == 0 && cs[p] == ']' {
            return Some((Object::list(items), p + 1));
        }
        match read_value_exec(cs, p) {
            None => {
                return None;
            },
            Some((v, e)) => {
                proof {
                    lemma_views_push(items@, v);
                }
                items.push(v);
                if e < cs.len() && cs[e] == ']' {
                    return Some((Object::list(items), e + 1));
                } else if p < e && e < cs.len() && e + 1 < cs.len() && cs[e] == ',' && cs[e + 1] == ' ' {
                    p = e + 2;
                } else {
                    return None;
                }
            },
        }
    }
}

} // verus!
