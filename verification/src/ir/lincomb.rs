//! Variables and sparse linear combinations over them.

use crate::field::Field;
use vstd::arithmetic::div_mod::*;
use vstd::prelude::*;

verus! {

/// A circuit variable, named by its index. Index 0 is the constant one.
#[derive(Clone, Copy, Debug, PartialEq, Eq, Structural)]
pub struct Variable {
    pub id: usize,
}

impl Variable {
    /// The variable that always holds the field's one.
    pub fn one() -> (v: Variable)
        ensures
            v.id == 0,
    {
        Variable { id: 0 }
    }

    pub fn new(id: usize) -> (v: Variable)
        ensures
            v.id == id,
    {
        Variable { id }
    }

    pub fn id(&self) -> (r: usize)
        ensures
            r == self.id,
    {
        self.id
    }

    pub fn is_one(&self) -> (r: bool)
        ensures
            r == (self.id == 0),
    {
        self.id == 0
    }
}

/// One summand of a linear combination: `coeff` times the value of `var`.
#[derive(Clone, Copy, Debug, PartialEq, Eq, Structural)]
pub struct Term {
    pub var: Variable,
    pub coeff: u64,
}

/// The value an assignment gives a variable, if any.
pub open spec fn value_at(w: Seq<Option<u64>>, v: Variable) -> Option<u64> {
    if v.id < w.len() {
        w[v.id as int]
    } else {
        None
    }
}

/// Every assigned value is a reduced field element.
pub open spec fn within(w: Seq<Option<u64>>, p: int) -> bool {
    forall|i: int| 0 <= i < w.len() && (#[trigger] w[i]) is Some ==> w[i].unwrap() < p
}

/// The canonical sparse form: variables strictly increasing, every
/// coefficient a nonzero reduced field element.
pub open spec fn canonical(t: Seq<Term>, p: int) -> bool {
    &&& forall|i: int| 0 <= i < t.len() ==> 0 < (#[trigger] t[i]).coeff < p
    &&& forall|i: int, j: int|
        0 <= i < j < t.len() ==> (#[trigger] t[i]).var.id < (#[trigger] t[j]).var.id
}

/// Every variable of the combination has a value.
pub open spec fn assigned(t: Seq<Term>, w: Seq<Option<u64>>) -> bool {
    forall|i: int| 0 <= i < t.len() ==> value_at(w, (#[trigger] t[i]).var) is Some
}

/// Every variable of the combination is below `n`.
pub open spec fn vars_below(t: Seq<Term>, n: int) -> bool {
    forall|i: int| 0 <= i < t.len() ==> (#[trigger] t[i]).var.id < n
}

/// What one term contributes under an assignment.
pub open spec fn term_value(t: Term, w: Seq<Option<u64>>) -> int {
    match value_at(w, t.var) {
        Some(x) => t.coeff * x,
        None => 0,
    }
}

/// The sum of coefficient times value over all terms, before reduction.
pub open spec fn sum(t: Seq<Term>, w: Seq<Option<u64>>) -> int
    decreases t.len(),
{
    if t.len() == 0 {
        0
    } else {
        term_value(t[0], w) + sum(t.drop_first(), w)
    }
}

/// The value of a linear combination: the reduced sum, defined when every
/// variable it mentions is assigned.
pub open spec fn eval(t: Seq<Term>, w: Seq<Option<u64>>, p: int) -> Option<u64> {
    if assigned(t, w) {
        Some((sum(t, w) % p) as u64)
    } else {
        None
    }
}

/// A sparse linear combination of variables.
#[derive(Debug)]
pub struct LinComb {
    pub terms: Vec<Term>,
}

impl View for LinComb {
    type V = Seq<Term>;

    open spec fn view(&self) -> Seq<Term> {
        self.terms@
    }
}

impl Clone for LinComb {
    fn clone(&self) -> (r: Self)
        ensures
            r@ == self@,
    {
        let mut terms: Vec<Term> = Vec::new();
        let mut i: usize = 0;
        while i < self.terms.len()
            invariant
                i <= self.terms.len(),
                terms@ == self.terms@.take(i as int),
            decreases self.terms.len() - i,
        {
            terms.push(self.terms[i]);
            assert(self.terms@.take(i + 1) == self.terms@.take(i as int).push(self.terms@[i as int]));
            i += 1;
        }
        assert(self.terms@.take(i as int) == self.terms@);
        LinComb { terms }
    }
}

impl LinComb {
    /// The empty combination, whose value is zero.
    pub fn zero() -> (r: LinComb)
        ensures
            r@ == Seq::<Term>::empty(),
    {
        LinComb { terms: Vec::new() }
    }

    /// The constant `c`, reduced: `c` times the variable one.
    pub fn constant(c: u64, field: &Field) -> (r: LinComb)
        requires
            field.wf(),
        ensures
            r@ == constant_terms(c as int % field.modulus as int),
            canonical(r@, field.modulus as int),
    {
        let k = field.reduce(c);
        let mut terms: Vec<Term> = Vec::new();
        if k != 0 {
            terms.push(Term { var: Variable { id: 0 }, coeff: k });
        }
        LinComb { terms }
    }

    /// The single variable `v` with coefficient one.
    pub fn variable(v: Variable) -> (r: LinComb)
        ensures
            r@ == seq![Term { var: v, coeff: 1 }],
    {
        let mut terms: Vec<Term> = Vec::new();
        terms.push(Term { var: v, coeff: 1 });
        LinComb { terms }
    }

    pub fn len(&self) -> (r: usize)
        ensures
            r == self@.len(),
    {
        self.terms.len()
    }

    /// The value under `witness`, or `None` where a variable has no value.
    pub fn eval(&self, witness: &Vec<Option<u64>>, field: &Field) -> (r: Option<u64>)
        requires
            field.wf(),
            canonical(self@, field.modulus as int),
            within(witness@, field.modulus as int),
        ensures
            r == eval(self@, witness@, field.modulus as int),
            r is Some ==> r.unwrap() < field.modulus,
    {
        let ghost p = field.modulus as int;
        let ghost t = self@;
        let ghost w = witness@;
        let mut acc: u64 = 0;
        let mut i: usize = 0;
        assert(t.skip(0) == t);
        while i < self.terms.len()
            invariant
                i <= self.terms.len(),
                t == self@,
                w == witness@,
                p == field.modulus as int,
                field.wf(),
                canonical(t, p),
                within(w, p),
                acc < p,
                assigned(t.take(i as int), w),
                (acc + sum(t.skip(i as int), w)) % p == sum(t, w) % p,
            decreases self.terms.len() - i,
        {
            let term = self.terms[i];
            let ghost rest = t.skip(i as int);
            assert(rest[0] == term);
            assert(rest.drop_first() == t.skip(i + 1));
            if term.var.id >= witness.len() {
                assert(value_at(w, t[i as int].var) is None);
                return None;
            }
            match witness[term.var.id] {
                None => {
                    assert(value_at(w, t[i as int].var) is None);
                    return None;
                },
                Some(x) => {
                    let m = field.mul(term.coeff, x);
                    let next = field.add(acc, m);
                    proof {
                        let tail = sum(t.skip(i + 1), w);
                        assert(term_value(term, w) == term.coeff * x);
                        // next + tail = acc + coeff * x + tail  (mod p)
                        lemma_add_mod_noop(acc as int, term.coeff * x, p);
                        lemma_small_mod(acc as nat, p as nat);
                        assert(next as int == (acc + term.coeff * x) % p);
                        lemma_add_mod_noop((acc + term.coeff * x) as int, tail, p);
                        lemma_add_mod_noop(next as int, tail, p);
                        lemma_small_mod(next as nat, p as nat);
                        assert(acc + sum(rest, w) == (acc + term.coeff * x) + tail);
                        assert forall|k: int| 0 <= k < i + 1 implies value_at(
                            w,
                            (#[trigger] t.take(i + 1)[k]).var,
                        ) is Some by {
                            if k < i {
                                assert(t.take(i as int)[k] == t[k]);
                            }
                        }
                    }
                    acc = next;
                },
            }
            i += 1;
        }
        proof {
            assert(t.take(i as int) == t);
            assert(t.skip(i as int).len() == 0);
            lemma_small_mod(acc as nat, p as nat);
        }
        Some(acc)
    }
}

/// The terms of the constant `c`: none for zero, else `c` times one.
pub open spec fn constant_terms(c: int) -> Seq<Term> {
    if c == 0 {
        Seq::<Term>::empty()
    } else {
        seq![Term { var: Variable { id: 0 }, coeff: c as u64 }]
    }
}

} // verus!

verus! {

impl LinComb {
    /// Whether the combination is in canonical form over the variables
    /// below `n`.
    pub fn is_well_formed(&self, field: &Field, n: usize) -> (r: bool)
        ensures
            r == (canonical(self@, field.modulus as int) && vars_below(self@, n as int)),
    {
        let ghost t = self@;
        let ghost p = field.modulus as int;
        let mut i: usize = 0;
        while i < self.terms.len()
            invariant
                i <= self.terms.len(),
                t == self@,
                p == field.modulus as int,
                canonical(t.take(i as int), p),
                vars_below(t.take(i as int), n as int),
            decreases self.terms.len() - i,
        {
            let term = self.terms[i];
            let ghost prefix = t.take(i as int);
            let ghost next = t.take(i + 1);
            if term.coeff == 0 || term.coeff >= field.modulus || term.var.id >= n {
                assert(t[i as int] == term);
                return false;
            }
            if i > 0 && self.terms[i - 1].var.id >= term.var.id {
                assert(t[i - 1].var.id >= t[i as int].var.id);
                return false;
            }
            proof {
                assert forall|a: int, b: int| 0 <= a < b < next.len() implies (#[trigger] next[a]).var.id
                    < (#[trigger] next[b]).var.id by {
                    if b < i {
                        assert(prefix[a] == next[a] && prefix[b] == next[b]);
                    } else if a < i - 1 {
                        assert(prefix[a] == next[a] && prefix[i - 1] == next[i - 1]);
                    }
                }
                assert forall|a: int| 0 <= a < next.len() implies 0 < (#[trigger] next[a]).coeff
                    < p by {
                    if a < i {
                        assert(prefix[a] == next[a]);
                    }
                }
                assert forall|a: int| 0 <= a < next.len() implies (#[trigger] next[a]).var.id
                    < n by {
                    if a < i {
                        assert(prefix[a] == next[a]);
                    }
                }
            }
            i += 1;
        }
        assert(t.take(i as int) == t);
        true
    }
}

} // verus!

verus! {

/// The sum of two canonical combinations, in canonical form: terms in the
/// same variable are added, and a term whose coefficient becomes zero is
/// left out.
pub open spec fn merge(a: Seq<Term>, b: Seq<Term>, p: int) -> Seq<Term>
    decreases a.len() + b.len(),
{
    if a.len() == 0 {
        b
    } else if b.len() == 0 {
        a
    } else if a[0].var.id < b[0].var.id {
        seq![a[0]] + merge(a.drop_first(), b, p)
    } else if b[0].var.id < a[0].var.id {
        seq![b[0]] + merge(a, b.drop_first(), p)
    } else {
        let c = (a[0].coeff + b[0].coeff) % p;
        let rest = merge(a.drop_first(), b.drop_first(), p);
        if c == 0 {
            rest
        } else {
            seq![Term { var: a[0].var, coeff: c as u64 }] + rest
        }
    }
}

/// The combination times the constant `c`, in canonical form.
pub open spec fn scaled(t: Seq<Term>, c: int, p: int) -> Seq<Term>
    decreases t.len(),
{
    if t.len() == 0 {
        Seq::<Term>::empty()
    } else {
        let k = (c * t[0].coeff) % p;
        let rest = scaled(t.drop_first(), c, p);
        if k == 0 {
            rest
        } else {
            seq![Term { var: t[0].var, coeff: k as u64 }] + rest
        }
    }
}

/// Every variable of the combination is at least `low`.
pub open spec fn vars_from(t: Seq<Term>, low: int) -> bool {
    forall|i: int| 0 <= i < t.len() ==> (#[trigger] t[i]).var.id >= low
}

/// Putting a term in front of a canonical combination of larger variables
/// gives a canonical combination.
pub proof fn lemma_canonical_cons(x: Term, t: Seq<Term>, p: int)
    requires
        canonical(t, p),
        vars_from(t, x.var.id + 1),
        0 < x.coeff < p,
    ensures
        canonical(seq![x] + t, p),
        vars_from(seq![x] + t, x.var.id as int),
{
    let r = seq![x] + t;
    assert forall|i: int| 0 <= i < r.len() implies 0 < (#[trigger] r[i]).coeff < p by {
        if i > 0 {
            assert(r[i] == t[i - 1]);
        }
    }
    assert forall|i: int, j: int| 0 <= i < j < r.len() implies (#[trigger] r[i]).var.id < (
    #[trigger] r[j]).var.id by {
        assert(r[j] == t[j - 1]);
        if i > 0 {
            assert(r[i] == t[i - 1]);
        }
    }
    assert forall|i: int| 0 <= i < r.len() implies (#[trigger] r[i]).var.id >= x.var.id by {
        if i > 0 {
            assert(r[i] == t[i - 1]);
        }
    }
}

/// What is left of a canonical combination without its first term.
pub proof fn lemma_canonical_rest(t: Seq<Term>, p: int)
    requires
        canonical(t, p),
        t.len() > 0,
    ensures
        canonical(t.drop_first(), p),
        vars_from(t.drop_first(), t[0].var.id + 1),
        vars_from(t, t[0].var.id as int),
{
    let r = t.drop_first();
    assert forall|i: int| 0 <= i < r.len() implies 0 < (#[trigger] r[i]).coeff < p by {
        assert(r[i] == t[i + 1]);
    }
    assert forall|i: int, j: int| 0 <= i < j < r.len() implies (#[trigger] r[i]).var.id < (
    #[trigger] r[j]).var.id by {
        assert(r[i] == t[i + 1]);
        assert(r[j] == t[j + 1]);
    }
    assert forall|i: int| 0 <= i < r.len() implies (#[trigger] r[i]).var.id >= t[0].var.id + 1 by {
        assert(r[i] == t[i + 1]);
    }
    assert forall|i: int| 0 <= i < t.len() implies (#[trigger] t[i]).var.id >= t[0].var.id by {
        if i > 0 {
            assert(t[0].var.id < t[i].var.id);
        }
    }
}

proof fn lemma_vars_from_weaken(t: Seq<Term>, low: int, lower: int)
    requires
        vars_from(t, low),
        lower <= low,
    ensures
        vars_from(t, lower),
{
}

/// The sum of canonical combinations is canonical.
pub proof fn lemma_merge_canonical(a: Seq<Term>, b: Seq<Term>, p: int, low: int)
    requires
        0 < p <= u64::MAX,
        canonical(a, p),
        canonical(b, p),
        vars_from(a, low),
        vars_from(b, low),
    ensures
        canonical(merge(a, b, p), p),
        vars_from(merge(a, b, p), low),
    decreases a.len() + b.len(),
{
    if a.len() == 0 || b.len() == 0 {
    } else {
        lemma_canonical_rest(a, p);
        lemma_canonical_rest(b, p);
        if a[0].var.id < b[0].var.id {
            let next = a[0].var.id + 1;
            lemma_vars_from_weaken(b, b[0].var.id as int, next);
            lemma_merge_canonical(a.drop_first(), b, p, next);
            lemma_canonical_cons(a[0], merge(a.drop_first(), b, p), p);
            lemma_vars_from_weaken(merge(a, b, p), a[0].var.id as int, low);
        } else if b[0].var.id < a[0].var.id {
            let next = b[0].var.id + 1;
            lemma_vars_from_weaken(a, a[0].var.id as int, next);
            lemma_merge_canonical(a, b.drop_first(), p, next);
            lemma_canonical_cons(b[0], merge(a, b.drop_first(), p), p);
            lemma_vars_from_weaken(merge(a, b, p), b[0].var.id as int, low);
        } else {
            let next = a[0].var.id + 1;
            let c = (a[0].coeff + b[0].coeff) % p;
            lemma_mod_bound(a[0].coeff + b[0].coeff, p);
            lemma_merge_canonical(a.drop_first(), b.drop_first(), p, next);
            let rest = merge(a.drop_first(), b.drop_first(), p);
            if c == 0 {
                lemma_vars_from_weaken(rest, next, low);
            } else {
                let x = Term { var: a[0].var, coeff: c as u64 };
                lemma_canonical_cons(x, rest, p);
                lemma_vars_from_weaken(merge(a, b, p), a[0].var.id as int, low);
            }
        }
    }
}

/// A multiple of a canonical combination is canonical.
pub proof fn lemma_scaled_canonical(t: Seq<Term>, c: int, p: int, low: int)
    requires
        0 < p <= u64::MAX,
        canonical(t, p),
        vars_from(t, low),
    ensures
        canonical(scaled(t, c, p), p),
        vars_from(scaled(t, c, p), low),
    decreases t.len(),
{
    if t.len() > 0 {
        lemma_canonical_rest(t, p);
        let next = t[0].var.id + 1;
        lemma_scaled_canonical(t.drop_first(), c, p, next);
        let k = (c * t[0].coeff) % p;
        lemma_mod_bound(c * t[0].coeff, p);
        let rest = scaled(t.drop_first(), c, p);
        if k == 0 {
            lemma_vars_from_weaken(rest, next, low);
        } else {
            let x = Term { var: t[0].var, coeff: k as u64 };
            lemma_canonical_cons(x, rest, p);
            lemma_vars_from_weaken(scaled(t, c, p), t[0].var.id as int, low);
        }
    }
}

/// The sum mentions no variable that neither summand mentions.
pub proof fn lemma_merge_vars_below(a: Seq<Term>, b: Seq<Term>, p: int, n: int)
    requires
        vars_below(a, n),
        vars_below(b, n),
    ensures
        vars_below(merge(a, b, p), n),
    decreases a.len() + b.len(),
{
    if a.len() == 0 || b.len() == 0 {
    } else {
        let ra = a.drop_first();
        let rb = b.drop_first();
        assert forall|i: int| 0 <= i < ra.len() implies (#[trigger] ra[i]).var.id < n by {
            assert(ra[i] == a[i + 1]);
        }
        assert forall|i: int| 0 <= i < rb.len() implies (#[trigger] rb[i]).var.id < n by {
            assert(rb[i] == b[i + 1]);
        }
        if a[0].var.id < b[0].var.id {
            lemma_merge_vars_below(ra, b, p, n);
        } else if b[0].var.id < a[0].var.id {
            lemma_merge_vars_below(a, rb, p, n);
        } else {
            lemma_merge_vars_below(ra, rb, p, n);
        }
    }
}

/// A multiple mentions no new variable.
pub proof fn lemma_scaled_vars_below(t: Seq<Term>, c: int, p: int, n: int)
    requires
        vars_below(t, n),
    ensures
        vars_below(scaled(t, c, p), n),
    decreases t.len(),
{
    if t.len() > 0 {
        let r = t.drop_first();
        assert forall|i: int| 0 <= i < r.len() implies (#[trigger] r[i]).var.id < n by {
            assert(r[i] == t[i + 1]);
        }
        lemma_scaled_vars_below(r, c, p, n);
    }
}

impl LinComb {
    /// The sum of the two combinations.
    pub fn add(&self, other: &LinComb, field: &Field) -> (r: LinComb)
        requires
            field.wf(),
            canonical(self@, field.modulus as int),
            canonical(other@, field.modulus as int),
        ensures
            r@ == merge(self@, other@, field.modulus as int),
            canonical(r@, field.modulus as int),
    {
        let ghost a = self@;
        let ghost b = other@;
        let ghost p = field.modulus as int;
        let mut out: Vec<Term> = Vec::new();
        let mut i: usize = 0;
        let mut j: usize = 0;
        let n = self.terms.len();
        let m = other.terms.len();
        assert(a.skip(0) == a && b.skip(0) == b);
        assert(out@ + merge(a, b, p) == merge(a, b, p));
        while i < n || j < m
            invariant
                i <= n,
                j <= m,
                n == a.len(),
                m == b.len(),
                a == self@,
                b == other@,
                p == field.modulus as int,
                field.wf(),
                canonical(a, p),
                canonical(b, p),
                out@ + merge(a.skip(i as int), b.skip(j as int), p) == merge(a, b, p),
            decreases (n - i) + (m - j),
        {
            let ghost ra = a.skip(i as int);
            let ghost rb = b.skip(j as int);
            let ghost before = out@;
            proof {
                if i < n {
                    assert(ra[0] == a[i as int]);
                    assert(ra.drop_first() == a.skip(i + 1));
                }
                if j < m {
                    assert(rb[0] == b[j as int]);
                    assert(rb.drop_first() == b.skip(j + 1));
                }
            }
            if i == n {
                out.push(other.terms[j]);
                proof {
                    assert(merge(ra, rb, p) == rb);
                    assert(merge(ra, b.skip(j + 1), p) == b.skip(j + 1));
                    assert(rb == seq![b[j as int]] + b.skip(j + 1));
                    assert(out@ + b.skip(j + 1) == before + rb);
                }
                j += 1;
            } else if j == m {
                out.push(self.terms[i]);
                proof {
                    assert(merge(ra, rb, p) == ra);
                    assert(merge(a.skip(i + 1), rb, p) == a.skip(i + 1));
                    assert(ra == seq![a[i as int]] + a.skip(i + 1));
                    assert(out@ + a.skip(i + 1) == before + ra);
                }
                i += 1;
            } else {
                let x = self.terms[i];
                let y = other.terms[j];
                if x.var.id < y.var.id {
                    out.push(x);
                    proof {
                        let rest = merge(a.skip(i + 1), rb, p);
                        assert(merge(ra, rb, p) == seq![x] + rest);
                        assert(out@ + rest == before + (seq![x] + rest));
                    }
                    i += 1;
                } else if y.var.id < x.var.id {
                    out.push(y);
                    proof {
                        let rest = merge(ra, b.skip(j + 1), p);
                        assert(merge(ra, rb, p) == seq![y] + rest);
                        assert(out@ + rest == before + (seq![y] + rest));
                    }
                    j += 1;
                } else {
                    let c = field.add(x.coeff, y.coeff);
                    let ghost rest = merge(a.skip(i + 1), b.skip(j + 1), p);
                    if c != 0 {
                        let term = Term { var: x.var, coeff: c };
                        out.push(term);
                        proof {
                            assert(merge(ra, rb, p) == seq![term] + rest);
                            assert(out@ + rest == before + (seq![term] + rest));
                        }
                    } else {
                        assert(merge(ra, rb, p) == rest);
                    }
                    i += 1;
                    j += 1;
                }
            }
        }
        proof {
            assert(merge(a.skip(i as int), b.skip(j as int), p) == Seq::<Term>::empty());
            assert(out@ + Seq::<Term>::empty() == out@);
            lemma_merge_canonical(a, b, p, 0);
        }
        LinComb { terms: out }
    }

    /// The combination times the field element `c`.
    pub fn scale(&self, c: u64, field: &Field) -> (r: LinComb)
        requires
            field.wf(),
            field.has(c),
            canonical(self@, field.modulus as int),
        ensures
            r@ == scaled(self@, c as int, field.modulus as int),
            canonical(r@, field.modulus as int),
    {
        let ghost t = self@;
        let ghost p = field.modulus as int;
        let mut out: Vec<Term> = Vec::new();
        let mut i: usize = 0;
        assert(t.skip(0) == t);
        assert(out@ + scaled(t, c as int, p) == scaled(t, c as int, p));
        while i < self.terms.len()
            invariant
                i <= self.terms.len(),
                t == self@,
                p == field.modulus as int,
                field.wf(),
                field.has(c),
                canonical(t, p),
                out@ + scaled(t.skip(i as int), c as int, p) == scaled(t, c as int, p),
            decreases self.terms.len() - i,
        {
            let x = self.terms[i];
            let ghost rt = t.skip(i as int);
            let ghost before = out@;
            let ghost rest = scaled(t.skip(i + 1), c as int, p);
            proof {
                assert(rt[0] == t[i as int]);
                assert(rt.drop_first() == t.skip(i + 1));
            }
            let k = field.mul(c, x.coeff);
            if k != 0 {
                let term = Term { var: x.var, coeff: k };
                out.push(term);
                proof {
                    assert(scaled(rt, c as int, p) == seq![term] + rest);
                    assert(out@ + rest == before + (seq![term] + rest));
                }
            } else {
                assert(scaled(rt, c as int, p) == rest);
            }
            i += 1;
        }
        proof {
            assert(scaled(t.skip(i as int), c as int, p) == Seq::<Term>::empty());
            assert(out@ + Seq::<Term>::empty() == out@);
            lemma_scaled_canonical(t, c as int, p, 0);
        }
        LinComb { terms: out }
    }
}

} // verus!

verus! {

/// Two assignments that give the variables of a combination the same
/// values give the combination the same sum.
pub proof fn lemma_sum_agree(t: Seq<Term>, a: Seq<Option<u64>>, b: Seq<Option<u64>>)
    requires
        forall|k: int| 0 <= k < t.len() ==> value_at(a, (#[trigger] t[k]).var) == value_at(b, t[k].var),
    ensures
        sum(t, a) == sum(t, b),
        assigned(t, a) == assigned(t, b),
    decreases t.len(),
{
    if t.len() > 0 {
        let rest = t.drop_first();
        assert forall|k: int| 0 <= k < rest.len() implies value_at(a, (#[trigger] rest[k]).var)
            == value_at(b, rest[k].var) by {
            assert(rest[k] == t[k + 1]);
        }
        lemma_sum_agree(rest, a, b);
        assert(value_at(a, t[0].var) == value_at(b, t[0].var));
    }
}

/// The sum of a term in front of a combination.
pub proof fn lemma_sum_cons(x: Term, t: Seq<Term>, w: Seq<Option<u64>>)
    ensures
        sum(seq![x] + t, w) == term_value(x, w) + sum(t, w),
        assigned(seq![x] + t, w) == (value_at(w, x.var) is Some && assigned(t, w)),
{
    let r = seq![x] + t;
    assert(r[0] == x);
    assert(r.drop_first() == t);
    if value_at(w, x.var) is Some && assigned(t, w) {
        assert forall|i: int| 0 <= i < r.len() implies value_at(w, (#[trigger] r[i]).var) is Some by {
            if i > 0 {
                assert(r[i] == t[i - 1]);
            }
        }
    }
    if assigned(r, w) {
        assert forall|i: int| 0 <= i < t.len() implies value_at(w, (#[trigger] t[i]).var) is Some by {
            assert(r[i + 1] == t[i]);
        }
    }
}

proof fn lemma_assigned_rest(t: Seq<Term>, w: Seq<Option<u64>>)
    requires
        t.len() > 0,
    ensures
        assigned(t, w) == (value_at(w, t[0].var) is Some && assigned(t.drop_first(), w)),
{
    assert(seq![t[0]] + t.drop_first() == t);
    lemma_sum_cons(t[0], t.drop_first(), w);
}

/// Congruent summands have congruent sums.
proof fn lemma_add_congruent(a: int, b: int, c: int, d: int, p: int)
    requires
        p > 0,
        a % p == c % p,
        b % p == d % p,
    ensures
        (a + b) % p == (c + d) % p,
{
    lemma_add_mod_noop(a, b, p);
    lemma_add_mod_noop(c, d, p);
}

/// The sum of a merged combination is the sum of the sums, modulo `p`.
pub proof fn lemma_sum_merge(a: Seq<Term>, b: Seq<Term>, w: Seq<Option<u64>>, p: int)
    requires
        0 < p <= u64::MAX,
    ensures
        sum(merge(a, b, p), w) % p == (sum(a, w) + sum(b, w)) % p,
        assigned(a, w) && assigned(b, w) ==> assigned(merge(a, b, p), w),
    decreases a.len() + b.len(),
{
    if a.len() == 0 || b.len() == 0 {
    } else {
        let ra = a.drop_first();
        let rb = b.drop_first();
        lemma_assigned_rest(a, w);
        lemma_assigned_rest(b, w);
        if a[0].var.id < b[0].var.id {
            lemma_sum_merge(ra, b, w, p);
            lemma_sum_cons(a[0], merge(ra, b, p), w);
            lemma_add_congruent(
                term_value(a[0], w),
                sum(merge(ra, b, p), w),
                term_value(a[0], w),
                sum(ra, w) + sum(b, w),
                p,
            );
        } else if b[0].var.id < a[0].var.id {
            lemma_sum_merge(a, rb, w, p);
            lemma_sum_cons(b[0], merge(a, rb, p), w);
            lemma_add_congruent(
                term_value(b[0], w),
                sum(merge(a, rb, p), w),
                term_value(b[0], w),
                sum(a, w) + sum(rb, w),
                p,
            );
        } else {
            lemma_sum_merge(ra, rb, w, p);
            let rest = merge(ra, rb, p);
            let c = (a[0].coeff + b[0].coeff) % p;
            let x: int = match value_at(w, a[0].var) {
                Some(x) => x as int,
                None => 0,
            };
            assert(a[0].var == b[0].var);
            assert(term_value(a[0], w) == a[0].coeff * x);
            assert(term_value(b[0], w) == b[0].coeff * x);
            // the merged term is congruent to the two terms together
            lemma_mul_mod_noop_left(a[0].coeff + b[0].coeff, x, p);
            lemma_mod_bound(a[0].coeff + b[0].coeff, p);
            assert((a[0].coeff + b[0].coeff) * x == a[0].coeff * x + b[0].coeff * x)
                by (nonlinear_arith);
            assert((c * x) % p == (term_value(a[0], w) + term_value(b[0], w)) % p);
            if c == 0 {
                assert(c * x == 0) by (nonlinear_arith)
                    requires
                        c == 0,
                ;
                lemma_add_congruent(
                    0,
                    sum(rest, w),
                    term_value(a[0], w) + term_value(b[0], w),
                    sum(ra, w) + sum(rb, w),
                    p,
                );
            } else {
                let y = Term { var: a[0].var, coeff: c as u64 };
                lemma_sum_cons(y, rest, w);
                assert(term_value(y, w) == c * x);
                lemma_add_congruent(
                    c * x,
                    sum(rest, w),
                    term_value(a[0], w) + term_value(b[0], w),
                    sum(ra, w) + sum(rb, w),
                    p,
                );
            }
        }
    }
}

/// The value of a sum is the sum of the values.
pub proof fn lemma_eval_merge(a: Seq<Term>, b: Seq<Term>, w: Seq<Option<u64>>, p: int)
    requires
        0 < p <= u64::MAX,
        eval(a, w, p) is Some,
        eval(b, w, p) is Some,
    ensures
        eval(merge(a, b, p), w, p) == Some(
            ((eval(a, w, p).unwrap() + eval(b, w, p).unwrap()) % p) as u64,
        ),
{
    lemma_sum_merge(a, b, w, p);
    lemma_add_mod_noop(sum(a, w), sum(b, w), p);
    lemma_mod_bound(sum(a, w), p);
    lemma_mod_bound(sum(b, w), p);
}

/// The sum of a multiple is the multiple of the sum, modulo `p`.
pub proof fn lemma_sum_scaled(t: Seq<Term>, c: int, w: Seq<Option<u64>>, p: int)
    requires
        0 < p <= u64::MAX,
    ensures
        sum(scaled(t, c, p), w) % p == (c * sum(t, w)) % p,
        assigned(t, w) ==> assigned(scaled(t, c, p), w),
    decreases t.len(),
{
    if t.len() > 0 {
        let rt = t.drop_first();
        lemma_assigned_rest(t, w);
        lemma_sum_scaled(rt, c, w, p);
        let rest = scaled(rt, c, p);
        let k = (c * t[0].coeff) % p;
        let x: int = match value_at(w, t[0].var) {
            Some(x) => x as int,
            None => 0,
        };
        assert(term_value(t[0], w) == t[0].coeff * x);
        lemma_mul_mod_noop_left(c * t[0].coeff, x, p);
        lemma_mod_bound(c * t[0].coeff, p);
        assert((c * t[0].coeff) * x == c * (t[0].coeff * x)) by (nonlinear_arith);
        assert(c * (t[0].coeff * x + sum(rt, w)) == c * (t[0].coeff * x) + c * sum(rt, w))
            by (nonlinear_arith);
        if k == 0 {
            assert(k * x == 0) by (nonlinear_arith)
                requires
                    k == 0,
            ;
            lemma_add_congruent(0, sum(rest, w), c * (t[0].coeff * x), c * sum(rt, w), p);
        } else {
            let y = Term { var: t[0].var, coeff: k as u64 };
            lemma_sum_cons(y, rest, w);
            assert(term_value(y, w) == k * x);
            lemma_add_congruent(k * x, sum(rest, w), c * (t[0].coeff * x), c * sum(rt, w), p);
        }
    }
}

/// The value of a multiple is the multiple of the value.
pub proof fn lemma_eval_scaled(t: Seq<Term>, c: int, w: Seq<Option<u64>>, p: int)
    requires
        0 < p <= u64::MAX,
        eval(t, w, p) is Some,
    ensures
        eval(scaled(t, c, p), w, p) == Some(((c * eval(t, w, p).unwrap()) % p) as u64),
{
    lemma_sum_scaled(t, c, w, p);
    lemma_mul_mod_noop_right(c, sum(t, w), p);
    lemma_mod_bound(sum(t, w), p);
    lemma_mod_bound(c * sum(t, w), p);
}

/// The value of a constant is the constant, where the variable one holds 1.
pub proof fn lemma_eval_constant(c: int, w: Seq<Option<u64>>, p: int)
    requires
        0 <= c < p <= u64::MAX,
        value_at(w, Variable { id: 0 }) == Some(1u64),
    ensures
        eval(constant_terms(c), w, p) == Some(c as u64),
{
    let t = constant_terms(c);
    if c != 0 {
        assert(t[0] == Term { var: Variable { id: 0 }, coeff: c as u64 });
        assert(t.drop_first() == Seq::<Term>::empty());
        assert(sum(t.drop_first(), w) == 0);
        assert(term_value(t[0], w) == c * 1);
        lemma_small_mod(c as nat, p as nat);
    } else {
        lemma_small_mod(0, p as nat);
    }
}

/// The value of a single variable is what the assignment gives it.
pub proof fn lemma_eval_single(v: Variable, w: Seq<Option<u64>>, p: int)
    requires
        0 < p <= u64::MAX,
        within(w, p),
    ensures
        eval(seq![Term { var: v, coeff: 1 }], w, p) == value_at(w, v),
{
    let t = seq![Term { var: v, coeff: 1 }];
    assert(t[0] == Term { var: v, coeff: 1 });
    assert(t.drop_first() == Seq::<Term>::empty());
    assert(sum(t.drop_first(), w) == 0);
    if value_at(w, v) is Some {
        let x = value_at(w, v).unwrap();
        assert(w[v.id as int] is Some);
        assert(term_value(t[0], w) == 1 * x);
        lemma_small_mod(x as nat, p as nat);
    } else {
        assert(value_at(w, t[0].var) is None);
    }
}

} // verus!

verus! {

/// The combination mentions no variable but the constant one.
pub open spec fn is_constant(t: Seq<Term>) -> bool {
    t.len() == 0 || (t.len() == 1 && t[0].var.id == 0)
}

/// The value of a constant combination.
pub open spec fn constant_value(t: Seq<Term>) -> int {
    if t.len() == 0 {
        0
    } else {
        t[0].coeff as int
    }
}

/// The value of a constant combination, or `None` for any other.
pub fn constant_of(e: &LinComb) -> (r: Option<u64>)
    ensures
        r is Some == is_constant(e@),
        r is Some ==> r.unwrap() == constant_value(e@),
{
    if e.terms.len() == 0 {
        Some(0)
    } else if e.terms.len() == 1 && e.terms[0].var.id == 0 {
        Some(e.terms[0].coeff)
    } else {
        None
    }
}

} // verus!

verus! {

/// The combinations that a vector holds, each by its view.
pub open spec fn replacements(v: Seq<Option<LinComb>>) -> Seq<Option<Seq<Term>>> {
    Seq::new(
        v.len(),
        |i: int|
            match v[i] {
                Some(e) => Some(e@),
                None => None,
            },
    )
}

/// The variable with index `v`, once.
pub open spec fn single(v: int) -> Seq<Term> {
    seq![Term { var: Variable { id: v as usize }, coeff: 1 }]
}

/// The combination times minus one.
pub open spec fn negated(t: Seq<Term>, p: int) -> Seq<Term> {
    scaled(t, p - 1, p)
}

/// The first combination minus the second.
pub open spec fn difference(a: Seq<Term>, b: Seq<Term>, p: int) -> Seq<Term> {
    merge(a, negated(b, p), p)
}

/// One minus the combination.
pub open spec fn complement(t: Seq<Term>, p: int) -> Seq<Term> {
    merge(constant_terms(1), negated(t, p), p)
}

/// The variable one holds 1.
pub open spec fn has_one(w: Seq<Option<u64>>) -> bool {
    value_at(w, Variable { id: 0 }) == Some(1u64)
}

/// Subtracting is adding the negation.
pub proof fn lemma_mod_negation(x: int, y: int, p: int)
    requires
        p > 0,
    ensures
        (x + ((p - 1) * y) % p) % p == (x - y) % p,
{
    assert((p - 1) * y == p * y + (-y)) by (nonlinear_arith);
    lemma_mod_multiples_vanish(y, -y, p);
    lemma_add_mod_noop_right(x, -y, p);
}

/// The value of a difference is the difference of the values.
pub proof fn lemma_eval_difference(a: Seq<Term>, b: Seq<Term>, w: Seq<Option<u64>>, p: int)
    requires
        0 < p <= u64::MAX,
        eval(a, w, p) is Some,
        eval(b, w, p) is Some,
    ensures
        eval(difference(a, b, p), w, p) == Some(
            ((eval(a, w, p).unwrap() - eval(b, w, p).unwrap()) % p) as u64,
        ),
{
    let x = eval(a, w, p).unwrap() as int;
    let y = eval(b, w, p).unwrap() as int;
    lemma_eval_scaled(b, p - 1, w, p);
    lemma_eval_merge(a, negated(b, p), w, p);
    lemma_mod_negation(x, y, p);
    lemma_mod_bound((p - 1) * y, p);
}

/// The value of a complement is one minus the value.
pub proof fn lemma_eval_complement(t: Seq<Term>, w: Seq<Option<u64>>, p: int)
    requires
        2 <= p <= u64::MAX,
        has_one(w),
        eval(t, w, p) is Some,
    ensures
        eval(complement(t, p), w, p) == Some(((1 - eval(t, w, p).unwrap()) % p) as u64),
{
    lemma_eval_constant(1, w, p);
    lemma_eval_difference(constant_terms(1), t, w, p);
}

/// A value that an assignment gives stays when the assignment grows.
pub proof fn lemma_eval_extends(t: Seq<Term>, w: Seq<Option<u64>>, more: Seq<Option<u64>>, p: int)
    requires
        w.len() == more.len(),
        forall|id: int| 0 <= id < w.len() && (#[trigger] w[id]) is Some ==> more[id] == w[id],
        eval(t, w, p) is Some,
    ensures
        eval(t, more, p) == eval(t, w, p),
{
    assert forall|k: int| 0 <= k < t.len() implies value_at(w, (#[trigger] t[k]).var) == value_at(
        more,
        t[k].var,
    ) by {
        assert(value_at(w, t[k].var) is Some);
        assert(w[t[k].var.id as int] is Some);
    }
    lemma_sum_agree(t, w, more);
}

impl LinComb {
    /// The combination of one term.
    pub fn term(x: Term) -> (r: LinComb)
        ensures
            r@ == seq![x],
    {
        let mut terms: Vec<Term> = Vec::new();
        terms.push(x);
        LinComb { terms }
    }

    /// The combination times minus one.
    pub fn negate(&self, field: &Field) -> (r: LinComb)
        requires
            field.wf(),
            canonical(self@, field.modulus as int),
        ensures
            r@ == negated(self@, field.modulus as int),
            canonical(r@, field.modulus as int),
    {
        self.scale(field.modulus - 1, field)
    }

    /// This combination minus `other`.
    pub fn sub(&self, other: &LinComb, field: &Field) -> (r: LinComb)
        requires
            field.wf(),
            canonical(self@, field.modulus as int),
            canonical(other@, field.modulus as int),
        ensures
            r@ == difference(self@, other@, field.modulus as int),
            canonical(r@, field.modulus as int),
    {
        let minus = other.negate(field);
        self.add(&minus, field)
    }

    /// One minus this combination.
    pub fn complement(&self, field: &Field) -> (r: LinComb)
        requires
            field.wf(),
            canonical(self@, field.modulus as int),
        ensures
            r@ == complement(self@, field.modulus as int),
            canonical(r@, field.modulus as int),
    {
        let one = LinComb::constant(1, field);
        proof {
            lemma_small_mod(1, field.modulus as nat);
        }
        one.sub(self, field)
    }
}

/// Sums, multiples and differences of combinations over the variables
/// below `n` are combinations over the variables below `n`.
pub proof fn lemma_arithmetic_vars_below(a: Seq<Term>, b: Seq<Term>, c: int, p: int, n: int)
    requires
        vars_below(a, n),
        vars_below(b, n),
        n > 0,
    ensures
        vars_below(merge(a, b, p), n),
        vars_below(scaled(a, c, p), n),
        vars_below(negated(a, p), n),
        vars_below(difference(a, b, p), n),
        vars_below(complement(a, p), n),
        vars_below(constant_terms(c), n),
{
    lemma_merge_vars_below(a, b, p, n);
    lemma_scaled_vars_below(a, c, p, n);
    lemma_scaled_vars_below(a, p - 1, p, n);
    lemma_scaled_vars_below(b, p - 1, p, n);
    lemma_merge_vars_below(a, negated(b, p), p, n);
    lemma_merge_vars_below(constant_terms(1), negated(a, p), p, n);
}

} // verus!
