//! Boolean expression over solids, held as a flat DNF.
//!
//! `clauses` is a list of literals where `+i` (i >= 1) means "inside `solids[i-1]`",
//! `-i` means "outside `solids[i-1]`" and `0` ends a clause; the trailing `0` is
//! required. A clause is the intersection of its literals and the expression is the
//! union of its clauses. An expression with no clause is the empty set.

use vstd::prelude::*;
use crate::common::error::Error;

verus! {

// ==================== Model ====================

/// Whether literal `l` holds for a cell whose membership in solid `k` is `m[k]`.
pub open spec fn lit_holds(l: i64, m: Seq<bool>) -> bool {
    if l > 0 {
        m[l - 1]
    } else {
        !m[-l - 1]
    }
}

/// A clause holds when every literal of it holds.
pub open spec fn clause_holds(c: Seq<i64>, m: Seq<bool>) -> bool {
    forall|j: int| 0 <= j < c.len() ==> lit_holds(#[trigger] c[j], m)
}

/// A clause list holds when some clause of it holds.
pub open spec fn dnf_holds(cs: Seq<Seq<i64>>, m: Seq<bool>) -> bool {
    exists|i: int| 0 <= i < cs.len() && clause_holds(#[trigger] cs[i], m)
}

/// The clause list `[cur]`, or none when `cur` is empty.
pub open spec fn emit(cur: Seq<i64>) -> Seq<Seq<i64>> {
    if cur.len() == 0 {
        seq![]
    } else {
        seq![cur]
    }
}

/// Splits `s` at its zeros, `cur` being the clause read so far; empty clauses drop out.
pub open spec fn split_from(s: Seq<i64>, cur: Seq<i64>) -> Seq<Seq<i64>>
    decreases s.len(),
{
    if s.len() == 0 {
        emit(cur)
    } else if s[0] == 0 {
        emit(cur) + split_from(s.drop_first(), seq![])
    } else {
        split_from(s.drop_first(), cur.push(s[0]))
    }
}

/// The clauses that a flat literal list encodes.
pub open spec fn clauses_of(s: Seq<i64>) -> Seq<Seq<i64>> {
    split_from(s, seq![])
}

/// The flat, 0-terminated encoding of a clause list.
pub open spec fn flat(cs: Seq<Seq<i64>>) -> Seq<i64>
    decreases cs.len(),
{
    if cs.len() == 0 {
        seq![]
    } else {
        flat(cs.drop_last()) + cs.last().push(0)
    }
}

/// `l` names one of `n` solids, inside or outside.
pub open spec fn lit_in_range(l: i64, n: int) -> bool {
    (1 <= l <= n) || (-n <= l <= -1)
}

/// Every literal of `s` is a terminator or names one of `n` solids.
pub open spec fn lits_in_range(s: Seq<i64>, n: int) -> bool {
    forall|k: int| 0 <= k < s.len() ==> #[trigger] s[k] == 0 || lit_in_range(s[k], n)
}

/// Every clause is non-empty and names only solids among `n`.
pub open spec fn clauses_in_range(cs: Seq<Seq<i64>>, n: int) -> bool {
    forall|i: int| #![trigger cs[i]] 0 <= i < cs.len() ==> cs[i].len() > 0 && (forall|j: int|
        0 <= j < cs[i].len() ==> lit_in_range(#[trigger] cs[i][j], n))
}

/// `l` moved past `k` more solids, sign kept; terminators stay.
pub open spec fn shift_lit(l: i64, k: int) -> i64 {
    if l == 0 {
        0
    } else if l > 0 {
        (l + k) as i64
    } else {
        (l - k) as i64
    }
}

pub open spec fn shifted(s: Seq<i64>, k: int) -> Seq<i64> {
    s.map_values(|l: i64| shift_lit(l, k))
}

pub open spec fn shifted_all(cs: Seq<Seq<i64>>, k: int) -> Seq<Seq<i64>> {
    cs.map_values(|c: Seq<i64>| shifted(c, k))
}

/// Each clause of `a` joined with each clause of `b`, `a`-major.
pub open spec fn product(a: Seq<Seq<i64>>, b: Seq<Seq<i64>>) -> Seq<Seq<i64>>
    decreases a.len(),
{
    if a.len() == 0 {
        seq![]
    } else {
        product(a.drop_last(), b) + b.map_values(|y: Seq<i64>| a.last() + y)
    }
}


/// Every clause is non-empty and free of terminators.
pub open spec fn clauses_nonzero(cs: Seq<Seq<i64>>) -> bool {
    forall|i: int| #![trigger cs[i]] 0 <= i < cs.len() ==> cs[i].len() > 0 && (forall|j: int|
        0 <= j < cs[i].len() ==> #[trigger] cs[i][j] != 0)
}

// ==================== Lemmas on the encoding ====================

/// Splitting a terminated prefix and the rest separately gives the same clauses.
pub proof fn lemma_split_concat(x: Seq<i64>, y: Seq<i64>, cur: Seq<i64>)
    requires
        x.len() > 0,
        x.last() == 0,
    ensures
        split_from(x + y, cur) == split_from(x, cur) + split_from(y, seq![]),
    decreases x.len(),
{
    assert((x + y).drop_first() =~= x.drop_first() + y);
    assert((x + y)[0] == x[0]);
    if x.len() == 1 {
        assert(x.drop_first() =~= Seq::<i64>::empty());
        assert(x.drop_first() + y =~= y);
        assert(split_from(x.drop_first(), seq![]) =~= Seq::<Seq<i64>>::empty());
        assert(split_from(x, cur) =~= emit(cur));
        assert(split_from(x + y, cur) =~= emit(cur) + split_from(y, seq![]));
    } else {
        assert(x.drop_first().last() == x.last());
        if x[0] == 0 {
            lemma_split_concat(x.drop_first(), y, seq![]);
            assert(split_from(x + y, cur) =~= emit(cur) + (split_from(x.drop_first(), seq![])
                + split_from(y, seq![])));
        } else {
            lemma_split_concat(x.drop_first(), y, cur.push(x[0]));
        }
    }
}

/// A zero-free clause followed by its terminator splits into itself.
pub proof fn lemma_split_one(c: Seq<i64>, cur: Seq<i64>)
    requires
        forall|j: int| 0 <= j < c.len() ==> #[trigger] c[j] != 0,
    ensures
        split_from(c.push(0), cur) == emit(cur + c),
    decreases c.len(),
{
    if c.len() == 0 {
        assert(c.push(0).drop_first() =~= Seq::<i64>::empty());
        assert(cur + c =~= cur);
        assert(split_from(c.push(0).drop_first(), seq![]) =~= Seq::<Seq<i64>>::empty());
        assert(split_from(c.push(0), cur) =~= emit(cur));
    } else {
        assert(c.push(0).drop_first() =~= c.drop_first().push(0));
        assert(c.push(0)[0] == c[0]);
        assert forall|j: int| 0 <= j < c.drop_first().len() implies #[trigger] c.drop_first()[j]
            != 0 by {
            assert(c.drop_first()[j] == c[j + 1]);
        }
        lemma_split_one(c.drop_first(), cur.push(c[0]));
        assert(cur.push(c[0]) + c.drop_first() =~= cur + c);
    }
}

/// A non-empty flat encoding ends with a terminator.
pub proof fn lemma_flat_last(cs: Seq<Seq<i64>>)
    requires
        cs.len() > 0,
    ensures
        flat(cs).len() > 0,
        flat(cs).last() == 0,
{
}

/// The flat encoding of a concatenation is the concatenation of the encodings.
pub proof fn lemma_flat_concat(a: Seq<Seq<i64>>, b: Seq<Seq<i64>>)
    ensures
        flat(a + b) == flat(a) + flat(b),
    decreases b.len(),
{
    if b.len() == 0 {
        assert(a + b =~= a);
        assert(flat(b) =~= Seq::<i64>::empty());
        assert(flat(a) + flat(b) =~= flat(a));
    } else {
        assert((a + b).drop_last() =~= a + b.drop_last());
        assert((a + b).last() == b.last());
        lemma_flat_concat(a, b.drop_last());
        assert(flat(a + b) =~= flat(a) + flat(b));
    }
}

/// Decoding the flat encoding of non-empty, zero-free clauses gives them back.
pub proof fn lemma_split_flat(cs: Seq<Seq<i64>>)
    requires
        clauses_nonzero(cs),
    ensures
        clauses_of(flat(cs)) == cs,
    decreases cs.len(),
{
    if cs.len() == 0 {
        assert(clauses_of(flat(cs)) =~= cs);
    } else {
        let init = cs.drop_last();
        let c = cs.last();
        assert(clauses_nonzero(init)) by {
            assert forall|i: int| #![trigger init[i]] 0 <= i < init.len() implies init[i].len()
                > 0 && (forall|j: int| 0 <= j < init[i].len() ==> #[trigger] init[i][j] != 0) by {
                assert(init[i] == cs[i]);
            }
        }
        lemma_split_flat(init);
        assert(forall|j: int| 0 <= j < c.len() ==> #[trigger] c[j] != 0) by {
            assert(c == cs[cs.len() - 1]);
        }
        lemma_split_one(c, seq![]);
        assert(Seq::<i64>::empty() + c =~= c);
        if init.len() == 0 {
            assert(flat(init) =~= Seq::<i64>::empty());
            assert(flat(cs) =~= c.push(0));
            assert(cs =~= seq![c]);
        } else {
            lemma_flat_last(init);
            lemma_split_concat(flat(init), c.push(0), seq![]);
            assert(cs =~= init + seq![c]);
        }
    }
}

/// Shifting literals commutes with splitting.
pub proof fn lemma_split_shift(s: Seq<i64>, cur: Seq<i64>, n: int, k: int)
    requires
        0 <= k,
        n + k <= i64::MAX,
        lits_in_range(s, n),
        forall|j: int| 0 <= j < cur.len() ==> lit_in_range(#[trigger] cur[j], n),
    ensures
        split_from(shifted(s, k), shifted(cur, k)) == shifted_all(split_from(s, cur), k),
    decreases s.len(),
{
    if s.len() == 0 {
        assert(shifted(s, k) =~= Seq::<i64>::empty());
        if cur.len() == 0 {
            assert(shifted(cur, k) =~= Seq::<i64>::empty());
            assert(shifted_all(split_from(s, cur), k) =~= Seq::<Seq<i64>>::empty());
        } else {
            assert(shifted_all(split_from(s, cur), k) =~= seq![shifted(cur, k)]);
        }
    } else {
        assert(shifted(s, k).drop_first() =~= shifted(s.drop_first(), k));
        assert(shifted(s, k)[0] == shift_lit(s[0], k));
        assert(lits_in_range(s.drop_first(), n)) by {
            assert forall|j: int| 0 <= j < s.drop_first().len() implies #[trigger] s.drop_first()[j]
                == 0 || lit_in_range(s.drop_first()[j], n) by {
                assert(s.drop_first()[j] == s[j + 1]);
            }
        }
        assert(s[0] == 0 || lit_in_range(s[0], n)) by {
            assert(s[0] == s[0]);
        }
        if s[0] == 0 {
            assert(shifted(Seq::<i64>::empty(), k) =~= Seq::<i64>::empty());
            lemma_split_shift(s.drop_first(), seq![], n, k);
            let e = emit(cur);
            let r = split_from(s.drop_first(), seq![]);
            assert(shifted_all(e + r, k) =~= shifted_all(e, k) + shifted_all(r, k));
            if cur.len() == 0 {
                assert(shifted(cur, k) =~= Seq::<i64>::empty());
                assert(shifted_all(e, k) =~= Seq::<Seq<i64>>::empty());
            } else {
                assert(shifted_all(e, k) =~= seq![shifted(cur, k)]);
            }
        } else {
            assert(shifted(cur, k).push(shift_lit(s[0], k)) =~= shifted(cur.push(s[0]), k));
            lemma_split_shift(s.drop_first(), cur.push(s[0]), n, k);
        }
    }
}

/// Every clause split out of in-range literals is non-empty and in range.
pub proof fn lemma_split_in_range(s: Seq<i64>, cur: Seq<i64>, n: int)
    requires
        lits_in_range(s, n),
        forall|j: int| 0 <= j < cur.len() ==> lit_in_range(#[trigger] cur[j], n),
    ensures
        clauses_in_range(split_from(s, cur), n),
    decreases s.len(),
{
    if s.len() > 0 {
        assert(lits_in_range(s.drop_first(), n)) by {
            assert forall|j: int| 0 <= j < s.drop_first().len() implies #[trigger] s.drop_first()[j]
                == 0 || lit_in_range(s.drop_first()[j], n) by {
                assert(s.drop_first()[j] == s[j + 1]);
            }
        }
        assert(s[0] == 0 || lit_in_range(s[0], n)) by {
            assert(s[0] == s[0]);
        }
        if s[0] == 0 {
            lemma_split_in_range(s.drop_first(), seq![], n);
            let e = emit(cur);
            let r = split_from(s.drop_first(), seq![]);
            assert forall|i: int| #![trigger (e + r)[i]] 0 <= i < (e + r).len() implies (e
                + r)[i].len() > 0 && (forall|j: int|
                0 <= j < (e + r)[i].len() ==> lit_in_range(#[trigger] (e + r)[i][j], n)) by {
                if i < e.len() {
                    assert((e + r)[i] == cur);
                } else {
                    assert((e + r)[i] == r[i - e.len()]);
                }
            }
        } else {
            lemma_split_in_range(s.drop_first(), cur.push(s[0]), n);
        }
    }
}


// ==================== Lemmas on the meaning ====================

/// A clause list joined to another holds when either holds.
pub proof fn lemma_holds_concat(a: Seq<Seq<i64>>, b: Seq<Seq<i64>>, m: Seq<bool>)
    ensures
        dnf_holds(a + b, m) == (dnf_holds(a, m) || dnf_holds(b, m)),
{
    if dnf_holds(a, m) {
        let i = choose|i: int| 0 <= i < a.len() && clause_holds(#[trigger] a[i], m);
        assert((a + b)[i] == a[i]);
    }
    if dnf_holds(b, m) {
        let i = choose|i: int| 0 <= i < b.len() && clause_holds(#[trigger] b[i], m);
        assert((a + b)[a.len() + i] == b[i]);
    }
    if dnf_holds(a + b, m) {
        let i = choose|i: int| 0 <= i < (a + b).len() && clause_holds(#[trigger] (a + b)[i], m);
        if i < a.len() {
            assert((a + b)[i] == a[i]);
        } else {
            assert((a + b)[i] == b[i - a.len()]);
        }
    }
}

/// A joined clause holds when both parts hold.
pub proof fn lemma_clause_concat(x: Seq<i64>, y: Seq<i64>, m: Seq<bool>)
    ensures
        clause_holds(x + y, m) == (clause_holds(x, m) && clause_holds(y, m)),
{
    if clause_holds(x + y, m) {
        assert forall|j: int| 0 <= j < x.len() implies lit_holds(#[trigger] x[j], m) by {
            assert((x + y)[j] == x[j]);
        }
        assert forall|j: int| 0 <= j < y.len() implies lit_holds(#[trigger] y[j], m) by {
            assert((x + y)[x.len() + j] == y[j]);
        }
    }
    if clause_holds(x, m) && clause_holds(y, m) {
        assert forall|j: int| 0 <= j < (x + y).len() implies lit_holds(#[trigger] (x + y)[j], m) by {
            if j < x.len() {
                assert((x + y)[j] == x[j]);
            } else {
                assert((x + y)[j] == y[j - x.len()]);
            }
        }
    }
}

/// The product of two clause lists holds when both hold.
pub proof fn lemma_holds_product(a: Seq<Seq<i64>>, b: Seq<Seq<i64>>, m: Seq<bool>)
    ensures
        dnf_holds(product(a, b), m) == (dnf_holds(a, m) && dnf_holds(b, m)),
    decreases a.len(),
{
    if a.len() == 0 {
        assert(product(a, b) =~= Seq::<Seq<i64>>::empty());
    } else {
        let init = a.drop_last();
        let x = a.last();
        let row = b.map_values(|y: Seq<i64>| x + y);
        lemma_holds_product(init, b, m);
        lemma_holds_concat(product(init, b), row, m);
        // the last row holds iff x holds and b holds
        if dnf_holds(row, m) {
            let j = choose|j: int| 0 <= j < row.len() && clause_holds(#[trigger] row[j], m);
            lemma_clause_concat(x, b[j], m);
        }
        if clause_holds(x, m) && dnf_holds(b, m) {
            let j = choose|j: int| 0 <= j < b.len() && clause_holds(#[trigger] b[j], m);
            lemma_clause_concat(x, b[j], m);
            assert(row[j] == x + b[j]);
        }
        // a holds iff init holds or x holds
        if dnf_holds(a, m) {
            let i = choose|i: int| 0 <= i < a.len() && clause_holds(#[trigger] a[i], m);
            if i < init.len() {
                assert(init[i] == a[i]);
            }
        }
        if dnf_holds(init, m) {
            let i = choose|i: int| 0 <= i < init.len() && clause_holds(#[trigger] init[i], m);
            assert(a[i] == init[i]);
        }
        if clause_holds(x, m) {
            assert(a[a.len() - 1] == x);
        }
    }
}

/// A literal over the first `na` solids reads the same membership in `ma + mb`.
pub proof fn lemma_lit_left(l: i64, ma: Seq<bool>, mb: Seq<bool>)
    requires
        lit_in_range(l, ma.len() as int),
    ensures
        lit_holds(l, ma + mb) == lit_holds(l, ma),
{
}

/// A literal over `mb`, shifted past `ma`, reads the same membership in `ma + mb`.
pub proof fn lemma_lit_right(l: i64, ma: Seq<bool>, mb: Seq<bool>)
    requires
        lit_in_range(l, mb.len() as int),
        ma.len() + mb.len() <= i64::MAX,
    ensures
        lit_holds(shift_lit(l, ma.len() as int), ma + mb) == lit_holds(l, mb),
{
}

/// Clauses over the first solids keep their meaning when more solids follow.
pub proof fn lemma_holds_left(cs: Seq<Seq<i64>>, ma: Seq<bool>, mb: Seq<bool>)
    requires
        clauses_in_range(cs, ma.len() as int),
    ensures
        dnf_holds(cs, ma + mb) == dnf_holds(cs, ma),
{
    assert forall|i: int| 0 <= i < cs.len() implies clause_holds(#[trigger] cs[i], ma + mb)
        == clause_holds(cs[i], ma) by {
        assert forall|j: int| 0 <= j < cs[i].len() implies lit_holds(#[trigger] cs[i][j], ma + mb)
            == lit_holds(cs[i][j], ma) by {
            lemma_lit_left(cs[i][j], ma, mb);
        }
    }
    if dnf_holds(cs, ma) {
        let i = choose|i: int| 0 <= i < cs.len() && clause_holds(#[trigger] cs[i], ma);
        assert(clause_holds(cs[i], ma + mb));
    }
}

/// Clauses over later solids, shifted past the first ones, keep their meaning.
pub proof fn lemma_holds_right(cs: Seq<Seq<i64>>, ma: Seq<bool>, mb: Seq<bool>)
    requires
        clauses_in_range(cs, mb.len() as int),
        ma.len() + mb.len() <= i64::MAX,
    ensures
        dnf_holds(shifted_all(cs, ma.len() as int), ma + mb) == dnf_holds(cs, mb),
{
    let k = ma.len() as int;
    let sc = shifted_all(cs, k);
    assert forall|i: int| 0 <= i < cs.len() implies clause_holds(#[trigger] sc[i], ma + mb)
        == clause_holds(cs[i], mb) by {
        assert(sc[i] == shifted(cs[i], k));
        assert(sc[i].len() == cs[i].len());
        assert forall|j: int| 0 <= j < cs[i].len() implies lit_holds(#[trigger] sc[i][j], ma + mb)
            == lit_holds(cs[i][j], mb) by {
            assert(sc[i][j] == shift_lit(cs[i][j], k));
            lemma_lit_right(cs[i][j], ma, mb);
        }
        if clause_holds(cs[i], mb) {
            assert forall|j: int| 0 <= j < sc[i].len() implies lit_holds(#[trigger] sc[i][j], ma
                + mb) by {
                assert(lit_holds(cs[i][j], mb));
            }
        }
        if clause_holds(sc[i], ma + mb) {
            assert forall|j: int| 0 <= j < cs[i].len() implies lit_holds(#[trigger] cs[i][j], mb) by {
                assert(lit_holds(sc[i][j], ma + mb));
            }
        }
    }
    if dnf_holds(cs, mb) {
        let i = choose|i: int| 0 <= i < cs.len() && clause_holds(#[trigger] cs[i], mb);
        assert(clause_holds(sc[i], ma + mb));
    }
    if dnf_holds(sc, ma + mb) {
        let i = choose|i: int| 0 <= i < sc.len() && clause_holds(#[trigger] sc[i], ma + mb);
        assert(clause_holds(cs[i], mb));
    }
}


// ==================== The expression ====================

/// A boolean expression over `solids`, as a flat DNF (see the module doc).
pub struct Boolean<S> {
    pub(crate) solids: Vec<S>,
    pub(crate) clauses: Vec<i64>,
}

/// The clauses of a list of vectors, read as sequences.
pub open spec fn vecs_view(v: Seq<Vec<i64>>) -> Seq<Seq<i64>> {
    v.map_values(|c: Vec<i64>| c@)
}

impl<S> Boolean<S> {
    /// The solids, in literal order.
    pub closed spec fn solid_seq(&self) -> Seq<S> {
        self.solids@
    }

    /// The flat literal list.
    pub closed spec fn lits(&self) -> Seq<i64> {
        self.clauses@
    }

    /// Number of solids the expression refers to.
    pub open spec fn arity(&self) -> int {
        self.solid_seq().len() as int
    }

    /// The clauses the expression is made of.
    pub open spec fn clause_list(&self) -> Seq<Seq<i64>> {
        clauses_of(self.lits())
    }

    /// Whether a cell with membership `m` in the solids (one flag per solid) is in the result.
    pub open spec fn holds(&self, m: Seq<bool>) -> bool {
        dnf_holds(self.clause_list(), m)
    }

    /// Every literal names one of the solids and the list ends with a terminator.
    pub open spec fn wf(&self) -> bool {
        &&& lits_in_range(self.lits(), self.arity())
        &&& (self.lits().len() == 0 || self.lits().last() == 0)
        &&& self.arity() <= i64::MAX
    }

    /// Assembles an expression from solids and a flat clause list.
    pub fn from_parts(solids: Vec<S>, clauses: Vec<i64>) -> (r: Self)
        ensures
            r.solid_seq() == solids@,
            r.lits() == clauses@,
    {
        Boolean { solids, clauses }
    }

    /// The solids the literals refer to.
    pub fn solids(&self) -> (r: &[S])
        ensures
            r@ == self.solid_seq(),
    {
        self.solids.as_slice()
    }

    /// The flat, 0-terminated clause list.
    pub fn clauses(&self) -> (r: &[i64])
        ensures
            r@ == self.lits(),
    {
        self.clauses.as_slice()
    }
}

/// Reads the clauses out of a flat literal list.
pub fn split_clauses(s: &[i64]) -> (r: Vec<Vec<i64>>)
    ensures
        vecs_view(r@) == clauses_of(s@),
{
    let mut out: Vec<Vec<i64>> = Vec::new();
    let mut cur: Vec<i64> = Vec::new();
    let mut i: usize = 0;
    proof {
        assert(s@.skip(0) =~= s@);
        assert(vecs_view(out@) =~= Seq::<Seq<i64>>::empty());
        assert(Seq::<Seq<i64>>::empty() + split_from(s@, seq![]) =~= split_from(s@, seq![]));
    }
    while i < s.len()
        invariant
            i <= s.len(),
            vecs_view(out@) + split_from(s@.skip(i as int), cur@) == split_from(s@, seq![]),
        decreases s.len() - i,
    {
        let ghost before = vecs_view(out@);
        let ghost c = cur@;
        proof {
            assert(s@.skip(i as int).drop_first() =~= s@.skip(i + 1));
            assert(s@.skip(i as int)[0] == s[i as int]);
        }
        if s[i] == 0 {
            if cur.len() > 0 {
                out.push(cur);
                proof {
                    assert(vecs_view(out@) =~= before + seq![c]);
                }
            } else {
                proof {
                    assert(emit(c) =~= Seq::<Seq<i64>>::empty());
                    assert(vecs_view(out@) =~= before + emit(c));
                }
            }
            cur = Vec::new();
            proof {
                assert(cur@ =~= Seq::<i64>::empty());
                assert(vecs_view(out@) =~= before + emit(c));
                assert(split_from(s@.skip(i as int), c) == emit(c) + split_from(s@.skip(i + 1),
                    seq![]));
                assert(vecs_view(out@) + split_from(s@.skip(i + 1), cur@) =~= before
                    + split_from(s@.skip(i as int), c));
            }
        } else {
            cur.push(s[i]);
        }
        i += 1;
    }
    proof {
        assert(s@.skip(i as int) =~= Seq::<i64>::empty());
    }
    if cur.len() > 0 {
        let ghost before = vecs_view(out@);
        let ghost c = cur@;
        out.push(cur);
        proof {
            assert(vecs_view(out@) =~= before + seq![c]);
        }
    } else {
        proof {
            assert(vecs_view(out@) =~= vecs_view(out@) + emit(cur@));
        }
    }
    out
}

/// Appends `src` to `out`.
fn append_all(out: &mut Vec<i64>, src: &Vec<i64>)
    ensures
        final(out)@ == old(out)@ + src@,
{
    let mut i: usize = 0;
    while i < src.len()
        invariant
            i <= src.len(),
            out@ == old(out)@ + src@.take(i as int),
        decreases src.len() - i,
    {
        proof {
            assert(src@.take(i + 1) =~= src@.take(i as int).push(src@[i as int]));
        }
        out.push(src[i]);
        i += 1;
    }
    proof {
        assert(src@.take(src.len() as int) =~= src@);
    }
}

/// Every clause of `cs` moved past `k` more solids.
fn shift_clauses(cs: &Vec<Vec<i64>>, k: i64, n: Ghost<int>) -> (r: Vec<Vec<i64>>)
    requires
        0 <= k,
        n@ + k <= i64::MAX,
        clauses_in_range(vecs_view(cs@), n@),
    ensures
        vecs_view(r@) == shifted_all(vecs_view(cs@), k as int),
{
    let mut r: Vec<Vec<i64>> = Vec::new();
    let mut i: usize = 0;
    while i < cs.len()
        invariant
            i <= cs.len(),
            0 <= k,
            n@ + k <= i64::MAX,
            clauses_in_range(vecs_view(cs@), n@),
            vecs_view(r@) == shifted_all(vecs_view(cs@).take(i as int), k as int),
        decreases cs.len() - i,
    {
        let c = &cs[i];
        assert(vecs_view(cs@)[i as int] == c@);
        let mut d: Vec<i64> = Vec::new();
        let mut j: usize = 0;
        while j < c.len()
            invariant
                j <= c.len(),
                0 <= k,
                n@ + k <= i64::MAX,
                forall|t: int| 0 <= t < c@.len() ==> lit_in_range(#[trigger] c@[t], n@),
                d@ == shifted(c@.take(j as int), k as int),
            decreases c.len() - j,
        {
            let l = c[j];
            assert(lit_in_range(c@[j as int], n@));
            let v = if l > 0 {
                l + k
            } else {
                l - k
            };
            proof {
                assert(shifted(c@.take(j + 1), k as int) =~= shifted(c@.take(j as int), k as int).push(
                    shift_lit(l, k as int),
                ));
            }
            d.push(v);
            j += 1;
        }
        let ghost before = vecs_view(r@);
        proof {
            assert(c@.take(c.len() as int) =~= c@);
        }
        r.push(d);
        proof {
            assert(vecs_view(r@) =~= before.push(shifted(c@, k as int)));
            assert(vecs_view(cs@).take(i + 1) =~= vecs_view(cs@).take(i as int).push(c@));
            assert(shifted_all(vecs_view(cs@).take(i + 1), k as int) =~= shifted_all(
                vecs_view(cs@).take(i as int),
                k as int,
            ).push(shifted(c@, k as int)));
        }
        i += 1;
    }
    proof {
        assert(vecs_view(cs@).take(cs.len() as int) =~= vecs_view(cs@));
    }
    r
}

/// Clauses in range for fewer solids stay in range for more.
pub proof fn lemma_in_range_widen(cs: Seq<Seq<i64>>, n: int, n2: int)
    requires
        clauses_in_range(cs, n),
        n <= n2,
    ensures
        clauses_in_range(cs, n2),
{
}

/// Shifting clauses over `nb` solids past `k` gives clauses over `k + nb` solids.
pub proof fn lemma_shift_in_range(cs: Seq<Seq<i64>>, nb: int, k: int)
    requires
        clauses_in_range(cs, nb),
        0 <= k,
        k + nb <= i64::MAX,
    ensures
        clauses_in_range(shifted_all(cs, k), k + nb),
{
    let sc = shifted_all(cs, k);
    assert forall|i: int| #![trigger sc[i]] 0 <= i < sc.len() implies sc[i].len() > 0 && (forall|
        j: int,
    | 0 <= j < sc[i].len() ==> lit_in_range(#[trigger] sc[i][j], k + nb)) by {
        assert(sc[i] == shifted(cs[i], k));
        assert forall|j: int| 0 <= j < sc[i].len() implies lit_in_range(#[trigger] sc[i][j], k
            + nb) by {
            assert(sc[i][j] == shift_lit(cs[i][j], k));
            assert(lit_in_range(cs[i][j], nb));
        }
    }
}

/// Joining in-range clauses pairwise keeps them in range.
pub proof fn lemma_product_in_range(a: Seq<Seq<i64>>, b: Seq<Seq<i64>>, n: int)
    requires
        clauses_in_range(a, n),
        clauses_in_range(b, n),
    ensures
        clauses_in_range(product(a, b), n),
    decreases a.len(),
{
    if a.len() > 0 {
        let init = a.drop_last();
        let x = a.last();
        let row = b.map_values(|y: Seq<i64>| x + y);
        assert(clauses_in_range(init, n)) by {
            assert forall|i: int| #![trigger init[i]] 0 <= i < init.len() implies init[i].len() > 0
                && (forall|j: int| 0 <= j < init[i].len() ==> lit_in_range(#[trigger] init[i][j], n)) by {
                assert(init[i] == a[i]);
            }
        }
        lemma_product_in_range(init, b, n);
        assert(x == a[a.len() - 1]);
        let p = product(init, b);
        let q = p + row;
        assert forall|i: int| #![trigger q[i]] 0 <= i < q.len() implies q[i].len() > 0 && (forall|
            j: int,
        | 0 <= j < q[i].len() ==> lit_in_range(#[trigger] q[i][j], n)) by {
            if i < p.len() {
                assert(q[i] == p[i]);
            } else {
                let t = i - p.len();
                assert(q[i] == x + b[t]);
                assert forall|j: int| 0 <= j < q[i].len() implies lit_in_range(#[trigger] q[i][j],
                    n) by {
                    if j < x.len() {
                        assert(q[i][j] == x[j]);
                    } else {
                        assert(q[i][j] == b[t][j - x.len()]);
                    }
                }
            }
        }
    }
}

/// The flat encoding of in-range clauses has only terminators and in-range literals.
pub proof fn lemma_flat_in_range(cs: Seq<Seq<i64>>, n: int)
    requires
        clauses_in_range(cs, n),
    ensures
        lits_in_range(flat(cs), n),
    decreases cs.len(),
{
    if cs.len() > 0 {
        let init = cs.drop_last();
        let c = cs.last();
        assert(clauses_in_range(init, n)) by {
            assert forall|i: int| #![trigger init[i]] 0 <= i < init.len() implies init[i].len() > 0
                && (forall|j: int| 0 <= j < init[i].len() ==> lit_in_range(#[trigger] init[i][j], n)) by {
                assert(init[i] == cs[i]);
            }
        }
        lemma_flat_in_range(init, n);
        assert(c == cs[cs.len() - 1]);
        let f = flat(init);
        let g = c.push(0);
        assert forall|k: int| 0 <= k < (f + g).len() implies #[trigger] (f + g)[k] == 0
            || lit_in_range((f + g)[k], n) by {
            if k < f.len() {
                assert((f + g)[k] == f[k]);
            } else if k < f.len() + c.len() {
                assert((f + g)[k] == c[k - f.len()]);
            } else {
                assert((f + g)[k] == 0);
            }
        }
    }
}

/// In-range clauses are non-empty and free of terminators.
pub proof fn lemma_in_range_nonzero(cs: Seq<Seq<i64>>, n: int)
    requires
        clauses_in_range(cs, n),
    ensures
        clauses_nonzero(cs),
{
    assert forall|i: int| #![trigger cs[i]] 0 <= i < cs.len() implies cs[i].len() > 0 && (forall|
        j: int,
    | 0 <= j < cs[i].len() ==> #[trigger] cs[i][j] != 0) by {
        assert forall|j: int| 0 <= j < cs[i].len() implies #[trigger] cs[i][j] != 0 by {
            assert(lit_in_range(cs[i][j], n));
        }
    }
}

/// The flat encoding of the product of `a` and `b`, `a`-major.
fn flat_product(a: &Vec<Vec<i64>>, b: &Vec<Vec<i64>>) -> (r: Vec<i64>)
    ensures
        r@ == flat(product(vecs_view(a@), vecs_view(b@))),
{
    let ghost va = vecs_view(a@);
    let ghost vb = vecs_view(b@);
    let mut out: Vec<i64> = Vec::new();
    let mut i: usize = 0;
    proof {
        assert(va.take(0) =~= Seq::<Seq<i64>>::empty());
        assert(product(va.take(0), vb) =~= Seq::<Seq<i64>>::empty());
    }
    while i < a.len()
        invariant
            i <= a.len(),
            va == vecs_view(a@),
            vb == vecs_view(b@),
            out@ == flat(product(va.take(i as int), vb)),
        decreases a.len() - i,
    {
        let ghost xi = va[i as int];
        let ghost row = vb.map_values(|y: Seq<i64>| xi + y);
        let mut j: usize = 0;
        proof {
            assert(vb.take(0).map_values(|y: Seq<i64>| xi + y) =~= Seq::<Seq<i64>>::empty());
            assert(product(va.take(i as int), vb) + vb.take(0).map_values(|y: Seq<i64>| xi + y)
                =~= product(va.take(i as int), vb));
        }
        while j < b.len()
            invariant
                i < a.len(),
                j <= b.len(),
                va == vecs_view(a@),
                vb == vecs_view(b@),
                xi == va[i as int],
                out@ == flat(product(va.take(i as int), vb) + vb.take(j as int).map_values(
                    |y: Seq<i64>| xi + y,
                )),
            decreases b.len() - j,
        {
            let ghost p = product(va.take(i as int), vb) + vb.take(j as int).map_values(
                |y: Seq<i64>| xi + y,
            );
            let ghost c = xi + vb[j as int];
            assert(a@[i as int]@ == xi);
            assert(b@[j as int]@ == vb[j as int]);
            append_all(&mut out, &a[i]);
            append_all(&mut out, &b[j]);
            out.push(0);
            proof {
                let p2 = product(va.take(i as int), vb) + vb.take(j + 1).map_values(
                    |y: Seq<i64>| xi + y,
                );
                assert(vb.take(j + 1).map_values(|y: Seq<i64>| xi + y) =~= vb.take(
                    j as int,
                ).map_values(|y: Seq<i64>| xi + y).push(c));
                assert(p2 =~= p.push(c));
                assert(p2.drop_last() =~= p);
                assert(out@ =~= flat(p) + c.push(0));
            }
            j += 1;
        }
        proof {
            assert(vb.take(b.len() as int) =~= vb);
            assert(va.take(i + 1).drop_last() =~= va.take(i as int));
            assert(va.take(i + 1).last() == xi);
        }
        i += 1;
    }
    proof {
        assert(va.take(a.len() as int) =~= va);
    }
    out
}

/// The literal for the other side of the same solid.
pub open spec fn neg_lit(l: i64) -> i64 {
    (-l) as i64
}

/// `acc` extended by one more choice: each partial clause followed, in turn, by the
/// negation of each literal of `c`, `acc`-major.
pub open spec fn extend_choices(acc: Seq<Seq<i64>>, c: Seq<i64>) -> Seq<Seq<i64>>
    decreases acc.len(),
{
    if acc.len() == 0 {
        seq![]
    } else {
        extend_choices(acc.drop_last(), c) + c.map_values(|l: i64| acc.last().push(neg_lit(l)))
    }
}

/// The clauses of `¬(c1 ∨ c2 ∨ …)`: one negated literal picked from each `ci`, in order.
pub open spec fn choices(cs: Seq<Seq<i64>>) -> Seq<Seq<i64>>
    decreases cs.len(),
{
    if cs.len() == 0 {
        seq![seq![]]
    } else {
        extend_choices(choices(cs.drop_last()), cs.last())
    }
}

/// A negated literal holds exactly when the literal does not.
pub proof fn lemma_lit_negate(l: i64, m: Seq<bool>)
    requires
        l != 0,
        l != i64::MIN,
    ensures
        lit_holds(neg_lit(l), m) == !lit_holds(l, m),
{
}

/// One more choice holds when the partial clauses held and some literal of `c` fails.
pub proof fn lemma_holds_extend(acc: Seq<Seq<i64>>, c: Seq<i64>, m: Seq<bool>, n: int)
    requires
        n <= i64::MAX,
        forall|j: int| 0 <= j < c.len() ==> lit_in_range(#[trigger] c[j], n),
    ensures
        dnf_holds(extend_choices(acc, c), m) == (dnf_holds(acc, m) && !clause_holds(c, m)),
    decreases acc.len(),
{
    if acc.len() == 0 {
        assert(extend_choices(acc, c) =~= Seq::<Seq<i64>>::empty());
    } else {
        let init = acc.drop_last();
        let x = acc.last();
        let row = c.map_values(|l: i64| x.push(neg_lit(l)));
        lemma_holds_extend(init, c, m, n);
        lemma_holds_concat(extend_choices(init, c), row, m);
        if dnf_holds(row, m) {
            let j = choose|j: int| 0 <= j < row.len() && clause_holds(#[trigger] row[j], m);
            assert(row[j] == x.push(neg_lit(c[j])));
            assert(lit_in_range(c[j], n));
            lemma_lit_negate(c[j], m);
            assert(row[j][x.len() as int] == neg_lit(c[j]));
            assert(clause_holds(x, m)) by {
                assert forall|t: int| 0 <= t < x.len() implies lit_holds(#[trigger] x[t], m) by {
                    assert(row[j][t] == x[t]);
                }
            }
            assert(!lit_holds(c[j], m));
        }
        if clause_holds(x, m) && !clause_holds(c, m) {
            let j = choose|j: int| 0 <= j < c.len() && !lit_holds(#[trigger] c[j], m);
            assert(lit_in_range(c[j], n));
            lemma_lit_negate(c[j], m);
            assert(row[j] == x.push(neg_lit(c[j])));
            assert forall|t: int| 0 <= t < row[j].len() implies lit_holds(#[trigger] row[j][t], m) by {
                if t < x.len() {
                    assert(row[j][t] == x[t]);
                }
            }
            assert(clause_holds(row[j], m));
        }
        if dnf_holds(acc, m) {
            let i = choose|i: int| 0 <= i < acc.len() && clause_holds(#[trigger] acc[i], m);
            if i < init.len() {
                assert(init[i] == acc[i]);
            }
        }
        if dnf_holds(init, m) {
            let i = choose|i: int| 0 <= i < init.len() && clause_holds(#[trigger] init[i], m);
            assert(acc[i] == init[i]);
        }
        if clause_holds(x, m) {
            assert(acc[acc.len() - 1] == x);
        }
    }
}

/// The choices of a clause list hold exactly when the clause list does not.
pub proof fn lemma_holds_choices(cs: Seq<Seq<i64>>, m: Seq<bool>, n: int)
    requires
        n <= i64::MAX,
        clauses_in_range(cs, n),
    ensures
        dnf_holds(choices(cs), m) == !dnf_holds(cs, m),
    decreases cs.len(),
{
    if cs.len() == 0 {
        let e = Seq::<i64>::empty();
        assert(choices(cs) =~= seq![e]);
        assert(clause_holds(choices(cs)[0], m));
    } else {
        let init = cs.drop_last();
        let c = cs.last();
        assert(clauses_in_range(init, n)) by {
            assert forall|i: int| #![trigger init[i]] 0 <= i < init.len() implies init[i].len() > 0
                && (forall|j: int| 0 <= j < init[i].len() ==> lit_in_range(#[trigger] init[i][j], n)) by {
                assert(init[i] == cs[i]);
            }
        }
        assert(c == cs[cs.len() - 1]);
        lemma_holds_choices(init, m, n);
        lemma_holds_extend(choices(init), c, m, n);
        assert(cs =~= init.push(c));
        lemma_holds_concat(init, seq![c], m);
        assert(init + seq![c] =~= cs);
        if clause_holds(c, m) {
            assert(dnf_holds(seq![c], m)) by {
                assert(seq![c][0] == c);
            }
        }
        if dnf_holds(seq![c], m) {
            let i = choose|i: int| 0 <= i < 1 && clause_holds(#[trigger] seq![c][i], m);
            assert(seq![c][i] == c);
        }
    }
}

/// Every choice over in-range clauses picks one negated literal per clause.
pub proof fn lemma_choices_in_range(cs: Seq<Seq<i64>>, n: int)
    requires
        n <= i64::MAX,
        clauses_in_range(cs, n),
        cs.len() > 0,
    ensures
        clauses_in_range(choices(cs), n),
    decreases cs.len(),
{
    let init = cs.drop_last();
    let c = cs.last();
    assert(c == cs[cs.len() - 1]);
    assert(forall|j: int| 0 <= j < c.len() ==> lit_in_range(#[trigger] c[j], n));
    assert(clauses_in_range(init, n)) by {
        assert forall|i: int| #![trigger init[i]] 0 <= i < init.len() implies init[i].len() > 0
            && (forall|j: int| 0 <= j < init[i].len() ==> lit_in_range(#[trigger] init[i][j], n)) by {
            assert(init[i] == cs[i]);
        }
    }
    let acc = choices(init);
    if init.len() > 0 {
        lemma_choices_in_range(init, n);
    } else {
        assert(acc =~= seq![Seq::<i64>::empty()]);
    }
    lemma_extend_in_range(acc, c, n);
}

/// Choosing over non-empty clauses leaves at least one choice.
pub proof fn lemma_choices_nonempty(cs: Seq<Seq<i64>>, n: int)
    requires
        clauses_in_range(cs, n),
    ensures
        choices(cs).len() > 0,
    decreases cs.len(),
{
    if cs.len() > 0 {
        let init = cs.drop_last();
        assert(clauses_in_range(init, n)) by {
            assert forall|i: int| #![trigger init[i]] 0 <= i < init.len() implies init[i].len() > 0
                && (forall|j: int| 0 <= j < init[i].len() ==> lit_in_range(#[trigger] init[i][j], n)) by {
                assert(init[i] == cs[i]);
            }
        }
        lemma_choices_nonempty(init, n);
        assert(cs.last() == cs[cs.len() - 1]);
        lemma_extend_nonempty(choices(init), cs.last());
    }
}

/// Extending at least one partial clause by a non-empty clause leaves at least one.
pub proof fn lemma_extend_nonempty(acc: Seq<Seq<i64>>, c: Seq<i64>)
    requires
        acc.len() > 0,
        c.len() > 0,
    ensures
        extend_choices(acc, c).len() > 0,
{
    let row = c.map_values(|l: i64| acc.last().push(neg_lit(l)));
    assert(row.len() > 0);
}

/// Extending partial clauses whose literals are in range keeps them in range.
pub proof fn lemma_extend_in_range(acc: Seq<Seq<i64>>, c: Seq<i64>, n: int)
    requires
        n <= i64::MAX,
        forall|i: int, j: int|
            0 <= i < acc.len() && 0 <= j < acc[i].len() ==> lit_in_range(#[trigger] acc[i][j], n),
        forall|j: int| 0 <= j < c.len() ==> lit_in_range(#[trigger] c[j], n),
    ensures
        clauses_in_range(extend_choices(acc, c), n),
    decreases acc.len(),
{
    if acc.len() > 0 {
        let init = acc.drop_last();
        let x = acc.last();
        assert(forall|j: int| 0 <= j < x.len() ==> lit_in_range(#[trigger] x[j], n)) by {
            assert forall|j: int| 0 <= j < x.len() implies lit_in_range(#[trigger] x[j], n) by {
                assert(x[j] == acc[acc.len() - 1][j]);
            }
        }
        assert forall|i: int, j: int| 0 <= i < init.len() && 0 <= j < init[i].len() implies lit_in_range(
            #[trigger] init[i][j],
            n,
        ) by {
            assert(init[i] == acc[i]);
        }
        lemma_extend_in_range(init, c, n);
        let p = extend_choices(init, c);
        let row = c.map_values(|l: i64| x.push(neg_lit(l)));
        let q = p + row;
        assert forall|i: int| #![trigger q[i]] 0 <= i < q.len() implies q[i].len() > 0 && (forall|
            j: int,
        | 0 <= j < q[i].len() ==> lit_in_range(#[trigger] q[i][j], n)) by {
            if i < p.len() {
                assert(q[i] == p[i]);
            } else {
                let t = i - p.len();
                assert(q[i] == x.push(neg_lit(c[t])));
                assert(lit_in_range(c[t], n));
                assert forall|j: int| 0 <= j < q[i].len() implies lit_in_range(#[trigger] q[i][j],
                    n) by {
                    if j < x.len() {
                        assert(q[i][j] == x[j]);
                    } else {
                        assert(q[i][j] == neg_lit(c[t]));
                    }
                }
            }
        }
    }
}

/// Appends the solids of `b` to `a`.
fn append_solids<S>(a: &mut Vec<S>, b: Vec<S>)
    ensures
        final(a)@ == old(a)@ + b@,
{
    let mut b = b;
    a.append(&mut b);
}

impl<S> Boolean<S> {
    /// `a ∪ b`: the clauses of `a`, then those of `b` with their literals moved past
    /// the solids of `a`.
    pub fn dnf_union(a: Self, b: Self) -> (r: Self)
        requires
            a.wf(),
            b.wf(),
            a.arity() + b.arity() <= i64::MAX,
        ensures
            r.wf(),
            r.solid_seq() == a.solid_seq() + b.solid_seq(),
            r.lits() == a.lits() + shifted(b.lits(), a.arity()),
            r.clause_list() == a.clause_list() + shifted_all(b.clause_list(), a.arity()),
            forall|ma: Seq<bool>, mb: Seq<bool>|
                ma.len() == a.arity() && mb.len() == b.arity() ==> #[trigger] r.holds(ma + mb)
                    == (a.holds(ma) || b.holds(mb)),
    {
        let Boolean { solids: mut solids, clauses: mut clauses } = a;
        let Boolean { solids: b_solids, clauses: b_clauses } = b;
        let ghost na = solids@.len() as int;
        let ghost nb = b_solids@.len() as int;
        let ghost a_lits = clauses@;
        let shift = solids.len() as i64;
        append_solids(&mut solids, b_solids);
        let mut i: usize = 0;
        while i < b_clauses.len()
            invariant
                i <= b_clauses.len(),
                shift == na,
                na + nb <= i64::MAX,
                0 <= na,
                lits_in_range(b_clauses@, nb),
                clauses@ == a_lits + shifted(b_clauses@.take(i as int), na),
            decreases b_clauses.len() - i,
        {
            let lit = b_clauses[i];
            assert(lit == 0 || lit_in_range(lit, nb));
            let v = if lit == 0 {
                0
            } else if lit > 0 {
                lit + shift
            } else {
                lit - shift
            };
            proof {
                assert(shifted(b_clauses@.take(i + 1), na) =~= shifted(b_clauses@.take(i as int), na).push(
                    shift_lit(lit, na),
                ));
            }
            clauses.push(v);
            i += 1;
        }
        proof {
            assert(b_clauses@.take(b_clauses.len() as int) =~= b_clauses@);
            let r_lits = clauses@;
            let sb = shifted(b_clauses@, na);
            assert forall|k: int| 0 <= k < r_lits.len() implies #[trigger] r_lits[k] == 0
                || lit_in_range(r_lits[k], na + nb) by {
                if k < a_lits.len() {
                    assert(r_lits[k] == a_lits[k]);
                } else {
                    assert(r_lits[k] == shift_lit(b_clauses@[k - a_lits.len()], na));
                    assert(b_clauses@[k - a_lits.len()] == 0 || lit_in_range(
                        b_clauses@[k - a_lits.len()],
                        nb,
                    ));
                }
            }
            if b_clauses@.len() > 0 {
                assert(r_lits.last() == shift_lit(b_clauses@.last(), na));
            } else {
                assert(r_lits =~= a_lits);
            }
            let ca = clauses_of(a_lits);
            let cb = clauses_of(b_clauses@);
            assert(shifted(Seq::<i64>::empty(), na) =~= Seq::<i64>::empty());
            lemma_split_shift(b_clauses@, seq![], nb, na);
            if a_lits.len() > 0 {
                lemma_split_concat(a_lits, sb, seq![]);
            } else {
                assert(r_lits =~= sb);
                assert(ca =~= Seq::<Seq<i64>>::empty());
                assert(ca + shifted_all(cb, na) =~= shifted_all(cb, na));
            }
            assert(clauses_of(r_lits) == ca + shifted_all(cb, na));
            lemma_split_in_range(a_lits, seq![], na);
            lemma_split_in_range(b_clauses@, seq![], nb);
            assert forall|ma: Seq<bool>, mb: Seq<bool>|
                ma.len() == na && mb.len() == nb implies dnf_holds(clauses_of(r_lits), ma + mb)
                == (dnf_holds(ca, ma) || dnf_holds(cb, mb)) by {
                lemma_holds_concat(ca, shifted_all(cb, na), ma + mb);
                lemma_holds_left(ca, ma, mb);
                lemma_holds_right(cb, ma, mb);
            }
        }
        Boolean { solids, clauses }
    }

    /// `a ∩ b`: every clause of `a` joined with every clause of `b`, the literals of
    /// `b` moved past the solids of `a`.
    pub fn dnf_intersect(a: Self, b: Self) -> (r: Self)
        requires
            a.wf(),
            b.wf(),
            a.arity() + b.arity() <= i64::MAX,
        ensures
            r.wf(),
            r.solid_seq() == a.solid_seq() + b.solid_seq(),
            r.lits() == flat(product(a.clause_list(), shifted_all(b.clause_list(), a.arity()))),
            r.clause_list() == product(a.clause_list(), shifted_all(b.clause_list(), a.arity())),
            forall|ma: Seq<bool>, mb: Seq<bool>|
                ma.len() == a.arity() && mb.len() == b.arity() ==> #[trigger] r.holds(ma + mb)
                    == (a.holds(ma) && b.holds(mb)),
    {
        let ghost na = a.arity();
        let ghost nb = b.arity();
        let ghost ca = a.clause_list();
        let ghost cb = b.clause_list();
        let a_cl = split_clauses(a.clauses.as_slice());
        let b_cl0 = split_clauses(b.clauses.as_slice());
        proof {
            lemma_split_in_range(a.lits(), seq![], na);
            lemma_split_in_range(b.lits(), seq![], nb);
        }
        let shift = a.solids.len() as i64;
        let b_cl = shift_clauses(&b_cl0, shift, Ghost(nb));
        let Boolean { solids: mut solids, clauses: _ } = a;
        let Boolean { solids: b_solids, clauses: _ } = b;
        append_solids(&mut solids, b_solids);
        let clauses = flat_product(&a_cl, &b_cl);
        proof {
            let sb = shifted_all(cb, na);
            lemma_shift_in_range(cb, nb, na);
            lemma_in_range_widen(ca, na, na + nb);
            lemma_product_in_range(ca, sb, na + nb);
            lemma_flat_in_range(product(ca, sb), na + nb);
            lemma_in_range_nonzero(product(ca, sb), na + nb);
            lemma_split_flat(product(ca, sb));
            if product(ca, sb).len() > 0 {
                lemma_flat_last(product(ca, sb));
            } else {
                assert(flat(product(ca, sb)) =~= Seq::<i64>::empty());
            }
            assert forall|ma: Seq<bool>, mb: Seq<bool>|
                ma.len() == na && mb.len() == nb implies dnf_holds(product(ca, sb), ma + mb) == (
                dnf_holds(ca, ma) && dnf_holds(cb, mb)) by {
                lemma_holds_product(ca, sb, ma + mb);
                lemma_holds_left(ca, ma, mb);
                lemma_holds_right(cb, ma, mb);
            }
        }
        Boolean { solids, clauses }
    }
}

/// The clauses of `¬(c1 ∨ c2 ∨ …)` for the clauses `cs`.
fn negated_choices(cs: &Vec<Vec<i64>>, n: Ghost<int>) -> (r: Vec<Vec<i64>>)
    requires
        n@ <= i64::MAX,
        clauses_in_range(vecs_view(cs@), n@),
    ensures
        vecs_view(r@) == choices(vecs_view(cs@)),
{
    let ghost vc = vecs_view(cs@);
    let mut accum: Vec<Vec<i64>> = Vec::new();
    accum.push(Vec::new());
    let mut k: usize = 0;
    proof {
        assert(vc.take(0) =~= Seq::<Seq<i64>>::empty());
        assert(vecs_view(accum@) =~= seq![Seq::<i64>::empty()]);
    }
    while k < cs.len()
        invariant
            k <= cs.len(),
            vc == vecs_view(cs@),
            n@ <= i64::MAX,
            clauses_in_range(vc, n@),
            vecs_view(accum@) == choices(vc.take(k as int)),
        decreases cs.len() - k,
    {
        let clause = &cs[k];
        let ghost c = clause@;
        let ghost acc = vecs_view(accum@);
        assert(vc[k as int] == c);
        assert(forall|t: int| 0 <= t < c.len() ==> lit_in_range(#[trigger] c[t], n@));
        let mut next: Vec<Vec<i64>> = Vec::new();
        let mut p: usize = 0;
        proof {
            assert(acc.take(0) =~= Seq::<Seq<i64>>::empty());
            assert(vecs_view(next@) =~= extend_choices(acc.take(0), c));
        }
        while p < accum.len()
            invariant
                p <= accum.len(),
                acc == vecs_view(accum@),
                c == clause@,
                n@ <= i64::MAX,
                forall|t: int| 0 <= t < c.len() ==> lit_in_range(#[trigger] c[t], n@),
                vecs_view(next@) == extend_choices(acc.take(p as int), c),
            decreases accum.len() - p,
        {
            let ghost x = acc[p as int];
            assert(accum@[p as int]@ == x);
            let mut j: usize = 0;
            proof {
                assert(c.take(0).map_values(|l: i64| x.push(neg_lit(l))) =~= Seq::<Seq<i64>>::empty());
                assert(vecs_view(next@) =~= extend_choices(acc.take(p as int), c) + c.take(
                    0,
                ).map_values(|l: i64| x.push(neg_lit(l))));
            }
            while j < clause.len()
                invariant
                    p < accum.len(),
                    j <= clause.len(),
                    acc == vecs_view(accum@),
                    x == acc[p as int],
                    c == clause@,
                    n@ <= i64::MAX,
                    forall|t: int| 0 <= t < c.len() ==> lit_in_range(#[trigger] c[t], n@),
                    vecs_view(next@) == extend_choices(acc.take(p as int), c) + c.take(
                        j as int,
                    ).map_values(|l: i64| x.push(neg_lit(l))),
                decreases clause.len() - j,
            {
                let lit = clause[j];
                assert(lit_in_range(c[j as int], n@));
                let mut combined: Vec<i64> = Vec::new();
                append_all(&mut combined, &accum[p]);
                combined.push(-lit);
                let ghost before = vecs_view(next@);
                next.push(combined);
                proof {
                    assert(combined@ =~= x.push(neg_lit(lit)));
                    assert(vecs_view(next@) =~= before.push(x.push(neg_lit(lit))));
                    assert(c.take(j + 1).map_values(|l: i64| x.push(neg_lit(l))) =~= c.take(
                        j as int,
                    ).map_values(|l: i64| x.push(neg_lit(l))).push(x.push(neg_lit(lit))));
                }
                j += 1;
            }
            proof {
                assert(c.take(clause.len() as int) =~= c);
                assert(acc.take(p + 1).drop_last() =~= acc.take(p as int));
                assert(acc.take(p + 1).last() == x);
            }
            p += 1;
        }
        proof {
            assert(acc.take(accum.len() as int) =~= acc);
            assert(vc.take(k + 1).drop_last() =~= vc.take(k as int));
            assert(vc.take(k + 1).last() == c);
        }
        accum = next;
        k += 1;
    }
    proof {
        assert(vc.take(cs.len() as int) =~= vc);
    }
    accum
}

/// The flat, 0-terminated encoding of `cs`.
fn flatten_clauses(cs: &Vec<Vec<i64>>) -> (r: Vec<i64>)
    ensures
        r@ == flat(vecs_view(cs@)),
{
    let ghost vc = vecs_view(cs@);
    let mut out: Vec<i64> = Vec::new();
    let mut i: usize = 0;
    proof {
        assert(vc.take(0) =~= Seq::<Seq<i64>>::empty());
    }
    while i < cs.len()
        invariant
            i <= cs.len(),
            vc == vecs_view(cs@),
            out@ == flat(vc.take(i as int)),
        decreases cs.len() - i,
    {
        assert(cs@[i as int]@ == vc[i as int]);
        append_all(&mut out, &cs[i]);
        out.push(0);
        proof {
            assert(vc.take(i + 1).drop_last() =~= vc.take(i as int));
            assert(vc.take(i + 1).last() == vc[i as int]);
        }
        i += 1;
    }
    proof {
        assert(vc.take(cs.len() as int) =~= vc);
    }
    out
}

impl<S> Boolean<S> {
    /// `a - b = a ∩ ¬b`. `¬b` is spread back into a DNF: one negated literal picked
    /// from each clause of `b`, in every combination. With no clause in `b` (the empty
    /// set) the result is `a` itself, and the solids of `b` are dropped.
    pub fn dnf_subtract(a: Self, b: Self) -> (r: Self)
        requires
            a.wf(),
            b.wf(),
            a.arity() + b.arity() <= i64::MAX,
        ensures
            r.wf(),
            b.clause_list().len() == 0 ==> r.solid_seq() == a.solid_seq() && r.lits() == a.lits(),
            b.clause_list().len() > 0 ==> r.solid_seq() == a.solid_seq() + b.solid_seq()
                && r.lits() == flat(product(
                a.clause_list(),
                shifted_all(choices(b.clause_list()), a.arity()),
            )) && r.clause_list() == product(
                a.clause_list(),
                shifted_all(choices(b.clause_list()), a.arity()),
            ),
            forall|ma: Seq<bool>, mb: Seq<bool>|
                ma.len() == a.arity() && mb.len() == b.arity() ==> #[trigger] r.holds(
                    (ma + mb).take(r.arity()),
                ) == (a.holds(ma) && !b.holds(mb)),
    {
        let ghost nb = b.arity();
        let ghost na = a.arity();
        let ghost a0 = a.clause_list();
        let ghost b0 = b.clause_list();
        let ghost a_solids = a.solid_seq();
        let ghost b_solids0 = b.solid_seq();
        let b_cl = split_clauses(b.clauses.as_slice());
        if b_cl.len() == 0 {
            proof {
                assert forall|ma: Seq<bool>, mb: Seq<bool>|
                    ma.len() == na && mb.len() == nb implies #[trigger] a.holds((ma + mb).take(na))
                    == (a.holds(ma) && !dnf_holds(b0, mb)) by {
                    assert((ma + mb).take(na) =~= ma);
                }
            }
            return a;
        }
        proof {
            lemma_split_in_range(b.lits(), seq![], nb);
            lemma_choices_in_range(b.clause_list(), nb);
        }
        let neg = negated_choices(&b_cl, Ghost(nb));
        let neg_clauses = flatten_clauses(&neg);
        let Boolean { solids: b_solids, clauses: _ } = b;
        let neg_b = Boolean { solids: b_solids, clauses: neg_clauses };
        proof {
            let ch = choices(vecs_view(b_cl@));
            lemma_in_range_nonzero(ch, nb);
            lemma_split_flat(ch);
            lemma_flat_in_range(ch, nb);
            lemma_choices_nonempty(vecs_view(b_cl@), nb);
            lemma_flat_last(ch);
            assert(neg_b.clause_list() == ch);
        }
        let r = Self::dnf_intersect(a, neg_b);
        proof {
            assert forall|ma: Seq<bool>, mb: Seq<bool>|
                ma.len() == na && mb.len() == nb implies #[trigger] r.holds((ma + mb).take(
                r.arity(),
            )) == (dnf_holds(a0, ma) && !dnf_holds(b0, mb)) by {
                assert(r.arity() == na + nb);
                assert((ma + mb).take(r.arity()) =~= ma + mb);
                lemma_split_in_range(b.lits(), seq![], nb);
                lemma_holds_choices(b0, mb, nb);
            }
        }
        r
    }
}

/// One single-literal clause per solid: `[1], [2], …, [n]`.
pub open spec fn each_solid(n: nat) -> Seq<Seq<i64>> {
    Seq::new(n, |i: int| seq![(i + 1) as i64])
}

/// One clause naming every solid: `[1, 2, …, n]`.
pub open spec fn all_solids(n: nat) -> Seq<i64> {
    Seq::new(n, |i: int| (i + 1) as i64)
}

/// What `build` makes of what the backend returned: the single solid, or how many came out.
pub open spec fn single_of<S>(res: Result<Vec<S>, Error>) -> Result<S, Error> {
    match res {
        Ok(v) => if v@.len() == 1 {
            Ok(v@[0])
        } else {
            Err(Error::OneFailed(v@.len() as usize))
        },
        Err(e) => Err(e),
    }
}

impl<S> Boolean<S> {
    /// Whether the expression has no solid or no clause, which makes it the empty set.
    pub open spec fn is_empty_expr(&self) -> bool {
        self.solid_seq().len() == 0 || self.lits().len() == 0
    }

    /// The union of all `solids`: clauses `[1, 0, 2, 0, …, n, 0]`. With no solid the
    /// expression is empty, and `build` reports `OneFailed(0)`.
    pub fn union_all(solids: Vec<S>) -> (r: Self)
        requires
            solids@.len() <= i64::MAX,
        ensures
            r.wf(),
            r.solid_seq() == solids@,
            r.lits() == flat(each_solid(solids@.len())),
            r.clause_list() == each_solid(solids@.len()),
            forall|m: Seq<bool>|
                m.len() == solids@.len() ==> #[trigger] r.holds(m) == (exists|i: int|
                    0 <= i < m.len() && #[trigger] m[i]),
    {
        let n = solids.len();
        let ghost cs = each_solid(n as nat);
        let mut clauses: Vec<i64> = Vec::new();
        let mut i: usize = 0;
        proof {
            assert(cs.take(0) =~= Seq::<Seq<i64>>::empty());
        }
        while i < n
            invariant
                i <= n,
                n <= i64::MAX,
                cs == each_solid(n as nat),
                clauses@ == flat(cs.take(i as int)),
            decreases n - i,
        {
            let lit = (i + 1) as i64;
            clauses.push(lit);
            clauses.push(0);
            proof {
                assert(cs.take(i + 1).drop_last() =~= cs.take(i as int));
                assert(cs.take(i + 1).last() =~= seq![lit]);
                assert(clauses@ =~= flat(cs.take(i as int)) + seq![lit].push(0));
            }
            i += 1;
        }
        proof {
            assert(cs.take(n as int) =~= cs);
            assert(clauses_in_range(cs, n as int)) by {
                assert forall|i: int| #![trigger cs[i]] 0 <= i < cs.len() implies cs[i].len() > 0
                    && (forall|j: int| 0 <= j < cs[i].len() ==> lit_in_range(#[trigger] cs[i][j], n as int)) by {
                    assert(cs[i] =~= seq![(i + 1) as i64]);
                }
            }
            lemma_flat_in_range(cs, n as int);
            lemma_in_range_nonzero(cs, n as int);
            lemma_split_flat(cs);
            if n > 0 {
                lemma_flat_last(cs);
            } else {
                assert(flat(cs) =~= Seq::<i64>::empty());
            }
            assert forall|m: Seq<bool>| m.len() == n implies #[trigger] dnf_holds(cs, m) == (exists|
                i: int,
            | 0 <= i < m.len() && #[trigger] m[i]) by {
                if dnf_holds(cs, m) {
                    let i = choose|i: int| 0 <= i < cs.len() && clause_holds(#[trigger] cs[i], m);
                    assert(cs[i][0] == (i + 1) as i64);
                    assert(m[i]);
                }
                if exists|i: int| 0 <= i < m.len() && #[trigger] m[i] {
                    let i = choose|i: int| 0 <= i < m.len() && #[trigger] m[i];
                    assert(cs[i] =~= seq![(i + 1) as i64]);
                    assert(clause_holds(cs[i], m));
                }
            }
        }
        Boolean { solids, clauses }
    }

    /// The intersection of all `solids`: the single clause `[1, 2, …, n, 0]`, or no
    /// clause at all when there is no solid (`build` then reports `OneFailed(0)`).
    pub fn intersect_all(solids: Vec<S>) -> (r: Self)
        requires
            solids@.len() <= i64::MAX,
        ensures
            r.wf(),
            r.solid_seq() == solids@,
            solids@.len() == 0 ==> r.lits() == Seq::<i64>::empty(),
            solids@.len() > 0 ==> r.lits() == all_solids(solids@.len()).push(0),
            forall|m: Seq<bool>|
                m.len() == solids@.len() ==> #[trigger] r.holds(m) == (m.len() > 0 && forall|i: int|
                    0 <= i < m.len() ==> #[trigger] m[i]),
    {
        let n = solids.len();
        let ghost c = all_solids(n as nat);
        let mut clauses: Vec<i64> = Vec::new();
        let mut i: usize = 0;
        while i < n
            invariant
                i <= n,
                n <= i64::MAX,
                c == all_solids(n as nat),
                clauses@ == c.take(i as int),
            decreases n - i,
        {
            clauses.push((i + 1) as i64);
            proof {
                assert(c.take(i + 1) =~= c.take(i as int).push((i + 1) as i64));
            }
            i += 1;
        }
        if !clauses.is_empty() {
            clauses.push(0);
        }
        proof {
            assert(c.take(n as int) =~= c);
            if n == 0 {
                assert(clauses@ =~= Seq::<i64>::empty());
                assert(clauses_of(clauses@) =~= Seq::<Seq<i64>>::empty());
            } else {
                let cs = seq![c];
                assert(flat(cs) =~= c.push(0)) by {
                    assert(cs.drop_last() =~= Seq::<Seq<i64>>::empty());
                    assert(flat(cs.drop_last()) =~= Seq::<i64>::empty());
                    assert(cs.last() == c);
                    assert(flat(cs) == flat(cs.drop_last()) + cs.last().push(0));
                }
                assert(clauses_in_range(cs, n as int)) by {
                    assert forall|i: int| #![trigger cs[i]] 0 <= i < cs.len() implies cs[i].len() > 0
                        && (forall|j: int| 0 <= j < cs[i].len() ==> lit_in_range(#[trigger] cs[i][j], n as int)) by {
                        assert(cs[i] == c);
                    }
                }
                lemma_flat_in_range(cs, n as int);
                lemma_in_range_nonzero(cs, n as int);
                lemma_split_flat(cs);
                assert forall|m: Seq<bool>| m.len() == n implies #[trigger] dnf_holds(cs, m) == (m.len()
                    > 0 && forall|i: int| 0 <= i < m.len() ==> #[trigger] m[i]) by {
                    if dnf_holds(cs, m) {
                        let k = choose|k: int| 0 <= k < cs.len() && clause_holds(#[trigger] cs[k], m);
                        assert(cs[k] == c);
                        assert forall|i: int| 0 <= i < m.len() implies #[trigger] m[i] by {
                            assert(c[i] == (i + 1) as i64);
                            assert(lit_holds(c[i], m));
                        }
                    }
                    if forall|i: int| 0 <= i < m.len() ==> #[trigger] m[i] {
                        assert forall|j: int| 0 <= j < c.len() implies lit_holds(#[trigger] c[j], m) by {
                            assert(c[j] == (j + 1) as i64);
                        }
                        assert(clause_holds(cs[0], m));
                    }
                }
            }
        }
        Boolean { solids, clauses }
    }

    /// Evaluates the expression with `evaluate` (the geometry backend) and returns
    /// every piece it makes. An expression with no solid or no clause is refused
    /// with `OneFailed(0)` without calling the backend.
    pub fn build_vec<F>(self, evaluate: F) -> (r: Result<Vec<S>, Error>) where
        F: FnOnce(&Boolean<S>) -> Result<Vec<S>, Error>,

        requires
            !self.is_empty_expr() ==> evaluate.requires((&self,)),
        ensures
            self.is_empty_expr() ==> r == Err::<Vec<S>, Error>(Error::OneFailed(0)),
            !self.is_empty_expr() ==> evaluate.ensures((&self,), r),
    {
        if self.solids.len() == 0 || self.clauses.len() == 0 {
            return Err(Error::OneFailed(0));
        }
        evaluate(&self)
    }

    /// The conversion of the expression into all its pieces: the same as `build_vec`.
    pub fn try_into_vec<F>(self, evaluate: F) -> (r: Result<Vec<S>, Error>) where
        F: FnOnce(&Boolean<S>) -> Result<Vec<S>, Error>,

        requires
            !self.is_empty_expr() ==> evaluate.requires((&self,)),
        ensures
            self.is_empty_expr() ==> r == Err::<Vec<S>, Error>(Error::OneFailed(0)),
            !self.is_empty_expr() ==> evaluate.ensures((&self,), r),
    {
        self.build_vec(evaluate)
    }

    /// A copy of the expression whose solids are made by `copy` (the backend's shallow
    /// copy, which keeps face identities) one by one, in order; the clauses are the same.
    pub fn clone_via<F>(&self, copy: F) -> (r: Self) where F: Fn(&S) -> S,
        requires
            forall|i: int| 0 <= i < self.solid_seq().len() ==> copy.requires((&self.solid_seq()[i],)),
        ensures
            r.lits() == self.lits(),
            r.solid_seq().len() == self.solid_seq().len(),
            forall|i: int|
                0 <= i < self.solid_seq().len() ==> copy.ensures(
                    (&self.solid_seq()[i],),
                    #[trigger] r.solid_seq()[i],
                ),
    {
        let mut solids: Vec<S> = Vec::new();
        let mut i: usize = 0;
        while i < self.solids.len()
            invariant
                i <= self.solids@.len(),
                solids@.len() == i,
                self.solids@ == self.solid_seq(),
                forall|k: int| 0 <= k < self.solid_seq().len() ==> copy.requires((&self.solid_seq()[k],)),
                forall|k: int| 0 <= k < i ==> copy.ensures((&self.solid_seq()[k],), #[trigger] solids@[k]),
            decreases self.solids@.len() - i,
        {
            let c = copy(&self.solids[i]);
            solids.push(c);
            i += 1;
        }
        let clauses = copy_lits(&self.clauses);
        Boolean { solids, clauses }
    }

    /// Evaluates the expression with `evaluate` and returns its single piece; any
    /// other number of pieces `n` is `OneFailed(n)`.
    pub fn build<F>(self, evaluate: F) -> (r: Result<S, Error>) where
        F: FnOnce(&Boolean<S>) -> Result<Vec<S>, Error>,

        requires
            !self.is_empty_expr() ==> evaluate.requires((&self,)),
        ensures
            self.is_empty_expr() ==> r == Err::<S, Error>(Error::OneFailed(0)),
            !self.is_empty_expr() ==> exists|res: Result<Vec<S>, Error>|
                evaluate.ensures((&self,), res) && r == single_of(res),
    {
        let ghost this = self;
        let res = self.build_vec(evaluate);
        match res {
            Ok(mut v) => {
                let ghost vv = v;
                if v.len() == 1 {
                    let s = v.pop().unwrap();
                    proof {
                        assert(single_of(Ok::<Vec<S>, Error>(vv)) == Ok::<S, Error>(s));
                    }
                    Ok(s)
                } else {
                    Err(Error::OneFailed(v.len()))
                }
            },
            Err(e) => Err(e),
        }
    }
}

/// A copy of a literal list.
fn copy_lits(v: &Vec<i64>) -> (r: Vec<i64>)
    ensures
        r@ == v@,
{
    let mut r: Vec<i64> = Vec::new();
    let mut i: usize = 0;
    while i < v.len()
        invariant
            i <= v@.len(),
            r@ == v@.take(i as int),
        decreases v@.len() - i,
    {
        r.push(v[i]);
        proof {
            assert(v@.take(i + 1) =~= v@.take(i as int).push(v@[i as int]));
        }
        i += 1;
    }
    proof {
        assert(v@.take(i as int) =~= v@);
    }
    r
}

} // verus!
