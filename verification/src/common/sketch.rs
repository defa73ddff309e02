//! 2D sketch as a flat DNF of generalised disks.
//!
//! A generalised disk `(a, bx, by, c)` stands for the region `a|x|² + b·x + c ≤ 0`; circles,
//! lines and half-planes all fit this form. A `Sketch` is a list of disks in which the
//! all-zero disk separates clauses: a clause is the intersection of its disks and the sketch
//! is the union of its clauses. The empty sketch is the empty set; its complement, the whole
//! plane, has no encoding, so the complement of the empty sketch is again empty.
//!
//! The boolean structure does not look at the coefficients as numbers: a disk is held here by
//! the bit patterns of its four `f64` coefficients. A coefficient is zero when all bits but
//! the sign are clear, and the complement of a disk flips the four sign bits, which is exactly
//! IEEE negation. Evaluating a disk at a point is left to the caller.

use vstd::prelude::*;

verus! {

// ==================== Disks ====================

/// A generalised disk, each coefficient held as the bit pattern of an `f64`.
#[derive(Clone, Copy, Debug, PartialEq, Eq, Structural)]
pub struct Disk {
    pub a: u64,
    pub bx: u64,
    pub by: u64,
    pub c: u64,
}

/// Whether the `f64` with bit pattern `x` is `+0.0` or `-0.0`.
pub open spec fn is_zero_bits(x: u64) -> bool {
    x & 0x7fff_ffff_ffff_ffffu64 == 0
}

/// The bit pattern of the negation of the `f64` with bit pattern `x`.
pub open spec fn negated_bits(x: u64) -> u64 {
    x ^ 0x8000_0000_0000_0000u64
}

/// The clause separator: the disk whose four coefficients are `+0.0`.
pub open spec fn separator() -> Disk {
    Disk { a: 0, bx: 0, by: 0, c: 0 }
}

impl Disk {
    /// The disk separates clauses: every coefficient is a zero of either sign.
    pub open spec fn sep(self) -> bool {
        is_zero_bits(self.a) && is_zero_bits(self.bx) && is_zero_bits(self.by) && is_zero_bits(
            self.c,
        )
    }

    /// The complementary disk: every coefficient negated.
    pub open spec fn flipped(self) -> Disk {
        Disk {
            a: negated_bits(self.a),
            bx: negated_bits(self.bx),
            by: negated_bits(self.by),
            c: negated_bits(self.c),
        }
    }

    /// Whether this disk is a clause separator.
    pub fn is_separator(&self) -> (r: bool)
        ensures
            r == self.sep(),
    {
        let m: u64 = 0x7fff_ffff_ffff_ffff;
        self.a & m == 0 && self.bx & m == 0 && self.by & m == 0 && self.c & m == 0
    }

    /// The complementary disk.
    pub fn negate(&self) -> (r: Disk)
        ensures
            r == self.flipped(),
    {
        let s: u64 = 0x8000_0000_0000_0000;
        Disk { a: self.a ^ s, bx: self.bx ^ s, by: self.by ^ s, c: self.c ^ s }
    }
}

/// The separator is a separator.
pub proof fn lemma_separator_sep()
    ensures
        separator().sep(),
{
    assert(0u64 & 0x7fff_ffff_ffff_ffffu64 == 0) by (bit_vector);
}

/// Negating a coefficient keeps it zero or non-zero, and twice gives it back.
pub proof fn lemma_negated_bits(x: u64)
    ensures
        is_zero_bits(negated_bits(x)) == is_zero_bits(x),
        negated_bits(negated_bits(x)) == x,
{
    assert((x ^ 0x8000_0000_0000_0000u64) & 0x7fff_ffff_ffff_ffffu64 == x
        & 0x7fff_ffff_ffff_ffffu64) by (bit_vector);
    assert((x ^ 0x8000_0000_0000_0000u64) ^ 0x8000_0000_0000_0000u64 == x) by (bit_vector);
}

/// Flipping a disk keeps it a separator or not, and twice gives it back.
pub proof fn lemma_flipped(d: Disk)
    ensures
        d.flipped().sep() == d.sep(),
        d.flipped().flipped() == d,
{
    lemma_negated_bits(d.a);
    lemma_negated_bits(d.bx);
    lemma_negated_bits(d.by);
    lemma_negated_bits(d.c);
}

// ==================== Model ====================

/// A clause holds at a point when the point lies in each of its disks; `m(d)` says
/// whether it lies in `d`.
pub open spec fn clause_holds(c: Seq<Disk>, m: spec_fn(Disk) -> bool) -> bool {
    forall|j: int| 0 <= j < c.len() ==> #[trigger] m(c[j])
}

/// A clause list holds when some clause of it holds.
pub open spec fn dnf_holds(cs: Seq<Seq<Disk>>, m: spec_fn(Disk) -> bool) -> bool {
    exists|i: int| 0 <= i < cs.len() && clause_holds(#[trigger] cs[i], m)
}

/// `m` puts each point in exactly one of a disk and its complement.
pub open spec fn complementary(m: spec_fn(Disk) -> bool) -> bool {
    forall|d: Disk| !d.sep() ==> #[trigger] m(d.flipped()) == !m(d)
}

/// The clause list `[cur]`, or none when `cur` is empty.
pub open spec fn emit(cur: Seq<Disk>) -> Seq<Seq<Disk>> {
    if cur.len() == 0 {
        seq![]
    } else {
        seq![cur]
    }
}

/// Splits `s` at its separators, `cur` being the clause read so far; empty clauses drop out.
pub open spec fn split_from(s: Seq<Disk>, cur: Seq<Disk>) -> Seq<Seq<Disk>>
    decreases s.len(),
{
    if s.len() == 0 {
        emit(cur)
    } else if s[0].sep() {
        emit(cur) + split_from(s.drop_first(), seq![])
    } else {
        split_from(s.drop_first(), cur.push(s[0]))
    }
}

/// The clauses that a flat disk list encodes.
pub open spec fn clauses_of(s: Seq<Disk>) -> Seq<Seq<Disk>> {
    split_from(s, seq![])
}

/// Each clause followed by a separator.
pub open spec fn terminated(cs: Seq<Seq<Disk>>) -> Seq<Disk>
    decreases cs.len(),
{
    if cs.len() == 0 {
        seq![]
    } else {
        terminated(cs.drop_last()) + cs.last().push(separator())
    }
}

/// The clauses with a separator between each two.
pub open spec fn joined(cs: Seq<Seq<Disk>>) -> Seq<Disk> {
    if cs.len() == 0 {
        seq![]
    } else {
        terminated(cs).drop_last()
    }
}

/// Every clause is non-empty and holds no separator.
pub open spec fn proper(cs: Seq<Seq<Disk>>) -> bool {
    forall|i: int| #![trigger cs[i]] 0 <= i < cs.len() ==> cs[i].len() > 0 && (forall|j: int|
        0 <= j < cs[i].len() ==> !(#[trigger] cs[i][j]).sep())
}

/// Each clause of `a` joined with each clause of `b`, `a`-major.
pub open spec fn product(a: Seq<Seq<Disk>>, b: Seq<Seq<Disk>>) -> Seq<Seq<Disk>>
    decreases a.len(),
{
    if a.len() == 0 {
        seq![]
    } else {
        product(a.drop_last(), b) + b.map_values(|y: Seq<Disk>| a.last() + y)
    }
}

/// `acc` extended by one more choice: each partial clause followed, in turn, by the
/// complement of each disk of `c`, `acc`-major.
pub open spec fn extend_choices(acc: Seq<Seq<Disk>>, c: Seq<Disk>) -> Seq<Seq<Disk>>
    decreases acc.len(),
{
    if acc.len() == 0 {
        seq![]
    } else {
        extend_choices(acc.drop_last(), c) + c.map_values(|d: Disk| acc.last().push(d.flipped()))
    }
}

/// The clauses of `¬(c1 ∨ c2 ∨ …)`: one complemented disk picked from each `ci`, in order.
pub open spec fn choices(cs: Seq<Seq<Disk>>) -> Seq<Seq<Disk>>
    decreases cs.len(),
{
    if cs.len() == 0 {
        seq![seq![]]
    } else {
        extend_choices(choices(cs.drop_last()), cs.last())
    }
}

/// The clauses of the complement as `Sketch::complement` builds it: the choices, or no
/// clause at all for no clause (the whole plane has no encoding).
pub open spec fn complemented(cs: Seq<Seq<Disk>>) -> Seq<Seq<Disk>> {
    if cs.len() == 0 {
        seq![]
    } else {
        choices(cs)
    }
}

/// The clauses of a list of vectors, read as sequences.
pub open spec fn vecs_view(v: Seq<Vec<Disk>>) -> Seq<Seq<Disk>> {
    v.map_values(|c: Vec<Disk>| c@)
}

// ==================== Lemmas on the encoding ====================

/// Splitting a separator-ended prefix and the rest separately gives the same clauses.
pub proof fn lemma_split_concat(x: Seq<Disk>, y: Seq<Disk>, cur: Seq<Disk>)
    requires
        x.len() > 0,
        x.last().sep(),
    ensures
        split_from(x + y, cur) == split_from(x, cur) + split_from(y, seq![]),
    decreases x.len(),
{
    assert((x + y).drop_first() =~= x.drop_first() + y);
    assert((x + y)[0] == x[0]);
    if x.len() == 1 {
        assert(x.drop_first() =~= Seq::<Disk>::empty());
        assert(x.drop_first() + y =~= y);
        assert(split_from(x.drop_first(), seq![]) =~= Seq::<Seq<Disk>>::empty());
        assert(split_from(x, cur) =~= emit(cur));
        assert(split_from(x + y, cur) =~= emit(cur) + split_from(y, seq![]));
    } else {
        assert(x.drop_first().last() == x.last());
        if x[0].sep() {
            lemma_split_concat(x.drop_first(), y, seq![]);
            assert(split_from(x + y, cur) =~= emit(cur) + (split_from(x.drop_first(), seq![])
                + split_from(y, seq![])));
        } else {
            lemma_split_concat(x.drop_first(), y, cur.push(x[0]));
        }
    }
}

/// A trailing separator adds no clause.
pub proof fn lemma_split_push_sep(s: Seq<Disk>, cur: Seq<Disk>, z: Disk)
    requires
        z.sep(),
    ensures
        split_from(s.push(z), cur) == split_from(s, cur),
    decreases s.len(),
{
    if s.len() == 0 {
        assert(s.push(z).drop_first() =~= Seq::<Disk>::empty());
        assert(s.push(z)[0] == z);
        assert(split_from(Seq::<Disk>::empty(), seq![]) =~= Seq::<Seq<Disk>>::empty());
        assert(split_from(s.push(z), cur) =~= emit(cur) + Seq::<Seq<Disk>>::empty());
        assert(split_from(s, cur) == emit(cur));
    } else {
        assert(s.push(z).drop_first() =~= s.drop_first().push(z));
        assert(s.push(z)[0] == s[0]);
        if s[0].sep() {
            lemma_split_push_sep(s.drop_first(), seq![], z);
        } else {
            lemma_split_push_sep(s.drop_first(), cur.push(s[0]), z);
        }
    }
}

/// A separator-free clause followed by a separator splits into itself.
pub proof fn lemma_split_one(c: Seq<Disk>, cur: Seq<Disk>)
    requires
        forall|j: int| 0 <= j < c.len() ==> !(#[trigger] c[j]).sep(),
    ensures
        split_from(c.push(separator()), cur) == emit(cur + c),
    decreases c.len(),
{
    lemma_separator_sep();
    if c.len() == 0 {
        assert(c.push(separator()).drop_first() =~= Seq::<Disk>::empty());
        assert(cur + c =~= cur);
        assert(split_from(c.push(separator()).drop_first(), seq![]) =~= Seq::<Seq<Disk>>::empty());
        assert(split_from(c.push(separator()), cur) =~= emit(cur));
    } else {
        assert(c.push(separator()).drop_first() =~= c.drop_first().push(separator()));
        assert(c.push(separator())[0] == c[0]);
        assert forall|j: int| 0 <= j < c.drop_first().len() implies !(
        #[trigger] c.drop_first()[j]).sep() by {
            assert(c.drop_first()[j] == c[j + 1]);
        }
        lemma_split_one(c.drop_first(), cur.push(c[0]));
        assert(cur.push(c[0]) + c.drop_first() =~= cur + c);
    }
}

/// Decoding the terminated encoding of proper clauses gives them back.
pub proof fn lemma_split_terminated(cs: Seq<Seq<Disk>>)
    requires
        proper(cs),
    ensures
        clauses_of(terminated(cs)) == cs,
    decreases cs.len(),
{
    lemma_separator_sep();
    if cs.len() == 0 {
        assert(clauses_of(terminated(cs)) =~= cs);
    } else {
        let init = cs.drop_last();
        let c = cs.last();
        assert(proper(init)) by {
            assert forall|i: int| #![trigger init[i]] 0 <= i < init.len() implies init[i].len()
                > 0 && (forall|j: int| 0 <= j < init[i].len() ==> !(#[trigger] init[i][j]).sep()) by {
                assert(init[i] == cs[i]);
            }
        }
        lemma_split_terminated(init);
        assert(forall|j: int| 0 <= j < c.len() ==> !(#[trigger] c[j]).sep()) by {
            assert(c == cs[cs.len() - 1]);
        }
        lemma_split_one(c, seq![]);
        assert(Seq::<Disk>::empty() + c =~= c);
        assert(c.len() > 0) by {
            assert(c == cs[cs.len() - 1]);
        }
        if init.len() == 0 {
            assert(terminated(init) =~= Seq::<Disk>::empty());
            assert(terminated(cs) =~= c.push(separator()));
            assert(cs =~= seq![c]);
        } else {
            lemma_split_concat(terminated(init), c.push(separator()), seq![]);
            assert(cs =~= init + seq![c]);
        }
    }
}

/// Decoding the joined encoding of proper clauses gives them back.
pub proof fn lemma_split_joined(cs: Seq<Seq<Disk>>)
    requires
        proper(cs),
    ensures
        clauses_of(joined(cs)) == cs,
{
    lemma_separator_sep();
    if cs.len() == 0 {
        assert(clauses_of(joined(cs)) =~= cs);
    } else {
        let t = terminated(cs);
        assert(t =~= t.drop_last().push(separator()));
        lemma_split_push_sep(t.drop_last(), seq![], separator());
        lemma_split_terminated(cs);
    }
}

/// Clauses split out of a list, from a separator-free start, are proper.
pub proof fn lemma_split_proper(s: Seq<Disk>, cur: Seq<Disk>)
    requires
        forall|j: int| 0 <= j < cur.len() ==> !(#[trigger] cur[j]).sep(),
    ensures
        proper(split_from(s, cur)),
    decreases s.len(),
{
    if s.len() > 0 {
        if s[0].sep() {
            lemma_split_proper(s.drop_first(), seq![]);
            let e = emit(cur);
            let r = split_from(s.drop_first(), seq![]);
            assert forall|i: int| #![trigger (e + r)[i]] 0 <= i < (e + r).len() implies (e
                + r)[i].len() > 0 && (forall|j: int|
                0 <= j < (e + r)[i].len() ==> !(#[trigger] (e + r)[i][j]).sep()) by {
                if i < e.len() {
                    assert((e + r)[i] == cur);
                } else {
                    assert((e + r)[i] == r[i - e.len()]);
                }
            }
        } else {
            let c2 = cur.push(s[0]);
            assert forall|j: int| 0 <= j < c2.len() implies !(#[trigger] c2[j]).sep() by {
                if j < cur.len() {
                    assert(c2[j] == cur[j]);
                }
            }
            lemma_split_proper(s.drop_first(), c2);
        }
    } else {
        let e = emit(cur);
        assert forall|i: int| #![trigger e[i]] 0 <= i < e.len() implies e[i].len() > 0 && (forall|
            j: int,
        | 0 <= j < e[i].len() ==> !(#[trigger] e[i][j]).sep()) by {
            assert(e[i] == cur);
        }
    }
}

/// The clauses of `x`, a separator, then `y` are those of `x` followed by those of `y`.
pub proof fn lemma_clauses_join(x: Seq<Disk>, y: Seq<Disk>)
    ensures
        clauses_of(x.push(separator()) + y) == clauses_of(x) + clauses_of(y),
{
    lemma_separator_sep();
    lemma_split_concat(x.push(separator()), y, seq![]);
    lemma_split_push_sep(x, seq![], separator());
}

// ==================== Lemmas on the meaning ====================

/// A clause list joined to another holds when either holds.
pub proof fn lemma_holds_concat(a: Seq<Seq<Disk>>, b: Seq<Seq<Disk>>, m: spec_fn(Disk) -> bool)
    ensures
        dnf_holds(a + b, m) == (dnf_holds(a, m) || dnf_holds(b, m)),
{
    if dnf_holds(a, m) {
        let i = choose|i: int| 0 <= i < a.len() && clause_holds(#[trigger] a[i], m);
        assert((a + b)[i] == a[i]);
    }
    if dnf_holds(b, m) {
        let i = choose|i: int| 0 <= i < b.len() && clause_holds(#[trigger] b[i], m);
        assert((a + b)[a.len() + i] == b[i]);
    }
    if dnf_holds(a + b, m) {
        let i = choose|i: int| 0 <= i < (a + b).len() && clause_holds(#[trigger] (a + b)[i], m);
        if i < a.len() {
            assert((a + b)[i] == a[i]);
        } else {
            assert((a + b)[i] == b[i - a.len()]);
        }
    }
}

/// A joined clause holds when both parts hold.
pub proof fn lemma_clause_concat(x: Seq<Disk>, y: Seq<Disk>, m: spec_fn(Disk) -> bool)
    ensures
        clause_holds(x + y, m) == (clause_holds(x, m) && clause_holds(y, m)),
{
    if clause_holds(x + y, m) {
        assert forall|j: int| 0 <= j < x.len() implies #[trigger] m(x[j]) by {
            assert((x + y)[j] == x[j]);
        }
        assert forall|j: int| 0 <= j < y.len() implies #[trigger] m(y[j]) by {
            assert((x + y)[x.len() + j] == y[j]);
        }
    }
    if clause_holds(x, m) && clause_holds(y, m) {
        assert forall|j: int| 0 <= j < (x + y).len() implies #[trigger] m((x + y)[j]) by {
            if j < x.len() {
                assert((x + y)[j] == x[j]);
            } else {
                assert((x + y)[j] == y[j - x.len()]);
            }
        }
    }
}

/// The product of two clause lists holds when both hold.
pub proof fn lemma_holds_product(a: Seq<Seq<Disk>>, b: Seq<Seq<Disk>>, m: spec_fn(Disk) -> bool)
    ensures
        dnf_holds(product(a, b), m) == (dnf_holds(a, m) && dnf_holds(b, m)),
    decreases a.len(),
{
    if a.len() == 0 {
        assert(product(a, b) =~= Seq::<Seq<Disk>>::empty());
    } else {
        let init = a.drop_last();
        let x = a.last();
        let row = b.map_values(|y: Seq<Disk>| x + y);
        lemma_holds_product(init, b, m);
        lemma_holds_concat(product(init, b), row, m);
        if dnf_holds(row, m) {
            let j = choose|j: int| 0 <= j < row.len() && clause_holds(#[trigger] row[j], m);
            lemma_clause_concat(x, b[j], m);
        }
        if clause_holds(x, m) && dnf_holds(b, m) {
            let j = choose|j: int| 0 <= j < b.len() && clause_holds(#[trigger] b[j], m);
            lemma_clause_concat(x, b[j], m);
            assert(row[j] == x + b[j]);
        }
        if dnf_holds(a, m) {
            let i = choose|i: int| 0 <= i < a.len() && clause_holds(#[trigger] a[i], m);
            if i < init.len() {
                assert(init[i] == a[i]);
            }
        }
        if dnf_holds(init, m) {
            let i = choose|i: int| 0 <= i < init.len() && clause_holds(#[trigger] init[i], m);
            assert(a[i] == init[i]);
        }
        if clause_holds(x, m) {
            assert(a[a.len() - 1] == x);
        }
    }
}

/// The product of proper clause lists is proper.
pub proof fn lemma_product_proper(a: Seq<Seq<Disk>>, b: Seq<Seq<Disk>>)
    requires
        proper(a),
        proper(b),
    ensures
        proper(product(a, b)),
    decreases a.len(),
{
    if a.len() > 0 {
        let init = a.drop_last();
        let x = a.last();
        assert(x == a[a.len() - 1]);
        assert(proper(init)) by {
            assert forall|i: int| #![trigger init[i]] 0 <= i < init.len() implies init[i].len()
                > 0 && (forall|j: int| 0 <= j < init[i].len() ==> !(#[trigger] init[i][j]).sep()) by {
                assert(init[i] == a[i]);
            }
        }
        lemma_product_proper(init, b);
        let p = product(init, b);
        let row = b.map_values(|y: Seq<Disk>| x + y);
        let q = p + row;
        assert forall|i: int| #![trigger q[i]] 0 <= i < q.len() implies q[i].len() > 0 && (forall|
            j: int,
        | 0 <= j < q[i].len() ==> !(#[trigger] q[i][j]).sep()) by {
            if i < p.len() {
                assert(q[i] == p[i]);
            } else {
                let t = i - p.len();
                assert(q[i] == x + b[t]);
                assert forall|j: int| 0 <= j < q[i].len() implies !(#[trigger] q[i][j]).sep() by {
                    if j < x.len() {
                        assert(q[i][j] == x[j]);
                    } else {
                        assert(q[i][j] == b[t][j - x.len()]);
                    }
                }
            }
        }
    }
}

/// One more choice holds when the partial clauses held and some disk of `c` fails.
pub proof fn lemma_holds_extend(acc: Seq<Seq<Disk>>, c: Seq<Disk>, m: spec_fn(Disk) -> bool)
    requires
        complementary(m),
        forall|j: int| 0 <= j < c.len() ==> !(#[trigger] c[j]).sep(),
    ensures
        dnf_holds(extend_choices(acc, c), m) == (dnf_holds(acc, m) && !clause_holds(c, m)),
    decreases acc.len(),
{
    if acc.len() == 0 {
        assert(extend_choices(acc, c) =~= Seq::<Seq<Disk>>::empty());
    } else {
        let init = acc.drop_last();
        let x = acc.last();
        let row = c.map_values(|d: Disk| x.push(d.flipped()));
        lemma_holds_extend(init, c, m);
        lemma_holds_concat(extend_choices(init, c), row, m);
        if dnf_holds(row, m) {
            let j = choose|j: int| 0 <= j < row.len() && clause_holds(#[trigger] row[j], m);
            assert(row[j] == x.push(c[j].flipped()));
            assert(!c[j].sep());
            assert(m(c[j].flipped()) == !m(c[j]));
            assert(row[j][x.len() as int] == c[j].flipped());
            assert(clause_holds(x, m)) by {
                assert forall|t: int| 0 <= t < x.len() implies #[trigger] m(x[t]) by {
                    assert(row[j][t] == x[t]);
                }
            }
            assert(!m(c[j]));
        }
        if clause_holds(x, m) && !clause_holds(c, m) {
            let j = choose|j: int| 0 <= j < c.len() && !#[trigger] m(c[j]);
            assert(!c[j].sep());
            assert(m(c[j].flipped()) == !m(c[j]));
            assert(row[j] == x.push(c[j].flipped()));
            assert forall|t: int| 0 <= t < row[j].len() implies #[trigger] m(row[j][t]) by {
                if t < x.len() {
                    assert(row[j][t] == x[t]);
                }
            }
            assert(clause_holds(row[j], m));
        }
        if dnf_holds(acc, m) {
            let i = choose|i: int| 0 <= i < acc.len() && clause_holds(#[trigger] acc[i], m);
            if i < init.len() {
                assert(init[i] == acc[i]);
            }
        }
        if dnf_holds(init, m) {
            let i = choose|i: int| 0 <= i < init.len() && clause_holds(#[trigger] init[i], m);
            assert(acc[i] == init[i]);
        }
        if clause_holds(x, m) {
            assert(acc[acc.len() - 1] == x);
        }
    }
}

/// The choices of a clause list hold exactly when the clause list does not.
pub proof fn lemma_holds_choices(cs: Seq<Seq<Disk>>, m: spec_fn(Disk) -> bool)
    requires
        complementary(m),
        proper(cs),
    ensures
        dnf_holds(choices(cs), m) == !dnf_holds(cs, m),
    decreases cs.len(),
{
    if cs.len() == 0 {
        let e = Seq::<Disk>::empty();
        assert(choices(cs) =~= seq![e]);
        assert(clause_holds(choices(cs)[0], m));
    } else {
        let init = cs.drop_last();
        let c = cs.last();
        assert(proper(init)) by {
            assert forall|i: int| #![trigger init[i]] 0 <= i < init.len() implies init[i].len()
                > 0 && (forall|j: int| 0 <= j < init[i].len() ==> !(#[trigger] init[i][j]).sep()) by {
                assert(init[i] == cs[i]);
            }
        }
        assert(c == cs[cs.len() - 1]);
        lemma_holds_choices(init, m);
        lemma_holds_extend(choices(init), c, m);
        lemma_holds_concat(init, seq![c], m);
        assert(init + seq![c] =~= cs);
        if clause_holds(c, m) {
            assert(dnf_holds(seq![c], m)) by {
                assert(seq![c][0] == c);
            }
        }
        if dnf_holds(seq![c], m) {
            let i = choose|i: int| 0 <= i < 1 && clause_holds(#[trigger] seq![c][i], m);
            assert(seq![c][i] == c);
        }
    }
}

/// Extending separator-free partial clauses by complements of a separator-free, non-empty
/// clause gives proper clauses.
pub proof fn lemma_extend_proper(acc: Seq<Seq<Disk>>, c: Seq<Disk>)
    requires
        forall|i: int, j: int|
            0 <= i < acc.len() && 0 <= j < acc[i].len() ==> !(#[trigger] acc[i][j]).sep(),
        forall|j: int| 0 <= j < c.len() ==> !(#[trigger] c[j]).sep(),
    ensures
        proper(extend_choices(acc, c)),
    decreases acc.len(),
{
    if acc.len() > 0 {
        let init = acc.drop_last();
        let x = acc.last();
        assert forall|j: int| 0 <= j < x.len() implies !(#[trigger] x[j]).sep() by {
            assert(x[j] == acc[acc.len() - 1][j]);
        }
        assert forall|i: int, j: int| 0 <= i < init.len() && 0 <= j < init[i].len() implies !(
        #[trigger] init[i][j]).sep() by {
            assert(init[i] == acc[i]);
        }
        lemma_extend_proper(init, c);
        let p = extend_choices(init, c);
        let row = c.map_values(|d: Disk| x.push(d.flipped()));
        let q = p + row;
        assert forall|i: int| #![trigger q[i]] 0 <= i < q.len() implies q[i].len() > 0 && (forall|
            j: int,
        | 0 <= j < q[i].len() ==> !(#[trigger] q[i][j]).sep()) by {
            if i < p.len() {
                assert(q[i] == p[i]);
            } else {
                let t = i - p.len();
                assert(q[i] == x.push(c[t].flipped()));
                lemma_flipped(c[t]);
                assert forall|j: int| 0 <= j < q[i].len() implies !(#[trigger] q[i][j]).sep() by {
                    if j < x.len() {
                        assert(q[i][j] == x[j]);
                    } else {
                        assert(q[i][j] == c[t].flipped());
                    }
                }
            }
        }
    }
}

/// Choosing over a non-empty proper clause list gives a non-empty proper clause list.
pub proof fn lemma_choices_proper(cs: Seq<Seq<Disk>>)
    requires
        proper(cs),
        cs.len() > 0,
    ensures
        proper(choices(cs)),
        choices(cs).len() > 0,
    decreases cs.len(),
{
    let init = cs.drop_last();
    let c = cs.last();
    assert(c == cs[cs.len() - 1]);
    assert(forall|j: int| 0 <= j < c.len() ==> !(#[trigger] c[j]).sep());
    assert(proper(init)) by {
        assert forall|i: int| #![trigger init[i]] 0 <= i < init.len() implies init[i].len() > 0
            && (forall|j: int| 0 <= j < init[i].len() ==> !(#[trigger] init[i][j]).sep()) by {
            assert(init[i] == cs[i]);
        }
    }
    let acc = choices(init);
    if init.len() > 0 {
        lemma_choices_proper(init);
    } else {
        assert(acc =~= seq![Seq::<Disk>::empty()]);
    }
    assert(acc.len() > 0);
    lemma_extend_proper(acc, c);
    let row = c.map_values(|d: Disk| acc.last().push(d.flipped()));
    assert(row.len() > 0);
}

/// A product with no clause on the right has no clause.
pub proof fn lemma_product_empty(a: Seq<Seq<Disk>>, b: Seq<Seq<Disk>>)
    requires
        b.len() == 0,
    ensures
        product(a, b).len() == 0,
    decreases a.len(),
{
    if a.len() > 0 {
        lemma_product_empty(a.drop_last(), b);
    }
}

// ==================== Building blocks ====================

/// Reads the clauses out of a flat disk list.
fn split_clauses(s: &Vec<Disk>) -> (r: Vec<Vec<Disk>>)
    ensures
        vecs_view(r@) == clauses_of(s@),
{
    let mut out: Vec<Vec<Disk>> = Vec::new();
    let mut cur: Vec<Disk> = Vec::new();
    let mut i: usize = 0;
    proof {
        assert(s@.skip(0) =~= s@);
        assert(vecs_view(out@) =~= Seq::<Seq<Disk>>::empty());
        assert(Seq::<Seq<Disk>>::empty() + split_from(s@, seq![]) =~= split_from(s@, seq![]));
    }
    while i < s.len()
        invariant
            i <= s.len(),
            vecs_view(out@) + split_from(s@.skip(i as int), cur@) == split_from(s@, seq![]),
        decreases s.len() - i,
    {
        let ghost before = vecs_view(out@);
        let ghost c = cur@;
        proof {
            assert(s@.skip(i as int).drop_first() =~= s@.skip(i + 1));
            assert(s@.skip(i as int)[0] == s[i as int]);
        }
        if s[i].is_separator() {
            if cur.len() > 0 {
                out.push(cur);
                proof {
                    assert(vecs_view(out@) =~= before + seq![c]);
                }
            } else {
                proof {
                    assert(emit(c) =~= Seq::<Seq<Disk>>::empty());
                    assert(vecs_view(out@) =~= before + emit(c));
                }
            }
            cur = Vec::new();
            proof {
                assert(cur@ =~= Seq::<Disk>::empty());
                assert(vecs_view(out@) =~= before + emit(c));
                assert(split_from(s@.skip(i as int), c) == emit(c) + split_from(s@.skip(i + 1),
                    seq![]));
                assert(vecs_view(out@) + split_from(s@.skip(i + 1), cur@) =~= before
                    + split_from(s@.skip(i as int), c));
            }
        } else {
            cur.push(s[i]);
        }
        i += 1;
    }
    proof {
        assert(s@.skip(i as int) =~= Seq::<Disk>::empty());
    }
    if cur.len() > 0 {
        let ghost before = vecs_view(out@);
        let ghost c = cur@;
        out.push(cur);
        proof {
            assert(vecs_view(out@) =~= before + seq![c]);
        }
    } else {
        proof {
            assert(vecs_view(out@) =~= vecs_view(out@) + emit(cur@));
        }
    }
    out
}

/// Appends `src` to `out`.
fn append_disks(out: &mut Vec<Disk>, src: &Vec<Disk>)
    ensures
        final(out)@ == old(out)@ + src@,
{
    let mut i: usize = 0;
    while i < src.len()
        invariant
            i <= src.len(),
            out@ == old(out)@ + src@.take(i as int),
        decreases src.len() - i,
    {
        proof {
            assert(src@.take(i + 1) =~= src@.take(i as int).push(src@[i as int]));
        }
        out.push(src[i]);
        i += 1;
    }
    proof {
        assert(src@.take(src.len() as int) =~= src@);
    }
}

/// The all-zero separator.
fn zero_disk() -> (r: Disk)
    ensures
        r == separator(),
{
    Disk { a: 0, bx: 0, by: 0, c: 0 }
}

/// One step of the joined encoding: a separator, unless first, then the clause.
proof fn lemma_joined_step(cs: Seq<Seq<Disk>>, i: int)
    requires
        0 <= i < cs.len(),
    ensures
        joined(cs.take(i + 1)) == (if i == 0 {
            cs[i]
        } else {
            joined(cs.take(i)).push(separator()) + cs[i]
        }),
{
    let t = cs.take(i + 1);
    assert(t.drop_last() =~= cs.take(i));
    assert(t.last() == cs[i]);
    if i == 0 {
        assert(cs.take(0) =~= Seq::<Seq<Disk>>::empty());
        assert(terminated(Seq::<Seq<Disk>>::empty()) =~= Seq::<Disk>::empty());
        assert(terminated(t) =~= cs[i].push(separator()));
        assert(terminated(t).drop_last() =~= cs[i]);
    } else {
        let p = terminated(cs.take(i));
        assert(p.len() > 0 && p.last() == separator()) by {
            let q = cs.take(i);
            assert(p == terminated(q.drop_last()) + q.last().push(separator()));
        }
        assert(p =~= p.drop_last().push(separator()));
        assert(terminated(t) =~= p + cs[i].push(separator()));
        assert(terminated(t).drop_last() =~= p + cs[i]);
    }
}

/// The clauses with a separator between each two.
fn flatten(cs: &Vec<Vec<Disk>>) -> (r: Vec<Disk>)
    ensures
        r@ == joined(vecs_view(cs@)),
{
    let ghost vc = vecs_view(cs@);
    let mut out: Vec<Disk> = Vec::new();
    let mut i: usize = 0;
    proof {
        assert(vc.take(0) =~= Seq::<Seq<Disk>>::empty());
    }
    while i < cs.len()
        invariant
            i <= cs.len(),
            vc == vecs_view(cs@),
            out@ == joined(vc.take(i as int)),
        decreases cs.len() - i,
    {
        assert(cs@[i as int]@ == vc[i as int]);
        proof {
            lemma_joined_step(vc, i as int);
        }
        if i > 0 {
            out.push(zero_disk());
        }
        append_disks(&mut out, &cs[i]);
        i += 1;
    }
    proof {
        assert(vc.take(cs.len() as int) =~= vc);
    }
    out
}

/// The joined encoding of the product of `a` and `b`, `a`-major.
fn joined_product(a: &Vec<Vec<Disk>>, b: &Vec<Vec<Disk>>) -> (r: Vec<Disk>)
    ensures
        r@ == joined(product(vecs_view(a@), vecs_view(b@))),
{
    let ghost va = vecs_view(a@);
    let ghost vb = vecs_view(b@);
    let mut out: Vec<Disk> = Vec::new();
    let mut i: usize = 0;
    let mut started = false;
    proof {
        assert(va.take(0) =~= Seq::<Seq<Disk>>::empty());
        assert(product(va.take(0), vb) =~= Seq::<Seq<Disk>>::empty());
    }
    while i < a.len()
        invariant
            i <= a.len(),
            va == vecs_view(a@),
            vb == vecs_view(b@),
            started == (product(va.take(i as int), vb).len() > 0),
            out@ == joined(product(va.take(i as int), vb)),
        decreases a.len() - i,
    {
        let ghost xi = va[i as int];
        let mut j: usize = 0;
        proof {
            assert(vb.take(0).map_values(|y: Seq<Disk>| xi + y) =~= Seq::<Seq<Disk>>::empty());
            assert(product(va.take(i as int), vb) + vb.take(0).map_values(|y: Seq<Disk>| xi + y)
                =~= product(va.take(i as int), vb));
        }
        while j < b.len()
            invariant
                i < a.len(),
                j <= b.len(),
                va == vecs_view(a@),
                vb == vecs_view(b@),
                xi == va[i as int],
                started == ((product(va.take(i as int), vb) + vb.take(j as int).map_values(
                    |y: Seq<Disk>| xi + y,
                )).len() > 0),
                out@ == joined(product(va.take(i as int), vb) + vb.take(j as int).map_values(
                    |y: Seq<Disk>| xi + y,
                )),
            decreases b.len() - j,
        {
            let ghost p = product(va.take(i as int), vb) + vb.take(j as int).map_values(
                |y: Seq<Disk>| xi + y,
            );
            let ghost c = xi + vb[j as int];
            let ghost p2 = product(va.take(i as int), vb) + vb.take(j + 1).map_values(
                |y: Seq<Disk>| xi + y,
            );
            proof {
                assert(vb.take(j + 1).map_values(|y: Seq<Disk>| xi + y) =~= vb.take(
                    j as int,
                ).map_values(|y: Seq<Disk>| xi + y).push(c));
                assert(p2 =~= p.push(c));
                assert(p2.take(p.len() as int) =~= p);
                assert(p2.take(p.len() as int + 1) =~= p2);
                lemma_joined_step(p2, p.len() as int);
            }
            assert(a@[i as int]@ == xi);
            assert(b@[j as int]@ == vb[j as int]);
            if started {
                out.push(zero_disk());
            }
            append_disks(&mut out, &a[i]);
            append_disks(&mut out, &b[j]);
            proof {
                assert(out@ =~= joined(p2));
            }
            started = true;
            j += 1;
        }
        proof {
            assert(vb.take(b.len() as int) =~= vb);
            assert(va.take(i + 1).drop_last() =~= va.take(i as int));
            assert(va.take(i + 1).last() == xi);
        }
        i += 1;
    }
    proof {
        assert(va.take(a.len() as int) =~= va);
    }
    out
}

/// The clauses of `¬(c1 ∨ c2 ∨ …)` for the clauses `cs`.
fn complemented_choices(cs: &Vec<Vec<Disk>>) -> (r: Vec<Vec<Disk>>)
    ensures
        vecs_view(r@) == choices(vecs_view(cs@)),
{
    let ghost vc = vecs_view(cs@);
    let mut accum: Vec<Vec<Disk>> = Vec::new();
    accum.push(Vec::new());
    let mut k: usize = 0;
    proof {
        assert(vc.take(0) =~= Seq::<Seq<Disk>>::empty());
        assert(vecs_view(accum@) =~= seq![Seq::<Disk>::empty()]);
    }
    while k < cs.len()
        invariant
            k <= cs.len(),
            vc == vecs_view(cs@),
            vecs_view(accum@) == choices(vc.take(k as int)),
        decreases cs.len() - k,
    {
        let clause = &cs[k];
        let ghost c = clause@;
        let ghost acc = vecs_view(accum@);
        assert(vc[k as int] == c);
        let mut next: Vec<Vec<Disk>> = Vec::new();
        let mut p: usize = 0;
        proof {
            assert(acc.take(0) =~= Seq::<Seq<Disk>>::empty());
            assert(vecs_view(next@) =~= extend_choices(acc.take(0), c));
        }
        while p < accum.len()
            invariant
                p <= accum.len(),
                acc == vecs_view(accum@),
                c == clause@,
                vecs_view(next@) == extend_choices(acc.take(p as int), c),
            decreases accum.len() - p,
        {
            let ghost x = acc[p as int];
            assert(accum@[p as int]@ == x);
            let mut j: usize = 0;
            proof {
                assert(c.take(0).map_values(|d: Disk| x.push(d.flipped())) =~= Seq::<
                    Seq<Disk>,
                >::empty());
                assert(vecs_view(next@) =~= extend_choices(acc.take(p as int), c) + c.take(
                    0,
                ).map_values(|d: Disk| x.push(d.flipped())));
            }
            while j < clause.len()
                invariant
                    p < accum.len(),
                    j <= clause.len(),
                    acc == vecs_view(accum@),
                    x == acc[p as int],
                    c == clause@,
                    vecs_view(next@) == extend_choices(acc.take(p as int), c) + c.take(
                        j as int,
                    ).map_values(|d: Disk| x.push(d.flipped())),
                decreases clause.len() - j,
            {
                let lit = clause[j].negate();
                let mut combined: Vec<Disk> = Vec::new();
                append_disks(&mut combined, &accum[p]);
                combined.push(lit);
                let ghost before = vecs_view(next@);
                next.push(combined);
                proof {
                    assert(combined@ =~= x.push(c[j as int].flipped()));
                    assert(vecs_view(next@) =~= before.push(x.push(c[j as int].flipped())));
                    assert(c.take(j + 1).map_values(|d: Disk| x.push(d.flipped())) =~= c.take(
                        j as int,
                    ).map_values(|d: Disk| x.push(d.flipped())).push(x.push(c[j as int].flipped())));
                }
                j += 1;
            }
            proof {
                assert(c.take(clause.len() as int) =~= c);
                assert(acc.take(p + 1).drop_last() =~= acc.take(p as int));
                assert(acc.take(p + 1).last() == x);
            }
            p += 1;
        }
        proof {
            assert(acc.take(accum.len() as int) =~= acc);
            assert(vc.take(k + 1).drop_last() =~= vc.take(k as int));
            assert(vc.take(k + 1).last() == c);
        }
        accum = next;
        k += 1;
    }
    proof {
        assert(vc.take(cs.len() as int) =~= vc);
    }
    accum
}

// ==================== The sketch ====================

/// A region of the plane as a flat DNF of disks (see the module doc).
#[derive(Clone, Debug, Default)]
pub struct Sketch(pub Vec<Disk>);

impl Sketch {
    /// The clauses that this sketch encodes.
    pub open spec fn clause_list(&self) -> Seq<Seq<Disk>> {
        clauses_of(self.0@)
    }

    /// Whether a point lies in the region, `m(d)` saying whether it lies in disk `d`.
    pub open spec fn holds(&self, m: spec_fn(Disk) -> bool) -> bool {
        dnf_holds(self.clause_list(), m)
    }

    /// The clauses of this sketch, as vectors.
    pub fn clauses(&self) -> (r: Vec<Vec<Disk>>)
        ensures
            vecs_view(r@) == self.clause_list(),
            proper(self.clause_list()),
    {
        proof {
            lemma_split_proper(self.0@, seq![]);
        }
        split_clauses(&self.0)
    }

    /// `self ∪ b`: the two lists with a separator between them. The empty sketch is the
    /// unit of union.
    pub fn union(self, b: Sketch) -> (r: Sketch)
        ensures
            r.0@ == (if self.0@.len() == 0 {
                b.0@
            } else if b.0@.len() == 0 {
                self.0@
            } else {
                self.0@.push(separator()) + b.0@
            }),
            r.clause_list() == self.clause_list() + b.clause_list(),
            forall|m: spec_fn(Disk) -> bool| #[trigger] r.holds(m) == (self.holds(m) || b.holds(m)),
    {
        let ghost a0 = self.0@;
        let ghost b0 = b.0@;
        proof {
            assert(clauses_of(Seq::<Disk>::empty()) =~= Seq::<Seq<Disk>>::empty());
        }
        if self.0.len() == 0 {
            proof {
                assert(self.clause_list() =~= Seq::<Seq<Disk>>::empty());
                assert(self.clause_list() + b.clause_list() =~= b.clause_list());
                assert forall|m: spec_fn(Disk) -> bool| #[trigger] b.holds(m) == (self.holds(m)
                    || b.holds(m)) by {
                    lemma_holds_concat(self.clause_list(), b.clause_list(), m);
                }
            }
            return b;
        }
        if b.0.len() == 0 {
            proof {
                assert(b.clause_list() =~= Seq::<Seq<Disk>>::empty());
                assert(self.clause_list() + b.clause_list() =~= self.clause_list());
                assert forall|m: spec_fn(Disk) -> bool| #[trigger] self.holds(m) == (self.holds(m)
                    || b.holds(m)) by {
                    lemma_holds_concat(self.clause_list(), b.clause_list(), m);
                }
            }
            return self;
        }
        let mut v = self.0;
        v.push(zero_disk());
        let mut w = b.0;
        v.append(&mut w);
        let r = Sketch(v);
        proof {
            assert(r.0@ =~= a0.push(separator()) + b0);
            lemma_clauses_join(a0, b0);
            assert forall|m: spec_fn(Disk) -> bool| #[trigger] r.holds(m) == (dnf_holds(
                clauses_of(a0),
                m,
            ) || dnf_holds(clauses_of(b0), m)) by {
                lemma_holds_concat(clauses_of(a0), clauses_of(b0), m);
            }
        }
        r
    }

    /// `self ∩ b`: every clause of `self` joined with every clause of `b`. The empty sketch
    /// absorbs.
    pub fn intersect(self, b: Sketch) -> (r: Sketch)
        ensures
            r.0@ == (if self.clause_list().len() == 0 || b.clause_list().len() == 0 {
                Seq::<Disk>::empty()
            } else {
                joined(product(self.clause_list(), b.clause_list()))
            }),
            r.clause_list() == product(self.clause_list(), b.clause_list()),
            forall|m: spec_fn(Disk) -> bool| #[trigger] r.holds(m) == (self.holds(m) && b.holds(m)),
    {
        let ca = self.clauses();
        let cb = b.clauses();
        let ghost pa = self.clause_list();
        let ghost pb = b.clause_list();
        proof {
            assert forall|m: spec_fn(Disk) -> bool| #[trigger] dnf_holds(product(pa, pb), m) == (
            dnf_holds(pa, m) && dnf_holds(pb, m)) by {
                lemma_holds_product(pa, pb, m);
            }
            assert(clauses_of(Seq::<Disk>::empty()) =~= Seq::<Seq<Disk>>::empty());
        }
        if ca.len() == 0 || cb.len() == 0 {
            proof {
                if pa.len() == 0 {
                    assert(product(pa, pb) =~= Seq::<Seq<Disk>>::empty());
                } else {
                    lemma_product_empty(pa, pb);
                    assert(product(pa, pb) =~= Seq::<Seq<Disk>>::empty());
                }
            }
            return Sketch(Vec::new());
        }
        let out = joined_product(&ca, &cb);
        proof {
            lemma_product_proper(pa, pb);
            lemma_split_joined(product(pa, pb));
        }
        Sketch(out)
    }

    /// `¬self`, by De Morgan: one complemented disk picked from each clause, in every
    /// combination. The complement of the empty sketch, the whole plane, has no encoding:
    /// the result is then empty.
    pub fn complement(self) -> (r: Sketch)
        ensures
            r.0@ == (if self.clause_list().len() == 0 {
                Seq::<Disk>::empty()
            } else {
                joined(choices(self.clause_list()))
            }),
            r.clause_list() == complemented(self.clause_list()),
            forall|m: spec_fn(Disk) -> bool|
                complementary(m) && self.clause_list().len() > 0 ==> #[trigger] r.holds(m)
                    == !self.holds(m),
    {
        let cs = self.clauses();
        let ghost pc = self.clause_list();
        if cs.len() == 0 {
            proof {
                assert(clauses_of(Seq::<Disk>::empty()) =~= Seq::<Seq<Disk>>::empty());
            }
            return Sketch(Vec::new());
        }
        let accum = complemented_choices(&cs);
        let out = flatten(&accum);
        proof {
            lemma_choices_proper(pc);
            lemma_split_joined(choices(pc));
            assert forall|m: spec_fn(Disk) -> bool| complementary(m) implies #[trigger] dnf_holds(
                choices(pc),
                m,
            ) == !dnf_holds(pc, m) by {
                lemma_holds_choices(pc, m);
            }
        }
        Sketch(out)
    }

    /// `self - b = self ∩ ¬b`. When `b` has no clause it is the empty region, `¬b` is the
    /// whole plane and the result is `self`.
    pub fn subtract(self, b: Sketch) -> (r: Sketch)
        ensures
            b.clause_list().len() == 0 ==> r.0@ == self.0@,
            b.clause_list().len() > 0 ==> r.0@ == (if self.clause_list().len() == 0 {
                Seq::<Disk>::empty()
            } else {
                joined(product(self.clause_list(), choices(b.clause_list())))
            }),
            forall|m: spec_fn(Disk) -> bool|
                b.clause_list().len() == 0 ==> #[trigger] r.holds(m) == self.holds(m),
            forall|m: spec_fn(Disk) -> bool|
                complementary(m) && b.clause_list().len() > 0 ==> #[trigger] r.holds(m) == (
                self.holds(m) && !b.holds(m)),
    {
        let cb = b.clauses();
        if cb.len() == 0 {
            return self;
        }
        let ghost pb = b.clause_list();
        let nb = b.complement();
        proof {
            lemma_split_proper(b.0@, seq![]);
            if pb.len() > 0 {
                lemma_choices_proper(pb);
                lemma_split_joined(choices(pb));
            }
        }
        self.intersect(nb)
    }
}

/// De Morgan: the complement of a union is the intersection of the complements, at every
/// point where each disk and its complement split the plane, for sketches with a clause each.
pub proof fn law_de_morgan(a: Sketch, b: Sketch, m: spec_fn(Disk) -> bool)
    requires
        a.clause_list().len() > 0,
        b.clause_list().len() > 0,
        complementary(m),
    ensures
        dnf_holds(complemented(a.clause_list() + b.clause_list()), m) == dnf_holds(
            product(complemented(a.clause_list()), complemented(b.clause_list())),
            m,
        ),
        dnf_holds(complemented(a.clause_list() + b.clause_list()), m) == (!a.holds(m) && !b.holds(m)),
{
    let ca = a.clause_list();
    let cb = b.clause_list();
    lemma_split_proper(a.0@, seq![]);
    lemma_split_proper(b.0@, seq![]);
    assert(proper(ca + cb)) by {
        assert forall|i: int| #![trigger (ca + cb)[i]] 0 <= i < (ca + cb).len() implies (ca
            + cb)[i].len() > 0 && (forall|j: int|
            0 <= j < (ca + cb)[i].len() ==> !(#[trigger] (ca + cb)[i][j]).sep()) by {
            if i < ca.len() {
                assert((ca + cb)[i] == ca[i]);
            } else {
                assert((ca + cb)[i] == cb[i - ca.len()]);
            }
        }
    }
    lemma_holds_choices(ca + cb, m);
    lemma_holds_concat(ca, cb, m);
    lemma_holds_choices(ca, m);
    lemma_holds_choices(cb, m);
    lemma_holds_product(choices(ca), choices(cb), m);
}

/// Complementing twice gives the region back, at every point where each disk and its
/// complement split the plane.
pub proof fn law_double_complement(s: Sketch, m: spec_fn(Disk) -> bool)
    requires
        complementary(m),
    ensures
        dnf_holds(complemented(complemented(s.clause_list())), m) == s.holds(m),
{
    let cs = s.clause_list();
    if cs.len() == 0 {
        assert(complemented(complemented(cs)) =~= Seq::<Seq<Disk>>::empty());
    } else {
        lemma_split_proper(s.0@, seq![]);
        lemma_choices_proper(cs);
        lemma_holds_choices(cs, m);
        lemma_holds_choices(choices(cs), m);
    }
}


// ==================== Chaining boundary pieces ====================

/// How many pieces are still free.
pub open spec fn free_count(used: Seq<bool>) -> nat
    decreases used.len(),
{
    if used.len() == 0 {
        0
    } else {
        free_count(used.drop_last()) + if used.last() {
            0nat
        } else {
            1nat
        }
    }
}

/// Taking a free piece leaves one fewer free.
pub proof fn lemma_free_take(used: Seq<bool>, i: int)
    requires
        0 <= i < used.len(),
        !used[i],
    ensures
        free_count(used.update(i, true)) + 1 == free_count(used),
    decreases used.len(),
{
    let u2 = used.update(i, true);
    if i == used.len() - 1 {
        assert(u2.drop_last() =~= used.drop_last());
    } else {
        lemma_free_take(used.drop_last(), i);
        assert(u2.drop_last() =~= used.drop_last().update(i, true));
    }
}

/// The lowest index `j >= i` of a free piece that starts at vertex `v`, or the number of
/// pieces when there is none.
pub open spec fn first_free(starts: Seq<usize>, used: Seq<bool>, v: usize, i: int) -> int
    decreases starts.len() - i,
{
    if i < 0 || i >= starts.len() {
        starts.len() as int
    } else if !used[i] && starts[i] == v {
        i
    } else {
        first_free(starts, used, v, i + 1)
    }
}

/// What `first_free` finds is a free piece that starts at `v`, and none comes before it.
pub proof fn lemma_first_free(starts: Seq<usize>, used: Seq<bool>, v: usize, i: int)
    requires
        0 <= i <= starts.len(),
    ensures
        ({
            let r = first_free(starts, used, v, i);
            &&& i <= r <= starts.len()
            &&& r < starts.len() ==> !used[r] && starts[r] == v
            &&& forall|j: int| i <= j < r ==> !(!used[j] && starts[j] == v)
        }),
    decreases starts.len() - i,
{
    if i < starts.len() {
        lemma_first_free(starts, used, v, i + 1);
    }
}

/// The loop that starts at free piece `cur`: the piece is taken, then from its end the
/// lowest-numbered free piece that starts there, and so on until none is left. Returns the
/// pieces of the loop in order and which pieces are taken afterwards.
pub open spec fn chain_from(starts: Seq<usize>, ends: Seq<usize>, used: Seq<bool>, cur: int) -> (
    Seq<usize>,
    Seq<bool>,
)
    decreases free_count(used),
{
    if !(0 <= cur < used.len() && !used[cur]) {
        (Seq::empty(), used)
    } else {
        let taken = used.update(cur, true);
        let nx = first_free(starts, taken, ends[cur], 0);
        proof {
            lemma_free_take(used, cur);
        }
        if nx >= starts.len() {
            (seq![cur as usize], taken)
        } else {
            let rest = chain_from(starts, ends, taken, nx);
            (seq![cur as usize] + rest.0, rest.1)
        }
    }
}

/// The loops that begin at pieces `i` and later, each at the lowest-numbered free piece.
pub open spec fn loops_from(starts: Seq<usize>, ends: Seq<usize>, used: Seq<bool>, i: int) -> Seq<
    Seq<usize>,
>
    decreases starts.len() - i,
{
    if i < 0 || i >= starts.len() {
        Seq::empty()
    } else if used[i] {
        loops_from(starts, ends, used, i + 1)
    } else {
        let c = chain_from(starts, ends, used, i);
        seq![c.0] + loops_from(starts, ends, c.1, i + 1)
    }
}

/// The loops into which the directed pieces `starts[k] -> ends[k]` chain.
pub open spec fn piece_loops(starts: Seq<usize>, ends: Seq<usize>) -> Seq<Seq<usize>> {
    loops_from(starts, ends, Seq::new(starts.len(), |k: int| false), 0)
}

/// Within a loop each piece starts at the vertex where the one before it ends.
pub open spec fn linked(starts: Seq<usize>, ends: Seq<usize>, l: Seq<usize>) -> bool {
    &&& l.len() > 0
    &&& forall|p: int| 0 <= p < l.len() - 1 ==> ends[l[p] as int] == starts[#[trigger] l[p + 1] as int]
}

/// The loop started at a free piece takes that piece and then only free pieces, each once,
/// each starting where the last one ended; afterwards exactly those pieces are taken too.
pub proof fn lemma_chain_from(starts: Seq<usize>, ends: Seq<usize>, used: Seq<bool>, cur: int)
    requires
        used.len() == starts.len(),
        ends.len() == starts.len(),
        starts.len() <= usize::MAX,
        0 <= cur < used.len(),
        !used[cur],
    ensures
        ({
            let (c, after) = chain_from(starts, ends, used, cur);
            &&& linked(starts, ends, c)
            &&& c[0] == cur
            &&& c.no_duplicates()
            &&& after.len() == used.len()
            &&& forall|p: int| 0 <= p < c.len() ==> c[p] < used.len() && !used[c[p] as int]
            &&& forall|k: int| 0 <= k < used.len() ==> after[k] == (used[k] || c.contains(k as usize))
        }),
    decreases free_count(used),
{
    let taken = used.update(cur, true);
    let nx = first_free(starts, taken, ends[cur], 0);
    lemma_free_take(used, cur);
    lemma_first_free(starts, taken, ends[cur], 0);
    let (c, after) = chain_from(starts, ends, used, cur);
    if nx < starts.len() {
        lemma_chain_from(starts, ends, taken, nx);
        let rest = chain_from(starts, ends, taken, nx);
        assert(c =~= seq![cur as usize] + rest.0);
        assert forall|p: int| 0 <= p < c.len() - 1 implies ends[c[p] as int] == starts[#[trigger] c[p + 1] as int] by {
            if p > 0 {
                assert(c[p] == rest.0[p - 1]);
                assert(c[p + 1] == rest.0[p]);
                assert(ends[rest.0[p - 1] as int] == starts[rest.0[(p - 1) + 1] as int]);
            } else {
                assert(c[1] == rest.0[0]);
            }
        }
        assert forall|p: int| 0 <= p < c.len() implies c[p] < used.len() && !used[c[p] as int] by {
            if p > 0 {
                assert(c[p] == rest.0[p - 1]);
                assert(!taken[rest.0[p - 1] as int]);
            }
        }
        assert forall|a: int, b: int| 0 <= a < c.len() && 0 <= b < c.len() && a != b implies c[a] != c[b] by {
            if a > 0 && b > 0 {
                assert(c[a] == rest.0[a - 1]);
                assert(c[b] == rest.0[b - 1]);
            } else if a > 0 {
                assert(c[a] == rest.0[a - 1]);
            } else {
                assert(c[b] == rest.0[b - 1]);
            }
        }
        assert forall|k: int| 0 <= k < used.len() implies after[k] == (used[k] || c.contains(k as usize)) by {
            if rest.0.contains(k as usize) {
                let q = choose|q: int| 0 <= q < rest.0.len() && rest.0[q] == k as usize;
                assert(c[q + 1] == k as usize);
            }
            if c.contains(k as usize) && k != cur {
                let q = choose|q: int| 0 <= q < c.len() && c[q] == k as usize;
                assert(q > 0);
                assert(rest.0[q - 1] == k as usize);
            }
            if k == cur {
                assert(c[0] == k as usize);
            }
        }
    } else {
        assert forall|k: int| 0 <= k < used.len() implies after[k] == (used[k] || c.contains(k as usize)) by {
            if c.contains(k as usize) {
                assert(c[0] == k as usize);
            }
            if k == cur {
                assert(c[0] == k as usize);
            }
        }
    }
}

/// The loops that begin at `i` and later are linked, and between them take every free piece
/// exactly once, provided all pieces before `i` are taken already.
pub proof fn lemma_loops_from(starts: Seq<usize>, ends: Seq<usize>, used: Seq<bool>, i: int)
    requires
        used.len() == starts.len(),
        ends.len() == starts.len(),
        starts.len() <= usize::MAX,
        0 <= i <= starts.len(),
        forall|k: int| 0 <= k < i ==> used[k],
    ensures
        ({
            let ls = loops_from(starts, ends, used, i);
            &&& forall|j: int| 0 <= j < ls.len() ==> linked(starts, ends, #[trigger] ls[j])
            &&& ls.flatten().no_duplicates()
            &&& forall|k: usize| #[trigger] ls.flatten().contains(k) <==> (k < starts.len() && !used[k as int])
        }),
    decreases starts.len() - i,
{
    let ls = loops_from(starts, ends, used, i);
    if i == starts.len() {
        assert(ls =~= Seq::<Seq<usize>>::empty());
        assert(ls.flatten() =~= Seq::<usize>::empty());
        assert forall|k: usize| ls.flatten().contains(k) <==> (k < starts.len() && !used[k as int]) by {
            if k < starts.len() {
                assert(used[k as int]);
            }
        }
    } else if used[i] {
        lemma_loops_from(starts, ends, used, i + 1);
        assert(ls == loops_from(starts, ends, used, i + 1));
    } else {
        lemma_chain_from(starts, ends, used, i);
        let (c, after) = chain_from(starts, ends, used, i);
        assert(c.contains(i as usize)) by {
            assert(c[0] == i as usize);
        }
        lemma_loops_from(starts, ends, after, i + 1);
        let rest = loops_from(starts, ends, after, i + 1);
        assert(ls =~= seq![c] + rest);
        assert(ls.first() == c);
        assert(ls.drop_first() =~= rest);
        let f = ls.flatten();
        let g = rest.flatten();
        assert(f =~= c + g);
        assert forall|j: int| 0 <= j < ls.len() implies linked(starts, ends, #[trigger] ls[j]) by {
            if j > 0 {
                assert(ls[j] == rest[j - 1]);
            }
        }
        assert forall|a: int, b: int| 0 <= a < f.len() && 0 <= b < f.len() && a != b implies f[a] != f[b] by {
            if a < c.len() && b >= c.len() {
                assert(g.contains(f[b]));
                assert(after[f[a] as int]) by {
                    assert(c.contains(f[a]));
                }
            } else if b < c.len() && a >= c.len() {
                assert(g.contains(f[a]));
                assert(after[f[b] as int]) by {
                    assert(c.contains(f[b]));
                }
            } else if a >= c.len() && b >= c.len() {
                assert(f[a] == g[a - c.len()]);
                assert(f[b] == g[b - c.len()]);
            }
        }
        assert forall|k: usize| f.contains(k) <==> (k < starts.len() && !used[k as int]) by {
            if f.contains(k) {
                let q = choose|q: int| 0 <= q < f.len() && f[q] == k;
                if q >= c.len() {
                    assert(g[q - c.len()] == k);
                    assert(g.contains(k));
                } else {
                    assert(c[q] == k);
                }
            }
            if k < starts.len() && !used[k as int] {
                if c.contains(k) {
                    let q = choose|q: int| 0 <= q < c.len() && c[q] == k;
                    assert(f[q] == k);
                } else {
                    assert(!after[k as int]);
                    assert(g.contains(k));
                    let q = choose|q: int| 0 <= q < g.len() && g[q] == k;
                    assert(f[q + c.len()] == k);
                }
            }
        }
    }
}

/// Every piece lands in exactly one loop, and only once, and within each loop every piece
/// starts at the vertex where the one before it ends.
pub proof fn law_pieces_form_loops(starts: Seq<usize>, ends: Seq<usize>)
    requires
        starts.len() == ends.len(),
        starts.len() <= usize::MAX,
    ensures
        forall|j: int|
            0 <= j < piece_loops(starts, ends).len() ==> linked(
                starts,
                ends,
                #[trigger] piece_loops(starts, ends)[j],
            ),
        piece_loops(starts, ends).flatten().no_duplicates(),
        forall|k: usize| #[trigger] piece_loops(starts, ends).flatten().contains(k) <==> k < starts.len(),
{
    let none = Seq::new(starts.len(), |k: int| false);
    lemma_loops_from(starts, ends, none, 0);
    assert forall|k: usize| piece_loops(starts, ends).flatten().contains(k) <==> k < starts.len() by {
        if k < starts.len() {
            assert(!none[k as int]);
        }
    }
}

/// The lowest-numbered free piece that starts at `v`, or `starts.len()` when none does.
fn find_free(starts: &Vec<usize>, used: &Vec<bool>, v: usize) -> (r: usize)
    requires
        used.len() == starts.len(),
    ensures
        r == first_free(starts@, used@, v, 0),
{
    let mut j: usize = 0;
    while j < starts.len()
        invariant
            j <= starts.len(),
            used.len() == starts.len(),
            first_free(starts@, used@, v, 0) == first_free(starts@, used@, v, j as int),
        decreases starts.len() - j,
    {
        if !used[j] && starts[j] == v {
            return j;
        }
        j = j + 1;
    }
    j
}

/// Chains directed boundary pieces `starts[k] -> ends[k]` into loops of piece indices. Each
/// loop begins at the lowest-numbered piece not yet taken and goes on, from the end vertex of
/// the last piece, with the lowest-numbered free piece that starts there, until there is
/// none.
pub fn trace_pieces(starts: &Vec<usize>, ends: &Vec<usize>) -> (r: Vec<Vec<usize>>)
    requires
        starts.len() == ends.len(),
    ensures
        r@.map_values(|l: Vec<usize>| l@) == piece_loops(starts@, ends@),
{
    let n = starts.len();
    let mut used: Vec<bool> = Vec::new();
    while used.len() < n
        invariant
            used.len() <= n,
            forall|k: int| 0 <= k < used.len() ==> !used@[k],
        decreases n - used.len(),
    {
        used.push(false);
    }
    assert(used@ =~= Seq::new(n as nat, |k: int| false));
    let mut out: Vec<Vec<usize>> = Vec::new();
    let mut i: usize = 0;
    while i < n
        invariant
            n == starts.len(),
            n == ends.len(),
            used.len() == n,
            i <= n,
            out@.map_values(|l: Vec<usize>| l@) + loops_from(starts@, ends@, used@, i as int)
                == piece_loops(starts@, ends@),
        decreases n - i,
    {
        if used[i] {
            i = i + 1;
        } else {
            let ghost u0 = used@;
            let mut chain: Vec<usize> = Vec::new();
            let mut cur: usize = i;
            loop
                invariant_except_break
                    0 <= cur < n,
                    !used@[cur as int],
                    chain@ + chain_from(starts@, ends@, used@, cur as int).0 == chain_from(
                        starts@,
                        ends@,
                        u0,
                        i as int,
                    ).0,
                    chain_from(starts@, ends@, used@, cur as int).1 == chain_from(
                        starts@,
                        ends@,
                        u0,
                        i as int,
                    ).1,
                invariant
                    n == starts.len(),
                    n == ends.len(),
                    used.len() == n,
                ensures
                    chain@ == chain_from(starts@, ends@, u0, i as int).0,
                    used@ == chain_from(starts@, ends@, u0, i as int).1,
                decreases free_count(used@),
            {
                let ghost before = used@;
                proof {
                    lemma_free_take(before, cur as int);
                }
                used.set(cur, true);
                chain.push(cur);
                let nx = find_free(starts, &used, ends[cur]);
                proof {
                    lemma_first_free(starts@, used@, ends@[cur as int], 0);
                }
                if nx >= n {
                    break;
                }
                assert(chain@ =~= chain@.drop_last() + seq![cur]);
                cur = nx;
            }
            let ghost before = out@.map_values(|l: Vec<usize>| l@);
            out.push(chain);
            assert(out@.map_values(|l: Vec<usize>| l@) =~= before.push(chain_from(
                starts@,
                ends@,
                u0,
                i as int,
            ).0));
            i = i + 1;
        }
    }
    assert(loops_from(starts@, ends@, used@, i as int) =~= Seq::<Seq<usize>>::empty());
    out
}

} // verus!
