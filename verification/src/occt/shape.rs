//! Results of boolean operations on solids, and how face colours follow them.
//!
//! The geometry backend reports, for a boolean result, its shape and two flat lists of
//! `(new face id, old face id)` pairs: which result faces derive from which faces of
//! the base operand (`from_a`) and of the tool operand (`from_b`). Colours keyed by the
//! old face ids are carried over to the new ones.

use vstd::prelude::*;
use std::collections::HashMap;
use crate::common::error::Error;
use crate::occt::io::{ColorBits, map_of};

verus! {

broadcast use vstd::std_specs::hash::group_hash_axioms;

/// The `k`-th `(new, old)` pair of a flat pair list.
pub open spec fn pair_at(from: Seq<u64>, k: int) -> (u64, u64) {
    (from[2 * k], from[2 * k + 1])
}

/// The colours that the pairs of `from` carry from `cm`: `(new, cm[old])` for each pair
/// whose old id has a colour, in order.
pub open spec fn carried(from: Seq<u64>, cm: Map<u64, ColorBits>, k: nat) -> Seq<(u64, ColorBits)>
    decreases k,
{
    if k == 0 {
        seq![]
    } else {
        let p = pair_at(from, k - 1);
        carried(from, cm, (k - 1) as nat) + if cm.contains_key(p.1) {
            seq![(p.0, cm[p.1])]
        } else {
            seq![]
        }
    }
}

/// The colours of a boolean result: those carried from the base operand, then those
/// carried from the tool operand, the tool's winning where both reach one face.
pub open spec fn merged_colors(
    from_a: Seq<u64>,
    from_b: Seq<u64>,
    cm_a: Map<u64, ColorBits>,
    cm_b: Map<u64, ColorBits>,
) -> Map<u64, ColorBits> {
    map_of(carried(from_a, cm_a, (from_a.len() / 2) as nat) + carried(from_b, cm_b, (from_b.len() / 2) as nat))
}

/// Inserts into `result`, in order, the colours that the pairs of `from` carry from `cm`.
fn carry_colors(result: &mut HashMap<u64, ColorBits>, from: &[u64], cm: &HashMap<u64, ColorBits>, Ghost(
    before,
): Ghost<Seq<(u64, ColorBits)>>)
    requires
        from@.len() % 2 == 0,
        old(result)@ == map_of(before),
    ensures
        final(result)@ == map_of(before + carried(from@, cm@, (from@.len() / 2) as nat)),
{
    let len = from.len();
    let n = len / 2;
    let mut k: usize = 0;
    proof {
        assert(before + carried(from@, cm@, 0) =~= before);
    }
    while k < n
        invariant
            k <= n,
            n == from@.len() / 2,
            2 * n == from@.len(),
            len == from@.len(),
            from@.len() % 2 == 0,
            result@ == map_of(before + carried(from@, cm@, k as nat)),
        decreases n - k,
    {
        let new_id = from[2 * k];
        let old_id = from[2 * k + 1];
        let ghost prev = before + carried(from@, cm@, k as nat);
        match cm.get(&old_id) {
            Some(c) => {
                result.insert(new_id, *c);
                proof {
                    assert(before + carried(from@, cm@, (k + 1) as nat) =~= prev.push((new_id, *c)));
                    assert(prev.push((new_id, *c)).drop_last() =~= prev);
                }
            },
            None => {
                proof {
                    assert(before + carried(from@, cm@, (k + 1) as nat) =~= prev);
                }
            },
        }
        k += 1;
    }
}

/// Merges the operands' colour maps onto a boolean result: each `(new, old)` pair of
/// `from_a` takes `colormap_a[old]`, then each pair of `from_b` takes `colormap_b[old]`.
pub fn merge_colormaps(
    from_a: &[u64],
    from_b: &[u64],
    colormap_a: &HashMap<u64, ColorBits>,
    colormap_b: &HashMap<u64, ColorBits>,
) -> (r: HashMap<u64, ColorBits>)
    requires
        from_a@.len() % 2 == 0,
        from_b@.len() % 2 == 0,
    ensures
        r@ == merged_colors(from_a@, from_b@, colormap_a@, colormap_b@),
{
    let mut result: HashMap<u64, ColorBits> = HashMap::new();
    proof {
        assert(result@ =~= map_of(Seq::<(u64, ColorBits)>::empty()));
    }
    carry_colors(&mut result, from_a, colormap_a, Ghost(Seq::<(u64, ColorBits)>::empty()));
    let ghost ca = carried(from_a@, colormap_a@, (from_a@.len() / 2) as nat);
    proof {
        assert(Seq::<(u64, ColorBits)>::empty() + ca =~= ca);
    }
    carry_colors(&mut result, from_b, colormap_b, Ghost(ca));
    result
}

/// Carries colours from one shape to another whose faces correspond one to one in
/// order: `new_face_ids[i]` takes the colour of `old_face_ids[i]`, for as many faces
/// as both have.
pub fn remap_colormap_by_order(
    old_face_ids: &[u64],
    new_face_ids: &[u64],
    old_colormap: &HashMap<u64, ColorBits>,
) -> (r: HashMap<u64, ColorBits>)
    ensures
        r@ == map_of(remapped(old_face_ids@, new_face_ids@, old_colormap@, min_len(old_face_ids@.len(), new_face_ids@.len()))),
{
    let n = if old_face_ids.len() < new_face_ids.len() {
        old_face_ids.len()
    } else {
        new_face_ids.len()
    };
    let mut colormap: HashMap<u64, ColorBits> = HashMap::new();
    let mut i: usize = 0;
    proof {
        assert(colormap@ =~= map_of(remapped(old_face_ids@, new_face_ids@, old_colormap@, 0)));
    }
    while i < n
        invariant
            i <= n,
            n <= old_face_ids@.len(),
            n <= new_face_ids@.len(),
            colormap@ == map_of(remapped(old_face_ids@, new_face_ids@, old_colormap@, i as nat)),
        decreases n - i,
    {
        let ghost prev = remapped(old_face_ids@, new_face_ids@, old_colormap@, i as nat);
        match old_colormap.get(&old_face_ids[i]) {
            Some(c) => {
                colormap.insert(new_face_ids[i], *c);
                proof {
                    assert(remapped(old_face_ids@, new_face_ids@, old_colormap@, (i + 1) as nat)
                        =~= prev.push((new_face_ids@[i as int], *c)));
                    assert(prev.push((new_face_ids@[i as int], *c)).drop_last() =~= prev);
                }
            },
            None => {
                proof {
                    assert(remapped(old_face_ids@, new_face_ids@, old_colormap@, (i + 1) as nat)
                        =~= prev);
                }
            },
        }
        i += 1;
    }
    colormap
}

/// The smaller of two lengths.
pub open spec fn min_len(a: nat, b: nat) -> nat {
    if a < b {
        a
    } else {
        b
    }
}

/// `(new[i], cm[old[i]])` for the first `k` positions whose old face has a colour.
pub open spec fn remapped(old: Seq<u64>, new: Seq<u64>, cm: Map<u64, ColorBits>, k: nat) -> Seq<
    (u64, ColorBits),
>
    decreases k,
{
    if k == 0 {
        seq![]
    } else {
        let i = k - 1;
        remapped(old, new, cm, i as nat) + if cm.contains_key(old[i]) {
            seq![(new[i], cm[old[i]])]
        } else {
            seq![]
        }
    }
}

// ==================== Boolean result ====================

/// What the geometry backend returns for a boolean operation that succeeded: the
/// result shape and the `(new, old)` face pairs from each operand.
pub struct BooleanShape<H> {
    pub shape: H,
    pub from_a: Vec<u64>,
    pub from_b: Vec<u64>,
}

/// Result of a boolean operation: its solids, and which faces came from which operand.
pub struct Boolean<S> {
    pub solids: Vec<S>,
    from_a: Vec<u64>,
    from_b: Vec<u64>,
}

impl<S> Boolean<S> {
    /// The solids of the result.
    pub closed spec fn solid_vec(&self) -> Vec<S> {
        self.solids
    }

    /// The `(new, old)` pairs for faces of the base operand, flat.
    pub closed spec fn base_pairs(&self) -> Seq<u64> {
        self.from_a@
    }

    /// The `(new, old)` pairs for faces of the tool operand, flat.
    pub closed spec fn tool_pairs(&self) -> Seq<u64> {
        self.from_b@
    }

    /// Assembles a result from its solids and face pairs.
    pub fn from_parts(solids: Vec<S>, from_a: Vec<u64>, from_b: Vec<u64>) -> (r: Self)
        ensures
            r.solid_vec() == solids,
            r.base_pairs() == from_a@,
            r.tool_pairs() == from_b@,
    {
        Boolean { solids, from_a, from_b }
    }

    /// Whether the face with id `face_id` originated from the tool operand.
    pub fn is_tool_face(&self, face_id: u64) -> (r: bool)
        ensures
            r == self.tool_pairs().contains(face_id),
    {
        contains_id(&self.from_b, face_id)
    }

    /// Whether the face with id `face_id` originated from the base operand.
    pub fn is_shape_face(&self, face_id: u64) -> (r: bool)
        ensures
            r == self.base_pairs().contains(face_id),
    {
        contains_id(&self.from_a, face_id)
    }

    /// Union of the base solids and the tool solids. `fuse` runs the backend's fuse on
    /// the two operands, `None` meaning it failed; `decompose` splits the result shape,
    /// carrying the merged colours, into solids.
    pub fn union<H, F, G>(
        fuse: F,
        colormap_a: &HashMap<u64, ColorBits>,
        colormap_b: &HashMap<u64, ColorBits>,
        decompose: G,
    ) -> (r: Result<Self, Error>) where
        F: FnOnce() -> Option<BooleanShape<H>>,
        G: FnOnce(H, HashMap<u64, ColorBits>) -> Vec<S>,

        requires
            fuse.requires(()),
            backend_fits(fuse, decompose),
        ensures
            outcome_of(fuse, colormap_a@, colormap_b@, decompose, r),
    {
        let raw = fuse();
        Self::build_boolean_result(raw, colormap_a, colormap_b, decompose)
    }

    /// The base solids minus the tool solids; `cut` runs the backend's cut.
    pub fn subtract<H, F, G>(
        cut: F,
        colormap_a: &HashMap<u64, ColorBits>,
        colormap_b: &HashMap<u64, ColorBits>,
        decompose: G,
    ) -> (r: Result<Self, Error>) where
        F: FnOnce() -> Option<BooleanShape<H>>,
        G: FnOnce(H, HashMap<u64, ColorBits>) -> Vec<S>,

        requires
            cut.requires(()),
            backend_fits(cut, decompose),
        ensures
            outcome_of(cut, colormap_a@, colormap_b@, decompose, r),
    {
        let raw = cut();
        Self::build_boolean_result(raw, colormap_a, colormap_b, decompose)
    }

    /// The intersection of the base solids and the tool solids; `common` runs the
    /// backend's common.
    pub fn intersect<H, F, G>(
        common: F,
        colormap_a: &HashMap<u64, ColorBits>,
        colormap_b: &HashMap<u64, ColorBits>,
        decompose: G,
    ) -> (r: Result<Self, Error>) where
        F: FnOnce() -> Option<BooleanShape<H>>,
        G: FnOnce(H, HashMap<u64, ColorBits>) -> Vec<S>,

        requires
            common.requires(()),
            backend_fits(common, decompose),
        ensures
            outcome_of(common, colormap_a@, colormap_b@, decompose, r),
    {
        let raw = common();
        Self::build_boolean_result(raw, colormap_a, colormap_b, decompose)
    }

    /// `Err(Boolean)` when the backend failed; otherwise the solids that `decompose`
    /// makes of the result shape with the merged colours, and the face pairs.
    fn build_boolean_result<H, G>(
        raw: Option<BooleanShape<H>>,
        colormap_a: &HashMap<u64, ColorBits>,
        colormap_b: &HashMap<u64, ColorBits>,
        decompose: G,
    ) -> (r: Result<Self, Error>) where G: FnOnce(H, HashMap<u64, ColorBits>) -> Vec<S>,
        requires
            raw matches Some(b) ==> b.from_a@.len() % 2 == 0 && b.from_b@.len() % 2 == 0
                && forall|cm: HashMap<u64, ColorBits>| decompose.requires((b.shape, cm)),
        ensures
            raw is None ==> r == Err::<Self, Error>(Error::Boolean),
            raw matches Some(b) ==> built_from(b, colormap_a@, colormap_b@, decompose, r),
    {
        match raw {
            None => Err(Error::Boolean),
            Some(b) => {
                let BooleanShape { shape, from_a, from_b } = b;
                let colormap = merge_colormaps(from_a.as_slice(), from_b.as_slice(), colormap_a, colormap_b);
                let ghost cm = colormap;
                let ghost sh = shape;
                let solids = decompose(shape, colormap);
                let res = Boolean { solids, from_a, from_b };
                proof {
                    assert(decompose.ensures((sh, cm), res.solid_vec()));
                    assert(cm@ == merged_colors(b.from_a@, b.from_b@, colormap_a@, colormap_b@));
                }
                Ok(res)
            },
        }
    }
}

/// What a successful boolean result is made of: the backend's face pairs, and the
/// solids `decompose` returned for the result shape and the merged colours.
pub open spec fn built_from<S, H, G: FnOnce(H, HashMap<u64, ColorBits>) -> Vec<S>>(
    b: BooleanShape<H>,
    cm_a: Map<u64, ColorBits>,
    cm_b: Map<u64, ColorBits>,
    decompose: G,
    r: Result<Boolean<S>, Error>,
) -> bool {
    r matches Ok(res) && res.base_pairs() == b.from_a@ && res.tool_pairs() == b.from_b@ && exists|
        cm: HashMap<u64, ColorBits>,
    | cm@ == merged_colors(b.from_a@, b.from_b@, cm_a, cm_b) && decompose.ensures(
        (b.shape, cm),
        res.solid_vec(),
    )
}

/// Whatever the backend operation returns has even pair lists and can be decomposed.
pub open spec fn backend_fits<S, H, F: FnOnce() -> Option<BooleanShape<H>>, G: FnOnce(
    H,
    HashMap<u64, ColorBits>,
) -> Vec<S>>(op: F, decompose: G) -> bool {
    forall|raw: Option<BooleanShape<H>>|
        op.ensures((), raw) ==> (raw matches Some(b) ==> b.from_a@.len() % 2 == 0 && b.from_b@.len()
            % 2 == 0 && forall|cm: HashMap<u64, ColorBits>| decompose.requires((b.shape, cm)))
}

/// The result of a boolean operation, for some outcome the backend operation may give:
/// `Err(Boolean)` on failure, otherwise the result built from its shape.
pub open spec fn outcome_of<S, H, F: FnOnce() -> Option<BooleanShape<H>>, G: FnOnce(
    H,
    HashMap<u64, ColorBits>,
) -> Vec<S>>(
    op: F,
    cm_a: Map<u64, ColorBits>,
    cm_b: Map<u64, ColorBits>,
    decompose: G,
    r: Result<Boolean<S>, Error>,
) -> bool {
    exists|raw: Option<BooleanShape<H>>|
        op.ensures((), raw) && (raw is None ==> r == Err::<Boolean<S>, Error>(Error::Boolean)) && (
        raw matches Some(b) ==> built_from(b, cm_a, cm_b, decompose, r))
}

/// Whether `id` occurs in `ids`.
fn contains_id(ids: &Vec<u64>, id: u64) -> (r: bool)
    ensures
        r == ids@.contains(id),
{
    let mut i: usize = 0;
    while i < ids.len()
        invariant
            i <= ids.len(),
            forall|t: int| 0 <= t < i ==> ids@[t] != id,
        decreases ids.len() - i,
    {
        if ids[i] == id {
            return true;
        }
        i += 1;
    }
    false
}

impl<S> From<Boolean<S>> for Vec<S> {
    fn from(r: Boolean<S>) -> (v: Vec<S>) {
        r.solids
    }
}

impl<S> vstd::std_specs::convert::FromSpecImpl<Boolean<S>> for Vec<S> {
    open spec fn obeys_from_spec() -> bool {
        true
    }

    open spec fn from_spec(v: Boolean<S>) -> Self {
        v.solid_vec()
    }
}

} // verus!
