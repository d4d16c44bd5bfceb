//! Interning of scene values: shared materials are stored once and
//! referred to by index.
use vstd::prelude::*;

verus! {

use crate::material::{ColorKind, Material};

/// Whether two materials are the same value, textures compared texel by
/// texel.
pub open spec fn material_eq_spec(a: Material, b: Material) -> bool {
    a.kind == b.kind && match (a.color_kind, b.color_kind) {
        (ColorKind::Solid(ca), ColorKind::Solid(cb)) => ca == cb,
        (
            ColorKind::Texture { width: wa, height: ha, data: da },
            ColorKind::Texture { width: wb, height: hb, data: db },
        ) => wa == wb && ha == hb && da@ == db@,
        _ => false,
    }
}

/// Compares two materials for value equality.
pub fn same_material(a: &Material, b: &Material) -> (r: bool)
    ensures
        r == material_eq_spec(*a, *b),
{
    let kind_eq = material_kind_eq(&a.kind, &b.kind);
    if !kind_eq {
        return false;
    }
    match (&a.color_kind, &b.color_kind) {
        (ColorKind::Solid(ca), ColorKind::Solid(cb)) => *ca == *cb,
        (
            ColorKind::Texture { width: wa, height: ha, data: da },
            ColorKind::Texture { width: wb, height: hb, data: db },
        ) => {
            if *wa != *wb || *ha != *hb {
                return false;
            }
            if da.len() != db.len() {
                proof {
                    assert(da@.len() != db@.len());
                    assert(da@ != db@);
                }
                return false;
            }
            let mut i: usize = 0;
            let mut all_eq = true;
            while all_eq && i < da.len()
                invariant
                    0 <= i <= da@.len(),
                    da@.len() == db@.len(),
                    all_eq ==> forall|k: int| 0 <= k < i ==> da@[k] == db@[k],
                    !all_eq ==> i < da@.len() && da@[i as int] != db@[i as int],
                decreases da@.len() - i, (if all_eq { 1int } else { 0int }),
            {
                if !pixel_eq(&da[i], &db[i]) {
                    all_eq = false;
                } else {
                    i = i + 1;
                }
            }
            proof {
                if all_eq {
                    assert(da@ =~= db@);
                } else {
                    assert(da@ != db@);
                }
            }
            all_eq
        },
        _ => false,
    }
}

/// Compares two pixels for equality.
fn pixel_eq(a: &crate::vec3::Pixel, b: &crate::vec3::Pixel) -> (r: bool)
    ensures
        r == (*a == *b),
{
    a.r == b.r && a.g == b.g && a.b == b.b
}

/// Compares the scattering kinds of two materials.
fn material_kind_eq(a: &crate::material::MaterialKind, b: &crate::material::MaterialKind) -> (r:
    bool)
    ensures
        r == (*a == *b),
{
    *a == *b
}

/// A store of materials in which equal values share one slot.
pub struct Interner(pub Vec<Material>);

impl Interner {
    /// The index of `value` in the store: the first slot holding an equal
    /// material, or a fresh slot at the end.
    pub fn intern(&mut self, value: Material) -> (r: usize)
        ensures
            (exists|i: int|
                0 <= i < old(self).0@.len() && material_eq_spec(
                    #[trigger] old(self).0@[i],
                    value,
                )) ==> {
                &&& final(self).0@ == old(self).0@
                &&& 0 <= r < old(self).0@.len()
                &&& material_eq_spec(old(self).0@[r as int], value)
                &&& forall|i: int| 0 <= i < r ==> !material_eq_spec(#[trigger] old(self).0@[i], value)
            },
            !(exists|i: int|
                0 <= i < old(self).0@.len() && material_eq_spec(
                    #[trigger] old(self).0@[i],
                    value,
                )) ==> {
                &&& r == old(self).0@.len()
                &&& final(self).0@ == old(self).0@.push(value)
            },
    {
        let mut i: usize = 0;
        while i < self.0.len()
            invariant
                0 <= i <= self.0@.len(),
                self.0@ == old(self).0@,
                forall|k: int|
                    0 <= k < i ==> !material_eq_spec(#[trigger] self.0@[k], value),
            decreases self.0@.len() - i,
        {
            if same_material(&self.0[i], &value) {
                return i;
            }
            i = i + 1;
        }
        let r = self.0.len();
        self.0.push(value);
        r
    }
}

} // verus!
