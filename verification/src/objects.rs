//! Kinds of materials, sampling and intersection modes of the scene objects.
use vstd::prelude::*;
use crate::text::same_text;

verus! {

/// How random directions in a hemisphere are weighted.
#[derive(Debug, Clone, Copy, PartialEq, Eq, Structural)]
pub enum SampleWeighting {
    /// Every direction is equally likely.
    Uniform,
    /// Directions are weighted by the cosine of their angle to the normal.
    Cosine,
}

/// What a ray that hits the back side of a triangle does.
#[derive(Debug, Clone, Copy, PartialEq, Eq, Structural)]
pub enum BacksideIntersection {
    /// The back side is transparent: the hit does not count.
    Ignore,
    /// The ray ends at the back side like at a front side.
    EndRay,
}

/// Whether a hit counts as an intersection in `mode`; `from_front` tells
/// whether the ray hits the side that the triangle's normal points to.
pub open spec fn spec_accepts_hit(mode: BacksideIntersection, from_front: bool) -> bool {
    mode == BacksideIntersection::EndRay || from_front
}

/// Ending rays at back sides accepts every hit that ignoring back sides
/// accepts: it only adds hits.
pub proof fn lemma_end_ray_accepts_more(from_front: bool)
    ensures
        spec_accepts_hit(BacksideIntersection::Ignore, from_front) ==> spec_accepts_hit(
            BacksideIntersection::EndRay,
            from_front,
        ),
{
}

impl BacksideIntersection {
    /// Whether a hit counts as an intersection in this mode; `from_front` tells
    /// whether the ray hits the side that the triangle's normal points to.
    pub fn accepts_hit(&self, from_front: bool) -> (accepted: bool)
        ensures
            accepted == spec_accepts_hit(*self, from_front),
    {
        match self {
            BacksideIntersection::Ignore => from_front,
            BacksideIntersection::EndRay => true,
        }
    }

    /// The mode that the `backside_intersections` configuration value
    /// selects: `"end_ray"` ends rays at back sides, every other value
    /// ignores them.
    pub fn from_config(value: &str) -> (mode: BacksideIntersection)
        ensures
            mode == (if value@ == "end_ray"@ {
                BacksideIntersection::EndRay
            } else {
                BacksideIntersection::Ignore
            }),
    {
        if same_text(value, "end_ray") {
            BacksideIntersection::EndRay
        } else {
            BacksideIntersection::Ignore
        }
    }
}

/// The kinds of surface material of a scene.
#[derive(Debug, Clone, Copy, PartialEq, Eq, Structural)]
pub enum MaterialKind {
    /// Matt material.
    Diffuse,
    /// Specular material.
    Specular,
    /// Combination of matt and specular material.
    SpecularDiffuse,
    /// Matt material that emits light.
    DiffuseLightSource,
}

/// Whether the word `light` or `Light` starts at position `i` of `name`.
pub open spec fn light_word_at(name: Seq<char>, i: int) -> bool {
    &&& 0 <= i
    &&& i + 5 <= name.len()
    &&& (name[i] == 'l' || name[i] == 'L')
    &&& name[i + 1] == 'i'
    &&& name[i + 2] == 'g'
    &&& name[i + 3] == 'h'
    &&& name[i + 4] == 't'
}

/// Whether a material name marks a light source: it contains `light` or `Light`.
pub open spec fn names_light_source(name: Seq<char>) -> bool {
    exists|i: int| light_word_at(name, i)
}

impl MaterialKind {
    /// Whether the material emits light.
    pub fn is_light_source(&self) -> (light: bool)
        ensures
            light == (*self == MaterialKind::DiffuseLightSource),
    {
        match self {
            MaterialKind::DiffuseLightSource => true,
            _ => false,
        }
    }

    /// The kind that a material of a loaded scene gets from its name: a light
    /// source when the name contains `light` or `Light`, diffuse otherwise.
    pub fn from_material_name(name: &str) -> (kind: MaterialKind)
        ensures
            kind == (if names_light_source(name@) {
                MaterialKind::DiffuseLightSource
            } else {
                MaterialKind::Diffuse
            }),
    {
        let len: usize = name.unicode_len();
        let mut i: usize = 0;
        while len >= 5 && i <= len - 5
            invariant
                len == name@.len(),
                i <= len,
                forall|j: int| 0 <= j < i ==> !light_word_at(name@, j),
            decreases len - i,
        {
            let first = name.get_char(i);
            if (first == 'l' || first == 'L') && name.get_char(i + 1) == 'i' && name.get_char(i + 2)
                == 'g' && name.get_char(i + 3) == 'h' && name.get_char(i + 4) == 't' {
                assert(light_word_at(name@, i as int));
                return MaterialKind::DiffuseLightSource;
            }
            i = i + 1;
        }
        assert forall|j: int| !light_word_at(name@, j) by {
            if 0 <= j && j + 5 <= name@.len() {
                assert(j < i);
            }
        }
        MaterialKind::Diffuse
    }
}

} // verus!
