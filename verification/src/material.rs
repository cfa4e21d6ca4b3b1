//! The surfaces and what they do with a ray.
//!
//! A diffuse surface scatters every ray that hits it; a metallic surface
//! reflects the ray, and absorbs it where the reflection would go into the
//! surface. Both weaken what they send on by their albedo. The model is
//! generic in the ray, in the colour and in the roughness: where a scattered
//! ray goes is the caller's closure.
use vstd::prelude::*;

verus! {

/// What a surface does with a ray that hits it.
#[derive(Debug, PartialEq)]
pub enum ScatterResult<R, A> {
    /// The surface sends on the ray given, weakened by the attenuation
    /// given.
    Scatter(R, A),
    /// The surface sends nothing on.
    Absorb,
}

/// A surface.
#[derive(Debug, PartialEq)]
pub enum Material<C, S> {
    /// A matte surface of the colour `albedo`.
    Diffuse { albedo: C },
    /// A metal surface of the colour `albedo`, the rougher the larger
    /// `fuzz`.
    Metallic { albedo: C, fuzz: S },
}

impl<C, S> Material<C, S> {
    /// `result` is what the surface does with a ray, where `diffuse` gives
    /// the scattered ray of a matte surface, and `metallic` gives for a
    /// roughness the reflected ray of a metal surface and whether that ray
    /// leaves the surface.
    pub open spec fn scatters<R, D: Fn() -> R, M: Fn(S) -> (R, bool)>(
        self,
        diffuse: D,
        metallic: M,
        result: ScatterResult<R, C>,
    ) -> bool {
        match self {
            Material::Diffuse { albedo } => exists|ray: R|
                call_ensures(diffuse, (), ray) && result == ScatterResult::Scatter(ray, albedo),
            Material::Metallic { albedo, fuzz } => exists|ray: R, leaves: bool|
                #![trigger call_ensures(metallic, (fuzz,), (ray, leaves))]
                call_ensures(metallic, (fuzz,), (ray, leaves)) && result == if leaves {
                    ScatterResult::Scatter(ray, albedo)
                } else {
                    ScatterResult::<R, C>::Absorb
                },
        }
    }
}

impl<C: Copy, S: Copy> Material<C, S> {
    /// What the surface does with a ray that hits it.
    ///
    /// For a matte surface `diffuse` is called for the scattered ray, which
    /// is sent on. For a metal surface `metallic` is called with the
    /// roughness for the reflected ray and for whether that ray leaves the
    /// surface: it is sent on where it does, and absorbed where it does not.
    /// What is sent on is weakened by the albedo.
    pub fn scatter<R, D: Fn() -> R, M: Fn(S) -> (R, bool)>(&self, diffuse: &D, metallic: &M) -> (r:
        ScatterResult<R, C>)
        requires
            call_requires(diffuse, ()),
            forall|fuzz: S| call_requires(metallic, (fuzz,)),
        ensures
            self.scatters(*diffuse, *metallic, r),
    {
        match self {
            Material::Diffuse { albedo } => {
                let ray = diffuse();
                ScatterResult::Scatter(ray, *albedo)
            },
            Material::Metallic { albedo, fuzz } => {
                let (ray, leaves) = metallic(*fuzz);
                if leaves {
                    ScatterResult::Scatter(ray, *albedo)
                } else {
                    ScatterResult::Absorb
                }
            },
        }
    }
}

/// A matte surface absorbs no ray: it scatters, with its albedo as the
/// attenuation.
pub proof fn lemma_diffuse_scatters<R, C, S, D: Fn() -> R, M: Fn(S) -> (R, bool)>(
    albedo: C,
    diffuse: D,
    metallic: M,
    result: ScatterResult<R, C>,
)
    requires
        (Material::<C, S>::Diffuse { albedo }).scatters(diffuse, metallic, result),
    ensures
        result matches ScatterResult::Scatter(_, attenuation) && attenuation == albedo,
{
}

/// A metal surface absorbs a ray exactly where the reflected ray does not
/// leave the surface: where `metallic` can say only one thing of that, the
/// ray is absorbed if and only if it says that the ray does not leave.
pub proof fn lemma_metallic_absorbs_inward<R, C, S, D: Fn() -> R, M: Fn(S) -> (R, bool)>(
    albedo: C,
    fuzz: S,
    diffuse: D,
    metallic: M,
    result: ScatterResult<R, C>,
    leaves: bool,
)
    requires
        (Material::<C, S>::Metallic { albedo, fuzz }).scatters(diffuse, metallic, result),
        forall|ray: R, answer: bool| #[trigger]
            call_ensures(metallic, (fuzz,), (ray, answer)) ==> answer == leaves,
    ensures
        result is Absorb <==> !leaves,
        result matches ScatterResult::Scatter(_, attenuation) ==> attenuation == albedo,
{
}

} // verus!
