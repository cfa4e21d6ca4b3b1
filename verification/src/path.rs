//! Following a ray through the scene, bounce after bounce.
//!
//! A ray that hits a surface is scattered with an attenuation, or absorbed;
//! a ray that hits nothing escapes to the background. A path is followed for
//! at most `depth + 1` scatterings, after which it counts as exhausted. The
//! walk is generic in the ray and in the attenuation: what happens to a ray
//! is the caller's closure, and so is the colour that a path stands for.
use crate::material::ScatterResult;
use crate::scene::HitResult;
use vstd::prelude::*;

verus! {

/// How a path ended.
#[derive(Debug)]
pub enum PathEnd<R> {
    /// The last ray, given here, hit nothing.
    Escaped(R),
    /// The last ray was absorbed.
    Absorbed,
    /// The path was scattered as often as its depth allows.
    Exhausted,
}

/// A path: the attenuations of its scatterings, the first first, and how it
/// ended.
#[derive(Debug)]
pub struct Path<R, A> {
    /// The attenuation of each scattering, in the order of the scatterings.
    pub attenuations: Vec<A>,
    /// How the path ended.
    pub end: PathEnd<R>,
}

/// The number of scatterings after which a path of depth `depth` is
/// exhausted.
pub open spec fn most_scatterings(depth: int) -> int {
    if depth < 0 {
        0
    } else {
        depth + 1
    }
}

/// A path from `ray` through the rays `rays` with the attenuations
/// `attenuations` and the end `end` is one that `bounce` allows at depth
/// `depth`: each ray but the last was scattered into the next with its
/// attenuation, and the last escaped, was absorbed, or was never followed
/// because the path was exhausted.
pub open spec fn follows<R, A, F: Fn(&R) -> HitResult<ScatterResult<R, A>>>(
    ray: R,
    depth: int,
    bounce: F,
    rays: Seq<R>,
    attenuations: Seq<A>,
    end: PathEnd<R>,
) -> bool {
    &&& rays.len() == attenuations.len() + 1
    &&& rays[0] == ray
    &&& attenuations.len() <= most_scatterings(depth)
    &&& forall|k: int|
        0 <= k < attenuations.len() ==> call_ensures(
            bounce,
            (&rays[k],),
            HitResult::Hit(ScatterResult::Scatter(rays[k + 1], #[trigger] attenuations[k])),
        )
    &&& match end {
        PathEnd::Escaped(last) => {
            &&& attenuations.len() < most_scatterings(depth)
            &&& last == rays.last()
            &&& call_ensures(bounce, (&last,), HitResult::Miss)
        },
        PathEnd::Absorbed => {
            &&& attenuations.len() < most_scatterings(depth)
            &&& call_ensures(bounce, (&rays.last(),), HitResult::Hit(ScatterResult::Absorb))
        },
        PathEnd::Exhausted => attenuations.len() == most_scatterings(depth),
    }
}

/// Follows `ray` through the scene.
///
/// `bounce` is called with the ray, and after each scattering with the ray
/// that was sent on, until a ray escapes or is absorbed, or until the path
/// has been scattered `depth + 1` times. With a negative `depth` it is not
/// called at all, and the path is exhausted from the start.
pub fn trace_path<R, A, F: Fn(&R) -> HitResult<ScatterResult<R, A>>>(ray: R, depth: i64, bounce: &F) -> (path: Path<
    R,
    A,
>)
    requires
        forall|any: R| call_requires(bounce, (&any,)),
    ensures
        exists|rays: Seq<R>|
            follows(ray, depth as int, *bounce, rays, path.attenuations@, path.end),
{
    let mut attenuations: Vec<A> = Vec::new();
    if depth < 0 {
        let path = Path { attenuations, end: PathEnd::Exhausted };
        proof {
            assert(follows(ray, depth as int, *bounce, seq![ray], path.attenuations@, path.end));
        }
        return path;
    }
    let mut current = ray;
    let mut left = depth;
    let ghost mut rays: Seq<R> = seq![ray];
    loop
        invariant
            0 <= left <= depth,
            forall|any: R| call_requires(bounce, (&any,)),
            rays.len() == attenuations@.len() + 1,
            rays[0] == ray,
            rays.last() == current,
            attenuations@.len() == depth - left,
            forall|k: int|
                0 <= k < attenuations@.len() ==> call_ensures(
                    bounce,
                    (&rays[k],),
                    HitResult::Hit(ScatterResult::Scatter(rays[k + 1], #[trigger] attenuations@[k])),
                ),
        decreases left,
    {
        match bounce(&current) {
            HitResult::Hit(ScatterResult::Scatter(next, attenuation)) => {
                proof {
                    rays = rays.push(next);
                }
                attenuations.push(attenuation);
                current = next;
                if left == 0 {
                    let path = Path { attenuations, end: PathEnd::Exhausted };
                    proof {
                        assert(follows(
                            ray,
                            depth as int,
                            *bounce,
                            rays,
                            path.attenuations@,
                            path.end,
                        ));
                    }
                    return path;
                }
                left = left - 1;
            },
            HitResult::Hit(ScatterResult::Absorb) => {
                let path = Path { attenuations, end: PathEnd::Absorbed };
                proof {
                    assert(follows(
                        ray,
                        depth as int,
                        *bounce,
                        rays,
                        path.attenuations@,
                        path.end,
                    ));
                }
                return path;
            },
            HitResult::Miss => {
                let path = Path { attenuations, end: PathEnd::Escaped(current) };
                proof {
                    assert(follows(
                        ray,
                        depth as int,
                        *bounce,
                        rays,
                        path.attenuations@,
                        path.end,
                    ));
                }
                return path;
            },
        }
    }
}

/// A ray that can only miss escapes at once: where `bounce` has no answer
/// for `ray` but a miss, and the depth is not negative, the path has no
/// scattering and ends with `ray` escaped.
pub proof fn lemma_miss_escapes<R, A, F: Fn(&R) -> HitResult<ScatterResult<R, A>>>(
    ray: R,
    depth: int,
    bounce: F,
    rays: Seq<R>,
    attenuations: Seq<A>,
    end: PathEnd<R>,
)
    requires
        depth >= 0,
        follows(ray, depth, bounce, rays, attenuations, end),
        forall|answer: HitResult<ScatterResult<R, A>>| #[trigger]
            call_ensures(bounce, (&ray,), answer) ==> answer is Miss,
    ensures
        attenuations.len() == 0,
        end == PathEnd::Escaped(ray),
{
    if attenuations.len() > 0 {
        assert(call_ensures(bounce, (&rays[0],), HitResult::Hit(ScatterResult::Scatter(rays[1], attenuations[0]))));
    }
    assert(rays.last() == ray);
}

/// A path of negative depth is exhausted before its ray is followed.
pub proof fn lemma_no_depth_no_path<R, A, F: Fn(&R) -> HitResult<ScatterResult<R, A>>>(
    ray: R,
    depth: int,
    bounce: F,
    rays: Seq<R>,
    attenuations: Seq<A>,
    end: PathEnd<R>,
)
    requires
        depth < 0,
        follows(ray, depth, bounce, rays, attenuations, end),
    ensures
        attenuations.len() == 0,
        end == PathEnd::<R>::Exhausted,
{
}

/// A path is scattered at most `depth + 1` times, and a path that is not
/// exhausted was scattered less often.
pub proof fn lemma_path_is_bounded<R, A, F: Fn(&R) -> HitResult<ScatterResult<R, A>>>(
    ray: R,
    depth: int,
    bounce: F,
    rays: Seq<R>,
    attenuations: Seq<A>,
    end: PathEnd<R>,
)
    requires
        follows(ray, depth, bounce, rays, attenuations, end),
    ensures
        attenuations.len() <= most_scatterings(depth),
        end is Exhausted <==> attenuations.len() == most_scatterings(depth),
{
}

} // verus!
