//! Finding the nearest hit: of one primitive, and among the primitives of a
//! scene.
//!
//! A ray may meet a primitive twice, at a nearer and at a farther root. The
//! hit is at the nearer root where that is valid, and at the farther one
//! otherwise: [`nearest_root`].
//!
//! The primitives of a scene are asked one after the other, each with the
//! distance of the nearest hit so far as its bound, so that none has to
//! report a hit that cannot be the nearest: [`closest_hit`]. Where every
//! primitive answers with its own hit exactly when that hit lies within the
//! bound, the scan finds a hit that no hit of any primitive is nearer than:
//! [`lemma_scan_finds_nearest`].
//!
//! Both are generic in the distance, and the scan in the primitive and in
//! what a hit records: which distances are valid, and how a primitive is
//! hit, are the caller's closures.
use vstd::prelude::*;

verus! {

/// What a ray does with a primitive, or with a scene.
#[derive(Debug, PartialEq)]
pub enum HitResult<H> {
    /// The ray hits, with what is given.
    Hit(H),
    /// The ray hits nothing.
    Miss,
}

/// `root` is the choice between the roots `near` and `far` that `valid`
/// allows: `near` where `valid` accepted it, `far` where `valid` refused
/// `near` and accepted `far`, and none where it refused both.
pub open spec fn chosen_root<T, F: Fn(T) -> bool>(near: T, far: T, valid: F, root: Option<T>) -> bool {
    match root {
        Some(t) => {
            ||| t == near && call_ensures(valid, (near,), true)
            ||| t == far && call_ensures(valid, (near,), false) && call_ensures(
                valid,
                (far,),
                true,
            )
        },
        None => call_ensures(valid, (near,), false) && call_ensures(valid, (far,), false),
    }
}

/// Chooses between the two roots of a ray with a primitive: the nearer root
/// where it is valid, or else the farther root where that is valid.
///
/// `valid` is asked about `near` first, and about `far` only where it
/// refused `near`.
pub fn nearest_root<T: Copy, F: Fn(T) -> bool>(near: T, far: T, valid: &F) -> (root: Option<T>)
    requires
        call_requires(valid, (near,)),
        call_requires(valid, (far,)),
    ensures
        chosen_root(near, far, *valid, root),
{
    if valid(near) {
        Some(near)
    } else if valid(far) {
        Some(far)
    } else {
        None
    }
}

/// Where the nearer root is valid, it is the one chosen, whatever holds of
/// the farther root: of two valid roots the smaller is taken.
pub proof fn lemma_nearer_root_wins<T, F: Fn(T) -> bool>(
    near: T,
    far: T,
    valid: F,
    root: Option<T>,
)
    requires
        chosen_root(near, far, valid, root),
        forall|answer: bool| #[trigger] call_ensures(valid, (near,), answer) ==> answer,
    ensures
        root == Some(near),
{
}

/// The bound that the primitive after the first `count` is asked with: the
/// distance of the last hit among the first `count` answers, or `far` where
/// none of them is a hit.
pub open spec fn bound_after<T, H>(far: T, answers: Seq<HitResult<(T, H)>>, count: nat) -> T
    decreases count,
{
    if count == 0 {
        far
    } else {
        match answers[count - 1] {
            HitResult::Hit(hit) => hit.0,
            HitResult::Miss => bound_after(far, answers, (count - 1) as nat),
        }
    }
}

/// The last hit among the first `count` answers.
pub open spec fn last_hit<T, H>(answers: Seq<HitResult<(T, H)>>, count: nat) -> HitResult<(T, H)>
    decreases count,
{
    if count == 0 {
        HitResult::Miss
    } else {
        match answers[count - 1] {
            HitResult::Hit(hit) => HitResult::Hit(hit),
            HitResult::Miss => last_hit(answers, (count - 1) as nat),
        }
    }
}

/// `answers` are what `probe` answered for the primitives `items` in turn,
/// each asked with the bound left by the answers before it.
pub open spec fn scanned<P, T, H, F: Fn(&P, T) -> HitResult<(T, H)>>(
    items: Seq<P>,
    far: T,
    probe: F,
    answers: Seq<HitResult<(T, H)>>,
) -> bool {
    &&& answers.len() == items.len()
    &&& forall|i: int|
        0 <= i < items.len() ==> call_ensures(
            probe,
            (&items[i], bound_after(far, answers, i as nat)),
            #[trigger] answers[i],
        )
}

/// Scans the primitives `items` for the nearest hit that lies within `far`.
///
/// `probe` is called once for each primitive, in order, with the primitive
/// and a bound: `far` at first, and after a hit the distance of that hit. It
/// answers with the distance of a hit and what the hit records, or with a
/// miss. The result is the last hit that was answered.
pub fn closest_hit<P, T: Copy, H, F: Fn(&P, T) -> HitResult<(T, H)>>(
    items: &Vec<P>,
    far: T,
    probe: &F,
) -> (r: HitResult<(T, H)>)
    requires
        forall|i: int, bound: T|
            0 <= i < items@.len() ==> call_requires(probe, (&#[trigger] items@[i], bound)),
    ensures
        exists|answers: Seq<HitResult<(T, H)>>|
            scanned(items@, far, *probe, answers) && r == last_hit(answers, answers.len()),
{
    let mut best: HitResult<(T, H)> = HitResult::Miss;
    let mut bound = far;
    let ghost mut answers: Seq<HitResult<(T, H)>> = Seq::empty();
    let mut i: usize = 0;
    while i < items.len()
        invariant
            i <= items@.len(),
            answers.len() == i,
            bound == bound_after(far, answers, i as nat),
            best == last_hit(answers, i as nat),
            forall|k: int, b: T|
                0 <= k < items@.len() ==> call_requires(probe, (&#[trigger] items@[k], b)),
            forall|k: int|
                0 <= k < i ==> call_ensures(
                    probe,
                    (&items@[k], bound_after(far, answers, k as nat)),
                    #[trigger] answers[k],
                ),
        decreases items@.len() - i,
    {
        let answer = probe(&items[i], bound);
        let ghost before = answers;
        proof {
            answers = answers.push(answer);
            assert forall|k: nat| k <= i implies bound_after(far, answers, k) == bound_after(
                far,
                before,
                k,
            ) by {
                lemma_bound_of_prefix(far, before, answers, k);
            }
            lemma_last_of_prefix(before, answers, i as nat);
        }
        match answer {
            HitResult::Hit((distance, record)) => {
                bound = distance;
                best = HitResult::Hit((distance, record));
            },
            HitResult::Miss => {},
        }
        i = i + 1;
    }
    proof {
        assert(scanned(items@, far, *probe, answers));
    }
    best
}

/// The bound after the first answers depends on those answers only.
proof fn lemma_bound_of_prefix<T, H>(
    far: T,
    a: Seq<HitResult<(T, H)>>,
    b: Seq<HitResult<(T, H)>>,
    count: nat,
)
    requires
        count <= a.len(),
        count <= b.len(),
        forall|k: int| 0 <= k < count ==> a[k] == b[k],
    ensures
        bound_after(far, a, count) == bound_after(far, b, count),
    decreases count,
{
    if count > 0 {
        lemma_bound_of_prefix(far, a, b, (count - 1) as nat);
    }
}

/// The last hit among the first answers depends on those answers only.
proof fn lemma_last_of_prefix<T, H>(a: Seq<HitResult<(T, H)>>, b: Seq<HitResult<(T, H)>>, count: nat)
    requires
        count <= a.len(),
        count <= b.len(),
        forall|k: int| 0 <= k < count ==> a[k] == b[k],
    ensures
        last_hit(a, count) == last_hit(b, count),
    decreases count,
{
    if count > 0 {
        lemma_last_of_prefix(a, b, (count - 1) as nat);
    }
}

/// The primitives of a scene, in the order in which they were added.
#[derive(Debug)]
pub struct HittableList<P> {
    pub vec: Vec<P>,
}

impl<P> View for HittableList<P> {
    type V = Seq<P>;

    /// The primitives, in the order in which they were added.
    open spec fn view(&self) -> Seq<P> {
        self.vec@
    }
}

impl<P> HittableList<P> {
    /// The scene without a primitive.
    pub fn new() -> (list: Self)
        ensures
            list@ == Seq::<P>::empty(),
    {
        Self { vec: Vec::new() }
    }

    /// Adds the primitive `s` to the scene, after those that it holds.
    pub fn add(&mut self, s: P)
        ensures
            final(self)@ == old(self)@.push(s),
    {
        self.vec.push(s);
    }

    /// The nearest hit of the scene that lies within `far`: the primitives
    /// are scanned as [`closest_hit`] scans them.
    pub fn hit<T: Copy, H, F: Fn(&P, T) -> HitResult<(T, H)>>(&self, far: T, probe: &F) -> (r:
        HitResult<(T, H)>)
        requires
            forall|i: int, bound: T|
                0 <= i < self@.len() ==> call_requires(probe, (&#[trigger] self@[i], bound)),
        ensures
            exists|answers: Seq<HitResult<(T, H)>>|
                scanned(self@, far, *probe, answers) && r == last_hit(answers, answers.len()),
    {
        let r = closest_hit(&self.vec, far, probe);
        proof {
            let answers = choose|answers: Seq<HitResult<(T, H)>>|
                scanned(self.vec@, far, *probe, answers) && r == last_hit(answers, answers.len());
            assert(scanned(self@, far, *probe, answers));
        }
        r
    }
}

/// `le` orders the distances: every distance is at most itself, and the order
/// carries over a distance in between.
pub open spec fn orders<T>(le: spec_fn(T, T) -> bool) -> bool {
    &&& forall|a: T| #[trigger] le(a, a)
    &&& forall|a: T, b: T, c: T| #[trigger] le(a, b) && #[trigger] le(b, c) ==> le(a, c)
}

/// `within` tells for each primitive which distances lie within a bound, in
/// keeping with the order `le`: a distance within a bound is at most the
/// bound, it is within every bound that is not smaller, and a distance that
/// is not within a bound is at least the bound. A primitive may count the
/// bound itself as within it, or not.
pub open spec fn bounds<P, T>(within: spec_fn(P, T, T) -> bool, le: spec_fn(T, T) -> bool) -> bool {
    &&& forall|p: P, t: T, b: T| #[trigger] within(p, t, b) ==> le(t, b)
    &&& forall|p: P, t: T, b: T, c: T|
        #[trigger] within(p, t, b) && #[trigger] le(b, c) ==> within(p, t, c)
    &&& forall|p: P, t: T, b: T| #[trigger] within(p, t, b) || le(b, t)
}

/// What a primitive answers when asked with the bound `bound`: its own hit
/// where that lies within the bound, and a miss where it has no hit of its
/// own or its hit lies beyond the bound.
pub open spec fn bounded_hit<P, T, H>(
    item: P,
    bound: T,
    own: spec_fn(P) -> HitResult<(T, H)>,
    within: spec_fn(P, T, T) -> bool,
) -> HitResult<(T, H)> {
    match own(item) {
        HitResult::Hit(hit) => if within(item, hit.0, bound) {
            HitResult::Hit(hit)
        } else {
            HitResult::Miss
        },
        HitResult::Miss => HitResult::Miss,
    }
}

/// `probe` answers for each primitive with the primitive's own hit where that
/// lies within the bound, and with a miss otherwise.
pub open spec fn probes_own_hits<P, T, H, F: Fn(&P, T) -> HitResult<(T, H)>>(
    probe: F,
    own: spec_fn(P) -> HitResult<(T, H)>,
    within: spec_fn(P, T, T) -> bool,
) -> bool {
    forall|item: P, bound: T, answer: HitResult<(T, H)>| #[trigger]
        call_ensures(probe, (&item, bound), answer) ==> answer == bounded_hit(
            item,
            bound,
            own,
            within,
        )
}

/// `hit` is the nearest of the own hits of the first `count` primitives that
/// lie within `far`: it is the own hit of one of them and lies within `far`,
/// and it is at most as far as each of their hits within `far`.
pub open spec fn nearest_of<P, T, H>(
    items: Seq<P>,
    far: T,
    count: nat,
    own: spec_fn(P) -> HitResult<(T, H)>,
    le: spec_fn(T, T) -> bool,
    within: spec_fn(P, T, T) -> bool,
    hit: (T, H),
) -> bool {
    &&& exists|i: int|
        0 <= i < count && #[trigger] bounded_hit(items[i], far, own, within) == HitResult::Hit(
            hit,
        )
    &&& forall|j: int|
        0 <= j < count ==> (#[trigger] bounded_hit(items[j], far, own, within) matches HitResult::Hit(
            other,
        ) ==> le(hit.0, other.0))
}

/// None of the first `count` primitives has a hit of its own within `far`.
pub open spec fn none_within<P, T, H>(
    items: Seq<P>,
    far: T,
    count: nat,
    own: spec_fn(P) -> HitResult<(T, H)>,
    within: spec_fn(P, T, T) -> bool,
) -> bool {
    forall|j: int| 0 <= j < count ==> #[trigger] bounded_hit(items[j], far, own, within) is Miss
}

/// The scan gives what asking every primitive on its own and taking the
/// nearest hit gives: where `probe` answers for each primitive with its own
/// hit exactly when that lies within the bound, the last hit of the scan is
/// the nearest of all the hits within `far`, and the scan ends without a hit
/// only where no primitive has a hit within `far`.
pub proof fn lemma_scan_finds_nearest<P, T, H, F: Fn(&P, T) -> HitResult<(T, H)>>(
    items: Seq<P>,
    far: T,
    probe: F,
    answers: Seq<HitResult<(T, H)>>,
    own: spec_fn(P) -> HitResult<(T, H)>,
    le: spec_fn(T, T) -> bool,
    within: spec_fn(P, T, T) -> bool,
)
    requires
        orders(le),
        bounds(within, le),
        probes_own_hits(probe, own, within),
        scanned(items, far, probe, answers),
    ensures
        match last_hit(answers, answers.len()) {
            HitResult::Hit(hit) => nearest_of(items, far, items.len(), own, le, within, hit),
            HitResult::Miss => none_within(items, far, items.len(), own, within),
        },
{
    assert forall|i: int| 0 <= i < items.len() implies #[trigger] answers[i] == bounded_hit(
        items[i],
        bound_after(far, answers, i as nat),
        own,
        within,
    ) by {
        assert(call_ensures(
            probe,
            (&items[i], bound_after(far, answers, i as nat)),
            answers[i],
        ));
    }
    lemma_scan_prefix(items, far, answers, own, le, within, items.len());
}

/// What [`lemma_scan_finds_nearest`] states, of the first `count` primitives;
/// and the bound after them is the distance of the hit found, or `far`.
proof fn lemma_scan_prefix<P, T, H>(
    items: Seq<P>,
    far: T,
    answers: Seq<HitResult<(T, H)>>,
    own: spec_fn(P) -> HitResult<(T, H)>,
    le: spec_fn(T, T) -> bool,
    within: spec_fn(P, T, T) -> bool,
    count: nat,
)
    requires
        orders(le),
        bounds(within, le),
        answers.len() == items.len(),
        forall|i: int|
            0 <= i < items.len() ==> #[trigger] answers[i] == bounded_hit(
                items[i],
                bound_after(far, answers, i as nat),
                own,
                within,
            ),
        count <= items.len(),
    ensures
        match last_hit(answers, count) {
            HitResult::Hit(hit) => nearest_of(items, far, count, own, le, within, hit)
                && bound_after(far, answers, count) == hit.0,
            HitResult::Miss => none_within(items, far, count, own, within) && bound_after(
                far,
                answers,
                count,
            ) == far,
        },
    decreases count,
{
    if count > 0 {
        let before = (count - 1) as nat;
        lemma_scan_prefix(items, far, answers, own, le, within, before);
        let bound = bound_after(far, answers, before);
        let asked = before as int;
        let item = items[asked];
        assert(answers[asked] == bounded_hit(item, bound, own, within));
        match last_hit(answers, before) {
            HitResult::Hit(old) => {
                let first = choose|i: int|
                    0 <= i < before && #[trigger] bounded_hit(items[i], far, own, within)
                        == HitResult::Hit(old);
                assert(le(old.0, far));
                match answers[asked] {
                    HitResult::Hit(hit) => {
                        assert(within(item, hit.0, bound) && le(bound, far));
                        assert(bounded_hit(item, far, own, within) == HitResult::Hit(hit));
                        assert forall|j: int| 0 <= j < count implies (#[trigger] bounded_hit(
                            items[j],
                            far,
                            own,
                            within,
                        ) matches HitResult::Hit(other) ==> le(hit.0, other.0)) by {
                            if j < before {
                                match bounded_hit(items[j], far, own, within) {
                                    HitResult::Hit(other) => {
                                        assert(le(old.0, other.0));
                                        assert(le(hit.0, old.0));
                                    },
                                    HitResult::Miss => {},
                                }
                            }
                        }
                    },
                    HitResult::Miss => {
                        assert(0 <= first < count);
                        assert forall|j: int| 0 <= j < count implies (#[trigger] bounded_hit(
                            items[j],
                            far,
                            own,
                            within,
                        ) matches HitResult::Hit(other) ==> le(old.0, other.0)) by {
                            if j == asked {
                                match bounded_hit(item, far, own, within) {
                                    HitResult::Hit(other) => {
                                        assert(!within(item, other.0, bound));
                                        assert(le(bound, other.0));
                                    },
                                    HitResult::Miss => {},
                                }
                            }
                        }
                    },
                }
            },
            HitResult::Miss => {
                match answers[asked] {
                    HitResult::Hit(hit) => {
                        assert(bounded_hit(item, far, own, within) == HitResult::Hit(hit));
                        assert forall|j: int| 0 <= j < count implies (#[trigger] bounded_hit(
                            items[j],
                            far,
                            own,
                            within,
                        ) matches HitResult::Hit(other) ==> le(hit.0, other.0)) by {
                            if j < before {
                                assert(bounded_hit(items[j], far, own, within) is Miss);
                            }
                        }
                    },
                    HitResult::Miss => {
                        assert forall|j: int| 0 <= j < count implies #[trigger] bounded_hit(
                            items[j],
                            far,
                            own,
                            within,
                        ) is Miss by {
                            if j < before {
                                assert(bounded_hit(items[j], far, own, within) is Miss);
                            }
                        }
                    },
                }
            },
        }
    }
}

} // verus!
