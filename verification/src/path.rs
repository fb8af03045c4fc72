//! Light transport. A state machine decides for one sample which rays are
//! cast, when the path ends and how often its light was halved; `trace`
//! drives it along the rays of a path through the objects of a scene,
//! resolving every ray to its nearest hit.

use vstd::prelude::*;
use vstd::pervasive::unreached;
use crate::color::Color;
use crate::hit::{are_distances, escapes, is_nearest, lemma_nearest_unique, resolve};

verus! {

/// What the intersection resolver reports for one ray.
#[derive(Clone, Copy, Debug, PartialEq, Eq)]
pub enum Encounter {
    /// The ray hits no object.
    Escaped,
    /// The nearest hit is on a surface that shows its own flat colour.
    Flat(Color),
    /// The nearest hit is on a diffuse surface, which scatters the ray.
    Diffuse,
}

/// The light that one sample path carries back to its pixel. `halvings` is
/// the number of diffuse bounces before the path ended: the light is
/// attenuated by one half for each.
#[derive(Clone, Copy, Debug, PartialEq, Eq)]
pub enum Radiance {
    /// The sky gradient along the last ray.
    Sky { halvings: u16 },
    /// The flat colour of the surface that was hit last.
    Surface { color: Color, halvings: u16 },
    /// Nothing: the path reached the bounce limit.
    Absorbed,
}

/// A path that is still under way.
#[derive(Clone, Copy, Debug, PartialEq, Eq)]
pub struct Path {
    bounces: u16,
    max_depth: u16,
}

/// What to do next for a sample.
#[derive(Clone, Copy, Debug, PartialEq, Eq)]
pub enum Step {
    /// Resolve the path's current ray and report the encounter. After a
    /// diffuse encounter the current ray is the scattered one.
    Cast(Path),
    /// The path has ended with this light.
    Done(Radiance),
}

impl Path {
    /// The number of diffuse bounces so far.
    pub closed spec fn spec_bounces(self) -> u16 {
        self.bounces
    }

    /// The largest number of rays that the path may cast.
    pub closed spec fn spec_max_depth(self) -> u16 {
        self.max_depth
    }

    /// The number of diffuse bounces so far.
    #[verifier::when_used_as_spec(spec_bounces)]
    pub fn bounces(self) -> (n: u16)
        ensures
            n == self.spec_bounces(),
    {
        self.bounces
    }

    /// The largest number of rays that the path may cast.
    #[verifier::when_used_as_spec(spec_max_depth)]
    pub fn max_depth(self) -> (n: u16)
        ensures
            n == self.spec_max_depth(),
    {
        self.max_depth
    }

    /// A path under way has cast fewer rays than it may.
    #[verifier::type_invariant]
    pub closed spec fn wf(self) -> bool {
        self.bounces < self.max_depth
    }

    /// The path under way with the given counts.
    pub closed spec fn at(bounces: u16, max_depth: u16) -> Path {
        Path { bounces, max_depth }
    }

    /// The first step of a sample whose path may cast `max_depth` rays.
    pub open spec fn spec_start(max_depth: u16) -> Step {
        if max_depth == 0 {
            Step::Done(Radiance::Absorbed)
        } else {
            Step::Cast(Path::at(0, max_depth))
        }
    }

    /// The step that follows when the current ray's encounter is known.
    pub open spec fn spec_advance(self, encounter: Encounter) -> Step {
        match encounter {
            Encounter::Escaped => Step::Done(Radiance::Sky { halvings: self.bounces() }),
            Encounter::Flat(color) => Step::Done(
                Radiance::Surface { color, halvings: self.bounces() },
            ),
            Encounter::Diffuse => if self.bounces() + 1 < self.max_depth() {
                Step::Cast(Path::at((self.bounces() + 1) as u16, self.max_depth()))
            } else {
                Step::Done(Radiance::Absorbed)
            },
        }
    }

    /// Begins a sample: with no ray to cast the path is absorbed at once,
    /// else its primary ray is cast.
    pub fn start(max_depth: u16) -> (step: Step)
        ensures
            step == Path::spec_start(max_depth),
            step matches Step::Cast(path) ==> path.wf() && path.bounces() == 0 && path.max_depth()
                == max_depth,
    {
        if max_depth == 0 {
            Step::Done(Radiance::Absorbed)
        } else {
            Step::Cast(Path { bounces: 0, max_depth })
        }
    }

    /// Continues the path with the encounter of its current ray. The path
    /// ends with the sky where the ray escaped and with the surface's colour
    /// where it hit a flat surface. On a diffuse surface it bounces: the next
    /// ray is cast if the limit allows one more, else the path is absorbed.
    pub fn advance(self, encounter: Encounter) -> (step: Step)
        ensures
            step == self.spec_advance(encounter),
            step matches Step::Cast(next) ==> next.wf() && next.bounces() == self.bounces() + 1
                && next.max_depth() == self.max_depth(),
    {
        proof {
            use_type_invariant(&self);
        }
        match encounter {
            Encounter::Escaped => Step::Done(Radiance::Sky { halvings: self.bounces }),
            Encounter::Flat(color) => Step::Done(
                Radiance::Surface { color, halvings: self.bounces },
            ),
            Encounter::Diffuse => {
                if self.bounces + 1 < self.max_depth {
                    Step::Cast(Path { bounces: self.bounces + 1, max_depth: self.max_depth })
                } else {
                    Step::Done(Radiance::Absorbed)
                }
            },
        }
    }
}

/// The number of diffuse encounters that `encounters` begins with.
pub open spec fn leading_bounces(encounters: Seq<Encounter>) -> nat
    decreases encounters.len(),
{
    if encounters.len() == 0 || encounters[0] != Encounter::Diffuse {
        0
    } else {
        1 + leading_bounces(encounters.drop_first())
    }
}

/// The light of a path that ends on `encounter` after `halvings` bounces.
pub open spec fn final_light(encounter: Encounter, halvings: nat) -> Option<Radiance> {
    match encounter {
        Encounter::Escaped => Some(Radiance::Sky { halvings: halvings as u16 }),
        Encounter::Flat(color) => Some(Radiance::Surface { color, halvings: halvings as u16 }),
        Encounter::Diffuse => None,
    }
}

/// The light of a sample whose successive rays meet `encounters`, with at
/// most `max_depth` rays cast. The path bounces on every diffuse encounter.
/// It is absorbed if it bounces `max_depth` times; else it ends on the first
/// encounter that is not diffuse, halved once for every bounce before it.
/// `None` means that the path is not over when `encounters` runs out.
pub open spec fn radiance_of(encounters: Seq<Encounter>, max_depth: nat) -> Option<Radiance> {
    let bounces = leading_bounces(encounters);
    if bounces >= max_depth {
        Some(Radiance::Absorbed)
    } else if bounces < encounters.len() {
        final_light(encounters[bounces as int], bounces)
    } else {
        None
    }
}

/// The light that the state machine arrives at when it is fed `encounters`
/// one by one from `step` on, or `None` if they run out before it is done.
pub open spec fn run(step: Step, encounters: Seq<Encounter>) -> Option<Radiance>
    decreases encounters.len(),
{
    match step {
        Step::Done(radiance) => Some(radiance),
        Step::Cast(path) => if encounters.len() == 0 {
            None
        } else {
            run(path.spec_advance(encounters[0]), encounters.drop_first())
        },
    }
}

/// The light that a path under way arrives at, told from its counts.
proof fn lemma_run_from(path: Path, encounters: Seq<Encounter>)
    requires
        path.wf(),
    ensures
        run(Step::Cast(path), encounters) == ({
            let bounces = leading_bounces(encounters);
            if path.bounces() + bounces >= path.max_depth() {
                Some(Radiance::Absorbed)
            } else if bounces < encounters.len() {
                final_light(encounters[bounces as int], (path.bounces() + bounces) as nat)
            } else {
                None
            }
        }),
    decreases encounters.len(),
{
    if encounters.len() > 0 {
        let rest = encounters.drop_first();
        let step = path.spec_advance(encounters[0]);
        assert(run(Step::Cast(path), encounters) == run(step, rest));
        match encounters[0] {
            Encounter::Diffuse => {
                let bounces = leading_bounces(rest);
                assert(leading_bounces(encounters) == 1 + bounces);
                if path.bounces() + 1 < path.max_depth() {
                    let next = Path::at((path.bounces() + 1) as u16, path.max_depth());
                    assert(step == Step::Cast(next));
                    assert(next.bounces() == path.bounces() + 1);
                    lemma_run_from(next, rest);
                    if bounces < rest.len() {
                        assert(rest[bounces as int] == encounters[bounces as int + 1]);
                    }
                } else {
                    assert(step == Step::Done(Radiance::Absorbed));
                }
            },
            _ => {
                assert(leading_bounces(encounters) == 0);
            },
        }
    } else {
        assert(leading_bounces(encounters) == 0);
    }
}

/// The state machine computes the light of a sample: fed the encounters of
/// the rays it asks for, it arrives at `radiance_of`.
pub proof fn lemma_run_is_radiance(max_depth: u16, encounters: Seq<Encounter>)
    ensures
        run(Path::spec_start(max_depth), encounters) == radiance_of(encounters, max_depth as nat),
{
    if max_depth > 0 {
        lemma_run_from(Path::at(0, max_depth), encounters);
    }
}

/// A path is over after at most `max_depth` rays, and its light was halved
/// fewer than `max_depth` times unless it was absorbed.
pub proof fn lemma_path_is_bounded(max_depth: u16, encounters: Seq<Encounter>)
    ensures
        encounters.len() >= max_depth ==> radiance_of(encounters, max_depth as nat) is Some,
        match radiance_of(encounters, max_depth as nat) {
            Some(Radiance::Sky { halvings }) => halvings < max_depth,
            Some(Radiance::Surface { halvings, .. }) => halvings < max_depth,
            _ => true,
        },
{
    lemma_leading_bounces_end(encounters);
}

/// The leading bounces end within the sequence, on an encounter that is not
/// diffuse if on any.
proof fn lemma_leading_bounces_end(encounters: Seq<Encounter>)
    ensures
        leading_bounces(encounters) <= encounters.len(),
        leading_bounces(encounters) < encounters.len() ==> encounters[leading_bounces(
            encounters,
        ) as int] != Encounter::Diffuse,
    decreases encounters.len(),
{
    if encounters.len() > 0 && encounters[0] == Encounter::Diffuse {
        let rest = encounters.drop_first();
        lemma_leading_bounces_end(rest);
        let bounces = leading_bounces(rest);
        if bounces < rest.len() {
            assert(rest[bounces as int] == encounters[bounces as int + 1]);
        }
    }
}

/// What the surface of a hit object does with light.
#[derive(Clone, Copy, Debug, PartialEq, Eq)]
pub enum Surface {
    /// It shows its own flat colour.
    Flat(Color),
    /// It is diffuse and scatters the ray.
    Diffuse,
}

impl Surface {
    /// The encounter of a ray whose nearest hit is on this surface.
    pub open spec fn encounter(self) -> Encounter {
        match self {
            Surface::Flat(color) => Encounter::Flat(color),
            Surface::Diffuse => Encounter::Diffuse,
        }
    }
}

/// What was found for one ray: nothing where it escapes, else the index of
/// the object hit, the key of the hit distance and the object's surface.
pub type Found = Option<(usize, u64, Surface)>;

/// The encounter that was found.
pub open spec fn encounter_of(found: Found) -> Encounter {
    match found {
        Some((_, _, surface)) => surface.encounter(),
        None => Encounter::Escaped,
    }
}

/// The encounters among what was found for the rays of a path.
pub open spec fn encounters_of(found: Seq<Found>) -> Seq<Encounter> {
    Seq::new(found.len(), |i: int| encounter_of(found[i]))
}

/// Whether `meet` can be asked about `ray` and every object.
pub open spec fn can_meet<O, R, M>(objects: Seq<O>, meet: &M, ray: &R) -> bool where
    M: Fn(&O, &R) -> Option<u64>,
 {
    forall|i: int| 0 <= i < objects.len() ==> meet.requires((&#[trigger] objects[i], ray))
}

/// Whether `found` is what the resolver finds for `ray`: with the distance
/// keys that `meet` gives for the objects, nothing where the ray escapes,
/// and else the nearest hit, its key, and what `surface` gives for the
/// object hit.
pub open spec fn is_found<O, R, M, K>(
    objects: Seq<O>,
    meet: &M,
    surface: &K,
    ray: &R,
    found: Found,
) -> bool where M: Fn(&O, &R) -> Option<u64>, K: Fn(&O, &R) -> Surface {
    exists|distances: Seq<Option<u64>>|
        #![trigger are_distances(objects, ray, meet, distances)]
        are_distances(objects, ray, meet, distances) && match found {
            Some((k, key, kind)) => is_nearest(distances, k as int) && distances[k as int] == Some(
                key,
            ) && surface.ensures((&objects[k as int], ray), kind),
            None => escapes(distances),
        }
}

/// Whether `rays` and `found` record a path from `primary` through the
/// objects: what was found for each ray is what the resolver finds for it,
/// the first ray is `primary`, and each further ray is what `scatter` gives
/// for the ray before it, the object it hit and the key of the hit, which
/// is on a diffuse surface.
pub open spec fn is_walk<O, R, M, K, G>(
    objects: Seq<O>,
    meet: &M,
    surface: &K,
    scatter: &G,
    primary: R,
    rays: Seq<R>,
    found: Seq<Found>,
) -> bool where
    M: Fn(&O, &R) -> Option<u64>,
    K: Fn(&O, &R) -> Surface,
    G: Fn(&O, &R, u64) -> R,
 {
    &&& rays.len() == found.len()
    &&& rays.len() > 0 ==> rays[0] == primary
    &&& forall|i: int|
        0 <= i < rays.len() ==> is_found(objects, meet, surface, &rays[i], #[trigger] found[i])
    &&& forall|i: int|
        0 <= i < rays.len() - 1 ==> match #[trigger] found[i] {
            Some((k, key, kind)) => kind == Surface::Diffuse && 0 <= k < objects.len()
                && scatter.ensures((&objects[k as int], &rays[i], key), rays[i + 1]),
            None => false,
        }
}

/// Whether `end` is the end of a path from `primary` through the objects:
/// the light of a walk of at most `max_depth` rays, and the walk's last
/// ray, or `primary` where no ray was resolved.
pub open spec fn is_traced<O, R, M, K, G>(
    objects: Seq<O>,
    meet: &M,
    surface: &K,
    scatter: &G,
    primary: R,
    max_depth: u16,
    end: (Radiance, R),
) -> bool where
    M: Fn(&O, &R) -> Option<u64>,
    K: Fn(&O, &R) -> Surface,
    G: Fn(&O, &R, u64) -> R,
 {
    exists|rays: Seq<R>, found: Seq<Found>|
        #![trigger is_walk(objects, meet, surface, scatter, primary, rays, found)]
        {
            &&& is_walk(objects, meet, surface, scatter, primary, rays, found)
            &&& rays.len() <= max_depth
            &&& radiance_of(encounters_of(found), max_depth as nat) == Some(end.0)
            &&& end.1 == if rays.len() == 0 {
                primary
            } else {
                rays.last()
            }
        }
}

/// Whether the path from `primary` can be followed: `meet` can be asked
/// about the primary ray and about every ray that `scatter` gives, `surface`
/// about every object and ray for which `meet` gives a key, and `scatter`
/// about every such hit on a surface that `surface` calls diffuse.
pub open spec fn can_trace<O, R, M, K, G>(
    objects: Seq<O>,
    meet: &M,
    surface: &K,
    scatter: &G,
    primary: &R,
) -> bool where
    M: Fn(&O, &R) -> Option<u64>,
    K: Fn(&O, &R) -> Surface,
    G: Fn(&O, &R, u64) -> R,
 {
    &&& can_meet(objects, meet, primary)
    &&& forall|k: int, ray: R, key: u64, next: R|
        0 <= k < objects.len() && #[trigger] scatter.ensures((&objects[k], &ray, key), next)
            ==> can_meet(objects, meet, &next)
    &&& forall|k: int, ray: R, key: u64|
        0 <= k < objects.len() && #[trigger] meet.ensures((&objects[k], &ray), Some(key))
            ==> surface.requires((&objects[k], &ray))
    &&& forall|k: int, ray: R, key: u64|
        #![trigger meet.ensures((&objects[k], &ray), Some(key)), surface.ensures((&objects[k], &ray), Surface::Diffuse)]
        0 <= k < objects.len() && meet.ensures((&objects[k], &ray), Some(key))
            && surface.ensures((&objects[k], &ray), Surface::Diffuse) ==> scatter.requires(
            (&objects[k], &ray, key),
        )
}

/// A sequence that holds diffuse encounters up to a place, and none or
/// another encounter there, begins with that many bounces.
proof fn lemma_leading_bounces_count(encounters: Seq<Encounter>, count: int)
    requires
        0 <= count <= encounters.len(),
        forall|i: int| 0 <= i < count ==> encounters[i] == Encounter::Diffuse,
        count < encounters.len() ==> encounters[count] != Encounter::Diffuse,
    ensures
        leading_bounces(encounters) == count,
    decreases count,
{
    if count > 0 {
        let rest = encounters.drop_first();
        assert forall|i: int| 0 <= i < count - 1 implies rest[i] == Encounter::Diffuse by {
            assert(rest[i] == encounters[i + 1]);
        }
        if count - 1 < rest.len() {
            assert(rest[count - 1] == encounters[count]);
        }
        lemma_leading_bounces_count(rest, count - 1);
    }
}

/// Follows the path of one sample from its primary ray to its end. Every
/// ray is resolved against the objects: `meet` gives the distance keys, the
/// nearest hit is chosen, and `surface` tells what the object hit does with
/// light. The path ends where the ray escapes, where the surface shows a
/// flat colour, or where the limit is reached; else it goes on with the ray
/// that `scatter` gives for the hit. Returns the path's light and its last
/// ray. At most `max_depth` rays are resolved, each one once.
pub fn trace<O, R, M, K, G>(
    objects: &Vec<O>,
    primary: R,
    max_depth: u16,
    meet: &M,
    surface: &K,
    scatter: &G,
) -> (end: (Radiance, R)) where
    M: Fn(&O, &R) -> Option<u64>,
    K: Fn(&O, &R) -> Surface,
    G: Fn(&O, &R, u64) -> R,

    requires
        can_trace(objects@, meet, surface, scatter, &primary),
    ensures
        is_traced(objects@, meet, surface, scatter, primary, max_depth, end),
{
    let mut path = match Path::start(max_depth) {
        Step::Cast(path) => path,
        Step::Done(radiance) => {
            proof {
                let rays = Seq::<R>::empty();
                let found = Seq::<Found>::empty();
                assert(is_walk(objects@, meet, surface, scatter, primary, rays, found));
                assert(leading_bounces(encounters_of(found)) == 0);
            }
            return (radiance, primary);
        },
    };
    let mut ray = primary;
    let ghost mut rays = Seq::<R>::empty();
    let ghost mut found = Seq::<Found>::empty();
    loop
        invariant
            can_trace(objects@, meet, surface, scatter, &primary),
            can_meet(objects@, meet, &ray),
            path.wf(),
            path.max_depth() == max_depth,
            path.bounces() == rays.len(),
            rays.len() == found.len(),
            rays.len() == 0 ==> ray == primary,
            rays.len() > 0 ==> rays[0] == primary,
            forall|i: int|
                0 <= i < rays.len() ==> is_found(
                    objects@,
                    meet,
                    surface,
                    &rays[i],
                    #[trigger] found[i],
                ),
            forall|i: int|
                0 <= i < rays.len() ==> match #[trigger] found[i] {
                    Some((k, key, kind)) => kind == Surface::Diffuse && 0 <= k < objects@.len(),
                    None => false,
                },
            forall|i: int|
                0 <= i < rays.len() - 1 ==> match #[trigger] found[i] {
                    Some((k, key, kind)) => scatter.ensures(
                        (&objects@[k as int], &rays[i], key),
                        rays[i + 1],
                    ),
                    None => false,
                },
            rays.len() > 0 ==> match found.last() {
                Some((k, key, kind)) => scatter.ensures(
                    (&objects@[k as int], &rays.last(), key),
                    ray,
                ),
                None => false,
            },
        decreases max_depth - path.bounces(),
    {
        let hit = resolve(objects, &ray, meet);
        let ghost distances = choose|distances: Seq<Option<u64>>|
            #![trigger are_distances(objects@, &ray, meet, distances)]
            are_distances(objects@, &ray, meet, distances) && match hit {
                Some((k, key)) => is_nearest(distances, k as int) && distances[k as int] == Some(
                    key,
                ),
                None => escapes(distances),
            };
        match hit {
            None => {
                proof {
                    rays = rays.push(ray);
                    found = found.push(None);
                    assert(is_found(objects@, meet, surface, &ray, None));
                }
                match path.advance(Encounter::Escaped) {
                    Step::Done(radiance) => {
                        proof {
                            assert(is_walk(objects@, meet, surface, scatter, primary, rays, found));
                            lemma_leading_bounces_count(encounters_of(found), rays.len() - 1);
                        }
                        return (radiance, ray);
                    },
                    Step::Cast(_) => unreached(),
                }
            },
            Some((k, key)) => {
                assert(meet.ensures((&objects@[k as int], &ray), distances[k as int]));
                let kind = surface(&objects[k], &ray);
                let encounter = match kind {
                    Surface::Flat(color) => Encounter::Flat(color),
                    Surface::Diffuse => Encounter::Diffuse,
                };
                proof {
                    rays = rays.push(ray);
                    found = found.push(Some((k, key, kind)));
                    assert(is_found(objects@, meet, surface, &ray, Some((k, key, kind))));
                }
                match path.advance(encounter) {
                    Step::Cast(next) => {
                        let scattered = scatter(&objects[k], &ray, key);
                        ray = scattered;
                        path = next;
                    },
                    Step::Done(radiance) => {
                        proof {
                            let encounters = encounters_of(found);
                            let last = rays.len() - 1;
                            assert(is_walk(objects@, meet, surface, scatter, primary, rays, found));
                            if encounter == Encounter::Diffuse {
                                lemma_leading_bounces_count(encounters, last + 1);
                            } else {
                                lemma_leading_bounces_count(encounters, last);
                            }
                        }
                        return (radiance, ray);
                    },
                }
            },
        }
    }
}

/// Whether `decided` is how a path ends whose first ray hits a surface of
/// the given kind, with at most `max_depth` rays: on a flat surface with
/// its colour, not halved; on a diffuse surface halved at least once and
/// fewer than `max_depth` times, or absorbed. So where one ray is all that
/// the path may cast, a diffuse first hit ends it absorbed.
pub open spec fn ends_after(kind: Surface, max_depth: u16, decided: Radiance) -> bool {
    match kind {
        Surface::Flat(color) => decided == (Radiance::Surface { color, halvings: 0 }),
        Surface::Diffuse => match decided {
            Radiance::Sky { halvings } => 1 <= halvings < max_depth,
            Radiance::Surface { halvings, .. } => 1 <= halvings < max_depth,
            Radiance::Absorbed => true,
        },
    }
}

/// Whether `end` is decided by the first hit of a path from `primary`,
/// whose distance keys are `distances`: where the ray escapes, the path ends
/// with the sky, not halved, and with `primary` as its last ray; and else it
/// ends as the surface of the nearest object says: of the object with the
/// smallest key, the first registered among those with that key.
pub open spec fn is_decided_by_first_hit<O, R, K>(
    objects: Seq<O>,
    surface: &K,
    primary: R,
    distances: Seq<Option<u64>>,
    max_depth: u16,
    end: (Radiance, R),
) -> bool where K: Fn(&O, &R) -> Surface {
    &&& escapes(distances) ==> end.0 == (Radiance::Sky { halvings: 0 }) && end.1 == primary
    &&& forall|k: int|
        is_nearest(distances, k) ==> exists|kind: Surface|
            #![trigger surface.ensures((&objects[k], &primary), kind)]
            surface.ensures((&objects[k], &primary), kind) && ends_after(kind, max_depth, end.0)
}

/// The first hit decides. Where `meet` gives for the primary ray no keys but
/// `distances`, a path of at least one ray is decided by its first hit.
pub proof fn lemma_first_hit_decides<O, R, M, K, G>(
    objects: Seq<O>,
    meet: &M,
    surface: &K,
    scatter: &G,
    primary: R,
    max_depth: u16,
    end: (Radiance, R),
    distances: Seq<Option<u64>>,
) where M: Fn(&O, &R) -> Option<u64>, K: Fn(&O, &R) -> Surface, G: Fn(&O, &R, u64) -> R
    requires
        is_traced(objects, meet, surface, scatter, primary, max_depth, end),
        max_depth >= 1,
        distances.len() == objects.len(),
        forall|i: int, key: Option<u64>|
            0 <= i < objects.len() && #[trigger] meet.ensures((&objects[i], &primary), key) ==> key
                == distances[i],
    ensures
        is_decided_by_first_hit(objects, surface, primary, distances, max_depth, end),
{
    let (rays, found) = choose|rays: Seq<R>, found: Seq<Found>|
        #![trigger is_walk(objects, meet, surface, scatter, primary, rays, found)]
        {
            &&& is_walk(objects, meet, surface, scatter, primary, rays, found)
            &&& rays.len() <= max_depth
            &&& radiance_of(encounters_of(found), max_depth as nat) == Some(end.0)
            &&& end.1 == if rays.len() == 0 {
                primary
            } else {
                rays.last()
            }
        };
    let encounters = encounters_of(found);
    lemma_leading_bounces_end(encounters);
    let bounces = leading_bounces(encounters);
    if rays.len() == 0 {
        assert(bounces == 0);
    }
    assert(rays.len() >= 1);
    assert(is_found(objects, meet, surface, &rays[0], found[0]));
    let seen = choose|seen: Seq<Option<u64>>|
        #![trigger are_distances(objects, &rays[0], meet, seen)]
        are_distances(objects, &rays[0], meet, seen) && match found[0] {
            Some((k, key, kind)) => is_nearest(seen, k as int) && seen[k as int] == Some(key)
                && surface.ensures((&objects[k as int], &rays[0]), kind),
            None => escapes(seen),
        };
    assert(seen =~= distances) by {
        assert forall|i: int| 0 <= i < seen.len() implies seen[i] == distances[i] by {
            assert(meet.ensures((&objects[i], &primary), seen[i]));
        }
    }
    assert(encounters[0] == encounter_of(found[0]));
    match found[0] {
        None => {
            assert(bounces == 0);
            if rays.len() > 1 {
                assert(found[0] is Some);
            }
            assert forall|k: int| !is_nearest(distances, k) by {
                if 0 <= k < distances.len() {
                    assert(distances[k] is None);
                }
            }
        },
        Some((hit, key, kind)) => {
            assert(distances[hit as int] is Some);
            assert forall|k: int| is_nearest(distances, k) implies exists|kind: Surface|
                #![trigger surface.ensures((&objects[k], &primary), kind)]
                surface.ensures((&objects[k], &primary), kind) && ends_after(
                    kind,
                    max_depth,
                    end.0,
                ) by {
                lemma_nearest_unique(distances, k, hit as int);
                assert(surface.ensures((&objects[k], &primary), kind));
                match kind {
                    Surface::Flat(color) => {
                        assert(bounces == 0);
                    },
                    Surface::Diffuse => {
                        assert(bounces == 1 + leading_bounces(encounters.drop_first()));
                    },
                }
                assert(ends_after(kind, max_depth, end.0));
            }
        },
    }
}

/// Whether the geometry of paths gives one answer at most to each question:
/// `meet` one key at most for an object and a ray, `surface` one kind, and
/// `scatter` one ray for an object, a ray and a key, where the object's
/// surface can be diffuse for the ray at all.
pub open spec fn is_single_valued<O, R, M, K, G>(
    objects: Seq<O>,
    meet: &M,
    surface: &K,
    scatter: &G,
) -> bool where M: Fn(&O, &R) -> Option<u64>, K: Fn(&O, &R) -> Surface, G: Fn(&O, &R, u64) -> R {
    &&& forall|i: int, ray: R, first: Option<u64>, second: Option<u64>|
        #![trigger meet.ensures((&objects[i], &ray), first), meet.ensures((&objects[i], &ray), second)]
        0 <= i < objects.len() && meet.ensures((&objects[i], &ray), first) && meet.ensures(
            (&objects[i], &ray),
            second,
        ) ==> first == second
    &&& forall|i: int, ray: R, first: Surface, second: Surface|
        #![trigger surface.ensures((&objects[i], &ray), first), surface.ensures((&objects[i], &ray), second)]
        0 <= i < objects.len() && surface.ensures((&objects[i], &ray), first) && surface.ensures(
            (&objects[i], &ray),
            second,
        ) ==> first == second
    &&& forall|i: int, ray: R, key: u64, first: R, second: R|
        #![trigger scatter.ensures((&objects[i], &ray, key), first), scatter.ensures((&objects[i], &ray, key), second)]
        0 <= i < objects.len() && surface.ensures((&objects[i], &ray), Surface::Diffuse)
            && scatter.ensures((&objects[i], &ray, key), first) && scatter.ensures(
            (&objects[i], &ray, key),
            second,
        ) ==> first == second
}

/// With a single-valued geometry the resolver finds one thing for a ray.
proof fn lemma_found_is_unique<O, R, M, K, G>(
    objects: Seq<O>,
    meet: &M,
    surface: &K,
    scatter: &G,
    ray: R,
    first: Found,
    second: Found,
) where M: Fn(&O, &R) -> Option<u64>, K: Fn(&O, &R) -> Surface, G: Fn(&O, &R, u64) -> R
    requires
        is_single_valued(objects, meet, surface, scatter),
        is_found(objects, meet, surface, &ray, first),
        is_found(objects, meet, surface, &ray, second),
    ensures
        first == second,
{
    let a = choose|a: Seq<Option<u64>>|
        #![trigger are_distances(objects, &ray, meet, a)]
        are_distances(objects, &ray, meet, a) && match first {
            Some((k, key, kind)) => is_nearest(a, k as int) && a[k as int] == Some(key)
                && surface.ensures((&objects[k as int], &ray), kind),
            None => escapes(a),
        };
    let b = choose|b: Seq<Option<u64>>|
        #![trigger are_distances(objects, &ray, meet, b)]
        are_distances(objects, &ray, meet, b) && match second {
            Some((k, key, kind)) => is_nearest(b, k as int) && b[k as int] == Some(key)
                && surface.ensures((&objects[k as int], &ray), kind),
            None => escapes(b),
        };
    assert(a =~= b) by {
        assert forall|i: int| 0 <= i < a.len() implies a[i] == b[i] by {
            assert(meet.ensures((&objects[i], &ray), a[i]));
            assert(meet.ensures((&objects[i], &ray), b[i]));
        }
    }
    match (first, second) {
        (Some((k, key, kind)), Some((l, other_key, other_kind))) => {
            lemma_nearest_unique(a, k as int, l as int);
            assert(surface.ensures((&objects[k as int], &ray), kind));
            assert(surface.ensures((&objects[k as int], &ray), other_kind));
        },
        (Some((k, _, _)), None) => {
            assert(a[k as int] is Some);
        },
        (None, Some((l, _, _))) => {
            assert(b[l as int] is Some);
        },
        (None, None) => {},
    }
}

/// With a single-valued geometry two walks from one primary ray agree as
/// far as both go.
proof fn lemma_walks_agree<O, R, M, K, G>(
    objects: Seq<O>,
    meet: &M,
    surface: &K,
    scatter: &G,
    primary: R,
    rays: Seq<R>,
    found: Seq<Found>,
    other_rays: Seq<R>,
    other_found: Seq<Found>,
    i: int,
) where M: Fn(&O, &R) -> Option<u64>, K: Fn(&O, &R) -> Surface, G: Fn(&O, &R, u64) -> R
    requires
        is_single_valued(objects, meet, surface, scatter),
        is_walk(objects, meet, surface, scatter, primary, rays, found),
        is_walk(objects, meet, surface, scatter, primary, other_rays, other_found),
        0 <= i < rays.len(),
        i < other_rays.len(),
    ensures
        rays[i] == other_rays[i],
        found[i] == other_found[i],
    decreases i,
{
    if i > 0 {
        lemma_walks_agree(
            objects,
            meet,
            surface,
            scatter,
            primary,
            rays,
            found,
            other_rays,
            other_found,
            i - 1,
        );
        assert(is_found(objects, meet, surface, &rays[i - 1], found[i - 1]));
        match found[i - 1] {
            Some((k, key, kind)) => {
                assert(surface.ensures((&objects[k as int], &rays[i - 1]), Surface::Diffuse));
                assert(scatter.ensures((&objects[k as int], &rays[i - 1], key), rays[i - 1 + 1]));
                assert(other_found[i - 1] == found[i - 1]);
                assert(scatter.ensures(
                    (&objects[k as int], &other_rays[i - 1], key),
                    other_rays[i - 1 + 1],
                ));
            },
            None => {},
        }
    }
    assert(is_found(objects, meet, surface, &rays[i], found[i]));
    assert(is_found(objects, meet, surface, &other_rays[i], other_found[i]));
    lemma_found_is_unique(objects, meet, surface, scatter, rays[i], found[i], other_found[i]);
}

/// With a single-valued geometry a finished walk is no shorter than
/// another walk from the same primary ray that keeps to the limit.
proof fn lemma_walk_is_no_shorter<O, R, M, K, G>(
    objects: Seq<O>,
    meet: &M,
    surface: &K,
    scatter: &G,
    primary: R,
    max_depth: u16,
    rays: Seq<R>,
    found: Seq<Found>,
    other_rays: Seq<R>,
    other_found: Seq<Found>,
) where M: Fn(&O, &R) -> Option<u64>, K: Fn(&O, &R) -> Surface, G: Fn(&O, &R, u64) -> R
    requires
        is_single_valued(objects, meet, surface, scatter),
        is_walk(objects, meet, surface, scatter, primary, rays, found),
        is_walk(objects, meet, surface, scatter, primary, other_rays, other_found),
        radiance_of(encounters_of(found), max_depth as nat) is Some,
        other_rays.len() <= max_depth,
    ensures
        rays.len() >= other_rays.len(),
{
    let count = rays.len() as int;
    if count < other_rays.len() {
        let encounters = encounters_of(found);
        assert forall|i: int| 0 <= i < count implies encounters[i] == Encounter::Diffuse by {
            lemma_walks_agree(
                objects,
                meet,
                surface,
                scatter,
                primary,
                rays,
                found,
                other_rays,
                other_found,
                i,
            );
            assert(other_found[i] is Some);
        }
        lemma_leading_bounces_count(encounters, count);
    }
}

/// A path is as deterministic as its geometry: with a single-valued
/// geometry a primary ray has one end.
pub proof fn lemma_trace_is_deterministic<O, R, M, K, G>(
    objects: Seq<O>,
    meet: &M,
    surface: &K,
    scatter: &G,
    primary: R,
    max_depth: u16,
    end: (Radiance, R),
    other: (Radiance, R),
) where M: Fn(&O, &R) -> Option<u64>, K: Fn(&O, &R) -> Surface, G: Fn(&O, &R, u64) -> R
    requires
        is_single_valued(objects, meet, surface, scatter),
        is_traced(objects, meet, surface, scatter, primary, max_depth, end),
        is_traced(objects, meet, surface, scatter, primary, max_depth, other),
    ensures
        end == other,
{
    let (rays, found) = choose|rays: Seq<R>, found: Seq<Found>|
        #![trigger is_walk(objects, meet, surface, scatter, primary, rays, found)]
        {
            &&& is_walk(objects, meet, surface, scatter, primary, rays, found)
            &&& rays.len() <= max_depth
            &&& radiance_of(encounters_of(found), max_depth as nat) == Some(end.0)
            &&& end.1 == if rays.len() == 0 {
                primary
            } else {
                rays.last()
            }
        };
    let (other_rays, other_found) = choose|rays: Seq<R>, found: Seq<Found>|
        #![trigger is_walk(objects, meet, surface, scatter, primary, rays, found)]
        {
            &&& is_walk(objects, meet, surface, scatter, primary, rays, found)
            &&& rays.len() <= max_depth
            &&& radiance_of(encounters_of(found), max_depth as nat) == Some(other.0)
            &&& other.1 == if rays.len() == 0 {
                primary
            } else {
                rays.last()
            }
        };
    lemma_walk_is_no_shorter(
        objects,
        meet,
        surface,
        scatter,
        primary,
        max_depth,
        rays,
        found,
        other_rays,
        other_found,
    );
    lemma_walk_is_no_shorter(
        objects,
        meet,
        surface,
        scatter,
        primary,
        max_depth,
        other_rays,
        other_found,
        rays,
        found,
    );
    assert(rays.len() == other_rays.len());
    assert forall|i: int| 0 <= i < rays.len() implies #[trigger] rays[i] == other_rays[i]
        && found[i] == other_found[i] by {
        lemma_walks_agree(
            objects,
            meet,
            surface,
            scatter,
            primary,
            rays,
            found,
            other_rays,
            other_found,
            i,
        );
    }
    assert(rays =~= other_rays);
    assert(found =~= other_found);
}

} // verus!
