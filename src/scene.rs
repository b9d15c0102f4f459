use vstd::prelude::*;

verus! {

/// Some entry of `ids` equals `k`.
pub open spec fn names(ids: Seq<i32>, k: int) -> bool {
    exists|i: int| 0 <= i < ids.len() && ids[i] == k
}

/// `ids` names each of `0 .. ids.len()` exactly once, and nothing else.
pub open spec fn dense_ids(ids: Seq<i32>) -> bool {
    &&& forall|i: int| 0 <= i < ids.len() ==> 0 <= #[trigger] ids[i] < ids.len()
    &&& forall|i: int, j: int| 0 <= i < j < ids.len() ==> ids[i] != ids[j]
    &&& forall|k: int| 0 <= k < ids.len() ==> #[trigger] names(ids, k)
}

/// Orders primitives by identifier. Given the identifier of each primitive,
/// returns `Some(order)` with `order[k]` the position of the primitive whose
/// identifier is `k`, exactly when the identifiers are dense; `None`
/// otherwise.
pub fn order_by_id(ids: &Vec<i32>) -> (r: Option<Vec<usize>>)
    ensures
        r.is_some() == dense_ids(ids@),
        r.is_some() ==> r.unwrap()@.len() == ids@.len(),
        r.is_some() ==> forall|k: int| 0 <= k < ids@.len() ==> {
            let p = #[trigger] r.unwrap()@[k];
            p < ids@.len() && ids@[p as int] == k
        },
{
    let n = ids.len();
    let mut pos: Vec<usize> = Vec::new();
    let mut k: usize = 0;
    while k < n
        invariant
            k <= n,
            n == ids@.len(),
            pos@.len() == k,
            forall|j: int| 0 <= j < k ==> pos@[j] == n,
        decreases n - k,
    {
        pos.push(n);
        k = k + 1;
    }
    let mut i: usize = 0;
    while i < n
        invariant
            i <= n,
            n == ids@.len(),
            pos@.len() == n,
            forall|j: int| 0 <= j < i ==> 0 <= #[trigger] ids@[j] < n,
            forall|a: int, b: int| 0 <= a < b < i ==> ids@[a] != ids@[b],
            forall|m: int| 0 <= m < n ==> (#[trigger] pos@[m] == n || (pos@[m] < i && ids@[pos@[m] as int] == m)),
            forall|m: int| 0 <= m < n && pos@[m] == n ==> forall|j: int| 0 <= j < i ==> ids@[j] != m,
        decreases n - i,
    {
        let id = ids[i];
        if id < 0 || id as usize >= n {
            return None;
        }
        let slot = id as usize;
        if pos[slot] != n {
            proof {
                let p = pos@[slot as int];
                assert(ids@[p as int] == id);
                assert(!(forall|a: int, b: int| 0 <= a < b < ids@.len() ==> ids@[a] != ids@[b]));
            }
            return None;
        }
        pos.set(slot, i);
        i = i + 1;
    }
    let mut m: usize = 0;
    while m < n
        invariant
            m <= n,
            n == ids@.len(),
            pos@.len() == n,
            forall|j: int| 0 <= j < n ==> 0 <= #[trigger] ids@[j] < n,
            forall|m2: int| 0 <= m2 < n ==> (#[trigger] pos@[m2] == n || (pos@[m2] < n && ids@[pos@[m2] as int] == m2)),
            forall|m2: int| 0 <= m2 < n && pos@[m2] == n ==> forall|j: int| 0 <= j < n ==> ids@[j] != m2,
            forall|m2: int| 0 <= m2 < m ==> #[trigger] pos@[m2] != n,
        decreases n - m,
    {
        if pos[m] == n {
            proof {
                assert(forall|j: int| 0 <= j < n ==> ids@[j] != m);
                assert(!names(ids@, m as int));
            }
            return None;
        }
        m = m + 1;
    }
    proof {
        assert forall|k2: int| 0 <= k2 < ids@.len() implies #[trigger] names(ids@, k2) by {
            assert(pos@[k2] != n);
            assert(ids@[pos@[k2] as int] == k2);
        }
    }
    Some(pos)
}

/// The positions, in increasing order, of the emissive primitives.
pub fn light_positions(is_light: &Vec<bool>) -> (r: Vec<usize>)
    ensures
        forall|a: int, b: int| 0 <= a < b < r@.len() ==> r@[a] < r@[b],
        forall|k: int| 0 <= k < r@.len() ==> #[trigger] r@[k] < is_light@.len() && is_light@[r@[k] as int],
        forall|i: int| 0 <= i < is_light@.len() && #[trigger] is_light@[i] ==> r@.contains(i as usize),
{
    let mut r: Vec<usize> = Vec::new();
    let mut i: usize = 0;
    while i < is_light.len()
        invariant
            i <= is_light@.len(),
            forall|a: int, b: int| 0 <= a < b < r@.len() ==> r@[a] < r@[b],
            forall|k: int| 0 <= k < r@.len() ==> #[trigger] r@[k] < i && is_light@[r@[k] as int],
            forall|j: int| 0 <= j < i && #[trigger] is_light@[j] ==> r@.contains(j as usize),
        decreases is_light@.len() - i,
    {
        if is_light[i] {
            let ghost old_r = r@;
            r.push(i);
            proof {
                assert(r@[r@.len() - 1] == i);
                assert forall|j: int| 0 <= j < i + 1 && #[trigger] is_light@[j] implies r@.contains(j as usize) by {
                    if j < i {
                        assert(old_r.contains(j as usize));
                        let w = choose|w: int| 0 <= w < old_r.len() && old_r[w] == j as usize;
                        assert(r@[w] == j as usize);
                    } else {
                        assert(r@[r@.len() - 1] == j as usize);
                    }
                }
            }
        }
        i = i + 1;
    }
    r
}

/// Which light next-event estimation samples.
#[derive(PartialEq, Eq, Structural, Clone, Copy, Debug)]
pub enum LightPick {
    /// The scene has neither emissive primitives nor an environment map.
    Nothing,
    /// The environment map.
    Environment,
    /// The emissive primitive at this position of the light list.
    Primitive(usize),
}

/// Number of candidates among which a light is chosen.
pub open spec fn candidates(n_lights: nat, has_env: bool) -> nat {
    n_lights + if has_env { 1nat } else { 0nat }
}

/// The light that the random number `r` selects: candidate `r mod size`,
/// where the environment map, when present, is the last candidate.
pub open spec fn light_for(r: u32, n_lights: nat, has_env: bool) -> LightPick {
    let size = candidates(n_lights, has_env);
    if size == 0 {
        LightPick::Nothing
    } else if has_env && (r as nat) % size == size - 1 {
        LightPick::Environment
    } else {
        LightPick::Primitive(((r as nat) % size) as usize)
    }
}

/// Chooses a light uniformly among the emissive primitives and the
/// environment map.
pub fn choose_light(r: u32, n_lights: usize, has_env: bool) -> (c: LightPick)
    requires
        n_lights < u64::MAX,
    ensures
        c == light_for(r, n_lights as nat, has_env),
        c matches LightPick::Primitive(i) ==> i < n_lights,
{
    let size: u64 = light_count(n_lights, has_env);
    if size == 0 {
        return LightPick::Nothing;
    }
    let idx: u64 = (r as u64) % size;
    if has_env && idx == size - 1 {
        LightPick::Environment
    } else {
        LightPick::Primitive(idx as usize)
    }
}

/// The number of light candidates; a sampled light's density is divided by it.
pub fn light_count(n_lights: usize, has_env: bool) -> (r: u64)
    requires
        n_lights < u64::MAX,
    ensures
        r == candidates(n_lights as nat, has_env),
{
    if has_env {
        n_lights as u64 + 1
    } else {
        n_lights as u64
    }
}

} // verus!
