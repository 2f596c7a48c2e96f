//! The entity hierarchy model and the scene normalization pass.
//!
//! Freshly loaded assets arrive as subtrees of an entity hierarchy, each
//! root tagged as pending normalization. Once a pending root has resolved
//! children, one pass walks its whole subtree: every descendant's material
//! gets the normal-map-Y-flip convention fix, and every asset-embedded
//! light or camera (anything not owned by the host scene) is despawned
//! together with its subtree. The root's pending tag is then removed, so
//! an already-normalized subtree is never walked again.
//!
//! The hierarchy is an arena: node `i`'s children all have indices below
//! `i` (children are allocated before their parents), which makes the
//! forest acyclic by construction. Despawning marks a subtree dead rather
//! than reusing slots, mirroring deferred entity deletion in the host
//! engine: a pass observes the hierarchy's structure as it stood when the
//! frame began.

use vstd::prelude::*;

verus! {

/// The kind of a light descriptor. The normalizer only cares that a light
/// exists; the kind is carried for the host application's sake.
#[derive(Clone, Copy, Debug, PartialEq, Eq, Structural)]
pub enum LightKind {
    Point,
    Directional,
    Spot,
}

/// A node of the entity hierarchy: its children (all at lower indices),
/// and the descriptors the normalizer reads. `material` indexes the
/// shared material table; `host_owned` marks lights and cameras authored
/// by the host scene rather than embedded in an asset.
pub struct Node {
    pub children: Vec<usize>,
    pub material: Option<usize>,
    pub light: Option<LightKind>,
    pub has_camera: bool,
    pub host_owned: bool,
}

/// The entity hierarchy plus its per-node transient state, kept in
/// columns beside the node descriptors: the pending-normalization tag,
/// liveness (false once despawned), and the frustum-culling opt-out
/// marker.
pub struct Scene {
    pub nodes: Vec<Node>,
    pub pending: Vec<bool>,
    pub alive: Vec<bool>,
    pub culling_disabled: Vec<bool>,
}

/// The shared material table. Several nodes may reference one entry, so
/// setting an entry's normal-map-Y-flip flag is visible through every
/// referencing node at once.
pub struct MaterialTable {
    pub flip_normal_map_y: Vec<bool>,
}

/// Node `i`'s child list is well formed: every child index lies below `i`.
pub open spec fn node_wf(ns: Seq<Node>, i: int) -> bool {
    forall|k: int| 0 <= k < ns[i].children@.len() ==> (#[trigger] ns[i].children@[k]) < i
}

/// The hierarchy is well formed: children always sit at lower indices
/// than their parents, so the child relation is acyclic.
pub open spec fn hier_wf(ns: Seq<Node>) -> bool {
    forall|i: int| 0 <= i < ns.len() ==> #[trigger] node_wf(ns, i)
}

/// The scene's state columns cover exactly its nodes.
pub open spec fn scene_wf(s: Scene) -> bool {
    &&& hier_wf(s.nodes@)
    &&& s.pending@.len() == s.nodes@.len()
    &&& s.alive@.len() == s.nodes@.len()
    &&& s.culling_disabled@.len() == s.nodes@.len()
}

/// Every material reference in the scene points into the table.
pub open spec fn mats_wf(s: Scene, mats: MaterialTable) -> bool {
    forall|i: int|
        0 <= i < s.nodes@.len() ==> ((#[trigger] s.nodes@[i].material) matches Some(m) ==> m
            < mats.flip_normal_map_y@.len())
}

/// The index of node `i`'s `k`-th child, as a mathematical integer.
pub open spec fn kid(ns: Seq<Node>, i: int, k: int) -> int {
    ns[i].children@[k] as int
}

/// Whether node `j` lies in the subtree rooted at node `r` (including
/// `r` itself).
pub open spec fn in_subtree(ns: Seq<Node>, r: int, j: int) -> bool
    decreases r,
        when hier_wf(ns) && 0 <= r < ns.len()
        via in_subtree_decreases
{
    j == r || exists|k: int|
        0 <= k < ns[r].children@.len() && in_subtree(ns, #[trigger] kid(ns, r, k), j)
}

#[via_fn]
proof fn in_subtree_decreases(ns: Seq<Node>, r: int, j: int) {
    assert(node_wf(ns, r));
}

/// Whether node `j` is a strict descendant of node `r`.
pub open spec fn strict_desc(ns: Seq<Node>, r: int, j: int) -> bool {
    in_subtree(ns, r, j) && j != r
}

/// Whether the normalizer deletes node `j` on sight: an asset-embedded
/// light (one not owned by the host), or any camera.
pub open spec fn doomed(ns: Seq<Node>, j: int) -> bool {
    (ns[j].light is Some && !ns[j].host_owned) || ns[j].has_camera
}

/// Whether node `j` references material table entry `m`.
pub open spec fn has_mat(ns: Seq<Node>, j: int, m: int) -> bool {
    ns[j].material matches Some(mm) && mm == m
}

/// Whether some node in the subtree rooted at `c` references entry `m`.
pub open spec fn subtree_has_mat(ns: Seq<Node>, c: int, m: int) -> bool {
    exists|j: int| #[trigger] in_subtree(ns, c, j) && has_mat(ns, j, m)
}

/// Whether processing the subtree rooted at `c` despawns node `j`: some
/// doomed node of `c`'s subtree has `j` in its own subtree.
pub open spec fn kills(ns: Seq<Node>, c: int, j: int) -> bool {
    exists|d: int| #[trigger] in_subtree(ns, c, d) && doomed(ns, d) && in_subtree(ns, d, j)
}

/// Members of `r`'s subtree never have indices above `r` (children sit
/// below their parents).
pub proof fn lemma_subtree_le(ns: Seq<Node>, r: int, j: int)
    requires
        hier_wf(ns),
        0 <= r < ns.len(),
        in_subtree(ns, r, j),
    ensures
        0 <= j <= r,
    decreases r,
{
    if j != r {
        let k = choose|k: int|
            0 <= k < ns[r].children@.len() && in_subtree(ns, #[trigger] kid(ns, r, k), j);
        assert(node_wf(ns, r));
        lemma_subtree_le(ns, kid(ns, r, k), j);
    }
}

/// A node is in its own subtree.
pub proof fn lemma_subtree_refl(ns: Seq<Node>, r: int)
    requires
        hier_wf(ns),
        0 <= r < ns.len(),
    ensures
        in_subtree(ns, r, r),
{
}

/// Strict descendants of `r` are exactly the members of `r`'s children's
/// subtrees.
pub proof fn lemma_strict_desc_unfold(ns: Seq<Node>, r: int, j: int)
    requires
        hier_wf(ns),
        0 <= r < ns.len(),
    ensures
        strict_desc(ns, r, j) <==> exists|k: int|
            0 <= k < ns[r].children@.len() && in_subtree(ns, #[trigger] kid(ns, r, k), j),
{
    assert(node_wf(ns, r));
    if exists|k: int|
        0 <= k < ns[r].children@.len() && in_subtree(ns, #[trigger] kid(ns, r, k), j) {
        let k = choose|k: int|
            0 <= k < ns[r].children@.len() && in_subtree(ns, #[trigger] kid(ns, r, k), j);
        lemma_subtree_le(ns, kid(ns, r, k), j);
        assert(in_subtree(ns, r, j));
    }
}

/// Unfolds `kills` one level: processing `c`'s subtree despawns `j` if
/// `c` itself is doomed and has `j` below it, or if some child subtree
/// already accounts for the kill.
pub proof fn lemma_kills_unfold(ns: Seq<Node>, c: int, j: int)
    requires
        hier_wf(ns),
        0 <= c < ns.len(),
    ensures
        kills(ns, c, j) <==> ((doomed(ns, c) && in_subtree(ns, c, j)) || exists|k: int|
            0 <= k < ns[c].children@.len() && kills(ns, #[trigger] kid(ns, c, k), j)),
{
    assert(node_wf(ns, c));
    if kills(ns, c, j) {
        let d = choose|d: int|
            #[trigger] in_subtree(ns, c, d) && doomed(ns, d) && in_subtree(ns, d, j);
        if d != c {
            let k = choose|k: int|
                0 <= k < ns[c].children@.len() && in_subtree(ns, #[trigger] kid(ns, c, k), d);
            assert(kills(ns, kid(ns, c, k), j));
        }
    }
    if doomed(ns, c) && in_subtree(ns, c, j) {
        assert(in_subtree(ns, c, c));
        assert(kills(ns, c, j));
    }
    if exists|k: int| 0 <= k < ns[c].children@.len() && kills(ns, #[trigger] kid(ns, c, k), j) {
        let k = choose|k: int|
            0 <= k < ns[c].children@.len() && kills(ns, #[trigger] kid(ns, c, k), j);
        let d = choose|d: int|
            #[trigger] in_subtree(ns, kid(ns, c, k), d) && doomed(ns, d) && in_subtree(ns, d, j);
        assert(in_subtree(ns, c, d));
        assert(kills(ns, c, j));
    }
}

/// Unfolds `subtree_has_mat` one level.
pub proof fn lemma_submat_unfold(ns: Seq<Node>, c: int, m: int)
    requires
        hier_wf(ns),
        0 <= c < ns.len(),
    ensures
        subtree_has_mat(ns, c, m) <==> (has_mat(ns, c, m) || exists|k: int|
            0 <= k < ns[c].children@.len() && subtree_has_mat(ns, #[trigger] kid(ns, c, k), m)),
{
    assert(node_wf(ns, c));
    if subtree_has_mat(ns, c, m) {
        let j = choose|j: int| #[trigger] in_subtree(ns, c, j) && has_mat(ns, j, m);
        if j != c {
            let k = choose|k: int|
                0 <= k < ns[c].children@.len() && in_subtree(ns, #[trigger] kid(ns, c, k), j);
            assert(subtree_has_mat(ns, kid(ns, c, k), m));
        }
    }
    if has_mat(ns, c, m) {
        assert(in_subtree(ns, c, c));
        assert(subtree_has_mat(ns, c, m));
    }
    if exists|k: int|
        0 <= k < ns[c].children@.len() && subtree_has_mat(ns, #[trigger] kid(ns, c, k), m) {
        let k = choose|k: int|
            0 <= k < ns[c].children@.len() && subtree_has_mat(ns, #[trigger] kid(ns, c, k), m);
        let j = choose|j: int| #[trigger] in_subtree(ns, kid(ns, c, k), j) && has_mat(ns, j, m);
        assert(in_subtree(ns, c, j));
        assert(subtree_has_mat(ns, c, m));
    }
}

/// Despawns node `i` together with its entire subtree, the model of
/// recursive entity deletion: parents own their children's lifetimes.
fn despawn_subtree(s: &mut Scene, i: usize)
    requires
        scene_wf(*old(s)),
        i < old(s).nodes@.len(),
    ensures
        scene_wf(*final(s)),
        final(s).nodes@ == old(s).nodes@,
        final(s).pending@ == old(s).pending@,
        final(s).culling_disabled@ == old(s).culling_disabled@,
        forall|j: int|
            0 <= j < old(s).nodes@.len() ==> final(s).alive@[j] == (old(s).alive@[j]
                && !in_subtree(old(s).nodes@, i as int, j)),
    decreases i,
{
    let ghost ns = s.nodes@;
    let ghost alive0 = s.alive@;
    let n = s.nodes[i].children.len();
    proof {
        assert(node_wf(ns, i as int));
    }
    for k in 0..n
        invariant
            scene_wf(*s),
            hier_wf(ns),
            i < s.nodes@.len(),
            s.nodes@ == ns,
            alive0.len() == ns.len(),
            s.alive@.len() == ns.len(),
            s.pending@ == old(s).pending@,
            s.culling_disabled@ == old(s).culling_disabled@,
            n == ns[i as int].children@.len(),
            forall|j: int|
                0 <= j < ns.len() ==> (#[trigger] s.alive@[j]) == (alive0[j] && !(exists|kk: int|
                    0 <= kk < k && in_subtree(ns, #[trigger] kid(ns, i as int, kk), j))),
    {
        let c = s.nodes[i].children[k];
        proof {
            assert(node_wf(ns, i as int));
            assert(c as int == kid(ns, i as int, k as int));
        }
        let ghost alive_mid = s.alive@;
        despawn_subtree(s, c);
        proof {
            assert forall|j: int| 0 <= j < ns.len() implies (#[trigger] s.alive@[j]) == (alive0[j]
                && !(exists|kk: int|
                0 <= kk < k + 1 && in_subtree(ns, #[trigger] kid(ns, i as int, kk), j))) by {
                assert(s.alive@[j] == (alive_mid[j] && !in_subtree(ns, c as int, j)));
                assert(alive_mid[j] == (alive0[j] && !(exists|kk: int|
                    0 <= kk < k && in_subtree(ns, #[trigger] kid(ns, i as int, kk), j))));
                if exists|kk: int|
                    0 <= kk < k + 1 && in_subtree(ns, #[trigger] kid(ns, i as int, kk), j) {
                    let kk = choose|kk: int|
                        0 <= kk < k + 1 && in_subtree(ns, #[trigger] kid(ns, i as int, kk), j);
                    if kk < k {
                        assert(exists|kk2: int|
                            0 <= kk2 < k && in_subtree(ns, #[trigger] kid(ns, i as int, kk2), j));
                        assert(!alive_mid[j]);
                    } else {
                        assert(kk == k);
                        assert(in_subtree(ns, c as int, j));
                    }
                    assert(!s.alive@[j]);
                } else {
                    assert(forall|kk: int|
                        0 <= kk < k + 1 ==> !in_subtree(ns, #[trigger] kid(ns, i as int, kk), j));
                    assert(!in_subtree(ns, c as int, j));
                    assert(!(exists|kk: int|
                        0 <= kk < k && in_subtree(ns, #[trigger] kid(ns, i as int, kk), j)));
                    assert(s.alive@[j] == alive0[j]);
                }
            }
        }
    }
    s.alive[i] = false;
    proof {
        assert forall|j: int| 0 <= j < ns.len() implies (#[trigger] s.alive@[j]) == (alive0[j]
            && !in_subtree(ns, i as int, j)) by {
            if j == i as int {
                assert(in_subtree(ns, i as int, j));
                assert(!s.alive@[j]);
            } else {
                assert(s.alive@[j] == (alive0[j] && !(exists|kk: int|
                    0 <= kk < n && in_subtree(ns, #[trigger] kid(ns, i as int, kk), j))));
                assert(in_subtree(ns, i as int, j) <==> (j == i as int || exists|kk: int|
                    0 <= kk < ns[i as int].children@.len() && in_subtree(
                        ns,
                        #[trigger] kid(ns, i as int, kk),
                        j,
                    )));
            }
        }
    }
}

/// Applies the normalization rules to one visited node: set the
/// normal-map-Y-flip convention on its material, then despawn it with its
/// subtree if it carries an asset-embedded light or any camera.
fn proc_node(s: &mut Scene, mats: &mut MaterialTable, c: usize)
    requires
        scene_wf(*old(s)),
        mats_wf(*old(s), *old(mats)),
        c < old(s).nodes@.len(),
    ensures
        scene_wf(*final(s)),
        mats_wf(*final(s), *final(mats)),
        final(s).nodes@ == old(s).nodes@,
        final(s).pending@ == old(s).pending@,
        final(s).culling_disabled@ == old(s).culling_disabled@,
        final(mats).flip_normal_map_y@.len() == old(mats).flip_normal_map_y@.len(),
        forall|m: int|
            0 <= m < old(mats).flip_normal_map_y@.len()
                ==> final(mats).flip_normal_map_y@[m] == (old(mats).flip_normal_map_y@[m]
                || has_mat(old(s).nodes@, c as int, m)),
        forall|j: int|
            0 <= j < old(s).nodes@.len() ==> final(s).alive@[j] == (old(s).alive@[j] && !(doomed(
                old(s).nodes@,
                c as int,
            ) && in_subtree(old(s).nodes@, c as int, j))),
{
    let ghost ns = s.nodes@;
    if let Some(m) = s.nodes[c].material {
        mats.flip_normal_map_y[m] = true;
    }
    let deletable_light = s.nodes[c].light.is_some() && !s.nodes[c].host_owned;
    if deletable_light {
        despawn_subtree(s, c);
    }
    if s.nodes[c].has_camera {
        despawn_subtree(s, c);
    }
}

/// Whether walking node `r`'s subtree flips material entry `m`: some node
/// below `r` (in a child's subtree) references it.
pub open spec fn root_flips(ns: Seq<Node>, r: int, m: int) -> bool {
    exists|k: int|
        0 <= k < ns[r].children@.len() && subtree_has_mat(ns, #[trigger] kid(ns, r, k), m)
}

/// Whether walking node `r`'s subtree despawns node `j`: some doomed node
/// in a child's subtree has `j` below it.
pub open spec fn root_kills(ns: Seq<Node>, r: int, j: int) -> bool {
    exists|k: int| 0 <= k < ns[r].children@.len() && kills(ns, #[trigger] kid(ns, r, k), j)
}

/// `root_flips` in terms of strict descendants: the pass flips exactly
/// the entries referenced by some strict descendant of the root.
pub proof fn lemma_root_flips(ns: Seq<Node>, r: int, m: int)
    requires
        hier_wf(ns),
        0 <= r < ns.len(),
    ensures
        root_flips(ns, r, m) <==> exists|j: int| #[trigger] strict_desc(ns, r, j) && has_mat(ns, j, m),
{
    assert(node_wf(ns, r));
    if root_flips(ns, r, m) {
        let k = choose|k: int|
            0 <= k < ns[r].children@.len() && subtree_has_mat(ns, #[trigger] kid(ns, r, k), m);
        let j = choose|j: int| #[trigger] in_subtree(ns, kid(ns, r, k), j) && has_mat(ns, j, m);
        lemma_strict_desc_unfold(ns, r, j);
        assert(strict_desc(ns, r, j) && has_mat(ns, j, m));
    }
    if exists|j: int| #[trigger] strict_desc(ns, r, j) && has_mat(ns, j, m) {
        let j = choose|j: int| #[trigger] strict_desc(ns, r, j) && has_mat(ns, j, m);
        lemma_strict_desc_unfold(ns, r, j);
        let k = choose|k: int|
            0 <= k < ns[r].children@.len() && in_subtree(ns, #[trigger] kid(ns, r, k), j);
        assert(in_subtree(ns, kid(ns, r, k), j) && has_mat(ns, j, m));
        assert(subtree_has_mat(ns, kid(ns, r, k), m));
    }
}

/// `root_kills` in terms of strict descendants: the pass despawns exactly
/// the subtrees of doomed strict descendants of the root.
pub proof fn lemma_root_kills(ns: Seq<Node>, r: int, j: int)
    requires
        hier_wf(ns),
        0 <= r < ns.len(),
    ensures
        root_kills(ns, r, j) <==> exists|d: int|
            #[trigger] strict_desc(ns, r, d) && doomed(ns, d) && in_subtree(ns, d, j),
{
    assert(node_wf(ns, r));
    if root_kills(ns, r, j) {
        let k = choose|k: int|
            0 <= k < ns[r].children@.len() && kills(ns, #[trigger] kid(ns, r, k), j);
        let d = choose|d: int|
            #[trigger] in_subtree(ns, kid(ns, r, k), d) && doomed(ns, d) && in_subtree(ns, d, j);
        lemma_strict_desc_unfold(ns, r, d);
        assert(strict_desc(ns, r, d) && doomed(ns, d) && in_subtree(ns, d, j));
    }
    if exists|d: int| #[trigger] strict_desc(ns, r, d) && doomed(ns, d) && in_subtree(ns, d, j) {
        let d = choose|d: int|
            #[trigger] strict_desc(ns, r, d) && doomed(ns, d) && in_subtree(ns, d, j);
        lemma_strict_desc_unfold(ns, r, d);
        let k = choose|k: int|
            0 <= k < ns[r].children@.len() && in_subtree(ns, #[trigger] kid(ns, r, k), d);
        assert(in_subtree(ns, kid(ns, r, k), d) && doomed(ns, d) && in_subtree(ns, d, j));
        assert(kills(ns, kid(ns, r, k), j));
    }
}

/// Walks the subtree below node `i` and applies the normalization rules
/// to every strict descendant, recursing into a node's children before
/// the node itself is evaluated for deletion, so a despawn never cuts off
/// unvisited nodes.
pub fn all_children(s: &mut Scene, mats: &mut MaterialTable, i: usize)
    requires
        scene_wf(*old(s)),
        mats_wf(*old(s), *old(mats)),
        i < old(s).nodes@.len(),
    ensures
        scene_wf(*final(s)),
        mats_wf(*final(s), *final(mats)),
        final(s).nodes@ == old(s).nodes@,
        final(s).pending@ == old(s).pending@,
        final(s).culling_disabled@ == old(s).culling_disabled@,
        final(mats).flip_normal_map_y@.len() == old(mats).flip_normal_map_y@.len(),
        forall|m: int|
            0 <= m < old(mats).flip_normal_map_y@.len()
                ==> (#[trigger] final(mats).flip_normal_map_y@[m])
                == (old(mats).flip_normal_map_y@[m] || root_flips(old(s).nodes@, i as int, m)),
        forall|j: int|
            0 <= j < old(s).nodes@.len() ==> (#[trigger] final(s).alive@[j]) == (old(s).alive@[j]
                && !root_kills(old(s).nodes@, i as int, j)),
    decreases i,
{
    let ghost ns = s.nodes@;
    let ghost alive0 = s.alive@;
    let ghost flip0 = mats.flip_normal_map_y@;
    proof {
        assert(node_wf(ns, i as int));
    }
    let n = s.nodes[i].children.len();
    for k in 0..n
        invariant
            scene_wf(*s),
            mats_wf(*s, *mats),
            hier_wf(ns),
            i < ns.len(),
            s.nodes@ == ns,
            alive0.len() == ns.len(),
            s.alive@.len() == ns.len(),
            flip0.len() == mats.flip_normal_map_y@.len(),
            s.pending@ == old(s).pending@,
            s.culling_disabled@ == old(s).culling_disabled@,
            n == ns[i as int].children@.len(),
            forall|m: int|
                0 <= m < flip0.len() ==> (#[trigger] mats.flip_normal_map_y@[m]) == (flip0[m] || (
                exists|kk: int|
                    0 <= kk < k && subtree_has_mat(ns, #[trigger] kid(ns, i as int, kk), m))),
            forall|j: int|
                0 <= j < ns.len() ==> (#[trigger] s.alive@[j]) == (alive0[j] && !(exists|kk: int|
                    0 <= kk < k && kills(ns, #[trigger] kid(ns, i as int, kk), j))),
    {
        let c = s.nodes[i].children[k];
        proof {
            assert(node_wf(ns, i as int));
            assert(c as int == kid(ns, i as int, k as int));
        }
        let ghost alive_in = s.alive@;
        let ghost flip_in = mats.flip_normal_map_y@;
        all_children(s, mats, c);
        let ghost alive_mid = s.alive@;
        let ghost flip_mid = mats.flip_normal_map_y@;
        proc_node(s, mats, c);
        proof {
            assert forall|m: int| 0 <= m < flip0.len() implies (
            #[trigger] mats.flip_normal_map_y@[m]) == (flip0[m] || (exists|kk: int|
                0 <= kk < k + 1 && subtree_has_mat(ns, #[trigger] kid(ns, i as int, kk), m)))
                by {
                lemma_submat_unfold(ns, c as int, m);
                assert(mats.flip_normal_map_y@[m] == (flip_mid[m] || has_mat(ns, c as int, m)));
                assert(flip_mid[m] == (flip_in[m] || (exists|k2: int|
                    0 <= k2 < ns[c as int].children@.len() && subtree_has_mat(
                        ns,
                        #[trigger] kid(ns, c as int, k2),
                        m,
                    ))));
                assert(flip_in[m] == (flip0[m] || (exists|kk: int|
                    0 <= kk < k && subtree_has_mat(ns, #[trigger] kid(ns, i as int, kk), m))));
                assert((exists|kk: int|
                    0 <= kk < k + 1 && subtree_has_mat(ns, #[trigger] kid(ns, i as int, kk), m))
                    <==> ((exists|kk: int|
                    0 <= kk < k && subtree_has_mat(ns, #[trigger] kid(ns, i as int, kk), m))
                    || subtree_has_mat(ns, c as int, m))) by {
                    if exists|kk: int|
                        0 <= kk < k + 1 && subtree_has_mat(
                            ns,
                            #[trigger] kid(ns, i as int, kk),
                            m,
                        ) {
                        let kk = choose|kk: int|
                            0 <= kk < k + 1 && subtree_has_mat(
                                ns,
                                #[trigger] kid(ns, i as int, kk),
                                m,
                            );
                        if kk < k {
                            assert(exists|kk2: int|
                                0 <= kk2 < k && subtree_has_mat(
                                    ns,
                                    #[trigger] kid(ns, i as int, kk2),
                                    m,
                                ));
                        } else {
                            assert(subtree_has_mat(ns, c as int, m));
                        }
                    }
                    if subtree_has_mat(ns, c as int, m) {
                        assert(0 <= k < k + 1 && subtree_has_mat(
                            ns,
                            #[trigger] kid(ns, i as int, k as int),
                            m,
                        ));
                    }
                }
            }
            assert forall|j: int| 0 <= j < ns.len() implies (#[trigger] s.alive@[j]) == (alive0[j]
                && !(exists|kk: int|
                0 <= kk < k + 1 && kills(ns, #[trigger] kid(ns, i as int, kk), j))) by {
                lemma_kills_unfold(ns, c as int, j);
                assert(s.alive@[j] == (alive_mid[j] && !(doomed(ns, c as int) && in_subtree(
                    ns,
                    c as int,
                    j,
                ))));
                assert(alive_mid[j] == (alive_in[j] && !(exists|k2: int|
                    0 <= k2 < ns[c as int].children@.len() && kills(
                        ns,
                        #[trigger] kid(ns, c as int, k2),
                        j,
                    ))));
                assert(alive_in[j] == (alive0[j] && !(exists|kk: int|
                    0 <= kk < k && kills(ns, #[trigger] kid(ns, i as int, kk), j))));
                assert((exists|kk: int|
                    0 <= kk < k + 1 && kills(ns, #[trigger] kid(ns, i as int, kk), j)) <==> ((
                exists|kk: int|
                    0 <= kk < k && kills(ns, #[trigger] kid(ns, i as int, kk), j)) || kills(
                    ns,
                    c as int,
                    j,
                ))) by {
                    if exists|kk: int|
                        0 <= kk < k + 1 && kills(ns, #[trigger] kid(ns, i as int, kk), j) {
                        let kk = choose|kk: int|
                            0 <= kk < k + 1 && kills(ns, #[trigger] kid(ns, i as int, kk), j);
                        if kk < k {
                            assert(exists|kk2: int|
                                0 <= kk2 < k && kills(ns, #[trigger] kid(ns, i as int, kk2), j));
                        } else {
                            assert(kills(ns, c as int, j));
                        }
                    }
                    if kills(ns, c as int, j) {
                        assert(0 <= k < k + 1 && kills(
                            ns,
                            #[trigger] kid(ns, i as int, k as int),
                            j,
                        ));
                    }
                }
            }
        }
    }
}

/// Whether one pass of the normalizer processes root `r`: it carries the
/// pending tag and its children have resolved (the hierarchy is complete
/// enough to walk).
pub open spec fn processed_root(ns: Seq<Node>, pend: Seq<bool>, r: int) -> bool {
    0 <= r < ns.len() && pend[r] && ns[r].children@.len() > 0
}

/// Whether one pass over the whole scene flips material entry `m`: some
/// strict descendant of some processed root references it.
pub open spec fn pass_flips(ns: Seq<Node>, pend: Seq<bool>, m: int) -> bool {
    exists|r: int, j: int|
        processed_root(ns, pend, r) && #[trigger] strict_desc(ns, r, j) && has_mat(ns, j, m)
}

/// Whether one pass over the whole scene despawns node `j`: some doomed
/// strict descendant of some processed root has `j` in its subtree.
pub open spec fn pass_kills(ns: Seq<Node>, pend: Seq<bool>, j: int) -> bool {
    exists|r: int, d: int|
        processed_root(ns, pend, r) && #[trigger] strict_desc(ns, r, d) && doomed(ns, d)
            && in_subtree(ns, d, j)
}

/// What one pass of the normalizer does, as a relation between the state
/// columns before (`pend0`, `alive0`, `flip0`) and after (`pend1`,
/// `alive1`, `flip1`), over the fixed hierarchy `ns`: the pending tag
/// survives exactly on roots whose children have not resolved yet, a node
/// survives exactly if no processed root dooms it, and a material entry
/// is flipped exactly if it was already flipped or some processed subtree
/// references it.
pub open spec fn normalize_post(
    ns: Seq<Node>,
    pend0: Seq<bool>,
    alive0: Seq<bool>,
    flip0: Seq<bool>,
    pend1: Seq<bool>,
    alive1: Seq<bool>,
    flip1: Seq<bool>,
) -> bool {
    &&& pend1.len() == pend0.len()
    &&& alive1.len() == alive0.len()
    &&& flip1.len() == flip0.len()
    &&& forall|r: int|
        0 <= r < pend0.len() ==> (#[trigger] pend1[r]) == (pend0[r] && ns[r].children@.len() == 0)
    &&& forall|j: int|
        0 <= j < alive0.len() ==> (#[trigger] alive1[j]) == (alive0[j] && !pass_kills(
            ns,
            pend0,
            j,
        ))
    &&& forall|m: int|
        0 <= m < flip0.len() ==> (#[trigger] flip1[m]) == (flip0[m] || pass_flips(ns, pend0, m))
}

/// `pass_kills` as the union of the processed roots' own kill sets.
pub proof fn lemma_pass_kills_equiv(ns: Seq<Node>, pend: Seq<bool>, j: int)
    requires
        hier_wf(ns),
    ensures
        pass_kills(ns, pend, j) <==> exists|r: int|
            processed_root(ns, pend, r) && #[trigger] root_kills(ns, r, j),
{
    if pass_kills(ns, pend, j) {
        let (r, d) = choose|r: int, d: int|
            processed_root(ns, pend, r) && #[trigger] strict_desc(ns, r, d) && doomed(ns, d)
                && in_subtree(ns, d, j);
        lemma_root_kills(ns, r, j);
        assert(strict_desc(ns, r, d) && doomed(ns, d) && in_subtree(ns, d, j));
        assert(root_kills(ns, r, j));
    }
    if exists|r: int| processed_root(ns, pend, r) && #[trigger] root_kills(ns, r, j) {
        let r = choose|r: int| processed_root(ns, pend, r) && #[trigger] root_kills(ns, r, j);
        lemma_root_kills(ns, r, j);
        let d = choose|d: int|
            #[trigger] strict_desc(ns, r, d) && doomed(ns, d) && in_subtree(ns, d, j);
        assert(processed_root(ns, pend, r) && strict_desc(ns, r, d) && doomed(ns, d)
            && in_subtree(ns, d, j));
    }
}

/// `pass_flips` as the union of the processed roots' own flip sets.
pub proof fn lemma_pass_flips_equiv(ns: Seq<Node>, pend: Seq<bool>, m: int)
    requires
        hier_wf(ns),
    ensures
        pass_flips(ns, pend, m) <==> exists|r: int|
            processed_root(ns, pend, r) && #[trigger] root_flips(ns, r, m),
{
    if pass_flips(ns, pend, m) {
        let (r, j) = choose|r: int, j: int|
            processed_root(ns, pend, r) && #[trigger] strict_desc(ns, r, j) && has_mat(ns, j, m);
        lemma_root_flips(ns, r, m);
        assert(strict_desc(ns, r, j) && has_mat(ns, j, m));
        assert(root_flips(ns, r, m));
    }
    if exists|r: int| processed_root(ns, pend, r) && #[trigger] root_flips(ns, r, m) {
        let r = choose|r: int| processed_root(ns, pend, r) && #[trigger] root_flips(ns, r, m);
        lemma_root_flips(ns, r, m);
        let j = choose|j: int| #[trigger] strict_desc(ns, r, j) && has_mat(ns, j, m);
        assert(processed_root(ns, pend, r) && strict_desc(ns, r, j) && has_mat(ns, j, m));
    }
}

/// One per-frame pass of the scene normalizer. Every root currently
/// tagged pending whose children have resolved gets its whole subtree
/// walked (materials flipped, asset-embedded lights and cameras despawned
/// with their subtrees) and its tag removed; a pending root whose
/// children have not resolved yet is left untouched, to be retried on a
/// later frame.
pub fn proc_scene(s: &mut Scene, mats: &mut MaterialTable)
    requires
        scene_wf(*old(s)),
        mats_wf(*old(s), *old(mats)),
    ensures
        scene_wf(*final(s)),
        mats_wf(*final(s), *final(mats)),
        final(s).nodes@ == old(s).nodes@,
        final(s).culling_disabled@ == old(s).culling_disabled@,
        normalize_post(
            old(s).nodes@,
            old(s).pending@,
            old(s).alive@,
            old(mats).flip_normal_map_y@,
            final(s).pending@,
            final(s).alive@,
            final(mats).flip_normal_map_y@,
        ),
{
    let ghost ns = s.nodes@;
    let ghost pend0 = s.pending@;
    let ghost alive0 = s.alive@;
    let ghost flip0 = mats.flip_normal_map_y@;
    let n = s.nodes.len();
    for i in 0..n
        invariant
            scene_wf(*s),
            mats_wf(*s, *mats),
            hier_wf(ns),
            s.nodes@ == ns,
            n == ns.len(),
            pend0.len() == ns.len(),
            alive0.len() == ns.len(),
            s.culling_disabled@ == old(s).culling_disabled@,
            flip0.len() == mats.flip_normal_map_y@.len(),
            forall|r: int|
                0 <= r < ns.len() ==> (#[trigger] s.pending@[r]) == (pend0[r] && !(r < i
                    && ns[r].children@.len() > 0)),
            forall|j: int|
                0 <= j < ns.len() ==> (#[trigger] s.alive@[j]) == (alive0[j] && !(exists|r: int|
                    0 <= r < i && processed_root(ns, pend0, r) && #[trigger] root_kills(
                        ns,
                        r,
                        j,
                    ))),
            forall|m: int|
                0 <= m < flip0.len() ==> (#[trigger] mats.flip_normal_map_y@[m]) == (flip0[m] || (
                exists|r: int|
                    0 <= r < i && processed_root(ns, pend0, r) && #[trigger] root_flips(
                        ns,
                        r,
                        m,
                    ))),
    {
        let ghost pend_in = s.pending@;
        let ghost alive_in = s.alive@;
        let ghost flip_in = mats.flip_normal_map_y@;
        let mut processed = false;
        if s.pending[i] {
            if s.nodes[i].children.len() > 0 {
                all_children(s, mats, i);
                s.pending[i] = false;
                processed = true;
            }
        }
        proof {
            assert(pend_in[i as int] == pend0[i as int]);
            assert(processed == processed_root(ns, pend0, i as int));
            assert forall|r: int| 0 <= r < ns.len() implies (#[trigger] s.pending@[r]) == (
            pend0[r] && !(r < i + 1 && ns[r].children@.len() > 0)) by {
                if r == i as int && processed {
                    assert(!s.pending@[r]);
                }
            }
            assert forall|j: int| 0 <= j < ns.len() implies (#[trigger] s.alive@[j]) == (alive0[j]
                && !(exists|r: int|
                0 <= r < i + 1 && processed_root(ns, pend0, r) && #[trigger] root_kills(
                    ns,
                    r,
                    j,
                ))) by {
                if processed {
                    assert(s.alive@[j] == (alive_in[j] && !root_kills(ns, i as int, j)));
                } else {
                    assert(s.alive@[j] == alive_in[j]);
                }
                if exists|r: int|
                    0 <= r < i + 1 && processed_root(ns, pend0, r) && #[trigger] root_kills(
                        ns,
                        r,
                        j,
                    ) {
                    let r = choose|r: int|
                        0 <= r < i + 1 && processed_root(ns, pend0, r) && #[trigger] root_kills(
                            ns,
                            r,
                            j,
                        );
                    if r < i {
                        assert(exists|r2: int|
                            0 <= r2 < i && processed_root(ns, pend0, r2) && #[trigger] root_kills(
                                ns,
                                r2,
                                j,
                            ));
                        assert(!alive_in[j]);
                    } else {
                        assert(r == i as int && processed);
                        assert(!s.alive@[j]);
                    }
                } else {
                    assert(!(exists|r2: int|
                        0 <= r2 < i && processed_root(ns, pend0, r2) && #[trigger] root_kills(
                            ns,
                            r2,
                            j,
                        )));
                    if processed {
                        assert(!root_kills(ns, i as int, j));
                    }
                    assert(s.alive@[j] == alive0[j]);
                }
            }
            assert forall|m: int| 0 <= m < flip0.len() implies (
            #[trigger] mats.flip_normal_map_y@[m]) == (flip0[m] || (exists|r: int|
                0 <= r < i + 1 && processed_root(ns, pend0, r) && #[trigger] root_flips(
                    ns,
                    r,
                    m,
                ))) by {
                if processed {
                    assert(mats.flip_normal_map_y@[m] == (flip_in[m] || root_flips(
                        ns,
                        i as int,
                        m,
                    )));
                } else {
                    assert(mats.flip_normal_map_y@[m] == flip_in[m]);
                }
                if exists|r: int|
                    0 <= r < i + 1 && processed_root(ns, pend0, r) && #[trigger] root_flips(
                        ns,
                        r,
                        m,
                    ) {
                    let r = choose|r: int|
                        0 <= r < i + 1 && processed_root(ns, pend0, r) && #[trigger] root_flips(
                            ns,
                            r,
                            m,
                        );
                    if r < i {
                        assert(exists|r2: int|
                            0 <= r2 < i && processed_root(ns, pend0, r2) && #[trigger] root_flips(
                                ns,
                                r2,
                                m,
                            ));
                        assert(flip_in[m]);
                    } else {
                        assert(r == i as int && processed);
                        assert(mats.flip_normal_map_y@[m]);
                    }
                } else {
                    assert(!(exists|r2: int|
                        0 <= r2 < i && processed_root(ns, pend0, r2) && #[trigger] root_flips(
                            ns,
                            r2,
                            m,
                        )));
                    if processed {
                        assert(!root_flips(ns, i as int, m));
                    }
                    assert(mats.flip_normal_map_y@[m] == flip0[m]);
                }
            }
        }
    }
    proof {
        assert forall|j: int| 0 <= j < ns.len() implies (#[trigger] s.alive@[j]) == (alive0[j]
            && !pass_kills(ns, pend0, j)) by {
            lemma_pass_kills_equiv(ns, pend0, j);
        }
        assert forall|m: int| 0 <= m < flip0.len() implies (#[trigger] mats.flip_normal_map_y@[m])
            == (flip0[m] || pass_flips(ns, pend0, m)) by {
            lemma_pass_flips_equiv(ns, pend0, m);
        }
    }
}

/// Marks every node that renders a material as exempt from frustum
/// culling (the viewer's opt-out for measuring raw draw cost).
pub fn add_no_frustum_culling(s: &mut Scene)
    requires
        scene_wf(*old(s)),
    ensures
        scene_wf(*final(s)),
        final(s).nodes@ == old(s).nodes@,
        final(s).pending@ == old(s).pending@,
        final(s).alive@ == old(s).alive@,
        forall|i: int|
            0 <= i < old(s).nodes@.len() ==> (#[trigger] final(s).culling_disabled@[i]) == (old(
                s,
            ).culling_disabled@[i] || old(s).nodes@[i].material is Some),
{
    let ghost ns = s.nodes@;
    let ghost cd0 = s.culling_disabled@;
    let n = s.nodes.len();
    for i in 0..n
        invariant
            scene_wf(*s),
            s.nodes@ == ns,
            n == ns.len(),
            s.pending@ == old(s).pending@,
            s.alive@ == old(s).alive@,
            cd0.len() == ns.len(),
            forall|t: int|
                0 <= t < ns.len() ==> (#[trigger] s.culling_disabled@[t]) == (cd0[t] || (t < i
                    && ns[t].material is Some)),
    {
        if s.nodes[i].material.is_some() && !s.culling_disabled[i] {
            s.culling_disabled[i] = true;
        }
    }
}

impl Scene {
    /// An empty hierarchy.
    pub fn new() -> (s: Scene)
        ensures
            scene_wf(s),
            s.nodes@.len() == 0,
    {
        Scene { nodes: Vec::new(), pending: Vec::new(), alive: Vec::new(), culling_disabled: Vec::new() }
    }

    /// The number of nodes ever spawned (despawned slots included).
    pub fn len(&self) -> (n: usize)
        ensures
            n == self.nodes@.len(),
    {
        self.nodes.len()
    }

    /// Spawns a node whose children have all been spawned before it (the
    /// arena order that keeps the hierarchy acyclic) and returns its
    /// index. The node starts alive; `pending` tags it as a
    /// freshly-loaded root awaiting normalization.
    pub fn add_node(
        &mut self,
        children: Vec<usize>,
        material: Option<usize>,
        light: Option<LightKind>,
        has_camera: bool,
        host_owned: bool,
        pending: bool,
    ) -> (idx: usize)
        requires
            scene_wf(*old(self)),
            forall|k: int|
                0 <= k < children@.len() ==> (#[trigger] children@[k]) < old(self).nodes@.len(),
        ensures
            scene_wf(*final(self)),
            idx == old(self).nodes@.len(),
            final(self).nodes@ == old(self).nodes@.push(
                Node { children, material, light, has_camera, host_owned },
            ),
            final(self).pending@ == old(self).pending@.push(pending),
            final(self).alive@ == old(self).alive@.push(true),
            final(self).culling_disabled@ == old(self).culling_disabled@.push(false),
    {
        let idx = self.nodes.len();
        let ghost ns0 = self.nodes@;
        self.nodes.push(Node { children, material, light, has_camera, host_owned });
        self.pending.push(pending);
        self.alive.push(true);
        self.culling_disabled.push(false);
        proof {
            let ns1 = self.nodes@;
            assert forall|i: int| 0 <= i < ns1.len() implies #[trigger] node_wf(ns1, i) by {
                if i < ns0.len() {
                    assert(node_wf(ns0, i));
                    assert(ns1[i] == ns0[i]);
                }
            }
        }
        idx
    }
}

impl MaterialTable {
    /// A table of `n` materials, none of them flipped yet.
    pub fn with_materials(n: usize) -> (t: MaterialTable)
        ensures
            t.flip_normal_map_y@.len() == n,
            forall|m: int| 0 <= m < n ==> !(#[trigger] t.flip_normal_map_y@[m]),
    {
        let mut v: Vec<bool> = Vec::new();
        for i in 0..n
            invariant
                v@.len() == i,
                forall|m: int| 0 <= m < i ==> !(#[trigger] v@[m]),
        {
            v.push(false);
        }
        MaterialTable { flip_normal_map_y: v }
    }
}

/// After a pass processes a pending root with resolved children, no
/// surviving strict descendant of that root carries an asset-embedded
/// light (a light without host ownership), and none carries a camera.
pub proof fn lemma_normalized_clean(
    ns: Seq<Node>,
    pend0: Seq<bool>,
    alive0: Seq<bool>,
    flip0: Seq<bool>,
    pend1: Seq<bool>,
    alive1: Seq<bool>,
    flip1: Seq<bool>,
    r: int,
    j: int,
)
    requires
        hier_wf(ns),
        pend0.len() == ns.len(),
        alive0.len() == ns.len(),
        normalize_post(ns, pend0, alive0, flip0, pend1, alive1, flip1),
        processed_root(ns, pend0, r),
        strict_desc(ns, r, j),
        alive1[j],
    ensures
        !(ns[j].light is Some && !ns[j].host_owned),
        !ns[j].has_camera,
{
    lemma_subtree_le(ns, r, j);
    if doomed(ns, j) {
        lemma_subtree_refl(ns, j);
        assert(processed_root(ns, pend0, r) && strict_desc(ns, r, j) && doomed(ns, j)
            && in_subtree(ns, j, j));
        assert(pass_kills(ns, pend0, j));
        assert(!alive1[j]);
    }
}

/// Normalization is idempotent: a second pass over an already-normalized
/// scene despawns nothing further, flips no further material entry, and
/// leaves every pending tag as it was.
pub proof fn lemma_normalize_idempotent(
    ns: Seq<Node>,
    pend0: Seq<bool>,
    alive0: Seq<bool>,
    flip0: Seq<bool>,
    pend1: Seq<bool>,
    alive1: Seq<bool>,
    flip1: Seq<bool>,
    pend2: Seq<bool>,
    alive2: Seq<bool>,
    flip2: Seq<bool>,
)
    requires
        hier_wf(ns),
        pend0.len() == ns.len(),
        normalize_post(ns, pend0, alive0, flip0, pend1, alive1, flip1),
        normalize_post(ns, pend1, alive1, flip1, pend2, alive2, flip2),
    ensures
        pend2 == pend1,
        alive2 == alive1,
        flip2 == flip1,
{
    assert forall|r: int| !processed_root(ns, pend1, r) by {
        if processed_root(ns, pend1, r) {
            assert(pend1[r] == (pend0[r] && ns[r].children@.len() == 0));
        }
    }
    assert forall|j: int| 0 <= j < alive1.len() implies alive2[j] == alive1[j] by {
        if pass_kills(ns, pend1, j) {
            let (r, d) = choose|r: int, d: int|
                processed_root(ns, pend1, r) && #[trigger] strict_desc(ns, r, d) && doomed(ns, d)
                    && in_subtree(ns, d, j);
            assert(false);
        }
    }
    assert forall|m: int| 0 <= m < flip1.len() implies flip2[m] == flip1[m] by {
        if pass_flips(ns, pend1, m) {
            let (r, j) = choose|r: int, j: int|
                processed_root(ns, pend1, r) && #[trigger] strict_desc(ns, r, j) && has_mat(
                    ns,
                    j,
                    m,
                );
            assert(false);
        }
    }
    assert forall|r: int| 0 <= r < pend1.len() implies pend2[r] == pend1[r] by {
        assert(pend1[r] == (pend0[r] && ns[r].children@.len() == 0));
        assert(pend2[r] == (pend1[r] && ns[r].children@.len() == 0));
    }
    assert(pend2 =~= pend1);
    assert(alive2 =~= alive1);
    assert(flip2 =~= flip1);
}

/// Material state is shared: when a pass flips the entry referenced by a
/// processed descendant `j`, every node `j2` referencing the same entry
/// `m` observes the flipped flag afterwards, wherever `j2` stands.
pub proof fn lemma_shared_material_flip(
    ns: Seq<Node>,
    pend0: Seq<bool>,
    alive0: Seq<bool>,
    flip0: Seq<bool>,
    pend1: Seq<bool>,
    alive1: Seq<bool>,
    flip1: Seq<bool>,
    r: int,
    j: int,
    j2: int,
    m: int,
)
    requires
        hier_wf(ns),
        pend0.len() == ns.len(),
        0 <= m < flip0.len(),
        normalize_post(ns, pend0, alive0, flip0, pend1, alive1, flip1),
        processed_root(ns, pend0, r),
        strict_desc(ns, r, j),
        has_mat(ns, j, m),
        has_mat(ns, j2, m),
    ensures
        flip1[m],
{
    assert(processed_root(ns, pend0, r) && strict_desc(ns, r, j) && has_mat(ns, j, m));
    assert(pass_flips(ns, pend0, m));
}

/// A host-owned light survives a pass unconditionally, as long as it
/// does not sit inside the subtree of some node the pass deletes (an
/// asset-embedded light's or a camera's subtree is removed whole,
/// whatever it contains).
pub proof fn lemma_host_light_survives(
    ns: Seq<Node>,
    pend0: Seq<bool>,
    alive0: Seq<bool>,
    flip0: Seq<bool>,
    pend1: Seq<bool>,
    alive1: Seq<bool>,
    flip1: Seq<bool>,
    j: int,
)
    requires
        hier_wf(ns),
        pend0.len() == ns.len(),
        alive0.len() == ns.len(),
        0 <= j < ns.len(),
        normalize_post(ns, pend0, alive0, flip0, pend1, alive1, flip1),
        alive0[j],
        ns[j].light is Some,
        ns[j].host_owned,
        forall|d: int| 0 <= d < ns.len() && doomed(ns, d) ==> !(#[trigger] in_subtree(ns, d, j)),
    ensures
        alive1[j],
{
    if pass_kills(ns, pend0, j) {
        let (r, d) = choose|r: int, d: int|
            processed_root(ns, pend0, r) && #[trigger] strict_desc(ns, r, d) && doomed(ns, d)
                && in_subtree(ns, d, j);
        lemma_subtree_le(ns, r, d);
        assert(false);
    }
}

/// When the asset loader has not attached a root's children yet, the
/// pass defers: the pending tag is still present afterwards, to be
/// retried on a later frame.
pub proof fn lemma_incomplete_root_defers(
    ns: Seq<Node>,
    pend0: Seq<bool>,
    alive0: Seq<bool>,
    flip0: Seq<bool>,
    pend1: Seq<bool>,
    alive1: Seq<bool>,
    flip1: Seq<bool>,
    r: int,
)
    requires
        pend0.len() == ns.len(),
        0 <= r < ns.len(),
        normalize_post(ns, pend0, alive0, flip0, pend1, alive1, flip1),
        pend0[r],
        ns[r].children@.len() == 0,
    ensures
        pend1[r],
{
}

} // verus!
